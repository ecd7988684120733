//! Blocks: a set of transactions applied on top of the previous block's
//! balances, with a proof of work.
use vstd::prelude::*;
use crate::json::{
    dec_int, dec_nat, json_join, json_opt_str, json_str, opt_view, push_i64, push_json_opt_str,
    push_json_str, push_u64,
};
use crate::strmap::{
    alist_contains, alist_get, alist_index, alist_set, lemma_alist_index, StrMap, ViewClone,
};
use crate::text::{chars_of, push_str, string_from_chars};
use crate::transaction::{
    fits_i32, json_tx, lemma_join_step, push_tx_json, spec_total_output, spec_valid_signature,
    total_output_fits, transaction, valid_signature_safe, TxModel,
};
use crate::utils::{hash, hex_digits, spec_hash};

verus! {

/// What a block holds.
#[verifier::ext_equal]
pub struct BlockModel {
    pub prevBlockHash: Option<Seq<char>>,
    pub target: u64,
    pub balances: Seq<(Seq<char>, i32)>,
    pub nextNonce: Seq<(Seq<char>, i32)>,
    pub transactions: Seq<(Seq<char>, TxModel)>,
    pub chainLength: i32,
    pub timestamp: i64,
    pub rewardAddr: Option<Seq<char>>,
    pub coinbaseReward: i32,
    pub proof: i32,
    pub id: Seq<char>,
}

#[derive(Clone)]
pub struct block {
    pub prevBlockHash: Option<String>,
    pub target: u64,
    pub balances: StrMap<i32>,
    pub nextNonce: StrMap<i32>,
    pub transactions: StrMap<transaction>,
    pub chainLength: i32,
    pub timestamp: i64,
    pub rewardAddr: Option<String>,
    pub coinbaseReward: i32,
    pub proof: i32,
    pub id: String,
}

impl View for block {
    type V = BlockModel;

    open spec fn view(&self) -> BlockModel {
        BlockModel {
            prevBlockHash: opt_view(self.prevBlockHash),
            target: self.target,
            balances: self.balances@,
            nextNonce: self.nextNonce@,
            transactions: self.transactions@,
            chainLength: self.chainLength,
            timestamp: self.timestamp,
            rewardAddr: opt_view(self.rewardAddr),
            coinbaseReward: self.coinbaseReward,
            proof: self.proof,
            id: self.id@,
        }
    }
}

/// The value of `k`, or 0 where `k` is not a key.
pub open spec fn get_or_zero(s: Seq<(Seq<char>, i32)>, k: Seq<char>) -> i32 {
    match alist_get(s, k) {
        Some(v) => v,
        None => 0,
    }
}

/// The sum of the fees of the transactions.
pub open spec fn fees_sum(txs: Seq<(Seq<char>, TxModel)>) -> int
    decreases txs.len(),
{
    if txs.len() == 0 {
        0
    } else {
        fees_sum(txs.drop_last()) + txs.last().1.fee
    }
}

/// Adding the fees one by one to the coinbase reward never leaves `i32`.
pub open spec fn rewards_fit(b: BlockModel) -> bool {
    forall|k: int|
        1 <= k <= b.transactions.len() ==> fits_i32(
            b.coinbaseReward + #[trigger] fees_sum(b.transactions.take(k)),
        )
}

/// The coinbase reward plus every fee.
pub open spec fn spec_total_rewards(b: BlockModel) -> int {
    b.coinbaseReward + fees_sum(b.transactions)
}

/// One `"key":value` member of a JSON object of integers.
pub open spec fn json_int_member(p: (Seq<char>, i32)) -> Seq<char> {
    json_str(p.0) + seq![':'] + dec_int(p.1 as int)
}

/// A JSON object of integers.
pub open spec fn json_int_object(s: Seq<(Seq<char>, i32)>) -> Seq<char> {
    seq!['{'] + json_join(Seq::new(s.len(), |i: int| json_int_member(s[i]))) + seq!['}']
}

/// One `"id":transaction` member.
pub open spec fn json_tx_member(p: (Seq<char>, TxModel)) -> Seq<char> {
    json_str(p.0) + seq![':'] + json_tx(p.1)
}

/// A JSON object of transactions.
pub open spec fn json_tx_object(s: Seq<(Seq<char>, TxModel)>) -> Seq<char> {
    seq!['{'] + json_join(Seq::new(s.len(), |i: int| json_tx_member(s[i]))) + seq!['}']
}

/// The JSON text of a block.
#[verifier::opaque]
pub open spec fn json_block(b: BlockModel) -> Seq<char> {
    "{\"prevBlockHash\":"@ + json_opt_str(b.prevBlockHash) + ",\"target\":"@ + dec_nat(
        b.target as nat,
    ) + ",\"balances\":"@ + json_int_object(b.balances) + ",\"nextNonce\":"@ + json_int_object(
        b.nextNonce,
    ) + ",\"transactions\":"@ + json_tx_object(b.transactions) + ",\"chainLength\":"@ + dec_int(
        b.chainLength as int,
    ) + ",\"timestamp\":"@ + dec_int(b.timestamp as int) + ",\"rewardAddr\":"@ + json_opt_str(
        b.rewardAddr,
    ) + ",\"coinbaseReward\":"@ + dec_int(b.coinbaseReward as int) + ",\"proof\":"@ + dec_int(
        b.proof as int,
    ) + ",\"id\":"@ + json_str(b.id) + "}"@
}

/// The value of a hex digit (of either case).
pub open spec fn hex_digit_value(c: char) -> int {
    if '0' <= c <= '9' {
        c as int - '0' as int
    } else if 'a' <= c <= 'f' {
        c as int - 'a' as int + 10
    } else {
        c as int - 'A' as int + 10
    }
}

/// The number that the hex digits `s` write.
pub open spec fn hex_value(s: Seq<char>) -> nat
    decreases s.len(),
{
    if s.len() == 0 {
        0
    } else {
        (hex_value(s.drop_last()) * 16 + hex_digit_value(s.last())) as nat
    }
}

/// A block's proof is valid when the number written by the first ten digits of
/// the hash of its JSON text, read in base 16, is below its target.
pub open spec fn spec_has_valid_proof(b: BlockModel) -> bool {
    hex_value(spec_hash(json_block(b)).take(10)) < b.target
}


/// The balances after crediting each output in turn, or `None` where a balance
/// would leave `i32`.
pub open spec fn credit_outputs(bal: Seq<(Seq<char>, i32)>, outs: Seq<(Seq<char>, i32)>) -> Option<
    Seq<(Seq<char>, i32)>,
>
    decreases outs.len(),
{
    if outs.len() == 0 {
        Some(bal)
    } else {
        match credit_outputs(bal, outs.drop_last()) {
            None => None,
            Some(b) => {
                let v = outs.last().1 + get_or_zero(b, outs.last().0);
                if fits_i32(v) {
                    Some(alist_set(b, outs.last().0, v as i32))
                } else {
                    None
                }
            },
        }
    }
}

/// What `addTransaction` does to a block, and what it returns; `None` where it
/// panics (a signature that cannot be split, a sender without a balance, or an
/// overflow). A transaction is refused, leaving the block as it was, when its
/// id is taken, it is unsigned, its signature is invalid, the sender cannot
/// cover it, or its nonce is not the sender's next nonce.
pub open spec fn add_tx_outcome(b: BlockModel, t: TxModel) -> Option<(BlockModel, bool)> {
    if alist_contains(b.transactions, t.id) {
        Some((b, false))
    } else if t.sig is None {
        Some((b, false))
    } else if !valid_signature_safe(t) {
        None
    } else if !spec_valid_signature(t) {
        Some((b, false))
    } else if !total_output_fits(t) || !alist_contains(b.balances, t.from) {
        None
    } else if spec_total_output(t) > alist_get(b.balances, t.from).unwrap() {
        Some((b, false))
    } else {
        let nonce = get_or_zero(b.nextNonce, t.from);
        if t.nonce != nonce {
            Some((b, false))
        } else if nonce == i32::MAX {
            None
        } else {
            let sender = get_or_zero(b.balances, t.from) - spec_total_output(t);
            if !fits_i32(sender) {
                None
            } else {
                match credit_outputs(alist_set(b.balances, t.from, sender as i32), t.outputs) {
                    None => None,
                    Some(bal) => Some(
                        (
                            BlockModel {
                                balances: bal,
                                nextNonce: alist_set(b.nextNonce, t.from, (nonce + 1) as i32),
                                transactions: alist_set(b.transactions, t.id, t),
                                ..b
                            },
                            true,
                        ),
                    ),
                }
            }
        }
    }
}

/// Why a block refuses a transaction: the first check that fails.
#[derive(Clone, Copy, Debug, PartialEq, Eq, Structural)]
pub enum TxRefusal {
    /// The block holds a transaction with the same id already.
    Duplicate,
    /// The transaction carries no signature.
    Unsigned,
    /// The signature or the sender's address does not match the key.
    InvalidSignature,
    /// The sender's balance does not cover the outputs and the fee.
    InsufficientGold,
    /// The nonce is below the sender's next nonce.
    Replayed,
    /// The nonce is above the sender's next nonce.
    OutOfOrder,
}

/// Why `addTransaction` refuses `t` on `b`, checked in order; `None` where it
/// accepts it. (Where it panics, see `add_tx_outcome`, this says nothing.)
pub open spec fn tx_refusal(b: BlockModel, t: TxModel) -> Option<TxRefusal> {
    if alist_contains(b.transactions, t.id) {
        Some(TxRefusal::Duplicate)
    } else if t.sig is None {
        Some(TxRefusal::Unsigned)
    } else if !spec_valid_signature(t) {
        Some(TxRefusal::InvalidSignature)
    } else if spec_total_output(t) > alist_get(b.balances, t.from).unwrap() {
        Some(TxRefusal::InsufficientGold)
    } else if t.nonce < get_or_zero(b.nextNonce, t.from) {
        Some(TxRefusal::Replayed)
    } else if t.nonce > get_or_zero(b.nextNonce, t.from) {
        Some(TxRefusal::OutOfOrder)
    } else {
        None
    }
}

/// A transaction is accepted exactly where no check refuses it.
pub proof fn law_refusal_reason_matches_outcome(b: BlockModel, t: TxModel)
    ensures
        add_tx_outcome(b, t) matches Some(p) ==> (p.1 <==> tx_refusal(b, t) is None),
{
}

/// A prefix that overflows makes the whole list overflow.
proof fn lemma_credit_none(bal: Seq<(Seq<char>, i32)>, outs: Seq<(Seq<char>, i32)>, k: int)
    requires
        0 <= k <= outs.len(),
        credit_outputs(bal, outs.take(k)) is None,
    ensures
        credit_outputs(bal, outs) is None,
    decreases outs.len() - k,
{
    if k == outs.len() {
        assert(outs.take(k) =~= outs);
    } else {
        assert(outs.drop_last().take(k) =~= outs.take(k));
        lemma_credit_none(bal, outs.drop_last(), k);
    }
}


/// The balances of `p` after its winner (its reward address) is paid: the
/// winner's balance becomes its balance plus `p`'s total rewards (coinbase
/// and fees); `None` where that overflows.
pub open spec fn reward_outcome(p: BlockModel) -> Option<Seq<(Seq<char>, i32)>> {
    match p.rewardAddr {
        None => Some(p.balances),
        Some(r) => {
            let w = get_or_zero(p.balances, r);
            if !rewards_fit(p) {
                None
            } else if !fits_i32(w + spec_total_rewards(p)) {
                None
            } else {
                Some(alist_set(p.balances, r, (w + spec_total_rewards(p)) as i32))
            }
        },
    }
}

/// Applies the transactions in order, stopping at the first refused one;
/// `None` where one of them panics.
pub open spec fn replay(s: BlockModel, txs: Seq<(Seq<char>, TxModel)>) -> Option<(BlockModel, bool)>
    decreases txs.len(),
{
    if txs.len() == 0 {
        Some((s, true))
    } else {
        match replay(s, txs.drop_last()) {
            None => None,
            Some(r) => if !r.1 {
                Some(r)
            } else {
                add_tx_outcome(r.0, txs.last().1)
            },
        }
    }
}

/// What `rerun` does to a block and returns: the block starts again from
/// `prev`'s balances (with `prev`'s winner paid as in `reward_outcome`) and
/// nonces, with no transactions,
/// and its transactions are applied again in order.
pub open spec fn rerun_outcome(b: BlockModel, prev: BlockModel) -> Option<(BlockModel, bool)> {
    match reward_outcome(prev) {
        None => None,
        Some(bal) => replay(
            BlockModel {
                balances: bal,
                nextNonce: prev.nextNonce,
                transactions: Seq::empty(),
                ..b
            },
            b.transactions,
        ),
    }
}

/// Once a prefix stops (refused or panicking), the whole list ends the same way.
proof fn lemma_replay_stops(s: BlockModel, txs: Seq<(Seq<char>, TxModel)>, k: int)
    requires
        0 <= k <= txs.len(),
        replay(s, txs.take(k)) matches Some(r) ==> !r.1,
    ensures
        replay(s, txs) == replay(s, txs.take(k)),
    decreases txs.len() - k,
{
    if k == txs.len() {
        assert(txs.take(k) =~= txs);
    } else {
        assert(txs.drop_last().take(k) =~= txs.take(k));
        lemma_replay_stops(s, txs.drop_last(), k);
    }
}

/// The model of an optional block.
pub open spec fn opt_block_view(o: Option<block>) -> Option<BlockModel> {
    match o {
        Some(b) => Some(b@),
        None => None,
    }
}

/// `block::new` runs without a panic on this previous block.
pub open spec fn new_block_defined(prev: Option<BlockModel>) -> bool {
    match prev {
        None => true,
        Some(p) => reward_outcome(p) is Some && fits_i32(p.chainLength + 1),
    }
}

/// The block before its id is set.
pub open spec fn new_block_unsealed(
    rewardAddr: Option<Seq<char>>,
    prev: Option<BlockModel>,
    target: u64,
    coinbaseReward: i32,
    timestamp: i64,
) -> BlockModel {
    BlockModel {
        prevBlockHash: match prev {
            Some(p) => Some(p.id),
            None => None,
        },
        target,
        balances: match prev {
            Some(p) => reward_outcome(p).unwrap(),
            None => Seq::empty(),
        },
        nextNonce: match prev {
            Some(p) => p.nextNonce,
            None => Seq::empty(),
        },
        transactions: Seq::empty(),
        chainLength: match prev {
            Some(p) => (p.chainLength + 1) as i32,
            None => 0,
        },
        timestamp,
        rewardAddr,
        coinbaseReward,
        proof: 0,
        id: Seq::empty(),
    }
}

/// A new block on top of `prev`: it links to `prev`'s id, takes over its
/// balances (paying `prev`'s winner its balance plus `prev`'s total rewards,
/// see `reward_outcome`) and nonces, has no transactions, is one
/// longer, and is identified by the hash of `blk ` and its JSON text with an
/// empty id.
pub open spec fn spec_new_block(
    rewardAddr: Option<Seq<char>>,
    prev: Option<BlockModel>,
    target: u64,
    coinbaseReward: i32,
    timestamp: i64,
) -> BlockModel {
    let b0 = new_block_unsealed(rewardAddr, prev, target, coinbaseReward, timestamp);
    BlockModel { id: spec_hash("blk "@ + json_block(b0)), ..b0 }
}

/// The current time, in seconds since the Unix epoch: chrono's
/// `Utc::now().timestamp()`. Nothing is stated of the value.
#[verifier::external_body]
pub(crate) fn now_timestamp() -> (res: i64) {
    chrono::offset::Utc::now().timestamp()
}

/// `prev`'s balances with its reward credited, or `None` where that overflows.
fn rewarded_balances(prev: &block) -> (res: Option<StrMap<i32>>)
    ensures
        match res {
            Some(m) => reward_outcome(prev@) == Some(m@),
            None => reward_outcome(prev@) is None,
        },
{
    match &prev.rewardAddr {
        None => Some(prev.balances.clone_map()),
        Some(r) => {
            let w = prev.balanceOf(r.as_str());
            let t = match prev.checkedTotalRewards() {
                None => return None,
                Some(t) => t,
            };
            let s: i64 = w as i64 + t as i64;
            if s < i32::MIN as i64 || s > i32::MAX as i64 {
                return None;
            }
            let mut bal = prev.balances.clone_map();
            bal.insert(r.clone(), s as i32);
            Some(bal)
        },
    }
}

/// Appends the JSON object of integers.
fn push_int_object(out: &mut Vec<char>, m: &StrMap<i32>)
    ensures
        final(out)@ == old(out)@ + json_int_object(m@),
{
    let ghost items = Seq::new(m@.len(), |i: int| json_int_member(m@[i]));
    let ghost start = out@;
    out.push('{');
    let n = m.len();
    for i in 0..n
        invariant
            n == m@.len(),
            items == Seq::new(m@.len(), |i: int| json_int_member(m@[i])),
            out@ == start + seq!['{'] + json_join(items.take(i as int)),
    {
        proof {
            lemma_join_step(items, i as int);
        }
        if i > 0 {
            out.push(',');
        }
        push_json_str(out, m.key_at(i).as_str());
        out.push(':');
        push_i64(out, *m.val_at(i) as i64);
        assert(out@ =~= start + seq!['{'] + json_join(items.take(i + 1)));
    }
    out.push('}');
    assert(items.take(n as int) =~= items);
    assert(out@ =~= start + json_int_object(m@));
}

/// Appends the JSON object of transactions.
fn push_tx_object(out: &mut Vec<char>, m: &StrMap<transaction>)
    ensures
        final(out)@ == old(out)@ + json_tx_object(m@),
{
    let ghost items = Seq::new(m@.len(), |i: int| json_tx_member(m@[i]));
    let ghost start = out@;
    out.push('{');
    let n = m.len();
    for i in 0..n
        invariant
            n == m@.len(),
            items == Seq::new(m@.len(), |i: int| json_tx_member(m@[i])),
            out@ == start + seq!['{'] + json_join(items.take(i as int)),
    {
        proof {
            lemma_join_step(items, i as int);
        }
        if i > 0 {
            out.push(',');
        }
        push_json_str(out, m.key_at(i).as_str());
        out.push(':');
        push_tx_json(out, m.val_at(i));
        assert(out@ =~= start + seq!['{'] + json_join(items.take(i + 1)));
    }
    out.push('}');
    assert(items.take(n as int) =~= items);
    assert(out@ =~= start + json_tx_object(m@));
}

/// The JSON text of `b`, as characters.
fn block_json_chars(b: &block) -> (res: Vec<char>)
    ensures
        res@ == json_block(b@),
{
    let mut out: Vec<char> = Vec::new();
    push_str(&mut out, "{\"prevBlockHash\":");
    assert(out@ =~= "{\"prevBlockHash\":"@);
    push_json_opt_str(&mut out, &b.prevBlockHash);
    push_str(&mut out, ",\"target\":");
    push_u64(&mut out, b.target);
    push_str(&mut out, ",\"balances\":");
    push_int_object(&mut out, &b.balances);
    push_str(&mut out, ",\"nextNonce\":");
    push_int_object(&mut out, &b.nextNonce);
    push_str(&mut out, ",\"transactions\":");
    push_tx_object(&mut out, &b.transactions);
    push_str(&mut out, ",\"chainLength\":");
    push_i64(&mut out, b.chainLength as i64);
    push_str(&mut out, ",\"timestamp\":");
    push_i64(&mut out, b.timestamp);
    push_str(&mut out, ",\"rewardAddr\":");
    push_json_opt_str(&mut out, &b.rewardAddr);
    push_str(&mut out, ",\"coinbaseReward\":");
    push_i64(&mut out, b.coinbaseReward as i64);
    push_str(&mut out, ",\"proof\":");
    push_i64(&mut out, b.proof as i64);
    push_str(&mut out, ",\"id\":");
    push_json_str(&mut out, b.id.as_str());
    push_str(&mut out, "}");
    reveal(json_block);
    out
}

/// Sixteen to the power `n`.
pub open spec fn pow16(n: nat) -> nat
    decreases n,
{
    if n == 0 {
        1
    } else {
        16 * pow16((n - 1) as nat)
    }
}

proof fn lemma_pow16_le(i: nat)
    requires
        i <= 10,
    ensures
        pow16(i) <= 1099511627776,
    decreases 10 - i,
{
    reveal_with_fuel(pow16, 11);
    if i < 10 {
        lemma_pow16_le(i + 1);
    }
}

/// The number written by the first ten characters of `s`, all decimal digits.
fn parse_hex_prefix(s: &str) -> (res: u64)
    requires
        s@.len() >= 10,
        forall|i: int| 0 <= i < 10 ==> '0' <= #[trigger] s@[i] <= '9',
    ensures
        res == hex_value(s@.take(10)),
{
    let cs = chars_of(s);
    let mut v: u64 = 0;
    for i in 0..10
        invariant
            cs@ == s@,
            cs@.len() >= 10,
            forall|i: int| 0 <= i < 10 ==> '0' <= #[trigger] cs@[i] <= '9',
            v == hex_value(cs@.take(i as int)),
            v < pow16(i as nat),
    {
        let c = cs[i];
        let d = (c as u32 - '0' as u32) as u64;
        assert(cs@.take(i + 1).drop_last() =~= cs@.take(i as int));
        proof {
            lemma_pow16_le(i as nat);
        }
        assert(pow16((i + 1) as nat) == 16 * pow16(i as nat));
        v = v * 16 + d;
    }
    v
}

impl ViewClone for block {
    fn view_clone(&self) -> (res: block) {
        let res = block {
            prevBlockHash: crate::transaction::clone_opt_string(&self.prevBlockHash),
            target: self.target,
            balances: self.balances.clone_map(),
            nextNonce: self.nextNonce.clone_map(),
            transactions: self.transactions.clone_map(),
            chainLength: self.chainLength,
            timestamp: self.timestamp,
            rewardAddr: crate::transaction::clone_opt_string(&self.rewardAddr),
            coinbaseReward: self.coinbaseReward,
            proof: self.proof,
            id: self.id.clone(),
        };
        assert(res@ =~= self@);
        res
    }
}

impl block {
    /// Whether `block::new` runs without a panic on `prev`.
    pub fn newBlockDefined(prev: &Option<block>) -> (res: bool)
        ensures
            res == new_block_defined(opt_block_view(*prev)),
    {
        match prev {
            None => true,
            Some(p) => rewarded_balances(p).is_some() && p.chainLength < i32::MAX,
        }
    }

    /// Whether the block is a genesis block: one of chain length 0.
    pub fn isGenesisBlock(&self) -> (res: bool)
        ensures
            res == (self.chainLength == 0),
    {
        self.chainLength == 0
    }

    /// The JSON text of the block.
    pub fn serialize(&self) -> (res: String)
        ensures
            res@ == json_block(self@),
    {
        let out = block_json_chars(self);
        string_from_chars(out.as_slice())
    }

    /// Whether the hash of the block's JSON text meets its target.
    pub fn hasValidProof(&self) -> (res: bool)
        ensures
            res == spec_has_valid_proof(self@),
    {
        let text = self.serialize();
        let h = hash(text.as_str());
        let n = parse_hex_prefix(h.as_str());
        n < self.target
    }

    /// The balance of `addr`, 0 for an address without one.
    pub fn balanceOf(&self, addr: &str) -> (res: i32)
        ensures
            res == get_or_zero(self@.balances, addr@),
    {
        match self.balances.get(addr) {
            Some(v) => *v,
            None => 0,
        }
    }

    /// Whether the block holds the transaction with id `tx`.
    pub fn contains(&self, tx: &str) -> (res: bool)
        ensures
            res == alist_contains(self@.transactions, tx@),
    {
        self.transactions.contains_key(tx)
    }


    /// `addTransaction`, returning `None` where it would panic (the block is
    /// then left in an unspecified state).
    pub(crate) fn add_tx_inner(&mut self, tx: &transaction) -> (res: Option<bool>)
        ensures
            match add_tx_outcome(old(self)@, tx@) {
                Some(p) => res == Some(p.1) && final(self)@ == p.0,
                None => res is None,
            },
    {
        if self.transactions.contains_key(tx.id.as_str()) {
            return Some(false);
        }
        if tx.sig.is_none() {
            return Some(false);
        }
        if !tx.signatureSafe() {
            return None;
        }
        if !tx.validSignature() {
            return Some(false);
        }
        let total = match tx.checkedTotalOutput() {
            None => return None,
            Some(t) => t,
        };
        let bal = match self.balances.get(tx.from.as_str()) {
            None => return None,
            Some(b) => *b,
        };
        if total > bal {
            return Some(false);
        }
        let nonce = match self.nextNonce.get(tx.from.as_str()) {
            Some(n) => *n,
            None => 0,
        };
        if tx.nonce < nonce {
            return Some(false);
        } else if tx.nonce > nonce {
            return Some(false);
        }
        if nonce == i32::MAX {
            return None;
        }
        self.nextNonce.insert(tx.from.clone(), nonce + 1);
        self.transactions.insert(tx.id.clone(), tx.view_clone());
        let sender_balance = self.balanceOf(tx.from.as_str());
        let sender_new: i64 = sender_balance as i64 - total as i64;
        if sender_new < i32::MIN as i64 || sender_new > i32::MAX as i64 {
            return None;
        }
        self.balances.insert(tx.from.clone(), sender_new as i32);
        let ghost bal1 = self.balances@;
        let ghost outs = tx@.outputs;
        let ghost nn = self@.nextNonce;
        let ghost txs = self@.transactions;
        assert(add_tx_outcome(old(self)@, tx@) == match credit_outputs(bal1, outs) {
            None => None,
            Some(bal) => Some(
                (BlockModel { balances: bal, nextNonce: nn, transactions: txs, ..old(self)@ }, true),
            ),
        });
        let n = tx.outputs.len();
        assert(outs.take(0) =~= Seq::<(Seq<char>, i32)>::empty());
        for i in 0..n
            invariant
                add_tx_outcome(old(self)@, tx@) == match credit_outputs(bal1, outs) {
                    None => None,
                    Some(bal) => Some(
                        (
                            BlockModel {
                                balances: bal,
                                nextNonce: nn,
                                transactions: txs,
                                ..old(self)@
                            },
                            true,
                        ),
                    ),
                },
                nn == self@.nextNonce,
                txs == self@.transactions,
                n == outs.len(),
                outs == tx@.outputs,
                credit_outputs(bal1, outs.take(i as int)) == Some(self.balances@),
                self@.nextNonce == alist_set(old(self)@.nextNonce, tx@.from, (nonce + 1) as i32),
                self@.transactions == alist_set(old(self)@.transactions, tx@.id, tx@),
                self@ == (BlockModel {
                    balances: self@.balances,
                    nextNonce: self@.nextNonce,
                    transactions: self@.transactions,
                    ..old(self)@
                }),
        {
            assert(outs.take(i + 1).drop_last() =~= outs.take(i as int));
            assert(outs.take(i + 1).last() == outs[i as int]);
            let addr = &tx.outputs[i].0;
            let amt = tx.outputs[i].1;
            let cur = self.balanceOf(addr.as_str());
            let v: i64 = amt as i64 + cur as i64;
            if v < i32::MIN as i64 || v > i32::MAX as i64 {
                assert(credit_outputs(bal1, outs.take(i + 1)) is None);
                proof {
                    lemma_credit_none(bal1, outs, i + 1);
                }
                return None;
            }
            self.balances.insert(addr.clone(), v as i32);
        }
        assert(outs.take(n as int) =~= outs);
        Some(true)
    }

    /// Applies `tx` to the block when it is acceptable, and says whether it was.
    pub fn addTransaction(&mut self, tx: &transaction) -> (res: bool)
        requires
            add_tx_outcome(old(self)@, tx@) is Some,
        ensures
            (final(self)@, res) == add_tx_outcome(old(self)@, tx@).unwrap(),
    {
        self.add_tx_inner(tx).unwrap()
    }

    /// The first check of `addTransaction` that refuses `tx`, if any.
    pub(crate) fn refusal_of(&self, tx: &transaction) -> (res: Option<TxRefusal>)
        requires
            add_tx_outcome(self@, tx@) is Some,
        ensures
            res == tx_refusal(self@, tx@),
    {
        if self.transactions.contains_key(tx.id.as_str()) {
            return Some(TxRefusal::Duplicate);
        }
        if tx.sig.is_none() {
            return Some(TxRefusal::Unsigned);
        }
        if !tx.validSignature() {
            return Some(TxRefusal::InvalidSignature);
        }
        let total = tx.totalOutput();
        let bal = match self.balances.get(tx.from.as_str()) {
            Some(b) => *b,
            None => 0,
        };
        if total > bal {
            return Some(TxRefusal::InsufficientGold);
        }
        let nonce = match self.nextNonce.get(tx.from.as_str()) {
            Some(n) => *n,
            None => 0,
        };
        if tx.nonce < nonce {
            Some(TxRefusal::Replayed)
        } else if tx.nonce > nonce {
            Some(TxRefusal::OutOfOrder)
        } else {
            None
        }
    }

    /// `addTransaction`, saying why a refused transaction was refused.
    pub fn addTransactionWithReason(&mut self, tx: &transaction) -> (res: Result<(), TxRefusal>)
        requires
            add_tx_outcome(old(self)@, tx@) is Some,
        ensures
            final(self)@ == add_tx_outcome(old(self)@, tx@).unwrap().0,
            res is Ok == add_tx_outcome(old(self)@, tx@).unwrap().1,
            res == match tx_refusal(old(self)@, tx@) {
                None => Ok::<(), TxRefusal>(()),
                Some(r) => Err(r),
            },
    {
        let reason = self.refusal_of(tx);
        let _ = self.add_tx_inner(tx);
        match reason {
            None => Ok(()),
            Some(r) => Err(r),
        }
    }

    /// `addTransaction` where it does not panic; `None`, with the block
    /// unchanged, where it would.
    pub fn tryAddTransaction(&mut self, tx: &transaction) -> (res: Option<bool>)
        ensures
            match add_tx_outcome(old(self)@, tx@) {
                Some(p) => res == Some(p.1) && final(self)@ == p.0,
                None => res is None && final(self)@ == old(self)@,
            },
    {
        let mut copy = self.view_clone();
        let r = copy.add_tx_inner(tx);
        if r.is_some() {
            *self = copy;
        }
        r
    }


    /// `rerun`, returning `None` where it would panic.
    pub(crate) fn rerun_inner(&mut self, prev: &block) -> (res: Option<bool>)
        ensures
            match rerun_outcome(old(self)@, prev@) {
                Some(p) => res == Some(p.1) && final(self)@ == p.0,
                None => res is None,
            },
    {
        let bal = match rewarded_balances(prev) {
            None => return None,
            Some(b) => b,
        };
        let txs = self.transactions.clone_map();
        self.balances = bal;
        self.nextNonce = prev.nextNonce.clone_map();
        self.transactions = StrMap::new();
        let ghost start = self@;
        let ghost tv = txs@;
        assert(rerun_outcome(old(self)@, prev@) == replay(start, tv));
        let n = txs.len();
        assert(tv.take(0) =~= Seq::<(Seq<char>, TxModel)>::empty());
        for i in 0..n
            invariant
                n == tv.len(),
                tv == txs@,
                rerun_outcome(old(self)@, prev@) == replay(start, tv),
                replay(start, tv.take(i as int)) == Some((self@, true)),
        {
            assert(tv.take(i + 1).drop_last() =~= tv.take(i as int));
            assert(tv.take(i + 1).last() == tv[i as int]);
            match self.add_tx_inner(txs.val_at(i)) {
                None => {
                    proof {
                        lemma_replay_stops(start, tv, i + 1);
                    }
                    return None;
                },
                Some(false) => {
                    proof {
                        lemma_replay_stops(start, tv, i + 1);
                    }
                    return Some(false);
                },
                Some(true) => {},
            }
        }
        assert(tv.take(n as int) =~= tv);
        Some(true)
    }

    /// Applies the block's transactions again, in order, on top of `prev`
    /// (its balances with its reward credited, and its nonces); says whether
    /// every one of them was accepted, stopping at the first that is not.
    pub fn rerun(&mut self, prevBlock: &block) -> (res: bool)
        requires
            rerun_outcome(old(self)@, prevBlock@) is Some,
        ensures
            (final(self)@, res) == rerun_outcome(old(self)@, prevBlock@).unwrap(),
    {
        self.rerun_inner(prevBlock).unwrap()
    }

    /// `rerun` where it does not panic; `None`, with the block unchanged, where
    /// it would.
    pub fn tryRerun(&mut self, prevBlock: &block) -> (res: Option<bool>)
        ensures
            match rerun_outcome(old(self)@, prevBlock@) {
                Some(p) => res == Some(p.1) && final(self)@ == p.0,
                None => res is None && final(self)@ == old(self)@,
            },
    {
        let mut copy = self.view_clone();
        let r = copy.rerun_inner(prevBlock);
        if r.is_some() {
            *self = copy;
        }
        r
    }

    /// A new block at the given time on top of `prevBlock` (or a first block
    /// when there is none), with no transactions and proof 0.
    pub fn newAt(
        rewardAddr: Option<String>,
        prevBlock: Option<block>,
        target: u64,
        coinbaseReward: i32,
        timestamp: i64,
    ) -> (res: block)
        requires
            new_block_defined(opt_block_view(prevBlock)),
        ensures
            res@ == spec_new_block(
                opt_view(rewardAddr),
                opt_block_view(prevBlock),
                target,
                coinbaseReward,
                timestamp,
            ),
    {
        let ghost pv = opt_block_view(prevBlock);
        let mut b = match prevBlock {
            None => block {
                prevBlockHash: None,
                target,
                balances: StrMap::new(),
                nextNonce: StrMap::new(),
                transactions: StrMap::new(),
                chainLength: 0,
                timestamp,
                rewardAddr,
                coinbaseReward,
                proof: 0,
                id: String::new(),
            },
            Some(pb) => {
                let balances = rewarded_balances(&pb).unwrap();
                block {
                    prevBlockHash: Some(pb.id),
                    target,
                    balances,
                    nextNonce: pb.nextNonce,
                    transactions: StrMap::new(),
                    chainLength: pb.chainLength + 1,
                    timestamp,
                    rewardAddr,
                    coinbaseReward,
                    proof: 0,
                    id: String::new(),
                }
            },
        };
        assert(b@ =~= new_block_unsealed(opt_view(rewardAddr), pv, target, coinbaseReward, timestamp));
        let mut text: Vec<char> = Vec::new();
        push_str(&mut text, "blk ");
        let body = block_json_chars(&b);
        let mut i: usize = 0;
        let ghost start = text@;
        while i < body.len()
            invariant
                i <= body@.len(),
                text@ == start + body@.take(i as int),
            decreases body@.len() - i,
        {
            text.push(body[i]);
            assert(body@.take(i + 1) =~= body@.take(i as int).push(body@[i as int]));
            i = i + 1;
        }
        assert(body@.take(body@.len() as int) =~= body@);
        let pre = string_from_chars(text.as_slice());
        b.id = hash(pre.as_str());
        assert(b@ =~= spec_new_block(opt_view(rewardAddr), pv, target, coinbaseReward, timestamp));
        b
    }

    /// A new block on top of `prevBlock`, stamped with the current time.
    pub fn new(rewardAddr: Option<String>, prevBlock: Option<block>, target: u64, coinbaseReward: i32) -> (res: block)
        requires
            new_block_defined(opt_block_view(prevBlock)),
        ensures
            res@ == spec_new_block(
                opt_view(rewardAddr),
                opt_block_view(prevBlock),
                target,
                coinbaseReward,
                res.timestamp,
            ),
    {
        let timestamp = now_timestamp();
        block::newAt(rewardAddr, prevBlock, target, coinbaseReward, timestamp)
    }

    /// The coinbase reward plus every fee, or `None` where adding them up leaves `i32`.
    pub fn checkedTotalRewards(&self) -> (res: Option<i32>)
        ensures
            res == (if rewards_fit(self@) {
                Some(spec_total_rewards(self@) as i32)
            } else {
                None::<i32>
            }),
            res matches Some(v) ==> v == spec_total_rewards(self@),
    {
        let ghost txs = self@.transactions;
        let mut sum: i32 = self.coinbaseReward;
        let n = self.transactions.len();
        for i in 0..n
            invariant
                n == txs.len(),
                txs == self@.transactions,
                sum == self.coinbaseReward + fees_sum(txs.take(i as int)),
                forall|k: int|
                    1 <= k <= i ==> fits_i32(self.coinbaseReward + #[trigger] fees_sum(txs.take(k))),
        {
            assert(txs.take(i + 1).drop_last() =~= txs.take(i as int));
            assert(fees_sum(txs.take(i + 1)) == fees_sum(txs.take(i as int)) + txs[i as int].1.fee);
            let next: i64 = sum as i64 + self.transactions.val_at(i).fee as i64;
            if next < i32::MIN as i64 || next > i32::MAX as i64 {
                assert(!rewards_fit(self@));
                return None;
            }
            sum = next as i32;
        }
        assert(txs.take(n as int) =~= txs);
        Some(sum)
    }

    /// The coinbase reward plus every fee.
    pub fn totalRewards(&self) -> (res: i32)
        requires
            rewards_fit(self@),
        ensures
            res == spec_total_rewards(self@),
    {
        proof {
            let txs = self@.transactions;
            if txs.len() > 0 {
                assert(txs.take(txs.len() as int) =~= txs);
            }
        }
        self.checkedTotalRewards().unwrap()
    }
}

} // verus!

verus! {

/// The sum of the balances.
pub open spec fn balances_sum(s: Seq<(Seq<char>, i32)>) -> int
    decreases s.len(),
{
    if s.len() == 0 {
        0
    } else {
        balances_sum(s.drop_last()) + s.last().1
    }
}

proof fn lemma_balances_sum_update(s: Seq<(Seq<char>, i32)>, i: int, p: (Seq<char>, i32))
    requires
        0 <= i < s.len(),
    ensures
        balances_sum(s.update(i, p)) == balances_sum(s) - s[i].1 + p.1,
    decreases s.len(),
{
    let t = s.update(i, p);
    if i == s.len() - 1 {
        assert(t.drop_last() =~= s.drop_last());
    } else {
        assert(t.drop_last() =~= s.drop_last().update(i, p));
        lemma_balances_sum_update(s.drop_last(), i, p);
    }
}

/// Setting a balance changes the sum by the difference.
proof fn lemma_balances_sum_set(s: Seq<(Seq<char>, i32)>, k: Seq<char>, v: i32)
    ensures
        balances_sum(alist_set(s, k, v)) == balances_sum(s) - get_or_zero(s, k) + v,
{
    lemma_alist_index(s, k);
    let i = alist_index(s, k);
    if i >= 0 {
        lemma_balances_sum_update(s, i, (k, v));
    } else {
        assert(s.push((k, v)).drop_last() =~= s);
    }
}

/// Crediting the outputs adds their amounts to the sum.
proof fn lemma_credit_sum(bal: Seq<(Seq<char>, i32)>, outs: Seq<(Seq<char>, i32)>)
    ensures
        credit_outputs(bal, outs) matches Some(b) ==> balances_sum(b) == balances_sum(bal)
            + crate::transaction::amounts_sum(outs),
    decreases outs.len(),
{
    if outs.len() > 0 {
        lemma_credit_sum(bal, outs.drop_last());
        match credit_outputs(bal, outs.drop_last()) {
            Some(b) => lemma_balances_sum_set(b, outs.last().0, (outs.last().1 + get_or_zero(b, outs.last().0)) as i32),
            None => {},
        }
    }
}

/// A transaction that a block refuses leaves the block as it was.
pub proof fn law_refused_transaction_changes_nothing(b: BlockModel, t: TxModel)
    ensures
        add_tx_outcome(b, t) matches Some(p) ==> (!p.1 ==> p.0 == b),
{
}

/// Gold is conserved: a transaction that a block accepts moves its outputs
/// from the sender to the receivers, and the fee leaves the balances (it is
/// paid to the winner of the block, in the next block).
pub proof fn law_accepted_transaction_conserves_gold(b: BlockModel, t: TxModel)
    ensures
        add_tx_outcome(b, t) matches Some(p) ==> (p.1 ==> balances_sum(p.0.balances)
            == balances_sum(b.balances) - t.fee),
{
    if let Some(p) = add_tx_outcome(b, t) {
        if p.1 {
            let sender = get_or_zero(b.balances, t.from) - spec_total_output(t);
            let bal1 = alist_set(b.balances, t.from, sender as i32);
            lemma_balances_sum_set(b.balances, t.from, sender as i32);
            lemma_credit_sum(bal1, t.outputs);
        }
    }
}

/// A transaction cannot be spent twice: once a block accepts it, the same
/// transaction is refused as a duplicate, and the sender's next nonce is past
/// its nonce.
pub proof fn law_accepted_transaction_is_not_replayed(b: BlockModel, t: TxModel)
    ensures
        add_tx_outcome(b, t) matches Some(p) ==> (p.1 ==> {
            &&& add_tx_outcome(p.0, t) == Some((p.0, false))
            &&& alist_contains(p.0.transactions, t.id)
            &&& get_or_zero(p.0.nextNonce, t.from) == t.nonce + 1
        }),
{
    if let Some(p) = add_tx_outcome(b, t) {
        if p.1 {
            crate::strmap::lemma_alist_set(b.transactions, t.id, t, t.id);
            crate::strmap::lemma_alist_set(b.nextNonce, t.from, (t.nonce + 1) as i32, t.from);
            lemma_alist_index(p.0.transactions, t.id);
        }
    }
}

/// `b` with another ledger: balances, nonces and transactions.
pub open spec fn with_ledger(
    b: BlockModel,
    balances: Seq<(Seq<char>, i32)>,
    nextNonce: Seq<(Seq<char>, i32)>,
    transactions: Seq<(Seq<char>, TxModel)>,
) -> BlockModel {
    BlockModel { balances, nextNonce, transactions, ..b }
}

/// Adding a transaction reads and writes only the ledger.
pub proof fn lemma_add_tx_ledger_only(b: BlockModel, x: BlockModel, t: TxModel)
    ensures
        add_tx_outcome(with_ledger(x, b.balances, b.nextNonce, b.transactions), t) == match add_tx_outcome(b, t) {
            None => None,
            Some(p) => Some((with_ledger(x, p.0.balances, p.0.nextNonce, p.0.transactions), p.1)),
        },
        add_tx_outcome(b, t) matches Some(p) ==> p.0 == with_ledger(b, p.0.balances, p.0.nextNonce, p.0.transactions),
{
}

/// Rerunning the transactions that a run of additions accepted, from the same
/// starting ledger, accepts them all and ends with the same ledger.
proof fn lemma_replay_of_applied(c: BlockModel, ts: Seq<TxModel>, x: BlockModel)
    requires
        c.transactions.len() == 0,
        apply_all_blocks(c, ts) is Some,
    ensures
        ({
            let d = apply_all_blocks(c, ts).unwrap();
            replay(with_ledger(x, c.balances, c.nextNonce, c.transactions), d.transactions) == Some(
                (with_ledger(x, d.balances, d.nextNonce, d.transactions), true),
            )
        }),
    decreases ts.len(),
{
    if ts.len() == 0 {
    } else {
        lemma_replay_of_applied(c, ts.drop_last(), x);
        let d1 = apply_all_blocks(c, ts.drop_last()).unwrap();
        let t = ts.last();
        lemma_add_tx_ledger_only(d1, with_ledger(x, d1.balances, d1.nextNonce, d1.transactions), t);
        let p = add_tx_outcome(d1, t).unwrap();
        if p.1 {
            lemma_alist_index(d1.transactions, t.id);
            assert(p.0.transactions =~= d1.transactions.push((t.id, t)));
            assert(p.0.transactions.drop_last() =~= d1.transactions);
            lemma_add_tx_ledger_only(d1, x, t);
        }
    }
}

/// The transactions added to a block in turn, whatever each addition returns;
/// `None` where one of them panics.
pub open spec fn apply_all_blocks(b: BlockModel, txs: Seq<TxModel>) -> Option<BlockModel>
    decreases txs.len(),
{
    if txs.len() == 0 {
        Some(b)
    } else {
        match apply_all_blocks(b, txs.drop_last()) {
            None => None,
            Some(b1) => match add_tx_outcome(b1, txs.last()) {
                None => None,
                Some(p) => Some(p.0),
            },
        }
    }
}

/// A block that is built on `prev` by adding transactions (whichever are
/// accepted), with any proof, passes the rerun on `prev` that receivers make:
/// every transaction is accepted again and the block comes out unchanged.
pub proof fn law_built_block_passes_rerun(
    rewardAddr: Option<Seq<char>>,
    prev: BlockModel,
    target: u64,
    coinbaseReward: i32,
    timestamp: i64,
    txs: Seq<TxModel>,
    proof: i32,
)
    requires
        new_block_defined(Some(prev)),
        apply_all_blocks(
            spec_new_block(rewardAddr, Some(prev), target, coinbaseReward, timestamp),
            txs,
        ) is Some,
    ensures
        ({
            let b = BlockModel {
                proof,
                ..apply_all_blocks(
                    spec_new_block(rewardAddr, Some(prev), target, coinbaseReward, timestamp),
                    txs,
                ).unwrap()
            };
            rerun_outcome(b, prev) == Some((b, true))
        }),
{
    let c = spec_new_block(rewardAddr, Some(prev), target, coinbaseReward, timestamp);
    let d = apply_all_blocks(c, txs).unwrap();
    let b = BlockModel { proof, ..d };
    lemma_replay_of_applied(c, txs, b);
    assert(with_ledger(b, d.balances, d.nextNonce, d.transactions) == b);
    assert(with_ledger(b, c.balances, c.nextNonce, c.transactions) == BlockModel {
        balances: reward_outcome(prev).unwrap(),
        nextNonce: prev.nextNonce,
        transactions: Seq::empty(),
        ..b
    });
}


/// A new block is a genesis block exactly where it has no previous block (of
/// a non-negative length); a previous block on which `new` panics is left
/// out.
pub proof fn law_new_block_is_genesis_iff_first(
    rewardAddr: Option<Seq<char>>,
    prev: Option<BlockModel>,
    target: u64,
    coinbaseReward: i32,
    timestamp: i64,
)
    requires
        new_block_defined(prev),
        prev matches Some(p) ==> p.chainLength >= 0,
    ensures
        (spec_new_block(rewardAddr, prev, target, coinbaseReward, timestamp).chainLength == 0) <==> prev is None,
{
}


/// Paying a block's winner adds exactly the block's total rewards to the
/// winner's balance and to the sum of the balances; no other balance moves.
pub proof fn law_reward_pays_the_rewards_once(p: BlockModel, k: Seq<char>)
    ensures
        reward_outcome(p) matches Some(bal) ==> {
            &&& balances_sum(bal) == balances_sum(p.balances) + (if p.rewardAddr is Some {
                spec_total_rewards(p)
            } else {
                0
            })
            &&& get_or_zero(bal, k) == get_or_zero(p.balances, k) + (if p.rewardAddr == Some(k) {
                spec_total_rewards(p)
            } else {
                0
            })
        },
{
    if let Some(r) = p.rewardAddr {
        if reward_outcome(p) is Some {
            let w = get_or_zero(p.balances, r);
            lemma_balances_sum_set(p.balances, r, (w + spec_total_rewards(p)) as i32);
            crate::strmap::lemma_alist_set(p.balances, r, (w + spec_total_rewards(p)) as i32, k);
        }
    }
}


/// No balance is negative.
pub open spec fn balances_nonneg(s: Seq<(Seq<char>, i32)>) -> bool {
    forall|i: int| 0 <= i < s.len() ==> #[trigger] s[i].1 >= 0
}

/// Setting a key to a non-negative value keeps every balance non-negative.
proof fn lemma_set_nonneg(s: Seq<(Seq<char>, i32)>, k: Seq<char>, v: i32)
    requires
        balances_nonneg(s),
        v >= 0,
    ensures
        balances_nonneg(alist_set(s, k, v)),
{
    lemma_alist_index(s, k);
    let t = alist_set(s, k, v);
    assert forall|i: int| 0 <= i < t.len() implies #[trigger] t[i].1 >= 0 by {
        if i < s.len() && i != alist_index(s, k) {
            assert(t[i] == s[i]);
        }
    }
}

/// Crediting non-negative amounts to non-negative balances keeps them so.
proof fn lemma_credit_nonneg(bal: Seq<(Seq<char>, i32)>, outs: Seq<(Seq<char>, i32)>)
    requires
        balances_nonneg(bal),
        forall|i: int| 0 <= i < outs.len() ==> #[trigger] outs[i].1 >= 0,
    ensures
        credit_outputs(bal, outs) matches Some(b) ==> balances_nonneg(b),
    decreases outs.len(),
{
    if outs.len() > 0 {
        lemma_credit_nonneg(bal, outs.drop_last());
        if let Some(b) = credit_outputs(bal, outs.drop_last()) {
            let o = outs.last();
            assert(o.1 >= 0);
            lemma_alist_index(b, o.0);
            if alist_index(b, o.0) >= 0 {
                assert(b[alist_index(b, o.0)].1 >= 0);
            }
            let v = o.1 + get_or_zero(b, o.0);
            if fits_i32(v) {
                lemma_set_nonneg(b, o.0, v as i32);
            }
        }
    }
}

/// No balance goes negative: where every balance and every output amount of
/// an accepted transaction is non-negative, so is every balance after it.
pub proof fn law_accepted_transaction_keeps_balances_nonneg(b: BlockModel, t: TxModel)
    requires
        balances_nonneg(b.balances),
        forall|i: int| 0 <= i < t.outputs.len() ==> #[trigger] t.outputs[i].1 >= 0,
    ensures
        add_tx_outcome(b, t) matches Some(p) ==> (p.1 ==> balances_nonneg(p.0.balances)),
{
    if let Some(p) = add_tx_outcome(b, t) {
        if p.1 {
            let sender = get_or_zero(b.balances, t.from) - spec_total_output(t);
            lemma_set_nonneg(b.balances, t.from, sender as i32);
            lemma_credit_nonneg(alist_set(b.balances, t.from, sender as i32), t.outputs);
        }
    }
}

} // verus!
