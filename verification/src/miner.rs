//! Miners: clients that gather transactions into a block of their own and
//! search for its proof of work.
use vstd::prelude::*;
use crate::block::{
    tx_refusal, TxRefusal, add_tx_outcome, apply_all_blocks, block, new_block_defined, opt_block_view, spec_has_valid_proof,
    spec_new_block, BlockModel,
};
use crate::blockchain::COINBASE_AMT_ALLOWED;
use crate::client::{
    block_class, client, lemma_block_class, post_transaction_defined, receive_fuel, receive_spec, spec_client_tx, spec_new_client,
    ClientModel,
};
use crate::fakeNet::{append_msgs, msgs_view, MessageModel, NetMessage};
use crate::json::opt_view;
use crate::strmap::{alist_get, alist_set, ViewClone};
use crate::transaction::{fits_i32, outputs_view, transaction, TxModel};
use crate::walk::{lemma_walk_suffices, walk};

verus! {

/// What a miner holds.
#[verifier::ext_equal]
pub struct MinerModel {
    pub miningRounds: i32,
    pub transactions: Seq<TxModel>,
    pub client: ClientModel,
    pub currentBlock: Option<BlockModel>,
    pub pow_target: u64,
}

#[derive(Clone)]
pub struct miner {
    pub miningRounds: i32,
    pub transactions: Vec<transaction>,
    pub client: client,
    pub currentBlock: Option<block>,
    pub pow_target: u64,
}

/// The models of a list of transactions.
pub open spec fn txs_view(v: Seq<transaction>) -> Seq<TxModel> {
    Seq::new(v.len(), |i: int| v[i]@)
}

impl View for miner {
    type V = MinerModel;

    open spec fn view(&self) -> MinerModel {
        MinerModel {
            miningRounds: self.miningRounds,
            transactions: txs_view(self.transactions@),
            client: self.client@,
            currentBlock: opt_block_view(self.currentBlock),
            pow_target: self.pow_target,
        }
    }
}

/// `s` with `t` added, unless it holds it already.
pub open spec fn set_insert(s: Seq<TxModel>, t: TxModel) -> Seq<TxModel> {
    if s.contains(t) {
        s
    } else {
        s.push(t)
    }
}

/// `s` with each of `ts` added in turn.
pub open spec fn set_insert_all(s: Seq<TxModel>, ts: Seq<TxModel>) -> Seq<TxModel>
    decreases ts.len(),
{
    if ts.len() == 0 {
        s
    } else {
        set_insert(set_insert_all(s, ts.drop_last()), ts.last())
    }
}

/// `s` with the transactions of a block added in turn.
pub open spec fn add_block_txs(s: Seq<TxModel>, txs: Seq<(Seq<char>, TxModel)>) -> Seq<TxModel>
    decreases txs.len(),
{
    if txs.len() == 0 {
        s
    } else {
        set_insert(add_block_txs(s, txs.drop_last()), txs.last().1)
    }
}

/// `s` without `t`.
pub open spec fn set_remove(s: Seq<TxModel>, t: TxModel) -> Seq<TxModel>
    decreases s.len(),
{
    if s.len() == 0 {
        s
    } else {
        let r = set_remove(s.drop_last(), t);
        if s.last() == t {
            r
        } else {
            r.push(s.last())
        }
    }
}

/// `s` without each of `rm`.
pub open spec fn set_remove_all(s: Seq<TxModel>, rm: Seq<TxModel>) -> Seq<TxModel>
    decreases rm.len(),
{
    if rm.len() == 0 {
        s
    } else {
        set_remove(set_remove_all(s, rm.drop_last()), rm.last())
    }
}

/// Adds `t` to the list unless it holds it; says whether it was added.
fn tx_set_insert(s: &mut Vec<transaction>, t: transaction) -> (res: bool)
    ensures
        txs_view(final(s)@) == set_insert(txs_view(old(s)@), t@),
        res == !txs_view(old(s)@).contains(t@),
{
    let n = s.len();
    for i in 0..n
        invariant
            n == s@.len(),
            s@ == old(s)@,
            forall|j: int| 0 <= j < i ==> txs_view(s@)[j] != t@,
    {
        if s[i].sameAs(&t) {
            assert(txs_view(s@)[i as int] == t@);
            return false;
        }
    }
    let ghost s0 = txs_view(s@);
    s.push(t);
    assert(txs_view(s@) =~= s0.push(t@));
    true
}

/// The list without the transactions equal to `t`.
fn tx_set_remove(s: &Vec<transaction>, t: &transaction) -> (res: Vec<transaction>)
    ensures
        txs_view(res@) == set_remove(txs_view(s@), t@),
{
    let mut res: Vec<transaction> = Vec::new();
    let n = s.len();
    let ghost sv = txs_view(s@);
    assert(sv.take(0) =~= Seq::<TxModel>::empty());
    for i in 0..n
        invariant
            n == sv.len(),
            sv == txs_view(s@),
            txs_view(res@) == set_remove(sv.take(i as int), t@),
    {
        assert(sv.take(i + 1).drop_last() =~= sv.take(i as int));
        let ghost r0 = txs_view(res@);
        if !s[i].sameAs(t) {
            res.push(s[i].view_clone());
            assert(txs_view(res@) =~= r0.push(sv[i as int]));
        }
    }
    assert(sv.take(n as int) =~= sv);
    res
}

/// Adds each transaction of `b` to the list, unless it holds it.
fn add_block_txs_exec(s: &mut Vec<transaction>, b: &block)
    ensures
        txs_view(final(s)@) == add_block_txs(txs_view(old(s)@), b@.transactions),
{
    let n = b.transactions.len();
    let ghost txs = b@.transactions;
    let ghost s0 = txs_view(s@);
    assert(txs.take(0) =~= Seq::<(Seq<char>, TxModel)>::empty());
    for i in 0..n
        invariant
            n == txs.len(),
            txs == b@.transactions,
            txs_view(s@) == add_block_txs(s0, txs.take(i as int)),
    {
        assert(txs.take(i + 1).drop_last() =~= txs.take(i as int));
        tx_set_insert(s, b.transactions.val_at(i).view_clone());
    }
    assert(txs.take(n as int) =~= txs);
}

/// The first walk of `syncTransactions`: from the new block `nb` back to the
/// length `cb_len` of the current block, gathering the transactions passed;
/// `None` where a link is missing or dangles, or `fuel` steps do not suffice.
pub open spec fn sync_up(
    blocks: Seq<(Seq<char>, BlockModel)>,
    cb_len: int,
    nb: BlockModel,
    nbTxs: Seq<TxModel>,
    fuel: nat,
) -> Option<(BlockModel, Seq<TxModel>)>
    decreases fuel,
{
    if nb.chainLength <= cb_len {
        Some((nb, nbTxs))
    } else if fuel == 0 {
        None
    } else {
        let t = add_block_txs(nbTxs, nb.transactions);
        match nb.prevBlockHash {
            None => None,
            Some(ph) => match alist_get(blocks, ph) {
                None => None,
                Some(p) => sync_up(blocks, cb_len, p, t, (fuel - 1) as nat),
            },
        }
    }
}

/// The second walk of `syncTransactions`: both chains back, in step, until
/// they meet or the current chain ends, gathering the transactions of each.
pub open spec fn sync_across(
    blocks: Seq<(Seq<char>, BlockModel)>,
    cb: Option<BlockModel>,
    nb: BlockModel,
    cbTxs: Seq<TxModel>,
    nbTxs: Seq<TxModel>,
    fuel: nat,
) -> Option<(Seq<TxModel>, Seq<TxModel>)>
    decreases fuel,
{
    match cb {
        None => Some((cbTxs, nbTxs)),
        Some(c) => if c.id == nb.id {
            Some((cbTxs, nbTxs))
        } else if fuel == 0 {
            None
        } else {
            let ct = add_block_txs(cbTxs, c.transactions);
            let nt = add_block_txs(nbTxs, nb.transactions);
            match c.prevBlockHash {
                None => None,
                Some(cph) => match nb.prevBlockHash {
                    None => None,
                    Some(nph) => match alist_get(blocks, nph) {
                        None => None,
                        Some(n2) => sync_across(
                            blocks,
                            alist_get(blocks, cph),
                            n2,
                            ct,
                            nt,
                            (fuel - 1) as nat,
                        ),
                    },
                },
            }
        },
    }
}

/// The number of steps the first walk may take, for `n` known blocks: a walk
/// that ends visits each known block at most once (see
/// `law_sync_up_suffices`).
pub open spec fn sync_up_fuel(n: nat) -> nat {
    n
}

/// The number of steps the second walk may take, for `n` known blocks: a walk
/// that ends visits each pair of a known block and a known block or none at
/// most once (see `law_sync_across_suffices`).
pub open spec fn sync_across_fuel(n: nat) -> nat {
    n * (n + 1)
}

/// What `syncTransactions` returns for the new block `nb`: the transactions
/// of the current chain that the new chain lacks, from the blocks above the
/// point where the two chains meet. `None` where it panics (no current block,
/// or a missing link) or never ends.
pub open spec fn sync_spec(m: MinerModel, nb: BlockModel) -> Option<Seq<TxModel>> {
    match m.currentBlock {
        None => None,
        Some(cb) => {
            let blocks = m.client.blocks;
            match sync_up(blocks, cb.chainLength as int, nb, Seq::empty(), sync_up_fuel(blocks.len())) {
                None => None,
                Some(p) => match sync_across(
                    blocks,
                    Some(cb),
                    p.0,
                    Seq::empty(),
                    p.1,
                    sync_across_fuel(blocks.len()),
                ) {
                    None => None,
                    Some(q) => Some(set_remove_all(q.0, q.1)),
                },
            }
        },
    }
}


/// What `startNewSearch` does when the clock reads `timestamp`: a new block on
/// top of the client's last block, rewarding the client, holding (where they
/// are accepted) the waiting transactions and those of `txSet`; proof 0, and
/// no transactions left waiting. `None` where it panics.
pub open spec fn search_spec(m: MinerModel, txSet: Seq<TxModel>, timestamp: i64) -> Option<MinerModel> {
    if !new_block_defined(m.client.lastBlock) {
        None
    } else {
        let b0 = spec_new_block(
            Some(m.client.address),
            m.client.lastBlock,
            m.pow_target,
            COINBASE_AMT_ALLOWED,
            timestamp,
        );
        match apply_all_blocks(b0, set_insert_all(m.transactions, txSet)) {
            None => None,
            Some(b1) => Some(
                MinerModel {
                    currentBlock: Some(BlockModel { proof: 0, ..b1 }),
                    transactions: Seq::empty(),
                    ..m
                },
            ),
        }
    }
}

/// The transactions that a block refuses as they are added in turn, each with
/// its id and the reason (see `tx_refusal`).
pub open spec fn refusals_along(b: BlockModel, txs: Seq<TxModel>) -> Seq<(Seq<char>, TxRefusal)>
    decreases txs.len(),
{
    if txs.len() == 0 {
        Seq::empty()
    } else {
        let prev = refusals_along(b, txs.drop_last());
        match apply_all_blocks(b, txs.drop_last()) {
            None => prev,
            Some(b1) => match tx_refusal(b1, txs.last()) {
                None => prev,
                Some(r) => prev.push((txs.last().id, r)),
            },
        }
    }
}

/// The transactions that `startNewSearch` refuses at `timestamp`, with why.
pub open spec fn search_refusals(m: MinerModel, txSet: Seq<TxModel>, timestamp: i64) -> Seq<
    (Seq<char>, TxRefusal),
> {
    refusals_along(
        spec_new_block(
            Some(m.client.address),
            m.client.lastBlock,
            m.pow_target,
            COINBASE_AMT_ALLOWED,
            timestamp,
        ),
        set_insert_all(m.transactions, txSet),
    )
}

/// The view of a list of refusals.
pub open spec fn refusals_view(v: Seq<(String, TxRefusal)>) -> Seq<(Seq<char>, TxRefusal)> {
    Seq::new(v.len(), |i: int| (v[i].0@, v[i].1))
}

/// Adding transactions leaves a block's timestamp as it was.
proof fn lemma_apply_all_timestamp(b: BlockModel, txs: Seq<TxModel>)
    ensures
        apply_all_blocks(b, txs) matches Some(b1) ==> b1.timestamp == b.timestamp,
    decreases txs.len(),
{
    if txs.len() > 0 {
        lemma_apply_all_timestamp(b, txs.drop_last());
    }
}

/// The new block carries the clock's reading.
proof fn lemma_search_timestamp(m: MinerModel, txSet: Seq<TxModel>, t: i64)
    ensures
        search_spec(m, txSet, t) matches Some(m2) ==> m2.currentBlock matches Some(b)
            && b.timestamp == t,
{
    if new_block_defined(m.client.lastBlock) {
        let b0 = spec_new_block(
            Some(m.client.address),
            m.client.lastBlock,
            m.pow_target,
            COINBASE_AMT_ALLOWED,
            t,
        );
        lemma_apply_all_timestamp(b0, set_insert_all(m.transactions, txSet));
    }
}

/// A prefix that panics makes the whole list panic.
proof fn lemma_apply_all_none(b: BlockModel, txs: Seq<TxModel>, k: int)
    requires
        0 <= k <= txs.len(),
        apply_all_blocks(b, txs.take(k)) is None,
    ensures
        apply_all_blocks(b, txs) is None,
    decreases txs.len() - k,
{
    if k == txs.len() {
        assert(txs.take(k) =~= txs);
    } else {
        assert(txs.drop_last().take(k) =~= txs.take(k));
        lemma_apply_all_none(b, txs.drop_last(), k);
    }
}


/// No messages.
pub open spec fn no_msgs_seq() -> Seq<NetMessage> {
    Seq::empty()
}

/// No messages.
fn no_msgs() -> (res: Vec<NetMessage>)
    ensures
        res@ == no_msgs_seq(),
        msgs_view(res@) == Seq::<MessageModel>::empty(),
{
    let res: Vec<NetMessage> = Vec::new();
    assert(msgs_view(res@) =~= Seq::<MessageModel>::empty());
    res
}

/// The clock reads `readings` in turn from its `k`-th reading on.
pub open spec fn clock_agrees(clock: spec_fn(nat) -> i64, k: nat, readings: Seq<i64>) -> bool {
    forall|i: int| 0 <= i < readings.len() ==> clock((k + i) as nat) == #[trigger] readings[i]
}

/// The clock that reads `readings`, then 0.
pub open spec fn clock_of(readings: Seq<i64>) -> spec_fn(nat) -> i64 {
    |i: nat| if i < readings.len() {
        readings[i as int]
    } else {
        0i64
    }
}

/// What the miner's `receiveBlock` does with `s` and returns, when the clock's
/// readings from the `k`-th on are those of `clock`; the last component is the
/// number of readings taken by then. The client takes the block in; when it
/// stores a block at least as long as the current one, the miner moves to the
/// new chain: it starts a new block with the transactions of the old chain
/// that the new one lacks. `None` where it panics.
pub open spec fn miner_receive_spec(
    m: MinerModel,
    s: BlockModel,
    clock: spec_fn(nat) -> i64,
    k: nat,
) -> Option<(MinerModel, Option<BlockModel>, Seq<MessageModel>, nat)> {
    match receive_spec(m.client, s, receive_fuel(m.client)) {
        None => None,
        Some(r) => {
            let m1 = MinerModel { client: r.0, ..m };
            match r.1 {
                None => Some((m1, None, r.2, k)),
                Some(b) => if m1.currentBlock is Some && b.chainLength
                    >= m1.currentBlock.unwrap().chainLength {
                    match sync_spec(m1, b) {
                        None => None,
                        Some(txSet) => match search_spec(m1, txSet, clock(k)) {
                            None => None,
                            Some(m2) => Some((m2, Some(b), r.2, k + 1)),
                        },
                    }
                } else {
                    Some((m1, Some(b), r.2, k))
                },
            }
        },
    }
}

/// The first proof in `[from, to)` that gives `b` a valid proof of work.
pub open spec fn first_valid_proof(b: BlockModel, from: int, to: int) -> Option<i32>
    decreases to - from,
{
    if from >= to {
        None
    } else if spec_has_valid_proof(BlockModel { proof: from as i32, ..b }) {
        Some(from as i32)
    } else {
        first_valid_proof(b, from + 1, to)
    }
}

/// One round of `findProof`: tries the next `miningRounds` proofs for the
/// current block; on a valid one, announces the block and takes it in as a
/// received block; else the current block keeps the next proof to try.
pub open spec fn find_step_spec(m: MinerModel, clock: spec_fn(nat) -> i64, k: nat) -> Option<
    (MinerModel, Seq<MessageModel>, nat),
> {
    match m.currentBlock {
        None => None,
        Some(cb) => if !fits_i32(cb.proof + m.miningRounds) {
            None
        } else {
            let pause = cb.proof + m.miningRounds;
            match first_valid_proof(cb, cb.proof as int, pause) {
                None => Some(
                    (
                        MinerModel {
                            currentBlock: Some(
                                BlockModel {
                                    proof: if cb.proof < pause {
                                        pause as i32
                                    } else {
                                        cb.proof
                                    },
                                    ..cb
                                },
                            ),
                            ..m
                        },
                        Seq::empty(),
                        k,
                    ),
                ),
                Some(p) => {
                    let b = BlockModel { proof: p, ..cb };
                    match miner_receive_spec(MinerModel { currentBlock: Some(b), ..m }, b, clock, k) {
                        None => None,
                        Some(r) => Some((r.0, seq![MessageModel::ProofFound(b)] + r.2, r.3)),
                    }
                },
            }
        },
    }
}

/// What `findProof(oneAndDone)` does: a round, then, while `oneAndDone` is
/// positive, `findProof(oneAndDone - 1)`.
pub open spec fn find_spec(m: MinerModel, oneAndDone: int, clock: spec_fn(nat) -> i64, k: nat) -> Option<
    (MinerModel, Seq<MessageModel>, nat),
>
    decreases oneAndDone,
{
    match find_step_spec(m, clock, k) {
        None => None,
        Some(r) => if oneAndDone > 0 {
            match find_spec(r.0, oneAndDone - 1, clock, r.2) {
                None => None,
                Some(q) => Some((q.0, r.1 + q.1, q.2)),
            }
        } else {
            Some(r)
        },
    }
}

/// What `initialize` does: a new block with no extra transactions, then
/// `findProof(3)`.
pub open spec fn initialize_spec(m: MinerModel, clock: spec_fn(nat) -> i64) -> Option<
    (MinerModel, Seq<MessageModel>, nat),
> {
    match search_spec(m, Seq::empty(), clock(0)) {
        None => None,
        Some(m1) => find_spec(m1, 3, clock, 1),
    }
}

impl ViewClone for miner {
    fn view_clone(&self) -> (res: miner) {
        let mut txs: Vec<transaction> = Vec::new();
        let n = self.transactions.len();
        for i in 0..n
            invariant
                n == self.transactions@.len(),
                txs@.len() == i,
                forall|j: int| 0 <= j < i ==> (#[trigger] txs@[j])@ == self.transactions@[j]@,
        {
            txs.push(self.transactions[i].view_clone());
        }
        let res = miner {
            miningRounds: self.miningRounds,
            transactions: txs,
            client: self.client.view_clone(),
            currentBlock: match &self.currentBlock {
                Some(b) => Some(b.view_clone()),
                None => None,
            },
            pow_target: self.pow_target,
        };
        assert(res@ =~= self@);
        res
    }
}

impl miner {
    /// A miner around a new client, with no transactions and no block yet.
    pub fn new(
        name: &str,
        startingBlock: Option<&block>,
        keyPair: (String, String),
        miningRounds: i32,
        pow_target: u64,
    ) -> (res: miner)
        ensures
            res@.client == spec_new_client(
                name@,
                match startingBlock {
                    Some(b) => Some(b@),
                    None => None,
                },
                (keyPair.0@, keyPair.1@),
            ),
            res@.miningRounds == miningRounds,
            res@.pow_target == pow_target,
            res@.transactions == Seq::<TxModel>::empty(),
            res@.currentBlock is None,
    {
        let c = client::new(name, startingBlock, keyPair);
        let res = miner { miningRounds, transactions: Vec::new(), client: c, currentBlock: None, pow_target };
        assert(res@.transactions =~= Seq::<TxModel>::empty());
        res
    }

    /// Adds a transaction to those waiting for the next block; says whether it
    /// was new.
    pub fn addTransaction(&mut self, tx: transaction) -> (res: bool)
        ensures
            final(self)@ == (MinerModel {
                transactions: set_insert(old(self)@.transactions, tx@),
                ..old(self)@
            }),
            res == !old(self)@.transactions.contains(tx@),
    {
        let r = tx_set_insert(&mut self.transactions, tx);
        assert(final(self)@ =~= (MinerModel {
            transactions: set_insert(old(self)@.transactions, tx@),
            ..old(self)@
        }));
        r
    }

    /// Posts a payment from the miner's client and keeps it for the next block;
    /// returns whether it was new, and the transaction for the network to
    /// broadcast.
    pub fn postTransaction(&mut self, outputs: Vec<(String, i32)>, fee: i32) -> (res: (bool, transaction))
        requires
            post_transaction_defined(old(self)@.client, outputs_view(outputs@), fee),
        ensures
            res.1@ == spec_client_tx(old(self)@.client, None, fee, outputs_view(outputs@), Seq::empty()),
            final(self)@.client == (ClientModel {
                pendingOutgoingTransactions: alist_set(
                    old(self)@.client.pendingOutgoingTransactions,
                    res.1@.id,
                    res.1@,
                ),
                nonce: (old(self)@.client.nonce + 1) as i32,
                ..old(self)@.client
            }),
            final(self)@.transactions == set_insert(old(self)@.transactions, res.1@),
            res.0 == !old(self)@.transactions.contains(res.1@),
            final(self)@.miningRounds == old(self)@.miningRounds,
            final(self)@.currentBlock == old(self)@.currentBlock,
            final(self)@.pow_target == old(self)@.pow_target,
    {
        let tx = self.client.postTransaction(outputs, fee);
        let added = self.addTransaction(tx.view_clone());
        (added, tx)
    }


    /// The transactions of the current chain that the chain of `nb` lacks
    /// (see `sync_spec`).
    pub fn syncTransactions(&mut self, nb: block) -> (res: Vec<transaction>)
        requires
            sync_spec(old(self)@, nb@) is Some,
        ensures
            final(self)@ == old(self)@,
            txs_view(res@) == sync_spec(old(self)@, nb@).unwrap(),
    {
        self.sync_inner(nb).unwrap()
    }

    /// `startNewSearch` at `timestamp`; false where it would panic.
    fn search_inner(&mut self, txSet: Vec<transaction>, timestamp: i64) -> (res: bool)
        ensures
            match search_spec(old(self)@, txs_view(txSet@), timestamp) {
                Some(m) => res && final(self)@ == m,
                None => !res,
            },
    {
        let (ok, _) = self.search_reporting(txSet, timestamp);
        ok
    }

    /// `search_inner`, also giving the refused transactions and why.
    fn search_reporting(&mut self, txSet: Vec<transaction>, timestamp: i64) -> (res: (
        bool,
        Vec<(String, TxRefusal)>,
    ))
        ensures
            match search_spec(old(self)@, txs_view(txSet@), timestamp) {
                Some(m) => res.0 && final(self)@ == m && refusals_view(res.1@) == search_refusals(
                    old(self)@,
                    txs_view(txSet@),
                    timestamp,
                ),
                None => !res.0,
            },
    {
        let ghost m0 = self@;
        let mut reasons: Vec<(String, TxRefusal)> = Vec::new();
        if !block::newBlockDefined(&self.client.lastBlock) {
            return (false, reasons);
        }
        let caddr = Some(self.client.address.clone());
        let lb = match &self.client.lastBlock {
            Some(b) => Some(b.view_clone()),
            None => None,
        };
        let mut cur = block::newAt(caddr, lb, self.pow_target, COINBASE_AMT_ALLOWED, timestamp);
        let ghost b0 = cur@;
        assert(refusals_view(reasons@) =~= Seq::<(Seq<char>, TxRefusal)>::empty());
        let n = txSet.len();
        let ghost ts = txs_view(txSet@);
        assert(ts.take(0) =~= Seq::<TxModel>::empty());
        for i in 0..n
            invariant
                n == ts.len(),
                ts == txs_view(txSet@),
                txs_view(self.transactions@) == set_insert_all(m0.transactions, ts.take(i as int)),
                self@ == (MinerModel { transactions: self@.transactions, ..m0 }),
        {
            assert(ts.take(i + 1).drop_last() =~= ts.take(i as int));
            tx_set_insert(&mut self.transactions, txSet[i].view_clone());
        }
        assert(ts.take(n as int) =~= ts);
        let ghost all = txs_view(self.transactions@);
        let k = self.transactions.len();
        assert(all.take(0) =~= Seq::<TxModel>::empty());
        let ghost want = search_spec(m0, ts, timestamp);
        assert(want == match apply_all_blocks(b0, all) {
            None => None,
            Some(b1) => Some(
                MinerModel {
                    currentBlock: Some(BlockModel { proof: 0, ..b1 }),
                    transactions: Seq::empty(),
                    ..m0
                },
            ),
        });
        for i in 0..k
            invariant
                want == match apply_all_blocks(b0, all) {
                    None => None,
                    Some(b1) => Some(
                        MinerModel {
                            currentBlock: Some(BlockModel { proof: 0, ..b1 }),
                            transactions: Seq::empty(),
                            ..m0
                        },
                    ),
                },
                want == search_spec(m0, ts, timestamp),
                ts == txs_view(txSet@),
                m0 == old(self)@,
                k == all.len(),
                all == txs_view(self.transactions@),
                apply_all_blocks(b0, all.take(i as int)) == Some(cur@),
                refusals_view(reasons@) == refusals_along(b0, all.take(i as int)),
        {
            assert(all.take(i + 1).drop_last() =~= all.take(i as int));
            let ghost before = cur@;
            let ghost tx = all[i as int];
            proof {
                crate::block::law_refused_transaction_changes_nothing(before, tx);
                crate::block::law_refusal_reason_matches_outcome(before, tx);
            }
            match cur.add_tx_inner(&self.transactions[i]) {
                None => {
                    proof {
                        lemma_apply_all_none(b0, all, i + 1);
                    }
                    return (false, reasons);
                },
                Some(accepted) => {
                    if !accepted {
                        let r = cur.refusal_of(&self.transactions[i]);
                        match r {
                            Some(why) => {
                                let ghost rv = reasons@;
                                reasons.push((self.transactions[i].id.clone(), why));
                                assert(refusals_view(reasons@) =~= refusals_view(rv).push((tx.id, why)));
                            },
                            None => {},
                        }
                    }
                },
            }
        }
        assert(all.take(k as int) =~= all);
        self.transactions = Vec::new();
        cur.proof = 0;
        self.currentBlock = Some(cur);
        assert(final(self)@ =~= search_spec(m0, ts, timestamp).unwrap());
        (true, reasons)
    }

    /// Starts a new block at `timestamp` (see `search_spec`).
    pub fn startNewSearchAt(&mut self, txSet: Vec<transaction>, timestamp: i64)
        requires
            search_spec(old(self)@, txs_view(txSet@), timestamp) is Some,
        ensures
            final(self)@ == search_spec(old(self)@, txs_view(txSet@), timestamp).unwrap(),
    {
        let ok = self.search_inner(txSet, timestamp);
    }

    /// `startNewSearch`, saying which transactions the new block refused and
    /// why; `None`, with the miner unchanged, where it would panic at the
    /// clock's reading.
    pub fn tryStartNewSearch(&mut self, txSet: Vec<transaction>) -> (res: Option<Vec<(String, TxRefusal)>>)
        ensures
            match res {
                Some(v) => final(self)@.currentBlock matches Some(b) && search_spec(
                    old(self)@,
                    txs_view(txSet@),
                    b.timestamp,
                ) == Some(final(self)@) && refusals_view(v@) == search_refusals(
                    old(self)@,
                    txs_view(txSet@),
                    b.timestamp,
                ),
                None => final(self)@ == old(self)@ && exists|t: i64| #[trigger] search_spec(
                    old(self)@,
                    txs_view(txSet@),
                    t,
                ) is None,
            },
    {
        let ghost ts = txs_view(txSet@);
        let t = crate::block::now_timestamp();
        let mut copy = self.view_clone();
        let (ok, reasons) = copy.search_reporting(txSet, t);
        if !ok {
            assert(search_spec(old(self)@, ts, t) is None);
            return None;
        }
        proof {
            lemma_search_timestamp(old(self)@, ts, t);
        }
        *self = copy;
        Some(reasons)
    }

    /// Starts a new block now: the block's timestamp is the clock's reading.
    pub fn startNewSearch(&mut self, txSet: Vec<transaction>)
        requires
            forall|t: i64| #[trigger] search_spec(old(self)@, txs_view(txSet@), t) is Some,
        ensures
            final(self)@.currentBlock matches Some(b) && search_spec(
                old(self)@,
                txs_view(txSet@),
                b.timestamp,
            ) == Some(final(self)@),
    {
        let t = crate::block::now_timestamp();
        assert(search_spec(old(self)@, txs_view(txSet@), t) is Some);
        self.startNewSearchAt(txSet, t);
        proof {
            let m = search_spec(old(self)@, txs_view(txSet@), t).unwrap();
            assert(m.currentBlock.unwrap().timestamp == t) by {
                lemma_search_timestamp(old(self)@, txs_view(txSet@), t);
            }
        }
    }


    /// The miner's `receiveBlock`, reading the clock at most once; `None`
    /// where it would panic. The readings taken are returned.
    fn receive_inner(&mut self, s: block, Ghost(k): Ghost<nat>) -> (res: (
        Option<(Option<block>, Vec<NetMessage>)>,
        Ghost<Seq<i64>>,
    ))
        ensures
            forall|clock: spec_fn(nat) -> i64|
                clock_agrees(clock, k, res.1@) ==> match #[trigger] miner_receive_spec(
                    old(self)@,
                    s@,
                    clock,
                    k,
                ) {
                    None => res.0 is None,
                    Some(r) => res.0 matches Some(p) && final(self)@ == r.0 && opt_block_view(p.0)
                        == r.1 && msgs_view(p.1@) == r.2 && r.3 == k + res.1@.len(),
                },
    {
        let ghost m0 = self@;
        let ghost sv = s@;
        let fuel_ok = self.client.tryReceiveBlock(s);
        let (b, msgs) = match fuel_ok {
            None => return (None, Ghost(Seq::empty())),
            Some(r) => r,
        };
        let ghost m1 = self@;
        let nb = match b {
            None => return (Some((None, msgs)), Ghost(Seq::empty())),
            Some(nb) => nb,
        };
        let cut = match &self.currentBlock {
            None => false,
            Some(cb) => nb.chainLength >= cb.chainLength,
        };
        if !cut {
            return (Some((Some(nb), msgs)), Ghost(Seq::empty()));
        }
        let txSet = match self.sync_inner(nb.view_clone()) {
            None => return (None, Ghost(Seq::empty())),
            Some(t) => t,
        };
        let t = crate::block::now_timestamp();
        let ghost rd = seq![t];
        if !self.search_inner(txSet, t) {
            assert forall|clock: spec_fn(nat) -> i64| clock_agrees(clock, k, rd) implies #[trigger] miner_receive_spec(m0, sv, clock, k) is None by {
                assert(clock((k + 0) as nat) == rd[0]);
            }
            return (None, Ghost(rd));
        }
        assert forall|clock: spec_fn(nat) -> i64| clock_agrees(clock, k, rd) implies match #[trigger] miner_receive_spec(m0, sv, clock, k) {
            None => false,
            Some(r) => self@ == r.0 && Some(nb@) == r.1 && msgs_view(msgs@) == r.2 && r.3 == k + rd.len(),
        } by {
            assert(clock((k + 0) as nat) == rd[0]);
        }
        (Some((Some(nb), msgs)), Ghost(rd))
    }

    /// Takes in a block through the client and, when the client stores a block
    /// at least as long as the current one, moves to the new chain (see
    /// `miner_receive_spec`); the clock is read when it moves.
    pub fn receiveBlock(&mut self, s: block) -> (res: (Option<block>, Vec<NetMessage>))
        requires
            forall|clock: spec_fn(nat) -> i64| #[trigger] miner_receive_spec(old(self)@, s@, clock, 0) is Some,
        ensures
            exists|clock: spec_fn(nat) -> i64| #[trigger] miner_receive_spec(old(self)@, s@, clock, 0) matches Some(r) && final(self)@
                == r.0 && opt_block_view(res.0) == r.1 && msgs_view(res.1@) == r.2,
    {
        let ghost m0 = self@;
        let ghost sv = s@;
        let (r, Ghost(rd)) = self.receive_inner(s, Ghost(0));
        proof {
            let w = clock_of(rd);
            assert(clock_agrees(w, 0, rd));
            assert(miner_receive_spec(m0, sv, w, 0) is Some);
        }
        r.unwrap()
    }


    /// The miner's `receiveBlock`, or `None` where it would panic for the
    /// clock's reading (the miner is then left as it was).
    pub fn tryReceiveBlock(&mut self, s: block) -> (res: Option<(Option<block>, Vec<NetMessage>)>)
        ensures
            exists|clock: spec_fn(nat) -> i64| match #[trigger] miner_receive_spec(old(self)@, s@, clock, 0) {
                Some(r) => res matches Some(p) && final(self)@ == r.0 && opt_block_view(p.0) == r.1
                    && msgs_view(p.1@) == r.2,
                None => res is None && final(self)@ == old(self)@,
            },
    {
        let ghost m0 = self@;
        let ghost sv = s@;
        let mut copy = self.view_clone();
        let (r, Ghost(rd)) = copy.receive_inner(s, Ghost(0));
        proof {
            let w = clock_of(rd);
            assert(clock_agrees(w, 0, rd));
            assert(miner_receive_spec(m0, sv, w, 0) == miner_receive_spec(m0, sv, w, 0));
        }
        if r.is_some() {
            *self = copy;
        }
        r
    }

    /// `initialize`, or `None` where it would panic for the clock's readings
    /// (the miner is then left as it was).
    pub fn tryInitialize(&mut self) -> (res: Option<Vec<NetMessage>>)
        ensures
            exists|clock: spec_fn(nat) -> i64| match #[trigger] initialize_spec(old(self)@, clock) {
                Some(r) => res matches Some(msgs) && final(self)@ == r.0 && msgs_view(msgs@) == r.1,
                None => res is None && final(self)@ == old(self)@,
            },
    {
        let ghost m0 = self@;
        let mut copy = self.view_clone();
        let t = crate::block::now_timestamp();
        assert(txs_view(Seq::<transaction>::empty()) =~= Seq::<TxModel>::empty());
        if !copy.search_inner(Vec::new(), t) {
            proof {
                let w = |i: nat| t;
                assert(initialize_spec(m0, w) is None);
            }
            return None;
        }
        let (r, Ghost(rd)) = copy.find_inner(3, Ghost(1));
        proof {
            let w = clock_of(seq![t] + rd);
            assert(clock_agrees(w, 1, rd)) by {
                assert forall|i: int| 0 <= i < rd.len() implies w((1 + i) as nat) == #[trigger] rd[i] by {
                    assert((seq![t] + rd)[1 + i] == rd[i]);
                }
            }
            assert(w(0) == t);
            assert(initialize_spec(m0, w) == initialize_spec(m0, w));
        }
        if r.is_some() {
            *self = copy;
        }
        r
    }

    /// The message that announces the current block.
    pub fn announceProof(&mut self) -> (res: NetMessage)
        requires
            old(self)@.currentBlock is Some,
        ensures
            final(self)@ == old(self)@,
            res@ == MessageModel::ProofFound(old(self)@.currentBlock.unwrap()),
    {
        match &self.currentBlock {
            Some(b) => NetMessage::ProofFound(b.view_clone()),
            None => vstd::pervasive::unreached(),
        }
    }


    /// One round of mining (see `find_step_spec`); `None` where it would panic.
    fn find_step_inner(&mut self, Ghost(k): Ghost<nat>) -> (res: (Option<Vec<NetMessage>>, Ghost<Seq<i64>>))
        ensures
            forall|clock: spec_fn(nat) -> i64|
                clock_agrees(clock, k, res.1@) ==> match #[trigger] find_step_spec(old(self)@, clock, k) {
                    None => res.0 is None,
                    Some(r) => res.0 matches Some(msgs) && final(self)@ == r.0 && msgs_view(msgs@) == r.1
                        && r.2 == k + res.1@.len(),
                },
    {
        let ghost m0 = self@;
        let (proof0, rounds_ok) = match &self.currentBlock {
            None => return (None, Ghost(Seq::empty())),
            Some(cb) => (cb.proof, cb.proof as i64 + self.miningRounds as i64),
        };
        if rounds_ok < i32::MIN as i64 || rounds_ok > i32::MAX as i64 {
            return (None, Ghost(Seq::empty()));
        }
        let pausePoint = rounds_ok as i32;
        let mut cur = match &self.currentBlock {
            Some(cb) => cb.view_clone(),
            None => return (None, Ghost(Seq::empty())),
        };
        let ghost cb0 = cur@;
        let mut found = false;
        while cur.proof < pausePoint
            invariant_except_break
                !found,
            invariant
                cur@ == (BlockModel { proof: cur.proof, ..cb0 }),
                cb0.proof <= cur.proof,
                cur.proof <= pausePoint || cur.proof == cb0.proof,
                first_valid_proof(cb0, cb0.proof as int, pausePoint as int)
                    == first_valid_proof(cb0, cur.proof as int, pausePoint as int),
            ensures
                !found ==> first_valid_proof(cb0, cb0.proof as int, pausePoint as int) is None
                    && (cur.proof == if cb0.proof < pausePoint {
                    pausePoint
                } else {
                    cb0.proof
                }),
                found ==> first_valid_proof(cb0, cb0.proof as int, pausePoint as int) == Some(cur.proof),
                cur@ == (BlockModel { proof: cur.proof, ..cb0 }),
            decreases pausePoint - cur.proof,
        {
            if cur.hasValidProof() {
                assert(cur@ == (BlockModel { proof: (cur.proof as int) as i32, ..cb0 }));
                assert(first_valid_proof(cb0, cur.proof as int, pausePoint as int) == Some(cur.proof));
                found = true;
                break;
            }
            cur.proof = cur.proof + 1;
        }
        if !found {
            self.currentBlock = Some(cur);
            assert forall|clock: spec_fn(nat) -> i64| clock_agrees(clock, k, Seq::<i64>::empty()) implies match #[trigger] find_step_spec(m0, clock, k) {
                None => false,
                Some(r) => self@ == r.0 && msgs_view(no_msgs_seq()) == r.1 && r.2 == k,
            } by {
                assert(self@ =~= find_step_spec(m0, clock, k).unwrap().0);
            }
            return (Some(no_msgs()), Ghost(Seq::empty()));
        }
        let ghost b = cur@;
        self.currentBlock = Some(cur.view_clone());
        let mut msgs: Vec<NetMessage> = Vec::new();
        msgs.push(NetMessage::ProofFound(cur.view_clone()));
        let ghost m1 = self@;
        assert(m1 == MinerModel { currentBlock: Some(b), ..m0 });
        let (r, Ghost(rd)) = self.receive_inner(cur, Ghost(k));
        match r {
            None => {
                return (None, Ghost(rd));
            },
            Some((_, more)) => {
                let ghost m0v = msgs_view(msgs@);
                append_msgs(&mut msgs, more);
                assert(m0v =~= seq![MessageModel::ProofFound(b)]);
                return (Some(msgs), Ghost(rd));
            },
        }
    }


    /// `findProof`; `None` where it would panic. The readings taken are returned.
    fn find_inner(&mut self, oneAndDone: i32, Ghost(k): Ghost<nat>) -> (res: (
        Option<Vec<NetMessage>>,
        Ghost<Seq<i64>>,
    ))
        ensures
            forall|clock: spec_fn(nat) -> i64|
                clock_agrees(clock, k, res.1@) ==> match #[trigger] find_spec(
                    old(self)@,
                    oneAndDone as int,
                    clock,
                    k,
                ) {
                    None => res.0 is None,
                    Some(r) => res.0 matches Some(msgs) && final(self)@ == r.0 && msgs_view(msgs@) == r.1
                        && r.2 == k + res.1@.len(),
                },
        decreases oneAndDone,
    {
        let ghost m0 = self@;
        let (r1, Ghost(rd1)) = self.find_step_inner(Ghost(k));
        let mut msgs = match r1 {
            None => {
                assert forall|clock: spec_fn(nat) -> i64| clock_agrees(clock, k, rd1) implies #[trigger] find_spec(m0, oneAndDone as int, clock, k) is None by {
                    assert(find_step_spec(m0, clock, k) is None);
                }
                return (None, Ghost(rd1));
            },
            Some(m) => m,
        };
        if oneAndDone <= 0 {
            assert forall|clock: spec_fn(nat) -> i64| clock_agrees(clock, k, rd1) implies match #[trigger] find_spec(m0, oneAndDone as int, clock, k) {
                None => false,
                Some(r) => self@ == r.0 && msgs_view(msgs@) == r.1 && r.2 == k + rd1.len(),
            } by {
                assert(find_step_spec(m0, clock, k) is Some);
            }
            return (Some(msgs), Ghost(rd1));
        }
        let ghost m1 = self@;
        let ghost k1 = k + rd1.len();
        let ghost msgs1 = msgs_view(msgs@);
        let (r2, Ghost(rd2)) = self.find_inner(oneAndDone - 1, Ghost(k1));
        let ghost rd = rd1 + rd2;
        assert forall|clock: spec_fn(nat) -> i64| clock_agrees(clock, k, rd) implies clock_agrees(clock, k, rd1) && clock_agrees(clock, k1, rd2) by {
            assert forall|i: int| 0 <= i < rd1.len() implies clock((k + i) as nat) == #[trigger] rd1[i] by {
                assert(rd[i] == rd1[i]);
            }
            assert forall|i: int| 0 <= i < rd2.len() implies clock((k1 + i) as nat) == #[trigger] rd2[i] by {
                assert(rd[rd1.len() + i] == rd2[i]);
                assert(clock((k + (rd1.len() + i)) as nat) == rd[rd1.len() + i]);
            }
        }
        match r2 {
            None => {
                assert forall|clock: spec_fn(nat) -> i64| clock_agrees(clock, k, rd) implies #[trigger] find_spec(m0, oneAndDone as int, clock, k) is None by {
                    assert(clock_agrees(clock, k, rd1) && clock_agrees(clock, k1, rd2));
                    assert(find_step_spec(m0, clock, k) is Some);
                    assert(find_spec(m1, oneAndDone - 1, clock, k1) is None);
                }
                (None, Ghost(rd))
            },
            Some(more) => {
                append_msgs(&mut msgs, more);
                assert forall|clock: spec_fn(nat) -> i64| clock_agrees(clock, k, rd) implies match #[trigger] find_spec(m0, oneAndDone as int, clock, k) {
                    None => false,
                    Some(r) => self@ == r.0 && msgs_view(msgs@) == r.1 && r.2 == k + rd.len(),
                } by {
                    assert(clock_agrees(clock, k, rd1) && clock_agrees(clock, k1, rd2));
                    assert(find_step_spec(m0, clock, k) is Some);
                    assert(find_spec(m1, oneAndDone - 1, clock, k1) is Some);
                }
                (Some(msgs), Ghost(rd))
            },
        }
    }

    /// Mines: tries the next `miningRounds` proofs for the current block,
    /// announcing it and taking it in when one is valid; then, while
    /// `oneAndDone` is positive, mines again with one less. Returns the
    /// messages to send.
    pub fn findProof(&mut self, oneAndDone: i32) -> (res: Vec<NetMessage>)
        requires
            forall|clock: spec_fn(nat) -> i64| #[trigger] find_spec(old(self)@, oneAndDone as int, clock, 0) is Some,
        ensures
            exists|clock: spec_fn(nat) -> i64| #[trigger] find_spec(old(self)@, oneAndDone as int, clock, 0) matches Some(r)
                && final(self)@ == r.0 && msgs_view(res@) == r.1,
    {
        let ghost m0 = self@;
        let (r, Ghost(rd)) = self.find_inner(oneAndDone, Ghost(0));
        proof {
            let w = clock_of(rd);
            assert(clock_agrees(w, 0, rd));
            assert(find_spec(m0, oneAndDone as int, w, 0) is Some);
        }
        r.unwrap()
    }

    /// `findProof`, or `None` where it would panic for the clock's readings
    /// (the miner is then left as it was).
    pub fn tryFindProof(&mut self, oneAndDone: i32) -> (res: Option<Vec<NetMessage>>)
        ensures
            exists|clock: spec_fn(nat) -> i64| match #[trigger] find_spec(old(self)@, oneAndDone as int, clock, 0) {
                Some(r) => res matches Some(msgs) && final(self)@ == r.0 && msgs_view(msgs@) == r.1,
                None => res is None && final(self)@ == old(self)@,
            },
    {
        let ghost m0 = self@;
        let mut copy = self.view_clone();
        let (r, Ghost(rd)) = copy.find_inner(oneAndDone, Ghost(0));
        proof {
            let w = clock_of(rd);
            assert(clock_agrees(w, 0, rd));
            assert(find_spec(m0, oneAndDone as int, w, 0) == find_spec(m0, oneAndDone as int, w, 0));
        }
        if r.is_some() {
            *self = copy;
        }
        r
    }

    /// Starts a first block, then mines it with `findProof(3)`.
    pub fn initialize(&mut self) -> (res: Vec<NetMessage>)
        requires
            forall|clock: spec_fn(nat) -> i64| #[trigger] initialize_spec(old(self)@, clock) is Some,
        ensures
            exists|clock: spec_fn(nat) -> i64| #[trigger] initialize_spec(old(self)@, clock) matches Some(r)
                && final(self)@ == r.0 && msgs_view(res@) == r.1,
    {
        let ghost m0 = self@;
        let t = crate::block::now_timestamp();
        let ok = self.search_inner(Vec::new(), t);
        let ghost m1 = self@;
        proof {
            let w0 = |i: nat| t;
            assert(initialize_spec(m0, w0) is Some);
            assert(txs_view(Seq::<transaction>::empty()) =~= Seq::<TxModel>::empty());
        }
        let (r, Ghost(rd)) = self.find_inner(3, Ghost(1));
        proof {
            let w = clock_of(seq![t] + rd);
            assert(clock_agrees(w, 1, rd)) by {
                assert forall|i: int| 0 <= i < rd.len() implies w((1 + i) as nat) == #[trigger] rd[i] by {
                    assert((seq![t] + rd)[1 + i] == rd[i]);
                }
            }
            assert(w(0) == t);
            assert(initialize_spec(m0, w) is Some);
        }
        r.unwrap()
    }

    /// `syncTransactions`, or `None` where it would panic or not end.
    fn sync_inner(&self, newBlock: block) -> (res: Option<Vec<transaction>>)
        ensures
            match sync_spec(self@, newBlock@) {
                Some(s) => res matches Some(v) && txs_view(v@) == s,
                None => res is None,
            },
    {
        let cb_len = match &self.currentBlock {
            None => return None,
            Some(cb) => cb.chainLength,
        };
        let ghost blocks = self@.client.blocks;
        let ghost cb0 = self@.currentBlock.unwrap();
        let ghost spec_res = sync_spec(self@, newBlock@);
        let n = self.client.blocks.len();
        let mut fuel: usize = n;
        let mut nb = newBlock;
        let mut nbTxs: Vec<transaction> = Vec::new();
        let ghost nb0 = nb@;
        let ghost up = sync_up(blocks, cb_len as int, nb@, Seq::empty(), sync_up_fuel(blocks.len()));
        assert(txs_view(nbTxs@) =~= Seq::<TxModel>::empty());
        while nb.chainLength > cb_len
            invariant
                blocks == self@.client.blocks,
                self@.currentBlock == Some(cb0),
                cb0.chainLength == cb_len,
                spec_res == sync_spec(self@, nb0),
                nb0 == newBlock@,
                spec_res == match up {
                    None => None,
                    Some(p) => match sync_across(
                        blocks,
                        Some(cb0),
                        p.0,
                        Seq::empty(),
                        p.1,
                        sync_across_fuel(blocks.len()),
                    ) {
                        None => None,
                        Some(q) => Some(set_remove_all(q.0, q.1)),
                    },
                },
                up == sync_up(blocks, cb_len as int, nb@, txs_view(nbTxs@), fuel as nat),
            decreases fuel,
        {
            if fuel == 0 {
                return None;
            }
            add_block_txs_exec(&mut nbTxs, &nb);
            let ph = match &nb.prevBlockHash {
                None => return None,
                Some(ph) => ph.clone(),
            };
            let next = match self.client.blocks.get(ph.as_str()) {
                None => return None,
                Some(p) => p.view_clone(),
            };
            nb = next;
            fuel = fuel - 1;
        }
        assert(up == Some((nb@, txs_view(nbTxs@))));
        let mut cb: Option<block> = match &self.currentBlock {
            None => None,
            Some(c) => Some(c.view_clone()),
        };
        let mut cbTxs: Vec<transaction> = Vec::new();
        assert(txs_view(cbTxs@) =~= Seq::<TxModel>::empty());
        let m = n as u128;
        assert(m * (m + 1) <= u128::MAX) by (nonlinear_arith)
            requires
                m <= 0xffff_ffff_ffff_ffff,
        ;
        let cap: u128 = m * (m + 1);
        assert(cap == sync_across_fuel(blocks.len()));
        let ghost across = sync_across(
            blocks,
            opt_block_view(cb),
            nb@,
            Seq::empty(),
            txs_view(nbTxs@),
            sync_across_fuel(blocks.len()),
        );
        let mut fuel2: u128 = cap;
        loop
            invariant
                blocks == self@.client.blocks,
                across == sync_across(
                    blocks,
                    opt_block_view(cb),
                    nb@,
                    txs_view(cbTxs@),
                    txs_view(nbTxs@),
                    fuel2 as nat,
                ),
                spec_res == sync_spec(self@, nb0),
                nb0 == newBlock@,
                spec_res == match across {
                    None => None,
                    Some(q) => Some(set_remove_all(q.0, q.1)),
                },
            ensures
                across == Some((txs_view(cbTxs@), txs_view(nbTxs@))),
            decreases fuel2,
        {
            let stop = match &cb {
                None => true,
                Some(c) => c.id == nb.id,
            };
            if stop {
                break;
            }
            if fuel2 == 0 {
                return None;
            }
            let c = match cb {
                None => return None,
                Some(c) => c,
            };
            add_block_txs_exec(&mut cbTxs, &c);
            add_block_txs_exec(&mut nbTxs, &nb);
            let cph = match &c.prevBlockHash {
                None => return None,
                Some(h) => h.clone(),
            };
            let nph = match &nb.prevBlockHash {
                None => return None,
                Some(h) => h.clone(),
            };
            let n2 = match self.client.blocks.get(nph.as_str()) {
                None => return None,
                Some(p) => p.view_clone(),
            };
            cb = match self.client.blocks.get(cph.as_str()) {
                None => None,
                Some(p) => Some(p.view_clone()),
            };
            nb = n2;
            fuel2 = fuel2 - 1;
        }
        let mut res = cbTxs;
        let k = nbTxs.len();
        let ghost cv = txs_view(res@);
        let ghost nv = txs_view(nbTxs@);
        assert(nv.take(0) =~= Seq::<TxModel>::empty());
        for i in 0..k
            invariant
                k == nv.len(),
                nv == txs_view(nbTxs@),
                txs_view(res@) == set_remove_all(cv, nv.take(i as int)),
        {
            assert(nv.take(i + 1).drop_last() =~= nv.take(i as int));
            res = tx_set_remove(&res, &nbTxs[i]);
        }
        assert(nv.take(k as int) =~= nv);
        Some(res)
    }
}

} // verus!

verus! {

/// The waiting transactions form a set: a transaction that is added again is
/// not added twice.
pub proof fn law_transactions_form_a_set(s: Seq<TxModel>, t: TxModel)
    ensures
        set_insert(s, t).contains(t),
        set_insert(set_insert(s, t), t) == set_insert(s, t),
{
    if !s.contains(t) {
        assert(s.push(t)[s.len() as int] == t);
    }
}

/// The proof that the search finds gives the block a valid proof of work, and
/// lies in the searched range.
proof fn lemma_first_valid_proof(b: BlockModel, from: int, to: int)
    requires
        i32::MIN <= from,
        to <= i32::MAX + 1,
    ensures
        first_valid_proof(b, from, to) matches Some(p) ==> from <= p < to
            && spec_has_valid_proof(BlockModel { proof: p, ..b }),
    decreases to - from,
{
    if from < to && !spec_has_valid_proof(BlockModel { proof: from as i32, ..b }) {
        lemma_first_valid_proof(b, from + 1, to);
    }
}

/// A block that a miner announces has a valid proof of work.
pub proof fn law_announced_block_has_valid_proof(m: MinerModel, clock: spec_fn(nat) -> i64, k: nat)
    ensures
        find_step_spec(m, clock, k) matches Some(r) ==> (r.1.len() > 0 ==> (r.1[0] matches MessageModel::ProofFound(b) && spec_has_valid_proof(b))),
{
    if let Some(cb) = m.currentBlock {
        if fits_i32(cb.proof + m.miningRounds) {
            lemma_first_valid_proof(cb, cb.proof as int, cb.proof + m.miningRounds);
        }
    }
}

/// A block that a miner starts on its client's last block, with whatever
/// proof it later finds, passes the rerun that receivers make on that last
/// block, unchanged.
pub proof fn law_mined_block_passes_rerun(m: MinerModel, txSet: Seq<TxModel>, timestamp: i64, proof: i32)
    requires
        m.client.lastBlock is Some,
        search_spec(m, txSet, timestamp) is Some,
    ensures
        ({
            let b = BlockModel { proof, ..search_spec(m, txSet, timestamp).unwrap().currentBlock.unwrap() };
            crate::block::rerun_outcome(b, m.client.lastBlock.unwrap()) == Some((b, true))
        }),
{
    crate::block::law_built_block_passes_rerun(
        Some(m.client.address),
        m.client.lastBlock.unwrap(),
        m.pow_target,
        COINBASE_AMT_ALLOWED,
        timestamp,
        set_insert_all(m.transactions, txSet),
        proof,
    );
}


/// A step of the first walk: on to the previous block, gathering the
/// transactions of the block left.
pub open spec fn up_step(blocks: Seq<(Seq<char>, BlockModel)>) -> spec_fn((BlockModel, Seq<TxModel>)) -> Option<
    (BlockModel, Seq<TxModel>),
> {
    |s: (BlockModel, Seq<TxModel>)| match s.0.prevBlockHash {
        None => None,
        Some(ph) => match alist_get(blocks, ph) {
            None => None,
            Some(p) => Some((p, add_block_txs(s.1, s.0.transactions))),
        },
    }
}

/// `sync_up` is a walk along `up_step`.
proof fn lemma_sync_up_is_walk(
    blocks: Seq<(Seq<char>, BlockModel)>,
    cb_len: int,
    nb: BlockModel,
    t: Seq<TxModel>,
    fuel: nat,
)
    ensures
        sync_up(blocks, cb_len, nb, t, fuel) == walk(
            up_step(blocks),
            |s: (BlockModel, Seq<TxModel>)| s.0.chainLength <= cb_len,
            (nb, t),
            fuel,
        ),
    decreases fuel,
{
    if nb.chainLength > cb_len && fuel > 0 {
        if let Some(ph) = nb.prevBlockHash {
            if let Some(p) = alist_get(blocks, ph) {
                lemma_sync_up_is_walk(blocks, cb_len, p, add_block_txs(t, nb.transactions), (fuel - 1) as nat);
            }
        }
    }
}

/// The first walk of `syncTransactions` ends, where it ends at all, within
/// as many steps as there are blocks, the same way: a longer walk goes round a
/// cycle of links for ever.
pub proof fn law_sync_up_suffices(
    blocks: Seq<(Seq<char>, BlockModel)>,
    cb_len: int,
    nb: BlockModel,
    t: Seq<TxModel>,
    f: nat,
)
    ensures
        sync_up(blocks, cb_len, nb, t, f) is Some ==> sync_up(blocks, cb_len, nb, t, sync_up_fuel(blocks.len()))
            == sync_up(blocks, cb_len, nb, t, f),
{
    if sync_up(blocks, cb_len, nb, t, f) is Some {
        let n = blocks.len();
        let stop = |s: (BlockModel, Seq<TxModel>)| s.0.chainLength <= cb_len;
        let key = |s: (BlockModel, Seq<TxModel>)| block_class(blocks)(s.0);
        lemma_sync_up_is_walk(blocks, cb_len, nb, t, f);
        lemma_sync_up_is_walk(blocks, cb_len, nb, t, n);
        lemma_block_class(blocks);
        assert forall|x: (BlockModel, Seq<TxModel>), y: (BlockModel, Seq<TxModel>)|
            0 <= #[trigger] key(x) < n && key(x) == #[trigger] key(y) implies stop(x) == stop(y) && (up_step(
            blocks,
        )(x) is Some) == (up_step(blocks)(y) is Some) && (up_step(blocks)(x) is Some ==> key(
            up_step(blocks)(x).unwrap(),
        ) == key(up_step(blocks)(y).unwrap())) by {
            assert(block_class(blocks)(x.0) == block_class(blocks)(y.0));
        }
        assert forall|x: (BlockModel, Seq<TxModel>)| (#[trigger] up_step(blocks)(x)) is Some implies 0 <= key(
            up_step(blocks)(x).unwrap(),
        ) < n by {
            let ph = x.0.prevBlockHash.unwrap();
            assert(alist_get(blocks, ph) is Some);
        }
        lemma_walk_suffices(up_step(blocks), stop, key, n, (nb, t), f, n);
    }
}

/// The state of the second walk: the current chain's block (or none), the
/// new chain's block, and the transactions gathered from each.
pub type AcrossState = (Option<BlockModel>, BlockModel, Seq<TxModel>, Seq<TxModel>);

/// A step of the second walk: both chains back by one block, gathering the
/// transactions of the blocks left.
pub open spec fn across_step(blocks: Seq<(Seq<char>, BlockModel)>) -> spec_fn(AcrossState) -> Option<AcrossState> {
    |s: AcrossState| match s.0 {
        None => None,
        Some(c) => match c.prevBlockHash {
            None => None,
            Some(cph) => match s.1.prevBlockHash {
                None => None,
                Some(nph) => match alist_get(blocks, nph) {
                    None => None,
                    Some(n2) => Some(
                        (
                            alist_get(blocks, cph),
                            n2,
                            add_block_txs(s.2, c.transactions),
                            add_block_txs(s.3, s.1.transactions),
                        ),
                    ),
                },
            },
        },
    }
}

/// Where the second walk stops: the current chain ends, or meets the new one.
pub open spec fn across_stop() -> spec_fn(AcrossState) -> bool {
    |s: AcrossState| match s.0 {
        None => true,
        Some(c) => c.id == s.1.id,
    }
}

/// `sync_across` is a walk along `across_step`.
proof fn lemma_sync_across_is_walk(
    blocks: Seq<(Seq<char>, BlockModel)>,
    cb: Option<BlockModel>,
    nb: BlockModel,
    ct: Seq<TxModel>,
    nt: Seq<TxModel>,
    fuel: nat,
)
    ensures
        sync_across(blocks, cb, nb, ct, nt, fuel) == match walk(
            across_step(blocks),
            across_stop(),
            (cb, nb, ct, nt),
            fuel,
        ) {
            None => None,
            Some(s) => Some((s.2, s.3)),
        },
    decreases fuel,
{
    if let Some(c) = cb {
        if c.id != nb.id && fuel > 0 {
            if let (Some(cph), Some(nph)) = (c.prevBlockHash, nb.prevBlockHash) {
                if let Some(n2) = alist_get(blocks, nph) {
                    lemma_sync_across_is_walk(
                        blocks,
                        alist_get(blocks, cph),
                        n2,
                        add_block_txs(ct, c.transactions),
                        add_block_txs(nt, nb.transactions),
                        (fuel - 1) as nat,
                    );
                }
            }
        }
    }
}

/// The place of the current chain's block: 0 for none, else one more than
/// its place among the known blocks (or -1).
pub open spec fn opt_class(blocks: Seq<(Seq<char>, BlockModel)>, o: Option<BlockModel>) -> int {
    match o {
        None => 0,
        Some(c) => if block_class(blocks)(c) >= 0 {
            block_class(blocks)(c) + 1
        } else {
            -1
        },
    }
}

/// The class of a state of the second walk: its pair of places, as one
/// number below `n * (n + 1)`, or -1.
pub open spec fn across_class(blocks: Seq<(Seq<char>, BlockModel)>) -> spec_fn(AcrossState) -> int {
    |s: AcrossState|
        if block_class(blocks)(s.1) >= 0 && opt_class(blocks, s.0) >= 0 {
            block_class(blocks)(s.1) * (blocks.len() + 1) + opt_class(blocks, s.0)
        } else {
            -1
        }
}

/// A pair of places is found again from its number.
proof fn lemma_pair_unique(a: int, b: int, c: int, d: int, n: int)
    requires
        0 <= a,
        0 <= c,
        0 <= b <= n,
        0 <= d <= n,
        a * (n + 1) + b == c * (n + 1) + d,
    ensures
        a == c,
        b == d,
{
    assert(a == c) by (nonlinear_arith)
        requires
            0 <= b <= n,
            0 <= d <= n,
            a * (n + 1) + b == c * (n + 1) + d,
    {
        if a < c {
            assert(a * (n + 1) + (n + 1) <= c * (n + 1));
        } else if a > c {
            assert(c * (n + 1) + (n + 1) <= a * (n + 1));
        }
    }
}

/// The second walk of `syncTransactions` ends, where it ends at all, within
/// `sync_across_fuel` steps, the same way: a longer walk goes round a cycle of
/// links for ever.
pub proof fn law_sync_across_suffices(
    blocks: Seq<(Seq<char>, BlockModel)>,
    cb: Option<BlockModel>,
    nb: BlockModel,
    ct: Seq<TxModel>,
    nt: Seq<TxModel>,
    f: nat,
)
    ensures
        sync_across(blocks, cb, nb, ct, nt, f) is Some ==> sync_across(
            blocks,
            cb,
            nb,
            ct,
            nt,
            sync_across_fuel(blocks.len()),
        ) == sync_across(blocks, cb, nb, ct, nt, f),
{
    if sync_across(blocks, cb, nb, ct, nt, f) is Some {
        let n = blocks.len();
        let m = sync_across_fuel(n);
        let next = across_step(blocks);
        let stop = across_stop();
        let key = across_class(blocks);
        lemma_sync_across_is_walk(blocks, cb, nb, ct, nt, f);
        lemma_sync_across_is_walk(blocks, cb, nb, ct, nt, m);
        lemma_block_class(blocks);
        assert forall|x: AcrossState, y: AcrossState|
            0 <= #[trigger] key(x) < m && key(x) == #[trigger] key(y) implies stop(x) == stop(y) && (next(x) is Some)
            == (next(y) is Some) && (next(x) is Some ==> key(next(x).unwrap()) == key(next(y).unwrap())) by {
            lemma_pair_unique(
                block_class(blocks)(x.1),
                opt_class(blocks, x.0),
                block_class(blocks)(y.1),
                opt_class(blocks, y.0),
                n as int,
            );
            assert(x.1 == y.1);
            assert(x.0 == y.0);
        }
        assert forall|x: AcrossState| (#[trigger] next(x)) is Some implies 0 <= key(next(x).unwrap()) < m by {
            let y = next(x).unwrap();
            let c = x.0.unwrap();
            let cph = c.prevBlockHash.unwrap();
            let nph = x.1.prevBlockHash.unwrap();
            assert(alist_get(blocks, nph) is Some);
            let a = block_class(blocks)(y.1);
            let b = opt_class(blocks, y.0);
            if alist_get(blocks, cph) is Some {
                assert(0 <= block_class(blocks)(alist_get(blocks, cph).unwrap()) < n);
            }
            assert(0 <= a < n && 0 <= b <= n);
            assert(a * (n + 1) + b < n * (n + 1)) by (nonlinear_arith)
                requires
                    0 <= a < n,
                    0 <= b <= n,
            {
                assert(a * (n + 1) <= (n - 1) * (n + 1));
            }
        }
        lemma_walk_suffices(next, stop, key, m, (cb, nb, ct, nt), f, m);
    }
}


/// The clock read from its `d`-th reading on.
pub open spec fn clock_from(clock: spec_fn(nat) -> i64, d: nat) -> spec_fn(nat) -> i64 {
    |i: nat| clock(i + d)
}

/// Receiving a block `d` readings later is receiving it on the clock read
/// from its `d`-th reading.
proof fn lemma_receive_clock_shift(m: MinerModel, s: BlockModel, clock: spec_fn(nat) -> i64, k: nat, d: nat)
    ensures
        miner_receive_spec(m, s, clock, k + d) == match miner_receive_spec(m, s, clock_from(clock, d), k) {
            None => None,
            Some(r) => Some((r.0, r.1, r.2, r.3 + d)),
        },
{
    assert(clock_from(clock, d)(k) == clock(k + d));
}

/// One round of `findProof`, `d` readings later.
proof fn lemma_find_step_clock_shift(m: MinerModel, clock: spec_fn(nat) -> i64, k: nat, d: nat)
    ensures
        find_step_spec(m, clock, k + d) == match find_step_spec(m, clock_from(clock, d), k) {
            None => None,
            Some(r) => Some((r.0, r.1, r.2 + d)),
        },
{
    if let Some(cb) = m.currentBlock {
        if fits_i32(cb.proof + m.miningRounds) {
            if let Some(p) = first_valid_proof(cb, cb.proof as int, cb.proof + m.miningRounds) {
                let b = BlockModel { proof: p, ..cb };
                lemma_receive_clock_shift(MinerModel { currentBlock: Some(b), ..m }, b, clock, k, d);
            }
        }
    }
}

/// `findProof`, `d` readings later.
proof fn lemma_find_clock_shift(m: MinerModel, n: int, clock: spec_fn(nat) -> i64, k: nat, d: nat)
    ensures
        find_spec(m, n, clock, k + d) == match find_spec(m, n, clock_from(clock, d), k) {
            None => None,
            Some(r) => Some((r.0, r.1, r.2 + d)),
        },
    decreases n,
{
    lemma_find_step_clock_shift(m, clock, k, d);
    if let Some(r) = find_step_spec(m, clock_from(clock, d), k) {
        if n > 0 {
            lemma_find_clock_shift(r.0, n - 1, clock, r.2, d);
        }
    }
}

/// `initialize` is `startNewSearch` with no transactions, at the clock's
/// first reading, then `findProof(3)` on the readings after it.
pub proof fn law_initialize_is_search_then_find(m: MinerModel, clock: spec_fn(nat) -> i64)
    ensures
        initialize_spec(m, clock) == match search_spec(m, Seq::empty(), clock(0)) {
            None => None,
            Some(m1) => match find_spec(m1, 3, clock_from(clock, 1), 0) {
                None => None,
                Some(r) => Some((r.0, r.1, r.2 + 1)),
            },
        },
{
    if let Some(m1) = search_spec(m, Seq::empty(), clock(0)) {
        lemma_find_clock_shift(m1, 3, clock, 0, 1);
    }
}


/// Adding transactions changes only a block's ledger.
proof fn lemma_apply_all_header(b: BlockModel, txs: Seq<TxModel>)
    ensures
        apply_all_blocks(b, txs) matches Some(b1) ==> b1 == crate::block::with_ledger(
            b,
            b1.balances,
            b1.nextNonce,
            b1.transactions,
        ),
    decreases txs.len(),
{
    if txs.len() > 0 {
        lemma_apply_all_header(b, txs.drop_last());
        if let Some(b1) = apply_all_blocks(b, txs.drop_last()) {
            crate::block::lemma_add_tx_ledger_only(b1, b1, txs.last());
        }
    }
}

/// The block that `startNewSearch` makes pays the miner's own address, links
/// to the client's last block and is one longer, carries the clock's reading,
/// the miner's target and the allowed coinbase, starts at proof 0, and leaves
/// no transaction waiting; the client is untouched.
pub proof fn law_new_search_pays_the_miner(m: MinerModel, txSet: Seq<TxModel>, timestamp: i64)
    ensures
        search_spec(m, txSet, timestamp) matches Some(m2) ==> {
            &&& m2.currentBlock matches Some(b)
            &&& b.rewardAddr == Some(m.client.address)
            &&& b.prevBlockHash == (match m.client.lastBlock {
                Some(p) => Some(p.id),
                None => None::<Seq<char>>,
            })
            &&& b.chainLength == (match m.client.lastBlock {
                Some(p) => p.chainLength + 1,
                None => 0,
            })
            &&& b.timestamp == timestamp
            &&& b.target == m.pow_target
            &&& b.coinbaseReward == COINBASE_AMT_ALLOWED
            &&& b.proof == 0
            &&& m2.transactions.len() == 0
            &&& m2.client == m.client
            &&& m2.miningRounds == m.miningRounds
        },
{
    if new_block_defined(m.client.lastBlock) {
        let b0 = spec_new_block(
            Some(m.client.address),
            m.client.lastBlock,
            m.pow_target,
            COINBASE_AMT_ALLOWED,
            timestamp,
        );
        lemma_apply_all_header(b0, set_insert_all(m.transactions, txSet));
    }
}

/// `b` with the proof `q`.
pub open spec fn with_proof(b: BlockModel, q: int) -> BlockModel {
    BlockModel { proof: q as i32, ..b }
}

/// Where no proof in `[from, to)` is valid, none is found.
proof fn lemma_no_valid_proof(b: BlockModel, from: int, to: int)
    requires
        forall|q: int| from <= q < to ==> !#[trigger] spec_has_valid_proof(with_proof(b, q)),
    ensures
        first_valid_proof(b, from, to) is None,
    decreases to - from,
{
    if from < to {
        assert(!spec_has_valid_proof(with_proof(b, from)));
        lemma_no_valid_proof(b, from + 1, to);
    }
}

/// A mining round that finds no valid proof among the next `miningRounds`
/// proofs leaves the miner as it was except that the current block moves on
/// past the proofs it tried, and announces nothing.
pub proof fn law_fruitless_round_moves_on(m: MinerModel, clock: spec_fn(nat) -> i64, k: nat)
    requires
        m.currentBlock is Some,
        fits_i32(m.currentBlock.unwrap().proof + m.miningRounds),
        forall|q: int|
            m.currentBlock.unwrap().proof <= q < m.currentBlock.unwrap().proof + m.miningRounds
                ==> !#[trigger] spec_has_valid_proof(with_proof(m.currentBlock.unwrap(), q)),
    ensures
        find_step_spec(m, clock, k) == Some(
            (
                MinerModel {
                    currentBlock: Some(
                        BlockModel {
                            proof: (if m.miningRounds > 0 {
                                m.currentBlock.unwrap().proof + m.miningRounds
                            } else {
                                m.currentBlock.unwrap().proof as int
                            }) as i32,
                            ..m.currentBlock.unwrap()
                        },
                    ),
                    ..m
                },
                Seq::<MessageModel>::empty(),
                k,
            ),
        ),
{
    let cb = m.currentBlock.unwrap();
    lemma_no_valid_proof(cb, cb.proof as int, cb.proof + m.miningRounds);
}


/// Adding a transaction to a set: the set holds it, and what it held.
proof fn lemma_set_insert_contains(s: Seq<TxModel>, t: TxModel, x: TxModel)
    ensures
        set_insert(s, t).contains(x) == (s.contains(x) || x == t),
{
    if !s.contains(t) {
        if x == t {
            assert(s.push(t)[s.len() as int] == t);
        }
        if s.contains(x) {
            let i = choose|i: int| 0 <= i < s.len() && s[i] == x;
            assert(s.push(t)[i] == x);
        }
        if s.push(t).contains(x) {
            let i = choose|i: int| 0 <= i < s.push(t).len() && s.push(t)[i] == x;
            if i < s.len() {
                assert(s[i] == x);
            }
        }
    }
}

/// Adding a block's transactions: the set holds each of them, and what it held.
proof fn lemma_add_block_txs_contains(s: Seq<TxModel>, txs: Seq<(Seq<char>, TxModel)>, x: TxModel)
    ensures
        add_block_txs(s, txs).contains(x) == (s.contains(x) || exists|j: int| 0 <= j < txs.len() && #[trigger] txs[j].1 == x),
    decreases txs.len(),
{
    if txs.len() > 0 {
        let t1 = txs.drop_last();
        lemma_add_block_txs_contains(s, t1, x);
        lemma_set_insert_contains(add_block_txs(s, t1), txs.last().1, x);
        if exists|j: int| 0 <= j < txs.len() && #[trigger] txs[j].1 == x {
            let j = choose|j: int| 0 <= j < txs.len() && #[trigger] txs[j].1 == x;
            if j < t1.len() {
                assert(t1[j].1 == x);
            }
        }
        if exists|j: int| 0 <= j < t1.len() && #[trigger] t1[j].1 == x {
            let j = choose|j: int| 0 <= j < t1.len() && #[trigger] t1[j].1 == x;
            assert(txs[j].1 == x);
        }
    }
}

/// Removing a transaction from a set.
proof fn lemma_set_remove_contains(s: Seq<TxModel>, t: TxModel, x: TxModel)
    ensures
        set_remove(s, t).contains(x) == (s.contains(x) && x != t),
    decreases s.len(),
{
    if s.len() > 0 {
        let s1 = s.drop_last();
        lemma_set_remove_contains(s1, t, x);
        let r = set_remove(s1, t);
        if s.contains(x) && x != t {
            let i = choose|i: int| 0 <= i < s.len() && s[i] == x;
            if i < s1.len() {
                assert(s1[i] == x);
            } else {
                assert(r.push(s.last())[r.len() as int] == x);
            }
        }
        if s.last() != t {
            if r.push(s.last()).contains(x) {
                let i = choose|i: int| 0 <= i < r.push(s.last()).len() && r.push(s.last())[i] == x;
                if i < r.len() {
                    assert(r[i] == x);
                } else {
                    assert(s[s.len() - 1] == x);
                }
            }
            if r.contains(x) {
                let i = choose|i: int| 0 <= i < r.len() && r[i] == x;
                assert(r.push(s.last())[i] == x);
            }
        }
        if s1.contains(x) {
            let i = choose|i: int| 0 <= i < s1.len() && s1[i] == x;
            assert(s[i] == x);
        }
    }
}

/// Removing several transactions from a set.
proof fn lemma_set_remove_all_contains(s: Seq<TxModel>, rm: Seq<TxModel>, x: TxModel)
    ensures
        set_remove_all(s, rm).contains(x) == (s.contains(x) && !rm.contains(x)),
    decreases rm.len(),
{
    if rm.len() > 0 {
        let r1 = rm.drop_last();
        lemma_set_remove_all_contains(s, r1, x);
        lemma_set_remove_contains(set_remove_all(s, r1), rm.last(), x);
        if rm.contains(x) {
            let i = choose|i: int| 0 <= i < rm.len() && rm[i] == x;
            if i < r1.len() {
                assert(r1[i] == x);
            }
        }
        if r1.contains(x) {
            let i = choose|i: int| 0 <= i < r1.len() && r1[i] == x;
            assert(rm[i] == x);
        }
    }
}

/// The first walk keeps what it gathered, and gathers the transactions of the
/// new block when that block is above the current length.
proof fn lemma_sync_up_gathers(
    blocks: Seq<(Seq<char>, BlockModel)>,
    cb_len: int,
    nb: BlockModel,
    t: Seq<TxModel>,
    fuel: nat,
)
    ensures
        sync_up(blocks, cb_len, nb, t, fuel) matches Some(r) ==> {
            &&& forall|x: TxModel| t.contains(x) ==> #[trigger] r.1.contains(x)
            &&& nb.chainLength > cb_len ==> forall|j: int| 0 <= j < nb.transactions.len() ==> r.1.contains(#[trigger] nb.transactions[j].1)
            &&& nb.chainLength <= cb_len ==> r == (nb, t)
        },
    decreases fuel,
{
    if nb.chainLength > cb_len && fuel > 0 {
        let t2 = add_block_txs(t, nb.transactions);
        if let Some(ph) = nb.prevBlockHash {
            if let Some(p) = alist_get(blocks, ph) {
                lemma_sync_up_gathers(blocks, cb_len, p, t2, (fuel - 1) as nat);
                assert forall|x: TxModel| t.contains(x) implies t2.contains(x) by {
                    lemma_add_block_txs_contains(t, nb.transactions, x);
                }
                assert forall|j: int| 0 <= j < nb.transactions.len() implies t2.contains(#[trigger] nb.transactions[j].1) by {
                    lemma_add_block_txs_contains(t, nb.transactions, nb.transactions[j].1);
                }
            }
        }
    }
}

/// The second walk keeps what it gathered, and, where it takes a step,
/// gathers the transactions of both blocks it starts from.
proof fn lemma_sync_across_gathers(
    blocks: Seq<(Seq<char>, BlockModel)>,
    cb: Option<BlockModel>,
    nb: BlockModel,
    ct: Seq<TxModel>,
    nt: Seq<TxModel>,
    fuel: nat,
)
    ensures
        sync_across(blocks, cb, nb, ct, nt, fuel) matches Some(q) ==> {
            &&& forall|x: TxModel| ct.contains(x) ==> #[trigger] q.0.contains(x)
            &&& forall|x: TxModel| nt.contains(x) ==> #[trigger] q.1.contains(x)
            &&& (cb is Some && cb.unwrap().id != nb.id) ==> {
                &&& forall|j: int| 0 <= j < cb.unwrap().transactions.len() ==> q.0.contains(#[trigger] cb.unwrap().transactions[j].1)
                &&& forall|j: int| 0 <= j < nb.transactions.len() ==> q.1.contains(#[trigger] nb.transactions[j].1)
            }
            &&& (cb is None || cb.unwrap().id == nb.id) ==> q == (ct, nt)
        },
    decreases fuel,
{
    if let Some(c) = cb {
        if c.id != nb.id && fuel > 0 {
            let ct2 = add_block_txs(ct, c.transactions);
            let nt2 = add_block_txs(nt, nb.transactions);
            if let (Some(cph), Some(nph)) = (c.prevBlockHash, nb.prevBlockHash) {
                if let Some(n2) = alist_get(blocks, nph) {
                    lemma_sync_across_gathers(blocks, alist_get(blocks, cph), n2, ct2, nt2, (fuel - 1) as nat);
                    assert forall|x: TxModel| ct.contains(x) implies ct2.contains(x) by {
                        lemma_add_block_txs_contains(ct, c.transactions, x);
                    }
                    assert forall|x: TxModel| nt.contains(x) implies nt2.contains(x) by {
                        lemma_add_block_txs_contains(nt, nb.transactions, x);
                    }
                    assert forall|j: int| 0 <= j < c.transactions.len() implies ct2.contains(#[trigger] c.transactions[j].1) by {
                        lemma_add_block_txs_contains(ct, c.transactions, c.transactions[j].1);
                    }
                    assert forall|j: int| 0 <= j < nb.transactions.len() implies nt2.contains(#[trigger] nb.transactions[j].1) by {
                        lemma_add_block_txs_contains(nt, nb.transactions, nb.transactions[j].1);
                    }
                }
            }
        }
    }
}

/// What `syncTransactions` carries over to the new chain: exactly the
/// transactions that the walk back gathered from the current chain and not
/// from the new one. In particular, every transaction of the current block is
/// carried over unless the new chain holds it (where the current block is not
/// where the chains meet), and no transaction of the new block is.
pub proof fn law_sync_carries_what_new_chain_lacks(m: MinerModel, nb: BlockModel, x: TxModel)
    ensures
        sync_spec(m, nb) matches Some(res) ==> {
            let cb = m.currentBlock.unwrap();
            let blocks = m.client.blocks;
            let up = sync_up(blocks, cb.chainLength as int, nb, Seq::empty(), sync_up_fuel(blocks.len())).unwrap();
            let q = sync_across(blocks, Some(cb), up.0, Seq::empty(), up.1, sync_across_fuel(blocks.len())).unwrap();
            &&& res.contains(x) <==> (q.0.contains(x) && !q.1.contains(x))
            &&& (cb.id != up.0.id && (exists|j: int| 0 <= j < cb.transactions.len() && #[trigger] cb.transactions[j].1 == x)
                && !q.1.contains(x)) ==> res.contains(x)
            &&& (exists|j: int| 0 <= j < nb.transactions.len() && #[trigger] nb.transactions[j].1 == x) ==> !res.contains(x)
        },
{
    if let Some(res) = sync_spec(m, nb) {
        let cb = m.currentBlock.unwrap();
        let blocks = m.client.blocks;
        let up = sync_up(blocks, cb.chainLength as int, nb, Seq::empty(), sync_up_fuel(blocks.len())).unwrap();
        let q = sync_across(blocks, Some(cb), up.0, Seq::empty(), up.1, sync_across_fuel(blocks.len())).unwrap();
        lemma_set_remove_all_contains(q.0, q.1, x);
        lemma_sync_up_gathers(blocks, cb.chainLength as int, nb, Seq::empty(), sync_up_fuel(blocks.len()));
        lemma_sync_across_gathers(blocks, Some(cb), up.0, Seq::empty(), up.1, sync_across_fuel(blocks.len()));
        if exists|j: int| 0 <= j < cb.transactions.len() && #[trigger] cb.transactions[j].1 == x {
            let j = choose|j: int| 0 <= j < cb.transactions.len() && #[trigger] cb.transactions[j].1 == x;
            if cb.id != up.0.id {
                assert(q.0.contains(cb.transactions[j].1));
            }
        }
        if exists|j: int| 0 <= j < nb.transactions.len() && #[trigger] nb.transactions[j].1 == x {
            let j = choose|j: int| 0 <= j < nb.transactions.len() && #[trigger] nb.transactions[j].1 == x;
            if nb.chainLength > cb.chainLength {
                assert(up.1.contains(nb.transactions[j].1));
                assert(q.1.contains(x));
            } else {
                assert(up == (nb, Seq::<TxModel>::empty()));
                if cb.id == nb.id {
                    assert(q.0 == Seq::<TxModel>::empty());
                } else {
                    assert(q.1.contains(nb.transactions[j].1));
                }
            }
        }
    }
}

} // verus!
