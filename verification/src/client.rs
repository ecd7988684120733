//! Clients: hold a key pair and a view of the block tree, post transactions,
//! and accept the blocks that they receive.
use vstd::prelude::*;
use crate::block::{
    block, get_or_zero, opt_block_view, replay, rerun_outcome, spec_has_valid_proof, with_ledger,
    BlockModel,
};
use crate::blockchain::CONFIRMED_DEPTH;
use crate::fakeNet::{append_msgs, msgs_view, MessageModel, NetMessage};
use crate::json::opt_view;
use crate::strmap::{
    alist_contains, alist_get, alist_index, alist_remove, alist_set, StrMap, ViewClone,
};
use crate::transaction::{
    amounts_sum, fits_i32, outputs_view, spec_new_tx, spec_total_output, total_output_fits, transaction,
    TxModel,
};
use crate::utils::spec_calc_address;
use crate::walk::{classes_agree, lemma_walk_suffices, walk};
use crate::waiting::{lemma_all_depth, lemma_list_weight_prefix, lemma_weight_remove_key};
use crate::transaction::{spec_valid_signature, valid_signature_safe};

verus! {

/// What a client puts in a transaction besides its own fields.
pub struct txData {
    pub sig: Option<String>,
    pub fee: i32,
    pub outputs: Vec<(String, i32)>,
    pub data: String,
}

/// The blocks that wait for the same missing block.
#[derive(Clone)]
pub struct BlockList {
    pub blocks: Vec<block>,
}

impl View for BlockList {
    type V = Seq<BlockModel>;

    open spec fn view(&self) -> Seq<BlockModel> {
        Seq::new(self.blocks@.len(), |i: int| self.blocks@[i]@)
    }
}

impl ViewClone for BlockList {
    fn view_clone(&self) -> (res: BlockList) {
        let mut v: Vec<block> = Vec::new();
        let n = self.blocks.len();
        for i in 0..n
            invariant
                n == self.blocks@.len(),
                v@.len() == i,
                forall|j: int| 0 <= j < i ==> (#[trigger] v@[j])@ == self.blocks@[j]@,
        {
            v.push(self.blocks[i].view_clone());
        }
        let res = BlockList { blocks: v };
        assert(res@ =~= self@);
        res
    }
}

/// No messages.
fn no_msgs() -> (res: Vec<NetMessage>)
    ensures
        msgs_view(res@) == Seq::<MessageModel>::empty(),
{
    let res: Vec<NetMessage> = Vec::new();
    assert(msgs_view(res@) =~= Seq::<MessageModel>::empty());
    res
}

/// A copy of an optional block.
fn clone_opt_block(o: &Option<block>) -> (res: Option<block>)
    ensures
        opt_block_view(res) == opt_block_view(*o),
{
    match o {
        Some(b) => Some(b.view_clone()),
        None => None,
    }
}

/// What a client holds.
#[verifier::ext_equal]
pub struct ClientModel {
    pub name: Seq<char>,
    pub keyPair: (Seq<char>, Seq<char>),
    pub address: Seq<char>,
    pub nonce: i32,
    pub pendingOutgoingTransactions: Seq<(Seq<char>, TxModel)>,
    pub pendingReceivedTransactions: Seq<(Seq<char>, TxModel)>,
    pub blocks: Seq<(Seq<char>, BlockModel)>,
    pub pendingBlocks: Seq<(Seq<char>, Seq<BlockModel>)>,
    pub lastConfirmedBlock: Option<BlockModel>,
    pub lastBlock: Option<BlockModel>,
}

pub struct client {
    pub name: String,
    pub keyPair: (String, String),
    pub address: String,
    pub nonce: i32,
    pub pendingOutgoingTransactions: StrMap<transaction>,
    pub pendingReceivedTransactions: StrMap<transaction>,
    pub blocks: StrMap<block>,
    pub pendingBlocks: StrMap<BlockList>,
    pub lastConfirmedBlock: Option<block>,
    pub lastBlock: Option<block>,
}

impl View for client {
    type V = ClientModel;

    open spec fn view(&self) -> ClientModel {
        ClientModel {
            name: self.name@,
            keyPair: (self.keyPair.0@, self.keyPair.1@),
            address: self.address@,
            nonce: self.nonce,
            pendingOutgoingTransactions: self.pendingOutgoingTransactions@,
            pendingReceivedTransactions: self.pendingReceivedTransactions@,
            blocks: self.blocks@,
            pendingBlocks: self.pendingBlocks@,
            lastConfirmedBlock: opt_block_view(self.lastConfirmedBlock),
            lastBlock: opt_block_view(self.lastBlock),
        }
    }
}

impl Clone for client {
    /// A copy of the client.
    fn clone(&self) -> (res: Self)
        ensures
            res@ == self@,
    {
        self.view_clone()
    }
}

impl ViewClone for client {
    fn view_clone(&self) -> (res: client) {
        let res = client {
            name: self.name.clone(),
            keyPair: (self.keyPair.0.clone(), self.keyPair.1.clone()),
            address: self.address.clone(),
            nonce: self.nonce,
            pendingOutgoingTransactions: self.pendingOutgoingTransactions.clone_map(),
            pendingReceivedTransactions: self.pendingReceivedTransactions.clone_map(),
            blocks: self.blocks.clone_map(),
            pendingBlocks: self.pendingBlocks.clone_map(),
            lastConfirmedBlock: clone_opt_block(&self.lastConfirmedBlock),
            lastBlock: clone_opt_block(&self.lastBlock),
        };
        assert(res@ =~= self@);
        res
    }
}

/// The blocks waiting for `k`, or none.
pub open spec fn pending_or_empty(p: Seq<(Seq<char>, Seq<BlockModel>)>, k: Seq<char>) -> Seq<BlockModel> {
    match alist_get(p, k) {
        Some(v) => v,
        None => Seq::empty(),
    }
}

/// The weight of a block that waits under the key `k`: 1 where `k` is its
/// previous block, else 2 (taken in, such a block may have to wait once more).
pub open spec fn wait_weight(k: Seq<char>, w: BlockModel) -> nat {
    if w.prevBlockHash == Some(k) {
        1
    } else {
        2
    }
}

/// The weight of the blocks `ws` that wait under the key `k`.
pub open spec fn list_weight(k: Seq<char>, ws: Seq<BlockModel>) -> nat
    decreases ws.len(),
{
    if ws.len() == 0 {
        0
    } else {
        list_weight(k, ws.drop_last()) + wait_weight(k, ws.last())
    }
}

/// The weight of all the blocks that wait for a missing block.
pub open spec fn pending_weight(p: Seq<(Seq<char>, Seq<BlockModel>)>) -> nat
    decreases p.len(),
{
    if p.len() == 0 {
        0
    } else {
        pending_weight(p.drop_last()) + list_weight(p.last().0, p.last().1)
    }
}

/// Follows `prevBlockHash` links back from `b` through `blocks` until a block
/// no longer than `height`, taking at most `fuel` steps; `None` where a link is
/// missing or dangles, or the steps run out.
pub open spec fn walk_back(
    blocks: Seq<(Seq<char>, BlockModel)>,
    b: BlockModel,
    height: int,
    fuel: nat,
) -> Option<BlockModel>
    decreases fuel,
{
    if b.chainLength <= height {
        Some(b)
    } else if fuel == 0 {
        None
    } else {
        match b.prevBlockHash {
            None => None,
            Some(ph) => match alist_get(blocks, ph) {
                None => None,
                Some(p) => walk_back(blocks, p, height, (fuel - 1) as nat),
            },
        }
    }
}

/// The pending transactions with those of `snapshot` that the confirmed
/// transactions `txs` hold removed, one after another.
pub open spec fn drop_confirmed(
    p: Seq<(Seq<char>, TxModel)>,
    snapshot: Seq<(Seq<char>, TxModel)>,
    txs: Seq<(Seq<char>, TxModel)>,
) -> Seq<(Seq<char>, TxModel)>
    decreases snapshot.len(),
{
    if snapshot.len() == 0 {
        p
    } else {
        let p1 = drop_confirmed(p, snapshot.drop_last(), txs);
        if alist_contains(txs, snapshot.last().0) {
            alist_remove(p1, snapshot.last().0)
        } else {
            p1
        }
    }
}

/// The confirmation height for a last block of length `len`: `CONFIRMED_DEPTH`
/// below it, but not below 0.
pub open spec fn confirmed_height(len: int) -> int {
    if len - CONFIRMED_DEPTH < 0 {
        0
    } else {
        len - CONFIRMED_DEPTH
    }
}

/// What `setLastConfirmed` does: the last confirmed block becomes the first
/// block, going back from the last block, that is no longer than the
/// confirmation height, and the pending transactions that it holds are no
/// longer pending. `None` where it panics (an overflow, or a missing link) or
/// never ends (a cycle of links).
pub open spec fn last_confirmed_spec(c: ClientModel) -> Option<ClientModel> {
    match c.lastBlock {
        None => Some(c),
        Some(lb) => if !fits_i32(lb.chainLength - CONFIRMED_DEPTH) {
            None
        } else {
            match walk_back(c.blocks, lb, confirmed_height(lb.chainLength as int), c.blocks.len()) {
                None => None,
                Some(conf) => Some(
                    ClientModel {
                        lastConfirmedBlock: Some(conf),
                        pendingOutgoingTransactions: drop_confirmed(
                            c.pendingOutgoingTransactions,
                            c.pendingOutgoingTransactions,
                            conf.transactions,
                        ),
                        ..c
                    },
                ),
            }
        },
    }
}

/// What `receiveBlock` does once the block `b` has been checked and rerun:
/// it is stored, becomes the last block if it is longer (which moves the
/// confirmed block), and the blocks that waited for it are received in turn.
pub open spec fn receive_accept(c: ClientModel, b: BlockModel, fuel: nat) -> Option<
    (ClientModel, Option<BlockModel>, Seq<MessageModel>),
>
    decreases fuel, 0nat,
{
    let c1 = ClientModel { blocks: alist_set(c.blocks, b.id, b), ..c };
    match c1.lastBlock {
        None => None,
        Some(lb) => {
            let c2o = if lb.chainLength < b.chainLength {
                last_confirmed_spec(ClientModel { lastBlock: Some(b), ..c1 })
            } else {
                Some(c1)
            };
            match c2o {
                None => None,
                Some(c2) => {
                    let unstuck = pending_or_empty(c2.pendingBlocks, b.id);
                    let c3 = ClientModel { pendingBlocks: alist_remove(c2.pendingBlocks, b.id), ..c2 };
                    if unstuck.len() == 0 {
                        Some((c3, Some(b), Seq::empty()))
                    } else if fuel == 0 {
                        None
                    } else {
                        match receive_all(c3, unstuck, (fuel - 1) as nat) {
                            None => None,
                            Some(p) => Some((p.0, Some(b), p.1)),
                        }
                    }
                },
            }
        },
    }
}

/// What `receiveBlock` does with `b`, what it returns, and the messages it
/// sends; `None` where it panics, or where waiting blocks nest deeper than
/// `fuel`. A block that is known already, or lacks a valid proof without being
/// a genesis block, is ignored. A non-genesis block whose previous block is
/// unknown waits for it (the first to wait asks the network for it). Otherwise
/// a non-genesis block is rerun on top of its previous block, and is ignored
/// if that fails.
pub open spec fn receive_spec(c: ClientModel, b: BlockModel, fuel: nat) -> Option<
    (ClientModel, Option<BlockModel>, Seq<MessageModel>),
>
    decreases fuel, 1nat,
{
    if alist_contains(c.blocks, b.id) {
        Some((c, None, Seq::empty()))
    } else if !spec_has_valid_proof(b) && b.chainLength != 0 {
        Some((c, None, Seq::empty()))
    } else if b.prevBlockHash is None {
        None
    } else {
        let ph = b.prevBlockHash.unwrap();
        if !alist_contains(c.blocks, ph) && b.chainLength != 0 {
            let msgs = if alist_contains(c.pendingBlocks, ph) {
                Seq::empty()
            } else {
                seq![MessageModel::MissingBlock(ph, c.address)]
            };
            Some(
                (
                    ClientModel {
                        pendingBlocks: alist_set(
                            c.pendingBlocks,
                            ph,
                            pending_or_empty(c.pendingBlocks, ph).push(b),
                        ),
                        ..c
                    },
                    None,
                    msgs,
                ),
            )
        } else if b.chainLength == 0 {
            receive_accept(c, b, fuel)
        } else {
            match rerun_outcome(b, alist_get(c.blocks, ph).unwrap()) {
                None => None,
                Some(r) => if !r.1 {
                    Some((c, None, Seq::empty()))
                } else {
                    receive_accept(c, r.0, fuel)
                },
            }
        }
    }
}

/// Why `receiveBlock` ignores a block before looking at its place in the chain.
#[derive(Clone, Copy, Debug, PartialEq, Eq, Structural)]
pub enum BlockRefusal {
    /// The client knows the block already.
    Known,
    /// The block is no genesis block and its proof of work is not valid.
    InvalidProof,
}

/// Why `c` ignores `b` at once, if it does.
pub open spec fn block_refusal(c: ClientModel, b: BlockModel) -> Option<BlockRefusal> {
    if alist_contains(c.blocks, b.id) {
        Some(BlockRefusal::Known)
    } else if !spec_has_valid_proof(b) && b.chainLength != 0 {
        Some(BlockRefusal::InvalidProof)
    } else {
        None
    }
}

/// A block refused at once leaves the client as it was, at every depth.
pub proof fn law_refused_block_is_ignored(c: ClientModel, b: BlockModel, fuel: nat)
    requires
        block_refusal(c, b) is Some,
    ensures
        receive_spec(c, b, fuel) == Some((c, None::<BlockModel>, Seq::<MessageModel>::empty())),
{
}

/// Receives each block of `bs` in turn.
pub open spec fn receive_all(c: ClientModel, bs: Seq<BlockModel>, fuel: nat) -> Option<
    (ClientModel, Seq<MessageModel>),
>
    decreases fuel, bs.len() + 2,
{
    if bs.len() == 0 {
        Some((c, Seq::empty()))
    } else {
        match receive_all(c, bs.drop_last(), fuel) {
            None => None,
            Some(p) => match receive_spec(p.0, bs.last(), fuel) {
                None => None,
                Some(q) => Some((q.0, p.1 + q.2)),
            },
        }
    }
}

/// A depth of waiting blocks that receiving a block never exceeds: the weight
/// of the waiting blocks, plus one (see `law_receive_depth_suffices`).
pub open spec fn receive_fuel(c: ClientModel) -> nat {
    pending_weight(c.pendingBlocks) + 1
}

/// A failure in a prefix is a failure of the whole list.
proof fn lemma_receive_all_none(c: ClientModel, bs: Seq<BlockModel>, fuel: nat, k: int)
    requires
        0 <= k <= bs.len(),
        receive_all(c, bs.take(k), fuel) is None,
    ensures
        receive_all(c, bs, fuel) is None,
    decreases bs.len() - k,
{
    if k == bs.len() {
        assert(bs.take(k) =~= bs);
    } else {
        assert(bs.drop_last().take(k) =~= bs.take(k));
        lemma_receive_all_none(c, bs.drop_last(), fuel, k);
    }
}

/// What `availableGold` returns: the confirmed balance less what the pending
/// transactions spend.
pub open spec fn totals_sum(p: Seq<(Seq<char>, TxModel)>) -> int
    decreases p.len(),
{
    if p.len() == 0 {
        0
    } else {
        totals_sum(p.drop_last()) + spec_total_output(p.last().1)
    }
}

/// `availableGold` runs without a panic: a confirmed block is set and no sum
/// overflows.
pub open spec fn available_gold_defined(c: ClientModel) -> bool {
    &&& c.lastConfirmedBlock is Some
    &&& forall|i: int| 0 <= i < c.pendingOutgoingTransactions.len() ==> total_output_fits(
        #[trigger] c.pendingOutgoingTransactions[i].1,
    )
    &&& forall|k: int|
        1 <= k <= c.pendingOutgoingTransactions.len() ==> fits_i32(
            #[trigger] totals_sum(c.pendingOutgoingTransactions.take(k)),
        )
    &&& fits_i32(
        get_or_zero(c.lastConfirmedBlock.unwrap().balances, c.address) - totals_sum(
            c.pendingOutgoingTransactions,
        ),
    )
}

/// The gold the client can still spend.
pub open spec fn spec_available_gold(c: ClientModel) -> int {
    get_or_zero(c.lastConfirmedBlock.unwrap().balances, c.address) - totals_sum(
        c.pendingOutgoingTransactions,
    )
}

/// `postTransaction` runs without a panic: the payments add up without
/// overflow, the available gold can be computed and covers them, and the nonce
/// can be incremented.
pub open spec fn post_transaction_defined(c: ClientModel, outputs: Seq<(Seq<char>, i32)>, fee: i32) -> bool {
    &&& forall|k: int| 1 <= k <= outputs.len() ==> fits_i32(#[trigger] amounts_sum(outputs.take(k)))
    &&& fits_i32(amounts_sum(outputs) + fee)
    &&& available_gold_defined(c)
    &&& amounts_sum(outputs) + fee <= spec_available_gold(c)
    &&& c.nonce < i32::MAX
}

/// The transaction that the client posts for `data`: from its address, with
/// its nonce and public key, signed with its private key.
pub open spec fn spec_client_tx(
    c: ClientModel,
    sig: Option<Seq<char>>,
    fee: i32,
    outputs: Seq<(Seq<char>, i32)>,
    data: Seq<char>,
) -> TxModel {
    let t = spec_new_tx(c.address, c.nonce, c.keyPair.1, sig, fee, outputs, data);
    TxModel { sig: Some(c.keyPair.0 + t.id), ..t }
}

/// A new client: its address is that of its public key, and it starts from
/// the starting block, if any, as its only block, last block and last
/// confirmed block.
pub open spec fn spec_new_client(
    name: Seq<char>,
    startingBlock: Option<BlockModel>,
    keyPair: (Seq<char>, Seq<char>),
) -> ClientModel {
    ClientModel {
        name,
        keyPair,
        address: spec_calc_address(keyPair.1),
        nonce: 0,
        pendingOutgoingTransactions: Seq::empty(),
        pendingReceivedTransactions: Seq::empty(),
        blocks: match startingBlock {
            Some(b) => seq![(b.id, b)],
            None => Seq::empty(),
        },
        pendingBlocks: Seq::empty(),
        lastConfirmedBlock: startingBlock,
        lastBlock: startingBlock,
    }
}

impl client {
    /// A client with the given name and key pair, whose address is that of its
    /// public key, and which starts from `startingBlock` when there is one.
    pub fn new(name: &str, startingBlock: Option<&block>, keyPair: (String, String)) -> (res: client)
        ensures
            res@ == spec_new_client(
                name@,
                match startingBlock {
                    Some(b) => Some(b@),
                    None => None,
                },
                (keyPair.0@, keyPair.1@),
            ),
    {
        let address = crate::utils::calcAddress(keyPair.1.as_str());
        let mut blocks: StrMap<block> = StrMap::new();
        let mut lastConfirmedBlock: Option<block> = None;
        let mut lastBlock: Option<block> = None;
        match startingBlock {
            Some(b) => {
                lastConfirmedBlock = Some(b.view_clone());
                lastBlock = Some(b.view_clone());
                blocks.insert(b.id.clone(), b.view_clone());
                assert(blocks@ =~= seq![(b@.id, b@)]);
            },
            None => {},
        }
        let res = client {
            name: name.to_owned(),
            keyPair,
            address,
            nonce: 0,
            pendingOutgoingTransactions: StrMap::new(),
            pendingReceivedTransactions: StrMap::new(),
            blocks,
            pendingBlocks: StrMap::new(),
            lastConfirmedBlock,
            lastBlock,
        };
        res
    }

    /// Starts the client's chain from `startingBlock`.
    pub fn setGenesisBlock(&mut self, startingBlock: block)
        requires
            old(self).lastBlock is None,
        ensures
            final(self)@ == (ClientModel {
                lastConfirmedBlock: Some(startingBlock@),
                lastBlock: Some(startingBlock@),
                blocks: alist_set(old(self)@.blocks, startingBlock@.id, startingBlock@),
                ..old(self)@
            }),
    {
        self.lastConfirmedBlock = Some(startingBlock.view_clone());
        self.lastBlock = Some(startingBlock.view_clone());
        self.blocks.insert(startingBlock.id.clone(), startingBlock);
        assert(final(self)@ =~= (ClientModel {
            lastConfirmedBlock: Some(startingBlock@),
            lastBlock: Some(startingBlock@),
            blocks: alist_set(old(self)@.blocks, startingBlock@.id, startingBlock@),
            ..old(self)@
        }));
    }

    /// The client's balance in its last confirmed block.
    pub fn confirmedBalance(&self) -> (res: i32)
        requires
            self@.lastConfirmedBlock is Some,
        ensures
            res == get_or_zero(self@.lastConfirmedBlock.unwrap().balances, self@.address),
    {
        match &self.lastConfirmedBlock {
            Some(b) => b.balanceOf(self.address.as_str()),
            None => 0,
        }
    }

    /// `availableGold`, or `None` where it would panic.
    pub fn checkedAvailableGold(&self) -> (res: Option<i32>)
        ensures
            match res {
                Some(v) => available_gold_defined(self@) && v == spec_available_gold(self@),
                None => !available_gold_defined(self@),
            },
    {
        let ghost p = self@.pendingOutgoingTransactions;
        let mut spent: i32 = 0;
        let n = self.pendingOutgoingTransactions.len();
        assert(p.take(0) =~= Seq::<(Seq<char>, TxModel)>::empty());
        for i in 0..n
            invariant
                n == p.len(),
                p == self@.pendingOutgoingTransactions,
                spent == totals_sum(p.take(i as int)),
                forall|j: int| 0 <= j < i ==> total_output_fits(#[trigger] p[j].1),
                forall|k: int| 1 <= k <= i ==> fits_i32(#[trigger] totals_sum(p.take(k))),
        {
            assert(p.take(i + 1).drop_last() =~= p.take(i as int));
            let t = match self.pendingOutgoingTransactions.val_at(i).checkedTotalOutput() {
                None => return None,
                Some(t) => t,
            };
            let next: i64 = spent as i64 + t as i64;
            if next < i32::MIN as i64 || next > i32::MAX as i64 {
                assert(!fits_i32(totals_sum(p.take(i + 1))));
                return None;
            }
            spent = next as i32;
        }
        assert(p.take(n as int) =~= p);
        let b = match &self.lastConfirmedBlock {
            None => return None,
            Some(b) => b.balanceOf(self.address.as_str()),
        };
        let v: i64 = b as i64 - spent as i64;
        if v < i32::MIN as i64 || v > i32::MAX as i64 {
            return None;
        }
        Some(v as i32)
    }

    /// The confirmed balance less what the pending transactions spend.
    pub fn availableGold(&self) -> (res: i32)
        requires
            available_gold_defined(self@),
        ensures
            res == spec_available_gold(self@),
    {
        self.checkedAvailableGold().unwrap()
    }


    /// Makes, signs and records a transaction from this client, and returns it
    /// for the network to broadcast.
    pub fn postGenericTransaction(&mut self, data: txData) -> (res: transaction)
        requires
            old(self).nonce < i32::MAX,
        ensures
            res@ == spec_client_tx(
                old(self)@,
                opt_view(data.sig),
                data.fee,
                outputs_view(data.outputs@),
                data.data@,
            ),
            final(self)@ == (ClientModel {
                pendingOutgoingTransactions: alist_set(
                    old(self)@.pendingOutgoingTransactions,
                    res@.id,
                    res@,
                ),
                nonce: (old(self)@.nonce + 1) as i32,
                ..old(self)@
            }),
    {
        let mut tx = transaction::new(
            self.address.as_str(),
            self.nonce,
            self.keyPair.1.as_str(),
            data.sig,
            data.fee,
            data.outputs,
            data.data.as_str(),
        );
        tx.sign(self.keyPair.0.as_str());
        self.pendingOutgoingTransactions.insert(tx.id.clone(), tx.view_clone());
        self.nonce = self.nonce + 1;
        assert(tx@ =~= spec_client_tx(
            old(self)@,
            opt_view(data.sig),
            data.fee,
            outputs_view(data.outputs@),
            data.data@,
        ));
        tx
    }

    /// Pays `outputs` with `fee` from this client: the transaction is posted
    /// with no data and no preset signature.
    pub fn postTransaction(&mut self, outputs: Vec<(String, i32)>, fee: i32) -> (res: transaction)
        requires
            post_transaction_defined(old(self)@, outputs_view(outputs@), fee),
        ensures
            res@ == spec_client_tx(old(self)@, None, fee, outputs_view(outputs@), Seq::empty()),
            final(self)@ == (ClientModel {
                pendingOutgoingTransactions: alist_set(
                    old(self)@.pendingOutgoingTransactions,
                    res@.id,
                    res@,
                ),
                nonce: (old(self)@.nonce + 1) as i32,
                ..old(self)@
            }),
    {
        let data = txData { sig: None, fee, outputs, data: String::new() };
        self.postGenericTransaction(data)
    }

    /// `postTransaction`, or `None` with the client unchanged where it would
    /// panic (the payments overflow or exceed the available gold, or the nonce
    /// overflows).
    pub fn tryPostTransaction(&mut self, outputs: Vec<(String, i32)>, fee: i32) -> (res: Option<
        transaction,
    >)
        ensures
            match res {
                Some(t) => post_transaction_defined(old(self)@, outputs_view(outputs@), fee) && t@
                    == spec_client_tx(old(self)@, None, fee, outputs_view(outputs@), Seq::empty())
                    && final(self)@ == (ClientModel {
                    pendingOutgoingTransactions: alist_set(
                        old(self)@.pendingOutgoingTransactions,
                        t@.id,
                        t@,
                    ),
                    nonce: (old(self)@.nonce + 1) as i32,
                    ..old(self)@
                }),
                None => !post_transaction_defined(old(self)@, outputs_view(outputs@), fee)
                    && final(self)@ == old(self)@,
            },
    {
        let ghost outs = outputs_view(outputs@);
        let mut sum: i32 = 0;
        let n = outputs.len();
        assert(outs.take(0) =~= Seq::<(Seq<char>, i32)>::empty());
        for i in 0..n
            invariant
                n == outs.len(),
                outs == outputs_view(outputs@),
                sum == amounts_sum(outs.take(i as int)),
                forall|k: int| 1 <= k <= i ==> fits_i32(#[trigger] amounts_sum(outs.take(k))),
        {
            assert(outs.take(i + 1).drop_last() =~= outs.take(i as int));
            let next: i64 = sum as i64 + outputs[i].1 as i64;
            if next < i32::MIN as i64 || next > i32::MAX as i64 {
                assert(!fits_i32(amounts_sum(outs.take(i + 1))));
                return None;
            }
            sum = next as i32;
        }
        assert(outs.take(n as int) =~= outs);
        let total: i64 = sum as i64 + fee as i64;
        if total < i32::MIN as i64 || total > i32::MAX as i64 {
            return None;
        }
        let avail = match self.checkedAvailableGold() {
            None => return None,
            Some(a) => a,
        };
        if total > avail as i64 {
            return None;
        }
        if self.nonce == i32::MAX {
            return None;
        }
        Some(self.postTransaction(outputs, fee))
    }

    /// The request for the missing block `prevBlockHash`, from this client.
    pub fn requestMissingBlock(&self, prevBlockHash: &str) -> (res: NetMessage)
        ensures
            res@ == MessageModel::MissingBlock(prevBlockHash@, self@.address),
    {
        NetMessage::MissingBlock(prevBlockHash.to_owned(), self.address.clone())
    }

    /// The messages that send every pending transaction again, in order.
    pub fn resendPendingTransaction(&self) -> (res: Vec<NetMessage>)
        ensures
            msgs_view(res@) == Seq::new(
                self@.pendingOutgoingTransactions.len(),
                |i: int| MessageModel::PostTransaction(self@.pendingOutgoingTransactions[i].1),
            ),
    {
        let ghost want = Seq::new(
            self@.pendingOutgoingTransactions.len(),
            |i: int| MessageModel::PostTransaction(self@.pendingOutgoingTransactions[i].1),
        );
        let mut res: Vec<NetMessage> = Vec::new();
        let n = self.pendingOutgoingTransactions.len();
        for i in 0..n
            invariant
                n == self@.pendingOutgoingTransactions.len(),
                want == Seq::new(
                    self@.pendingOutgoingTransactions.len(),
                    |i: int| MessageModel::PostTransaction(self@.pendingOutgoingTransactions[i].1),
                ),
                msgs_view(res@) == want.take(i as int),
        {
            let m = NetMessage::PostTransaction(self.pendingOutgoingTransactions.val_at(i).view_clone());
            assert(m@ == want[i as int]);
            let ghost r0 = res@;
            res.push(m);
            assert(msgs_view(res@) =~= msgs_view(r0).push(m@));
            assert(want.take(i + 1) =~= want.take(i as int).push(want[i as int]));
        }
        assert(want.take(n as int) =~= want);
        res
    }

    /// The message that sends the block `missing`, if this client has it, to
    /// the client at `from`.
    pub fn provideMissingBlock(&self, missing: &str, from: &str) -> (res: Option<NetMessage>)
        ensures
            match alist_get(self@.blocks, missing@) {
                Some(b) => res matches Some(m) && m@ == MessageModel::SendProofFound(from@, b),
                None => res is None,
            },
    {
        match self.blocks.get(missing) {
            Some(b) => Some(NetMessage::SendProofFound(from.to_owned(), b.view_clone())),
            None => None,
        }
    }


    /// Keeps `blockN` waiting for its missing previous block `ph`; the first
    /// block to wait for it asks the network for it.
    fn keep_waiting(&mut self, blockN: block, ph: String) -> (res: Vec<NetMessage>)
        ensures
            final(self)@ == (ClientModel {
                pendingBlocks: alist_set(
                    old(self)@.pendingBlocks,
                    ph@,
                    pending_or_empty(old(self)@.pendingBlocks, ph@).push(blockN@),
                ),
                ..old(self)@
            }),
            msgs_view(res@) == (if alist_contains(old(self)@.pendingBlocks, ph@) {
                Seq::<MessageModel>::empty()
            } else {
                seq![MessageModel::MissingBlock(ph@, old(self)@.address)]
            }),
    {
        let mut msgs: Vec<NetMessage> = Vec::new();
        let mut stuck = match self.pendingBlocks.get(ph.as_str()) {
            Some(v) => v.view_clone(),
            None => {
                msgs.push(self.requestMissingBlock(ph.as_str()));
                BlockList { blocks: Vec::new() }
            },
        };
        let ghost s0 = stuck@;
        assert(s0 == pending_or_empty(old(self)@.pendingBlocks, ph@));
        stuck.blocks.push(blockN);
        assert(stuck@ =~= s0.push(blockN@));
        self.pendingBlocks.insert(ph, stuck);
        assert(msgs_view(msgs@) =~= (if alist_contains(old(self)@.pendingBlocks, ph@) {
            Seq::<MessageModel>::empty()
        } else {
            seq![MessageModel::MissingBlock(ph@, old(self)@.address)]
        }));
        assert(final(self)@ =~= (ClientModel {
            pendingBlocks: alist_set(
                old(self)@.pendingBlocks,
                ph@,
                pending_or_empty(old(self)@.pendingBlocks, ph@).push(blockN@),
            ),
            ..old(self)@
        }));
        msgs
    }

    /// Stores a checked block, makes it the last block if it is longer, and
    /// takes in the blocks that waited for it.
    fn accept_inner(&mut self, blockN: block, Ghost(fuel): Ghost<nat>) -> (res: Option<(Option<block>, Vec<NetMessage>)>)
        requires
            fuel >= pending_weight(old(self)@.pendingBlocks) + 1,
        ensures
            match receive_accept(old(self)@, blockN@, fuel) {
                None => res is None,
                Some(r) => res matches Some(p) && final(self)@ == r.0 && opt_block_view(p.0) == r.1
                    && msgs_view(p.1@) == r.2,
            },
        decreases fuel, 0nat,
    {
        self.blocks.insert(blockN.id.clone(), blockN.view_clone());
        let lb_len = match &self.lastBlock {
            None => return None,
            Some(lb) => lb.chainLength,
        };
        if lb_len < blockN.chainLength {
            self.lastBlock = Some(blockN.view_clone());
            if !self.last_confirmed_inner() {
                return None;
            }
        }
        let unstuck = match self.pendingBlocks.get(blockN.id.as_str()) {
            Some(v) => v.view_clone(),
            None => BlockList { blocks: Vec::new() },
        };
        assert(unstuck@ =~= pending_or_empty(self@.pendingBlocks, blockN@.id));
        let ghost c2 = self@;
        self.pendingBlocks.remove(blockN.id.as_str());
        let n = unstuck.blocks.len();
        if n == 0 {
            return Some((Some(blockN), no_msgs()));
        }
        let mut msgs = no_msgs();
        let ghost c3 = self@;
        let ghost us = unstuck@;
        let ghost x = blockN@.id;
        let ghost depth = (fuel - 1) as nat;
        proof {
            lemma_weight_remove_key(c2.pendingBlocks, x);
            crate::strmap::lemma_alist_set(old(self)@.blocks, x, blockN@, x);
        }
        assert(us.take(0) =~= Seq::<BlockModel>::empty());
        assert(receive_accept(old(self)@, blockN@, fuel) == match receive_all(c3, us, depth) {
            None => None,
            Some(p) => Some((p.0, Some(blockN@), p.1)),
        });
        for i in 0..n
            invariant
                receive_accept(old(self)@, blockN@, fuel) == match receive_all(c3, us, depth) {
                    None => None,
                    Some(p) => Some((p.0, Some(blockN@), p.1)),
                },
                n == us.len(),
                us == unstuck@,
                depth + 1 == fuel,
                depth >= pending_weight(c3.pendingBlocks) + list_weight(x, us),
                alist_contains(c3.blocks, x),
                receive_all(c3, us.take(i as int), depth) == Some((self@, msgs_view(msgs@))),
        {
            assert(us.take(i + 1).drop_last() =~= us.take(i as int));
            assert(us.take(i + 1).last() == us[i as int]);
            proof {
                lemma_list_weight_prefix(x, us, i as int);
                lemma_all_depth(c3, us.take(i as int), x, depth, depth);
            }
            let child = unstuck.blocks[i].view_clone();
            match self.receive_inner(child, Ghost(depth)) {
                None => {
                    proof {
                        lemma_receive_all_none(c3, us, depth, i + 1);
                    }
                    return None;
                },
                Some(r) => {
                    append_msgs(&mut msgs, r.1);
                },
            }
        }
        assert(us.take(n as int) =~= us);
        Some((Some(blockN), msgs))
    }

    /// `receiveBlock`, given a depth of waiting blocks that suffices; `None`
    /// where it would panic (the client is then in an unspecified state).
    fn receive_inner(&mut self, blockN: block, Ghost(fuel): Ghost<nat>) -> (res: Option<(Option<block>, Vec<NetMessage>)>)
        requires
            fuel >= pending_weight(old(self)@.pendingBlocks) + 1,
        ensures
            match receive_spec(old(self)@, blockN@, fuel) {
                None => res is None,
                Some(r) => res matches Some(p) && final(self)@ == r.0 && opt_block_view(p.0) == r.1
                    && msgs_view(p.1@) == r.2,
            },
        decreases fuel, 1nat,
    {
        let mut blockN = blockN;
        if self.blocks.contains_key(blockN.id.as_str()) {
            return Some((None, no_msgs()));
        }
        if !blockN.hasValidProof() && !blockN.isGenesisBlock() {
            return Some((None, no_msgs()));
        }
        let ph = match &blockN.prevBlockHash {
            None => return None,
            Some(h) => h.clone(),
        };
        let has_prev = self.blocks.contains_key(ph.as_str());
        if !has_prev && !blockN.isGenesisBlock() {
            let msgs = self.keep_waiting(blockN, ph);
            return Some((None, msgs));
        }
        if !blockN.isGenesisBlock() {
            let ok = match self.blocks.get(ph.as_str()) {
                None => return None,
                Some(prev) => blockN.rerun_inner(prev),
            };
            match ok {
                None => return None,
                Some(false) => {
                    return Some((None, no_msgs()));
                },
                Some(true) => {},
            }
        }
        self.accept_inner(blockN, Ghost(fuel))
    }

    /// Why `receiveBlock` would ignore `blockN` at once, if it would.
    pub fn blockRefusal(&self, blockN: &block) -> (res: Option<BlockRefusal>)
        ensures
            res == block_refusal(self@, blockN@),
    {
        if self.blocks.contains_key(blockN.id.as_str()) {
            Some(BlockRefusal::Known)
        } else if !blockN.hasValidProof() && !blockN.isGenesisBlock() {
            Some(BlockRefusal::InvalidProof)
        } else {
            None
        }
    }

    /// Takes in a block: ignores it when it is known or lacks a valid proof
    /// (unless it is a genesis block); keeps it waiting, asking the network
    /// for its previous block, when that is unknown; else reruns it on top of
    /// its previous block, stores it, makes it the last block if it is longer
    /// (moving the confirmed block), and takes in the blocks that waited for
    /// it. Returns the stored block, if any, and the messages to send.
    pub fn receiveBlock(&mut self, blockN: block) -> (res: (Option<block>, Vec<NetMessage>))
        requires
            receive_spec(old(self)@, blockN@, receive_fuel(old(self)@)) is Some,
        ensures
            (final(self)@, opt_block_view(res.0), msgs_view(res.1@)) == receive_spec(
                old(self)@,
                blockN@,
                receive_fuel(old(self)@),
            ).unwrap(),
    {
        self.receive_inner(blockN, Ghost(receive_fuel(self@))).unwrap()
    }

    /// `receiveBlock`, or `None` with the client unchanged where it would panic.
    pub fn tryReceiveBlock(&mut self, blockN: block) -> (res: Option<(Option<block>, Vec<NetMessage>)>)
        ensures
            match receive_spec(old(self)@, blockN@, receive_fuel(old(self)@)) {
                None => res is None && final(self)@ == old(self)@,
                Some(r) => res matches Some(p) && final(self)@ == r.0 && opt_block_view(p.0) == r.1
                    && msgs_view(p.1@) == r.2,
            },
    {
        let mut copy = self.view_clone();
        let r = copy.receive_inner(blockN, Ghost(receive_fuel(self@)));
        if r.is_some() {
            *self = copy;
        }
        r
    }

    /// `setLastConfirmed`; false where it would panic or not end.
    fn last_confirmed_inner(&mut self) -> (res: bool)
        ensures
            match last_confirmed_spec(old(self)@) {
                Some(c) => res && final(self)@ == c,
                None => !res,
            },
    {
        let lb = match &self.lastBlock {
            None => return true,
            Some(lb) => lb.view_clone(),
        };
        if lb.chainLength < i32::MIN + CONFIRMED_DEPTH {
            return false;
        }
        let mut height = lb.chainLength - CONFIRMED_DEPTH;
        if height < 0 {
            height = 0;
        }
        let mut cur = lb;
        let mut fuel: usize = self.blocks.len();
        let ghost blocks = self@.blocks;
        while cur.chainLength > height
            invariant
                blocks == self@.blocks,
                self@ == old(self)@,
                old(self)@.lastBlock is Some,
                height == confirmed_height(old(self)@.lastBlock.unwrap().chainLength as int),
                fits_i32(old(self)@.lastBlock.unwrap().chainLength - CONFIRMED_DEPTH),
                walk_back(blocks, cur@, height as int, fuel as nat) == walk_back(
                    blocks,
                    old(self)@.lastBlock.unwrap(),
                    height as int,
                    blocks.len(),
                ),
            decreases fuel,
        {
            if fuel == 0 {
                return false;
            }
            let ph = match &cur.prevBlockHash {
                None => return false,
                Some(ph) => ph.clone(),
            };
            let next = match self.blocks.get(ph.as_str()) {
                None => return false,
                Some(p) => p.view_clone(),
            };
            cur = next;
            fuel = fuel - 1;
        }
        let ghost conf = cur@;
        self.lastConfirmedBlock = Some(cur);
        let snapshot = self.pendingOutgoingTransactions.clone_map();
        let ghost snap = snapshot@;
        let n = snapshot.len();
        let ghost c0 = self@;
        assert(snap.take(0) =~= Seq::<(Seq<char>, TxModel)>::empty());
        for i in 0..n
            invariant
                n == snap.len(),
                snap == snapshot@,
                snap == old(self)@.pendingOutgoingTransactions,
                self@ == (ClientModel {
                    pendingOutgoingTransactions: self@.pendingOutgoingTransactions,
                    ..c0
                }),
                c0 == (ClientModel { lastConfirmedBlock: Some(conf), ..old(self)@ }),
                self@.pendingOutgoingTransactions == drop_confirmed(
                    snap,
                    snap.take(i as int),
                    conf.transactions,
                ),
                opt_block_view(self.lastConfirmedBlock) == Some(conf),
        {
            assert(snap.take(i + 1).drop_last() =~= snap.take(i as int));
            let id = snapshot.key_at(i);
            let held = match &self.lastConfirmedBlock {
                Some(b) => b.transactions.contains_key(id.as_str()),
                None => false,
            };
            if held {
                self.pendingOutgoingTransactions.remove(id.as_str());
            }
        }
        assert(snap.take(n as int) =~= snap);
        assert(final(self)@ =~= last_confirmed_spec(old(self)@).unwrap());
        true
    }

    /// Moves the last confirmed block to the block, going back from the last
    /// block, that is `CONFIRMED_DEPTH` shorter (or the first block), and drops
    /// the pending transactions that it holds.
    pub fn setLastConfirmed(&mut self)
        requires
            last_confirmed_spec(old(self)@) is Some,
        ensures
            final(self)@ == last_confirmed_spec(old(self)@).unwrap(),
    {
        let ok = self.last_confirmed_inner();
    }
}

} // verus!

verus! {

/// Replaying transactions keeps every field of a block but its ledger.
proof fn lemma_replay_keeps_header(s: BlockModel, txs: Seq<(Seq<char>, TxModel)>)
    ensures
        replay(s, txs) matches Some(r) ==> r.0 == with_ledger(
            s,
            r.0.balances,
            r.0.nextNonce,
            r.0.transactions,
        ),
    decreases txs.len(),
{
    if txs.len() > 0 {
        lemma_replay_keeps_header(s, txs.drop_last());
        if let Some(r) = replay(s, txs.drop_last()) {
            if r.1 {
                crate::block::lemma_add_tx_ledger_only(r.0, r.0, txs.last().1);
            }
        }
    }
}

/// A client that takes in blocks keeps every block it knew, unchanged, and
/// its last block never gets shorter (or unset).
pub open spec fn client_grows(c: ClientModel, r: ClientModel) -> bool {
    &&& forall|k: Seq<char>| #[trigger] alist_contains(c.blocks, k) ==> alist_get(r.blocks, k) == alist_get(c.blocks, k)
    &&& c.lastBlock matches Some(lb) ==> (r.lastBlock matches Some(lb2) && lb2.chainLength >= lb.chainLength)
}

proof fn lemma_client_grows_trans(a: ClientModel, b: ClientModel, c: ClientModel)
    requires
        client_grows(a, b),
        client_grows(b, c),
    ensures
        client_grows(a, c),
{
    assert forall|k: Seq<char>| #[trigger] alist_contains(a.blocks, k) implies alist_get(c.blocks, k) == alist_get(a.blocks, k) by {
        crate::strmap::lemma_alist_index(a.blocks, k);
        crate::strmap::lemma_alist_index(b.blocks, k);
        assert(alist_contains(b.blocks, k));
    }
}

proof fn lemma_accept_grows(c: ClientModel, b: BlockModel, fuel: nat)
    requires
        !alist_contains(c.blocks, b.id),
    ensures
        receive_accept(c, b, fuel) matches Some(r) ==> client_grows(c, r.0),
    decreases fuel, 0nat,
{
    if let Some(r) = receive_accept(c, b, fuel) {
        let c1 = ClientModel { blocks: alist_set(c.blocks, b.id, b), ..c };
        assert forall|k: Seq<char>| #[trigger] alist_contains(c.blocks, k) implies alist_get(c1.blocks, k) == alist_get(c.blocks, k) by {
            crate::strmap::lemma_alist_set(c.blocks, b.id, b, k);
        }
        let lb = c1.lastBlock.unwrap();
        let c2 = if lb.chainLength < b.chainLength {
            last_confirmed_spec(ClientModel { lastBlock: Some(b), ..c1 }).unwrap()
        } else {
            c1
        };
        assert(client_grows(c, c2));
        let unstuck = pending_or_empty(c2.pendingBlocks, b.id);
        let c3 = ClientModel { pendingBlocks: alist_remove(c2.pendingBlocks, b.id), ..c2 };
        assert(client_grows(c, c3));
        if unstuck.len() > 0 {
            lemma_all_grows(c3, unstuck, (fuel - 1) as nat);
            lemma_client_grows_trans(c, c3, r.0);
        }
    }
}

proof fn lemma_receive_grows(c: ClientModel, b: BlockModel, fuel: nat)
    ensures
        receive_spec(c, b, fuel) matches Some(r) ==> client_grows(c, r.0),
    decreases fuel, 1nat,
{
    if let Some(r) = receive_spec(c, b, fuel) {
        if alist_contains(c.blocks, b.id) || (!spec_has_valid_proof(b) && b.chainLength != 0) {
        } else {
            let ph = b.prevBlockHash.unwrap();
            if !alist_contains(c.blocks, ph) && b.chainLength != 0 {
            } else if b.chainLength == 0 {
                lemma_accept_grows(c, b, fuel);
            } else {
                let prev = alist_get(c.blocks, ph).unwrap();
                let ro = rerun_outcome(b, prev).unwrap();
                if ro.1 {
                    let start = BlockModel {
                        balances: crate::block::reward_outcome(prev).unwrap(),
                        nextNonce: prev.nextNonce,
                        transactions: Seq::empty(),
                        ..b
                    };
                    lemma_replay_keeps_header(start, b.transactions);
                    assert(ro.0.id == b.id);
                    lemma_accept_grows(c, ro.0, fuel);
                }
            }
        }
    }
}

pub proof fn lemma_all_grows(c: ClientModel, bs: Seq<BlockModel>, fuel: nat)
    ensures
        receive_all(c, bs, fuel) matches Some(r) ==> client_grows(c, r.0),
    decreases fuel, bs.len() + 2,
{
    if bs.len() > 0 {
        lemma_all_grows(c, bs.drop_last(), fuel);
        if let Some(p) = receive_all(c, bs.drop_last(), fuel) {
            lemma_receive_grows(p.0, bs.last(), fuel);
            if let Some(q) = receive_spec(p.0, bs.last(), fuel) {
                lemma_client_grows_trans(c, p.0, q.0);
            }
        }
    }
}

/// A stored block fits the client: it is no longer than the last block, and
/// it is a genesis block or its previous block is stored.
pub open spec fn stored_block_fits(c: ClientModel, x: BlockModel) -> bool {
    &&& x.chainLength <= c.lastBlock.unwrap().chainLength
    &&& x.chainLength == 0 || (x.prevBlockHash is Some && alist_contains(c.blocks, x.prevBlockHash.unwrap()))
}

/// A client is well formed: it has a last block, which is stored under its
/// id and is the longest stored block, and every stored block but a genesis
/// block has its previous block stored.
pub open spec fn client_wf(c: ClientModel) -> bool {
    &&& c.lastBlock is Some
    &&& alist_get(c.blocks, c.lastBlock.unwrap().id) == Some(c.lastBlock.unwrap())
    &&& forall|k: Seq<char>| #[trigger] alist_contains(c.blocks, k) ==> stored_block_fits(c, alist_get(c.blocks, k).unwrap())
}

/// Storing a new block whose previous block is stored (or a genesis block),
/// and making it the last block where it is longer, keeps a client well formed.
proof fn lemma_store_wf(c: ClientModel, b: BlockModel)
    requires
        client_wf(c),
        !alist_contains(c.blocks, b.id),
        b.chainLength == 0 || (b.prevBlockHash is Some && alist_contains(c.blocks, b.prevBlockHash.unwrap())),
    ensures
        client_wf(ClientModel {
            blocks: alist_set(c.blocks, b.id, b),
            lastBlock: if c.lastBlock.unwrap().chainLength < b.chainLength { Some(b) } else { c.lastBlock },
            ..c
        }),
{
    let l = c.lastBlock.unwrap();
    let c2 = ClientModel {
        blocks: alist_set(c.blocks, b.id, b),
        lastBlock: if l.chainLength < b.chainLength { Some(b) } else { c.lastBlock },
        ..c
    };
    let nl = c2.lastBlock.unwrap();
    crate::strmap::lemma_alist_set(c.blocks, b.id, b, nl.id);
    assert forall|k: Seq<char>| #[trigger] alist_contains(c2.blocks, k) implies stored_block_fits(c2, alist_get(c2.blocks, k).unwrap()) by {
        crate::strmap::lemma_alist_set(c.blocks, b.id, b, k);
        let x = alist_get(c2.blocks, k).unwrap();
        if x.chainLength != 0 {
            let ph = x.prevBlockHash.unwrap();
            crate::strmap::lemma_alist_set(c.blocks, b.id, b, ph);
            if k != b.id {
                assert(alist_contains(c.blocks, k));
                assert(stored_block_fits(c, alist_get(c.blocks, k).unwrap()));
            }
        } else if k != b.id {
            assert(alist_contains(c.blocks, k));
            assert(stored_block_fits(c, alist_get(c.blocks, k).unwrap()));
        }
    }
}

proof fn lemma_accept_wf(c: ClientModel, b: BlockModel, fuel: nat)
    requires
        client_wf(c),
        !alist_contains(c.blocks, b.id),
        b.chainLength == 0 || (b.prevBlockHash is Some && alist_contains(c.blocks, b.prevBlockHash.unwrap())),
    ensures
        receive_accept(c, b, fuel) matches Some(r) ==> client_wf(r.0),
    decreases fuel, 0nat,
{
    if let Some(r) = receive_accept(c, b, fuel) {
        lemma_store_wf(c, b);
        let c1 = ClientModel { blocks: alist_set(c.blocks, b.id, b), ..c };
        let lb = c1.lastBlock.unwrap();
        let c2 = if lb.chainLength < b.chainLength {
            last_confirmed_spec(ClientModel { lastBlock: Some(b), ..c1 }).unwrap()
        } else {
            c1
        };
        assert(client_wf(c2));
        let unstuck = pending_or_empty(c2.pendingBlocks, b.id);
        let c3 = ClientModel { pendingBlocks: alist_remove(c2.pendingBlocks, b.id), ..c2 };
        assert(client_wf(c3));
        if unstuck.len() > 0 {
            lemma_all_wf(c3, unstuck, (fuel - 1) as nat);
        }
    }
}

proof fn lemma_receive_wf(c: ClientModel, b: BlockModel, fuel: nat)
    requires
        client_wf(c),
    ensures
        receive_spec(c, b, fuel) matches Some(r) ==> client_wf(r.0),
    decreases fuel, 1nat,
{
    if let Some(r) = receive_spec(c, b, fuel) {
        if alist_contains(c.blocks, b.id) || (!spec_has_valid_proof(b) && b.chainLength != 0) {
        } else {
            let ph = b.prevBlockHash.unwrap();
            if !alist_contains(c.blocks, ph) && b.chainLength != 0 {
            } else if b.chainLength == 0 {
                lemma_accept_wf(c, b, fuel);
            } else {
                let prev = alist_get(c.blocks, ph).unwrap();
                let ro = rerun_outcome(b, prev).unwrap();
                if ro.1 {
                    let start = BlockModel {
                        balances: crate::block::reward_outcome(prev).unwrap(),
                        nextNonce: prev.nextNonce,
                        transactions: Seq::empty(),
                        ..b
                    };
                    lemma_replay_keeps_header(start, b.transactions);
                    assert(ro.0.id == b.id && ro.0.prevBlockHash == b.prevBlockHash
                        && ro.0.chainLength == b.chainLength);
                    lemma_accept_wf(c, ro.0, fuel);
                }
            }
        }
    }
}

proof fn lemma_all_wf(c: ClientModel, bs: Seq<BlockModel>, fuel: nat)
    requires
        client_wf(c),
    ensures
        receive_all(c, bs, fuel) matches Some(r) ==> client_wf(r.0),
    decreases fuel, bs.len() + 2,
{
    if bs.len() > 0 {
        lemma_all_wf(c, bs.drop_last(), fuel);
        if let Some(p) = receive_all(c, bs.drop_last(), fuel) {
            lemma_receive_wf(p.0, bs.last(), fuel);
        }
    }
}

/// A client made with a genesis block is well formed.
pub proof fn law_new_client_well_formed(name: Seq<char>, g: BlockModel, keyPair: (Seq<char>, Seq<char>))
    requires
        g.chainLength == 0,
    ensures
        client_wf(spec_new_client(name, Some(g), keyPair)),
{
    let c = spec_new_client(name, Some(g), keyPair);
    crate::strmap::lemma_alist_index_at(c.blocks, g.id, 0);
    assert forall|k: Seq<char>| #[trigger] alist_contains(c.blocks, k) implies stored_block_fits(c, alist_get(c.blocks, k).unwrap()) by {
        crate::strmap::lemma_alist_index(c.blocks, k);
    }
}

/// Taking in a block keeps a client well formed (`client_wf`): its last block
/// stays stored and the longest, and every stored block but a genesis block
/// keeps its previous block stored; with the blocks that waited for it too.
pub proof fn law_receive_keeps_client_well_formed(c: ClientModel, b: BlockModel, fuel: nat)
    requires
        client_wf(c),
    ensures
        receive_spec(c, b, fuel) matches Some(r) ==> client_wf(r.0) && client_grows(c, r.0),
{
    lemma_receive_wf(c, b, fuel);
    lemma_receive_grows(c, b, fuel);
}

/// Taking in a block never forgets or alters a block the client knew, and
/// never makes its last block shorter.
pub proof fn law_receive_keeps_known_blocks(c: ClientModel, b: BlockModel)
    ensures
        receive_spec(c, b, receive_fuel(c)) matches Some(r) ==> client_grows(c, r.0),
{
    lemma_receive_grows(c, b, receive_fuel(c));
}

/// A block that the client knows already is ignored.
pub proof fn law_known_block_is_ignored(c: ClientModel, b: BlockModel, fuel: nat)
    requires
        alist_contains(c.blocks, b.id),
    ensures
        receive_spec(c, b, fuel) == Some((c, None::<BlockModel>, Seq::<MessageModel>::empty())),
{
}

/// A transaction that a client posts, with a key pair made by
/// `generateKeypair` and its address made from the public key, is validly
/// signed, and checking it cannot panic.
pub proof fn law_posted_transaction_is_valid(
    c: ClientModel,
    sig: Option<Seq<char>>,
    fee: i32,
    outputs: Seq<(Seq<char>, i32)>,
    data: Seq<char>,
)
    requires
        c.keyPair.0.len() == crate::utils::PRIVATE_KEY_LEN,
        forall|i: int| 0 <= i < c.keyPair.0.len() ==> crate::utils::is_alphanumeric(#[trigger] c.keyPair.0[i]),
        c.keyPair.1 == c.keyPair.0.push('!'),
        c.address == spec_calc_address(c.keyPair.1),
    ensures
        spec_valid_signature(spec_client_tx(c, sig, fee, outputs, data)),
        valid_signature_safe(spec_client_tx(c, sig, fee, outputs, data)),
{
    let t = spec_client_tx(c, sig, fee, outputs, data);
    assert(vstd::utf8::is_ascii_chars(c.keyPair.0));
    crate::utils::law_sign_then_verify(c.keyPair.0, '!', t.id);
}

/// Posting a payment lowers the available gold by the payment and its fee
/// (when the new transaction's id is not pending already).
pub proof fn law_posting_spends_available_gold(c: ClientModel, outputs: Seq<(Seq<char>, i32)>, fee: i32)
    requires
        !alist_contains(
            c.pendingOutgoingTransactions,
            spec_client_tx(c, None, fee, outputs, Seq::empty()).id,
        ),
    ensures
        ({
            let t = spec_client_tx(c, None, fee, outputs, Seq::empty());
            let c2 = ClientModel {
                pendingOutgoingTransactions: alist_set(c.pendingOutgoingTransactions, t.id, t),
                nonce: (c.nonce + 1) as i32,
                ..c
            };
            spec_available_gold(c2) == spec_available_gold(c) - (amounts_sum(outputs) + fee)
        }),
{
    let t = spec_client_tx(c, None, fee, outputs, Seq::empty());
    let p = c.pendingOutgoingTransactions;
    crate::strmap::lemma_alist_index(p, t.id);
    assert(alist_set(p, t.id, t).drop_last() =~= p);
}

} // verus!

verus! {

proof fn lemma_walk_back(blocks: Seq<(Seq<char>, BlockModel)>, b: BlockModel, height: int, fuel: nat)
    ensures
        walk_back(blocks, b, height, fuel) matches Some(r) ==> r.chainLength <= height,
    decreases fuel,
{
    if b.chainLength > height && fuel > 0 {
        if let Some(ph) = b.prevBlockHash {
            if let Some(p) = alist_get(blocks, ph) {
                lemma_walk_back(blocks, p, height, (fuel - 1) as nat);
            }
        }
    }
}

/// A step back along the links: the previous block of a block, if known.
pub open spec fn step_back(blocks: Seq<(Seq<char>, BlockModel)>) -> spec_fn(BlockModel) -> Option<BlockModel> {
    |b: BlockModel| match b.prevBlockHash {
        None => None,
        Some(ph) => alist_get(blocks, ph),
    }
}

/// The place of a block among the known blocks, or -1.
pub open spec fn block_class(blocks: Seq<(Seq<char>, BlockModel)>) -> spec_fn(BlockModel) -> int {
    |b: BlockModel|
        if exists|i: int| 0 <= i < blocks.len() && #[trigger] blocks[i].1 == b {
            choose|i: int| 0 <= i < blocks.len() && #[trigger] blocks[i].1 == b
        } else {
            -1
        }
}

/// A known block has a place among the known blocks; blocks with one place
/// are one block.
pub proof fn lemma_block_class(blocks: Seq<(Seq<char>, BlockModel)>)
    ensures
        forall|k: Seq<char>| #[trigger] alist_get(blocks, k) is Some ==> 0 <= block_class(blocks)(alist_get(blocks, k).unwrap()) < blocks.len(),
        forall|x: BlockModel, y: BlockModel|
            0 <= #[trigger] block_class(blocks)(x) < blocks.len() && block_class(blocks)(x) == #[trigger] block_class(blocks)(y) ==> x == y,
{
    assert forall|k: Seq<char>| #[trigger] alist_get(blocks, k) is Some implies 0 <= block_class(blocks)(alist_get(blocks, k).unwrap()) < blocks.len() by {
        crate::strmap::lemma_alist_index(blocks, k);
        let i = alist_index(blocks, k);
        assert(blocks[i].1 == alist_get(blocks, k).unwrap());
    }
}

/// `walk_back` is a walk along `step_back`.
proof fn lemma_walk_back_is_walk(blocks: Seq<(Seq<char>, BlockModel)>, b: BlockModel, height: int, fuel: nat)
    ensures
        walk_back(blocks, b, height, fuel) == walk(step_back(blocks), |x: BlockModel| x.chainLength <= height, b, fuel),
    decreases fuel,
{
    if b.chainLength > height && fuel > 0 {
        if let Some(ph) = b.prevBlockHash {
            if let Some(p) = alist_get(blocks, ph) {
                lemma_walk_back_is_walk(blocks, p, height, (fuel - 1) as nat);
            }
        }
    }
}

/// Walking back from a block ends, where it ends at all, within as many steps
/// as there are blocks, the same way: a longer walk goes round a cycle of
/// links for ever.
pub proof fn law_walk_back_suffices(blocks: Seq<(Seq<char>, BlockModel)>, b: BlockModel, height: int, f: nat)
    ensures
        walk_back(blocks, b, height, f) is Some ==> walk_back(blocks, b, height, blocks.len()) == walk_back(
            blocks,
            b,
            height,
            f,
        ),
{
    if walk_back(blocks, b, height, f) is Some {
        let stop = |x: BlockModel| x.chainLength <= height;
        lemma_walk_back_is_walk(blocks, b, height, f);
        lemma_walk_back_is_walk(blocks, b, height, blocks.len());
        lemma_block_class(blocks);
        assert(classes_agree(step_back(blocks), stop, block_class(blocks), blocks.len()));
        lemma_walk_suffices(step_back(blocks), stop, block_class(blocks), blocks.len(), b, f, blocks.len());
    }
}

proof fn lemma_drop_confirmed(
    p: Seq<(Seq<char>, TxModel)>,
    snapshot: Seq<(Seq<char>, TxModel)>,
    txs: Seq<(Seq<char>, TxModel)>,
)
    requires
        crate::strmap::keys_distinct(p),
    ensures
        crate::strmap::keys_distinct(drop_confirmed(p, snapshot, txs)),
        forall|j: int|
            0 <= j < snapshot.len() && alist_contains(txs, #[trigger] snapshot[j].0) ==> !alist_contains(
                drop_confirmed(p, snapshot, txs),
                snapshot[j].0,
            ),
    decreases snapshot.len(),
{
    if snapshot.len() > 0 {
        let s1 = snapshot.drop_last();
        lemma_drop_confirmed(p, s1, txs);
        let r1 = drop_confirmed(p, s1, txs);
        let k = snapshot.last().0;
        if alist_contains(txs, k) {
            assert forall|j: int|
                0 <= j < snapshot.len() && alist_contains(txs, #[trigger] snapshot[j].0) implies !alist_contains(
                drop_confirmed(p, snapshot, txs),
                snapshot[j].0,
            ) by {
                crate::strmap::lemma_alist_remove(r1, k, snapshot[j].0);
                crate::strmap::lemma_alist_index(r1, snapshot[j].0);
                crate::strmap::lemma_alist_index(alist_remove(r1, k), snapshot[j].0);
                if j < snapshot.len() - 1 {
                    assert(snapshot[j] == s1[j]);
                }
            }
            crate::strmap::lemma_alist_remove(r1, k, k);
        } else {
            assert forall|j: int|
                0 <= j < snapshot.len() && alist_contains(txs, #[trigger] snapshot[j].0) implies !alist_contains(
                drop_confirmed(p, snapshot, txs),
                snapshot[j].0,
            ) by {
                assert(j < snapshot.len() - 1);
                assert(snapshot[j] == s1[j]);
            }
        }
    }
}

/// Confirming moves the last confirmed block to a block no longer than the
/// confirmation height below the last block, and leaves pending no
/// transaction that the confirmed block holds (when no id is pending twice).
pub proof fn law_confirmation(c: ClientModel)
    requires
        crate::strmap::keys_distinct(c.pendingOutgoingTransactions),
    ensures
        last_confirmed_spec(c) matches Some(c2) ==> (c.lastBlock matches Some(lb) ==> {
            &&& c2.lastConfirmedBlock matches Some(cb)
            &&& cb.chainLength <= confirmed_height(lb.chainLength as int)
            &&& forall|k: Seq<char>|
                alist_contains(cb.transactions, k) ==> !alist_contains(
                    c2.pendingOutgoingTransactions,
                    k,
                )
        }),
{
    if let Some(lb) = c.lastBlock {
        if let Some(c2) = last_confirmed_spec(c) {
            let h = confirmed_height(lb.chainLength as int);
            lemma_walk_back(c.blocks, lb, h, c.blocks.len());
            let cb = c2.lastConfirmedBlock.unwrap();
            let p = c.pendingOutgoingTransactions;
            lemma_drop_confirmed(p, p, cb.transactions);
            assert forall|k: Seq<char>| alist_contains(cb.transactions, k) implies !alist_contains(
                c2.pendingOutgoingTransactions,
                k,
            ) by {
                crate::strmap::lemma_alist_index(p, k);
                if alist_contains(p, k) {
                    let j = alist_index(p, k);
                    assert(p[j].0 == k);
                } else {
                    lemma_drop_confirmed_subset(p, p, cb.transactions, k);
                }
            }
        }
    }
}

/// A key is a key of a list with a pair appended where it is a key of the
/// list or the key of that pair.
proof fn lemma_contains_push<W>(s: Seq<(Seq<char>, W)>, x: (Seq<char>, W), k: Seq<char>)
    ensures
        alist_contains(s.push(x), k) == (alist_contains(s, k) || x.0 == k),
{
    crate::strmap::lemma_alist_get_push(s, x, k);
}

/// What `drop_confirmed` leaves of each key: nothing for a key of `snapshot`
/// that `txs` holds, what `p` gave it otherwise.
proof fn lemma_drop_confirmed_get(
    p: Seq<(Seq<char>, TxModel)>,
    snapshot: Seq<(Seq<char>, TxModel)>,
    txs: Seq<(Seq<char>, TxModel)>,
    k: Seq<char>,
)
    requires
        crate::strmap::keys_distinct(p),
    ensures
        alist_get(drop_confirmed(p, snapshot, txs), k) == (if alist_contains(snapshot, k) && alist_contains(txs, k) {
            None
        } else {
            alist_get(p, k)
        }),
    decreases snapshot.len(),
{
    if snapshot.len() > 0 {
        let s1 = snapshot.drop_last();
        let x = snapshot.last();
        lemma_drop_confirmed_get(p, s1, txs, k);
        lemma_drop_confirmed(p, s1, txs);
        assert(snapshot =~= s1.push(x));
        lemma_contains_push(s1, x, k);
        let r1 = drop_confirmed(p, s1, txs);
        if alist_contains(txs, x.0) {
            crate::strmap::lemma_alist_remove(r1, x.0, k);
        }
    }
}

/// Confirming drops from the pending transactions exactly those whose ids
/// the newly confirmed block holds: every other pending transaction stays
/// pending, unchanged, and nothing new becomes pending.
pub proof fn law_confirmation_keeps_unconfirmed(c: ClientModel, k: Seq<char>)
    requires
        crate::strmap::keys_distinct(c.pendingOutgoingTransactions),
    ensures
        last_confirmed_spec(c) matches Some(c2) ==> (c.lastBlock is Some ==> {
            &&& c2.lastConfirmedBlock is Some
            &&& alist_get(c2.pendingOutgoingTransactions, k) == (if alist_contains(
                c2.lastConfirmedBlock.unwrap().transactions,
                k,
            ) {
                None
            } else {
                alist_get(c.pendingOutgoingTransactions, k)
            })
        }),
        last_confirmed_spec(c) matches Some(c2) ==> (c.lastBlock is None ==> c2 == c),
{
    if let Some(c2) = last_confirmed_spec(c) {
        if c.lastBlock is Some {
            let p = c.pendingOutgoingTransactions;
            let cb = c2.lastConfirmedBlock.unwrap();
            lemma_drop_confirmed_get(p, p, cb.transactions, k);
            crate::strmap::lemma_alist_index(p, k);
        }
    }
}

/// Dropping keys never brings a key in.
proof fn lemma_drop_confirmed_subset(
    p: Seq<(Seq<char>, TxModel)>,
    snapshot: Seq<(Seq<char>, TxModel)>,
    txs: Seq<(Seq<char>, TxModel)>,
    k: Seq<char>,
)
    requires
        crate::strmap::keys_distinct(p),
        !alist_contains(p, k),
    ensures
        !alist_contains(drop_confirmed(p, snapshot, txs), k),
    decreases snapshot.len(),
{
    if snapshot.len() > 0 {
        lemma_drop_confirmed_subset(p, snapshot.drop_last(), txs, k);
        lemma_drop_confirmed(p, snapshot.drop_last(), txs);
        let r1 = drop_confirmed(p, snapshot.drop_last(), txs);
        crate::strmap::lemma_alist_remove(r1, snapshot.last().0, k);
        crate::strmap::lemma_alist_index(r1, k);
        crate::strmap::lemma_alist_index(alist_remove(r1, snapshot.last().0), k);
    }
}

} // verus!
