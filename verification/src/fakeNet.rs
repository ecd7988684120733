//! The simulated network: which clients are registered, and the messages that
//! clients and miners hand to it for delivery.
use vstd::prelude::*;
use crate::block::{block, BlockModel};
use crate::strmap::{
    alist_contains, alist_get, keys_distinct, lemma_set_all, set_all, StrMap,
};
use crate::transaction::{transaction, TxModel};

verus! {

/// A message for the network to deliver.
pub enum NetMessage {
    /// A new transaction, for every client.
    PostTransaction(transaction),
    /// A block with a proof, for every client.
    ProofFound(block),
    /// A request, for every client, for the block with the given id (first),
    /// on behalf of the client at the given address (second).
    MissingBlock(String, String),
    /// A block for the client at the given address only.
    SendProofFound(String, block),
}

/// What a message holds.
pub enum MessageModel {
    PostTransaction(TxModel),
    ProofFound(BlockModel),
    MissingBlock(Seq<char>, Seq<char>),
    SendProofFound(Seq<char>, BlockModel),
}

impl View for NetMessage {
    type V = MessageModel;

    open spec fn view(&self) -> MessageModel {
        match self {
            NetMessage::PostTransaction(t) => MessageModel::PostTransaction(t@),
            NetMessage::ProofFound(b) => MessageModel::ProofFound(b@),
            NetMessage::MissingBlock(m, f) => MessageModel::MissingBlock(m@, f@),
            NetMessage::SendProofFound(a, b) => MessageModel::SendProofFound(a@, b@),
        }
    }
}

/// The models of a list of messages.
pub open spec fn msgs_view(v: Seq<NetMessage>) -> Seq<MessageModel> {
    Seq::new(v.len(), |i: int| v[i]@)
}

/// Appends the messages of `more` to `out`.
pub(crate) fn append_msgs(out: &mut Vec<NetMessage>, more: Vec<NetMessage>)
    ensures
        msgs_view(final(out)@) == msgs_view(old(out)@) + msgs_view(more@),
{
    let mut more = more;
    let ghost m0 = more@;
    out.append(&mut more);
    assert(msgs_view(out@) =~= msgs_view(old(out)@) + msgs_view(m0));
}

/// The clients registered with the network, each address with the handle by
/// which the caller reaches that client, and the network's settings.
pub struct fakeNet {
    pub clients: StrMap<u64>,
    pub chanceMessageFails: i32,
    pub messageDelayMax: u64,
}

/// The handles of a map of clients, in order.
pub open spec fn handles(s: Seq<(Seq<char>, u64)>) -> Seq<u64> {
    Seq::new(s.len(), |i: int| s[i].1)
}

impl fakeNet {
    /// A network with no clients.
    pub fn new(chanceMessageFails: i32, messageDelay: u64) -> (res: fakeNet)
        ensures
            res.clients@ == Seq::<(Seq<char>, u64)>::empty(),
            res.chanceMessageFails == chanceMessageFails,
            res.messageDelayMax == messageDelay,
    {
        fakeNet { clients: StrMap::new(), chanceMessageFails, messageDelayMax: messageDelay }
    }

    /// Registers each client, by its address, in turn; a later client with the
    /// same address replaces an earlier one.
    pub fn register(&mut self, clientList: Vec<(String, u64)>)
        ensures
            final(self).clients@ == set_all(
                old(self).clients@,
                Seq::new(clientList@.len(), |i: int| (clientList@[i].0@, clientList@[i].1)),
            ),
            final(self).chanceMessageFails == old(self).chanceMessageFails,
            final(self).messageDelayMax == old(self).messageDelayMax,
    {
        let ghost list = Seq::new(clientList@.len(), |i: int| (clientList@[i].0@, clientList@[i].1));
        let ghost start = self.clients@;
        let n = clientList.len();
        assert(list.take(0) =~= Seq::<(Seq<char>, u64)>::empty());
        for i in 0..n
            invariant
                n == clientList@.len(),
                list == Seq::new(clientList@.len(), |i: int| (clientList@[i].0@, clientList@[i].1)),
                self.clients@ == set_all(start, list.take(i as int)),
                self.chanceMessageFails == old(self).chanceMessageFails,
                self.messageDelayMax == old(self).messageDelayMax,
        {
            assert(list.take(i + 1).drop_last() =~= list.take(i as int));
            self.clients.insert(clientList[i].0.clone(), clientList[i].1);
        }
        assert(list.take(n as int) =~= list);
    }

    /// The handles of the clients that a broadcast of `transaction` reaches:
    /// every registered client, in order (the transaction itself does not
    /// choose them).
    pub fn broadcast_post_transaction(&self, transaction: &transaction) -> (res: Vec<u64>)
        ensures
            res@ == handles(self.clients@),
    {
        self.participants()
    }

    /// The handles of the registered clients, in order: whom a broadcast
    /// reaches.
    pub fn participants(&self) -> (res: Vec<u64>)
        ensures
            res@ == handles(self.clients@),
    {
        let mut res: Vec<u64> = Vec::new();
        let n = self.clients.len();
        for i in 0..n
            invariant
                n == self.clients@.len(),
                res@ == handles(self.clients@).take(i as int),
        {
            res.push(*self.clients.val_at(i));
            assert(handles(self.clients@).take(i + 1) =~= handles(self.clients@).take(i as int).push(self.clients@[i as int].1));
        }
        assert(handles(self.clients@).take(n as int) =~= handles(self.clients@));
        res
    }

    /// The handle of the client that a message sent to `address` reaches, if
    /// it is registered.
    pub fn send_message_proof_found(&self, address: &str) -> (res: Option<u64>)
        ensures
            res == crate::strmap::alist_get(self.clients@, address@),
    {
        match self.clients.get(address) {
            Some(h) => Some(*h),
            None => None,
        }
    }
}


/// After registering clients with distinct addresses, a message sent to one
/// of their addresses reaches that client.
pub proof fn law_registered_client_is_reached(
    before: Seq<(Seq<char>, u64)>,
    list: Seq<(Seq<char>, u64)>,
    address: Seq<char>,
)
    requires
        keys_distinct(list),
        alist_contains(list, address),
    ensures
        alist_get(set_all(before, list), address) == alist_get(list, address),
{
    lemma_set_all(before, list, address);
}

} // verus!
