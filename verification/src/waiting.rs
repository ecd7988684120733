//! How deep `receiveBlock` nests when blocks that waited for a missing block
//! are taken in, one inside the other.
//!
//! Each level of nesting takes a list of waiting blocks out of the client.
//! A block that waits under its own previous block is never put back; one that
//! waits under another key may be put back once, under its previous block. So
//! the weight of the waiting blocks (1 for the first kind, 2 for the second)
//! bounds the depth, and receiving a block with a larger depth changes nothing.
use vstd::prelude::*;
use crate::block::{rerun_outcome, BlockModel};
use crate::client::{
    client_grows, last_confirmed_spec, list_weight, pending_or_empty, pending_weight,
    receive_accept, receive_all, receive_fuel, receive_spec, wait_weight, ClientModel,
};
use crate::strmap::{alist_contains, alist_get, alist_index, alist_remove, alist_set};

verus! {

/// Replacing one pair changes the weight by the difference of the two lists.
proof fn lemma_weight_update(p: Seq<(Seq<char>, Seq<BlockModel>)>, i: int, e: (Seq<char>, Seq<BlockModel>))
    requires
        0 <= i < p.len(),
    ensures
        pending_weight(p.update(i, e)) + list_weight(p[i].0, p[i].1) == pending_weight(p) + list_weight(
            e.0,
            e.1,
        ),
    decreases p.len(),
{
    let q = p.update(i, e);
    if i == p.len() - 1 {
        assert(q.drop_last() =~= p.drop_last());
    } else {
        assert(q.drop_last() =~= p.drop_last().update(i, e));
        lemma_weight_update(p.drop_last(), i, e);
    }
}

/// Removing one pair takes its list's weight away.
proof fn lemma_weight_remove(p: Seq<(Seq<char>, Seq<BlockModel>)>, i: int)
    requires
        0 <= i < p.len(),
    ensures
        pending_weight(p.remove(i)) + list_weight(p[i].0, p[i].1) == pending_weight(p),
    decreases p.len(),
{
    let q = p.remove(i);
    if i == p.len() - 1 {
        assert(q =~= p.drop_last());
    } else {
        assert(q.drop_last() =~= p.drop_last().remove(i));
        lemma_weight_remove(p.drop_last(), i);
    }
}

/// Mapping `k` to `v` swaps the weight of the blocks that waited under `k`
/// for that of `v`.
pub proof fn lemma_weight_set(p: Seq<(Seq<char>, Seq<BlockModel>)>, k: Seq<char>, v: Seq<BlockModel>)
    ensures
        pending_weight(alist_set(p, k, v)) + list_weight(k, pending_or_empty(p, k)) == pending_weight(p)
            + list_weight(k, v),
{
    crate::strmap::lemma_alist_index(p, k);
    let i = alist_index(p, k);
    if i >= 0 {
        lemma_weight_update(p, i, (k, v));
    } else {
        assert(p.push((k, v)).drop_last() =~= p);
    }
}

/// Removing `k` takes the weight of the blocks that waited under it away.
pub proof fn lemma_weight_remove_key(p: Seq<(Seq<char>, Seq<BlockModel>)>, k: Seq<char>)
    ensures
        pending_weight(alist_remove(p, k)) + list_weight(k, pending_or_empty(p, k)) == pending_weight(p),
{
    crate::strmap::lemma_alist_index(p, k);
    let i = alist_index(p, k);
    if i >= 0 {
        lemma_weight_remove(p, i);
    }
}

/// A block more in a list adds its weight.
pub proof fn lemma_list_weight_push(k: Seq<char>, ws: Seq<BlockModel>, w: BlockModel)
    ensures
        list_weight(k, ws.push(w)) == list_weight(k, ws) + wait_weight(k, w),
{
    assert(ws.push(w).drop_last() =~= ws);
}

/// A prefix of a list, and the block after it, weigh no more than the list.
pub proof fn lemma_list_weight_prefix(k: Seq<char>, ws: Seq<BlockModel>, i: int)
    requires
        0 <= i < ws.len(),
    ensures
        list_weight(k, ws.take(i)) + wait_weight(k, ws[i]) <= list_weight(k, ws),
    decreases ws.len(),
{
    if i == ws.len() - 1 {
        assert(ws.take(i) =~= ws.drop_last());
    } else {
        assert(ws.drop_last().take(i) =~= ws.take(i));
        lemma_list_weight_prefix(k, ws.drop_last(), i);
    }
}

/// 1 where `b` has to wait for its previous block, else 0.
pub open spec fn wait_bump(c: ClientModel, b: BlockModel) -> nat {
    match b.prevBlockHash {
        Some(ph) => if !alist_contains(c.blocks, ph) {
            1
        } else {
            0
        },
        None => 0,
    }
}

/// Storing a block needs no depth beyond the weight plus one, and does not
/// add to the weight.
pub proof fn lemma_accept_depth(c: ClientModel, b: BlockModel, f: nat, g: nat)
    requires
        f >= pending_weight(c.pendingBlocks) + 1,
        g >= f,
    ensures
        receive_accept(c, b, g) == receive_accept(c, b, f),
        receive_accept(c, b, f) matches Some(r) ==> pending_weight(r.0.pendingBlocks) <= pending_weight(
            c.pendingBlocks,
        ),
    decreases f, 0nat,
{
    let c1 = ClientModel { blocks: alist_set(c.blocks, b.id, b), ..c };
    if let Some(lb) = c1.lastBlock {
        let c2o = if lb.chainLength < b.chainLength {
            last_confirmed_spec(ClientModel { lastBlock: Some(b), ..c1 })
        } else {
            Some(c1)
        };
        if let Some(c2) = c2o {
            assert(c2.pendingBlocks == c.pendingBlocks);
            assert(c2.blocks == c1.blocks);
            let unstuck = pending_or_empty(c2.pendingBlocks, b.id);
            let c3 = ClientModel { pendingBlocks: alist_remove(c2.pendingBlocks, b.id), ..c2 };
            lemma_weight_remove_key(c2.pendingBlocks, b.id);
            if unstuck.len() > 0 {
                crate::strmap::lemma_alist_set(c.blocks, b.id, b, b.id);
                lemma_all_depth(c3, unstuck, b.id, (f - 1) as nat, (g - 1) as nat);
            }
        }
    }
}

/// Receiving a block needs no depth beyond the weight plus one, and adds to
/// the weight only where the block has to wait.
pub proof fn lemma_receive_depth(c: ClientModel, b: BlockModel, f: nat, g: nat)
    requires
        f >= pending_weight(c.pendingBlocks) + 1,
        g >= f,
    ensures
        receive_spec(c, b, g) == receive_spec(c, b, f),
        receive_spec(c, b, f) matches Some(r) ==> pending_weight(r.0.pendingBlocks) <= pending_weight(
            c.pendingBlocks,
        ) + wait_bump(c, b),
    decreases f, 1nat,
{
    if alist_contains(c.blocks, b.id) || (!crate::block::spec_has_valid_proof(b) && b.chainLength != 0) {
    } else if let Some(ph) = b.prevBlockHash {
        if !alist_contains(c.blocks, ph) && b.chainLength != 0 {
            let old_list = pending_or_empty(c.pendingBlocks, ph);
            lemma_weight_set(c.pendingBlocks, ph, old_list.push(b));
            lemma_list_weight_push(ph, old_list, b);
        } else if b.chainLength == 0 {
            lemma_accept_depth(c, b, f, g);
        } else {
            if let Some(r) = rerun_outcome(b, alist_get(c.blocks, ph).unwrap()) {
                if r.1 {
                    lemma_accept_depth(c, r.0, f, g);
                }
            }
        }
    }
}

/// Receiving blocks that waited under `x`, once `x` is known, needs no depth
/// beyond the weight; each of them takes at least 1 off the weight.
pub proof fn lemma_all_depth(c: ClientModel, us: Seq<BlockModel>, x: Seq<char>, f: nat, g: nat)
    requires
        f >= pending_weight(c.pendingBlocks) + list_weight(x, us),
        g >= f,
        alist_contains(c.blocks, x),
    ensures
        receive_all(c, us, g) == receive_all(c, us, f),
        receive_all(c, us, f) matches Some(r) ==> pending_weight(r.0.pendingBlocks) + us.len()
            <= pending_weight(c.pendingBlocks) + list_weight(x, us),
    decreases f, us.len() + 2,
{
    if us.len() > 0 {
        let rest = us.drop_last();
        let u = us.last();
        lemma_all_depth(c, rest, x, f, g);
        if let Some(p) = receive_all(c, rest, f) {
            crate::client::lemma_all_grows(c, rest, f);
            assert(client_grows(c, p.0));
            assert(alist_contains(p.0.blocks, x)) by {
                crate::strmap::lemma_alist_index(c.blocks, x);
                crate::strmap::lemma_alist_index(p.0.blocks, x);
            }
            lemma_receive_depth(p.0, u, f, g);
        }
    }
}

/// Receiving a block can only succeed the same way with more depth.
pub proof fn lemma_accept_more_depth(c: ClientModel, b: BlockModel, f: nat, g: nat)
    requires
        f <= g,
        receive_accept(c, b, f) is Some,
    ensures
        receive_accept(c, b, g) == receive_accept(c, b, f),
    decreases f, 0nat,
{
    let c1 = ClientModel { blocks: alist_set(c.blocks, b.id, b), ..c };
    let lb = c1.lastBlock.unwrap();
    let c2 = if lb.chainLength < b.chainLength {
        last_confirmed_spec(ClientModel { lastBlock: Some(b), ..c1 }).unwrap()
    } else {
        c1
    };
    let unstuck = pending_or_empty(c2.pendingBlocks, b.id);
    let c3 = ClientModel { pendingBlocks: alist_remove(c2.pendingBlocks, b.id), ..c2 };
    if unstuck.len() > 0 {
        lemma_all_more_depth(c3, unstuck, (f - 1) as nat, (g - 1) as nat);
    }
}

/// Receiving a block can only succeed the same way with more depth.
pub proof fn lemma_receive_more_depth(c: ClientModel, b: BlockModel, f: nat, g: nat)
    requires
        f <= g,
        receive_spec(c, b, f) is Some,
    ensures
        receive_spec(c, b, g) == receive_spec(c, b, f),
    decreases f, 1nat,
{
    if alist_contains(c.blocks, b.id) || (!crate::block::spec_has_valid_proof(b) && b.chainLength != 0) {
    } else {
        let ph = b.prevBlockHash.unwrap();
        if !alist_contains(c.blocks, ph) && b.chainLength != 0 {
        } else if b.chainLength == 0 {
            lemma_accept_more_depth(c, b, f, g);
        } else {
            let r = rerun_outcome(b, alist_get(c.blocks, ph).unwrap()).unwrap();
            if r.1 {
                lemma_accept_more_depth(c, r.0, f, g);
            }
        }
    }
}

/// Receiving blocks in turn can only succeed the same way with more depth.
pub proof fn lemma_all_more_depth(c: ClientModel, us: Seq<BlockModel>, f: nat, g: nat)
    requires
        f <= g,
        receive_all(c, us, f) is Some,
    ensures
        receive_all(c, us, g) == receive_all(c, us, f),
    decreases f, us.len() + 2,
{
    if us.len() > 0 {
        lemma_all_more_depth(c, us.drop_last(), f, g);
        let p = receive_all(c, us.drop_last(), f).unwrap();
        lemma_receive_more_depth(p.0, us.last(), f, g);
    }
}

/// Taking in a block comes out the same at every depth of waiting blocks that
/// lets it finish, and `receive_fuel` is such a depth wherever one exists: so
/// where receiving panics at that depth, it panics at every depth.
pub proof fn law_receive_depth_suffices(c: ClientModel, b: BlockModel, f: nat)
    ensures
        receive_spec(c, b, f) is Some ==> receive_spec(c, b, f) == receive_spec(c, b, receive_fuel(c)),
        f >= receive_fuel(c) ==> receive_spec(c, b, f) == receive_spec(c, b, receive_fuel(c)),
{
    let n = receive_fuel(c);
    if f >= n {
        lemma_receive_depth(c, b, n, f);
    } else if receive_spec(c, b, f) is Some {
        lemma_receive_more_depth(c, b, f, n);
    }
}

} // verus!
