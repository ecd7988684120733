//! The chain's parameters and its genesis block.
use vstd::prelude::*;
use crate::block::{block, spec_new_block, BlockModel};
use crate::strmap::{
    alist_contains, alist_get, keys_distinct, lemma_set_all, set_all, StrMap,
};

verus! {

pub const MISSING_BLOCK: &'static str = "MISSING_BLOCK";

pub const POST_TRANSACTION: &'static str = "POST_TRANSACTION";

pub const PROOF_FOUND: &'static str = "PROOF_FOUND";

pub const START_MINING: &'static str = "START_MINING";

pub const NUM_ROUNDS_MINING: i32 = 2000;

pub const POW_BASE_TARGET: u64 = 1099511627775;

pub const POW_LEADING_ZEROES: i32 = 15;

pub const COINBASE_AMT_ALLOWED: i32 = 25;

pub const DEFAULT_TX_FEE: i32 = 1;

pub const CONFIRMED_DEPTH: i32 = 6;

pub struct blockchain {
    pub powTarget: u64,
    pub coinbaseAmount: i32,
    pub defaultTxFee: i32,
    pub confirmedDepth: i32,
    pub genesisBlock: block,
}

/// The genesis balances: the starting balances (or none), overridden by the
/// client balances, in that order.
pub open spec fn genesis_balances(
    clientBalanceMap: Option<Seq<(Seq<char>, i32)>>,
    startingBalances: Option<Seq<(Seq<char>, i32)>>,
) -> Seq<(Seq<char>, i32)> {
    let base = match startingBalances {
        Some(b) => b,
        None => Seq::empty(),
    };
    match clientBalanceMap {
        Some(c) => set_all(base, c),
        None => base,
    }
}

/// The genesis block made at `timestamp`: a first block without a reward
/// address, with the coinbase reward allowed, whose balances are then set to
/// the genesis balances (after its id was computed).
pub open spec fn spec_genesis_block(
    powTarget: u64,
    clientBalanceMap: Option<Seq<(Seq<char>, i32)>>,
    startingBalances: Option<Seq<(Seq<char>, i32)>>,
    timestamp: i64,
) -> BlockModel {
    let g = spec_new_block(None, None, powTarget, COINBASE_AMT_ALLOWED, timestamp);
    BlockModel {
        balances: set_all(g.balances, genesis_balances(clientBalanceMap, startingBalances)),
        ..g
    }
}

/// The model of an optional map.
pub open spec fn opt_map_view(o: Option<StrMap<i32>>) -> Option<Seq<(Seq<char>, i32)>> {
    match o {
        Some(m) => Some(m@),
        None => None,
    }
}

/// Sets every pair of `entries` in `m`, in order.
fn insert_all(m: &mut StrMap<i32>, entries: &StrMap<i32>)
    ensures
        final(m)@ == set_all(old(m)@, entries@),
{
    let n = entries.len();
    let ghost start = m@;
    assert(entries@.take(0) =~= Seq::<(Seq<char>, i32)>::empty());
    for i in 0..n
        invariant
            n == entries@.len(),
            m@ == set_all(start, entries@.take(i as int)),
    {
        assert(entries@.take(i + 1).drop_last() =~= entries@.take(i as int));
        m.insert(entries.key_at(i).clone(), *entries.val_at(i));
    }
    assert(entries@.take(n as int) =~= entries@);
}

impl blockchain {
    /// The chain parameters and a genesis block made at `timestamp`.
    pub fn makeGenesisAt(
        powLeadingZeroes: u64,
        coinbaseAmount: i32,
        defaultTxFee: i32,
        confirmedDepth: i32,
        clientBalanceMap: Option<StrMap<i32>>,
        startingBalances: Option<StrMap<i32>>,
        timestamp: i64,
    ) -> (res: blockchain)
        requires
            !(clientBalanceMap is Some && startingBalances is Some),
            powLeadingZeroes < 64,
        ensures
            res.powTarget == POW_BASE_TARGET >> powLeadingZeroes,
            res.coinbaseAmount == coinbaseAmount,
            res.defaultTxFee == defaultTxFee,
            res.confirmedDepth == confirmedDepth,
            res.genesisBlock@ == spec_genesis_block(
                res.powTarget,
                opt_map_view(clientBalanceMap),
                opt_map_view(startingBalances),
                timestamp,
            ),
    {
        let powTarget = POW_BASE_TARGET >> powLeadingZeroes;
        let ghost cbm = opt_map_view(clientBalanceMap);
        let ghost sb = opt_map_view(startingBalances);
        let mut balances = match startingBalances {
            Some(b) => b,
            None => StrMap::new(),
        };
        match &clientBalanceMap {
            Some(cm) => insert_all(&mut balances, cm),
            None => {},
        }
        assert(balances@ == genesis_balances(cbm, sb));
        let mut g = block::newAt(None, None, powTarget, COINBASE_AMT_ALLOWED, timestamp);
        insert_all(&mut g.balances, &balances);
        let res = blockchain { powTarget, coinbaseAmount, defaultTxFee, confirmedDepth, genesisBlock: g };
        assert(res.genesisBlock@ =~= spec_genesis_block(powTarget, cbm, sb, timestamp));
        res
    }

    /// The chain parameters and a genesis block made now. Exactly one of the two
    /// maps, or neither, may give the starting balances.
    pub fn makeGenesis(
        powLeadingZeroes: u64,
        coinbaseAmount: i32,
        defaultTxFee: i32,
        confirmedDepth: i32,
        clientBalanceMap: Option<StrMap<i32>>,
        startingBalances: Option<StrMap<i32>>,
    ) -> (res: blockchain)
        requires
            !(clientBalanceMap is Some && startingBalances is Some),
            powLeadingZeroes < 64,
        ensures
            res.powTarget == POW_BASE_TARGET >> powLeadingZeroes,
            res.coinbaseAmount == coinbaseAmount,
            res.defaultTxFee == defaultTxFee,
            res.confirmedDepth == confirmedDepth,
            res.genesisBlock@ == spec_genesis_block(
                res.powTarget,
                opt_map_view(clientBalanceMap),
                opt_map_view(startingBalances),
                res.genesisBlock.timestamp,
            ),
    {
        let g = blockchain::makeGenesisAt(
            powLeadingZeroes,
            coinbaseAmount,
            defaultTxFee,
            confirmedDepth,
            clientBalanceMap,
            startingBalances,
            crate::block::now_timestamp(),
        );
        g
    }
}


/// The genesis block gives each client of the client balance map the
/// balance that the map gives it, and no one else any gold.
pub proof fn law_genesis_balances(
    powTarget: u64,
    clientBalanceMap: Seq<(Seq<char>, i32)>,
    timestamp: i64,
    k: Seq<char>,
)
    requires
        keys_distinct(clientBalanceMap),
    ensures
        alist_get(
            spec_genesis_block(powTarget, Some(clientBalanceMap), None, timestamp).balances,
            k,
        ) == alist_get(clientBalanceMap, k),
{
    let empty = Seq::<(Seq<char>, i32)>::empty();
    let b = set_all(empty, clientBalanceMap);
    lemma_set_all(empty, clientBalanceMap, k);
    assert(keys_distinct(empty));
    assert(keys_distinct(b));
    lemma_set_all(empty, b, k);
    crate::strmap::lemma_alist_index(empty, k);
    let g = crate::block::spec_new_block(None, None, powTarget, COINBASE_AMT_ALLOWED, timestamp);
    assert(g.balances == empty);
    if alist_contains(clientBalanceMap, k) {
        assert(alist_contains(b, k));
    }
}


/// Without a client balance map, the genesis block gives each address the
/// starting balance it is given, and no one else any gold.
pub proof fn law_genesis_starting_balances(
    powTarget: u64,
    startingBalances: Seq<(Seq<char>, i32)>,
    timestamp: i64,
    k: Seq<char>,
)
    requires
        keys_distinct(startingBalances),
    ensures
        alist_get(
            spec_genesis_block(powTarget, None, Some(startingBalances), timestamp).balances,
            k,
        ) == alist_get(startingBalances, k),
{
    let empty = Seq::<(Seq<char>, i32)>::empty();
    lemma_set_all(empty, startingBalances, k);
    crate::strmap::lemma_alist_index(empty, k);
    let g = crate::block::spec_new_block(None, None, powTarget, COINBASE_AMT_ALLOWED, timestamp);
    assert(g.balances == empty);
    crate::strmap::lemma_alist_index(startingBalances, k);
}

} // verus!
