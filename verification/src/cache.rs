//! The record of what has been synchronised: for each chain and family the
//! last block that was scanned and the pools found so far.

use crate::events::PoolLog;
use crate::index::{last_index_of, law_last_index};
use crate::liquidity::{apply_logs, index_pools, law_logs_keep_pools, pool_addresses};
use crate::ordering::block_ordered;
use crate::pools::{pool_views, Pool, PoolType, PoolView, V2Pool};
use crate::primitives::{Address, Chain};
use crate::rpc::Rpc;
use vstd::prelude::*;

verus! {

/// No address stands at two positions.
pub open spec fn distinct(addresses: Seq<Address>) -> bool {
    forall|i: int, j: int| 0 <= i < j < addresses.len() ==> addresses[i] != addresses[j]
}

/// The pools with `pool` put in: in place of the pool that has its address,
/// or behind all others where none has.
pub open spec fn upsert(pools: Seq<PoolView>, pool: PoolView) -> Seq<PoolView> {
    match last_index_of(pool_addresses(pools), pool.address()) {
        Some(i) => pools.update(i, pool),
        None => pools.push(pool),
    }
}

/// The pools with each of `new_pools` put in, in turn.
pub open spec fn merge_pools(pools: Seq<PoolView>, new_pools: Seq<PoolView>) -> Seq<PoolView>
    decreases new_pools.len(),
{
    if new_pools.len() == 0 {
        pools
    } else {
        upsert(merge_pools(pools, new_pools.drop_last()), new_pools.last())
    }
}

/// What a `PoolCache` holds.
pub struct PoolCacheView {
    pub pool_type: PoolType,
    pub last_synced_block: u64,
    pub pools: Seq<PoolView>,
}

/// The cache of a family that has never been synchronised.
pub open spec fn empty_cache(pool_type: PoolType) -> PoolCacheView {
    PoolCacheView { pool_type, last_synced_block: 0, pools: Seq::empty() }
}

/// The pools of one family on one chain, and the block up to which they were
/// found. No two of its pools have the same address.
#[derive(Debug, PartialEq, Eq)]
pub struct PoolCache {
    pool_type: PoolType,
    last_synced_block: u64,
    pools: Vec<Pool>,
}

impl View for PoolCache {
    type V = PoolCacheView;

    closed spec fn view(&self) -> PoolCacheView {
        PoolCacheView {
            pool_type: self.pool_type,
            last_synced_block: self.last_synced_block,
            pools: pool_views(self.pools@),
        }
    }
}

/// Putting a pool in keeps the addresses distinct, leaves every pool that
/// was there at its position, and leaves every address that was there in
/// place.
pub proof fn law_upsert(pools: Seq<PoolView>, pool: PoolView)
    ensures
        distinct(pool_addresses(pools)) ==> distinct(pool_addresses(upsert(pools, pool))),
        upsert(pools, pool).len() >= pools.len(),
        pool_addresses(upsert(pools, pool)).take(pools.len() as int) == pool_addresses(pools),
        last_index_of(pool_addresses(upsert(pools, pool)), pool.address()) is Some,
{
    let addresses = pool_addresses(pools);
    let after = pool_addresses(upsert(pools, pool));
    law_last_index(addresses, pool.address());
    match last_index_of(addresses, pool.address()) {
        Some(i) => {
            assert(after =~= addresses);
            assert(after.take(pools.len() as int) =~= addresses);
        },
        None => {
            assert(after =~= addresses.push(pool.address()));
            assert(after.take(pools.len() as int) =~= addresses);
            assert(after.last() == pool.address());
        },
    }
}

/// Merging keeps the addresses distinct, leaves every pool that was there
/// at its position, and leaves every address that was there in place: no
/// address disappears.
pub proof fn law_merge_keeps_addresses(pools: Seq<PoolView>, new_pools: Seq<PoolView>)
    ensures
        distinct(pool_addresses(pools)) ==> distinct(pool_addresses(merge_pools(pools, new_pools))),
        merge_pools(pools, new_pools).len() >= pools.len(),
        pool_addresses(merge_pools(pools, new_pools)).take(pools.len() as int) == pool_addresses(pools),
    decreases new_pools.len(),
{
    if new_pools.len() == 0 {
        assert(pool_addresses(pools).take(pools.len() as int) =~= pool_addresses(pools));
    } else {
        let before = merge_pools(pools, new_pools.drop_last());
        law_merge_keeps_addresses(pools, new_pools.drop_last());
        law_upsert(before, new_pools.last());
        let after = upsert(before, new_pools.last());
        assert(pool_addresses(after).take(pools.len() as int) =~= pool_addresses(before).take(pools.len() as int)) by {
            assert(pool_addresses(after).take(before.len() as int) == pool_addresses(before));
            assert forall|i: int| 0 <= i < pools.len() implies pool_addresses(after).take(pools.len() as int)[i]
                == pool_addresses(before).take(pools.len() as int)[i] by {
                assert(pool_addresses(after).take(before.len() as int)[i] == pool_addresses(before)[i]);
            }
        }
    }
}

/// Merging pools of distinct addresses into nothing gives those pools: what
/// a cache hands out as its pools builds the same cache again.
pub proof fn law_merge_distinct(pools: Seq<PoolView>)
    requires
        distinct(pool_addresses(pools)),
    ensures
        merge_pools(Seq::empty(), pools) == pools,
    decreases pools.len(),
{
    if pools.len() == 0 {
        assert(pools =~= Seq::empty());
    } else {
        let front = pools.drop_last();
        assert forall|i: int, j: int| 0 <= i < j < front.len() implies pool_addresses(front)[i] != pool_addresses(
            front,
        )[j] by {
            assert(pool_addresses(pools)[i] != pool_addresses(pools)[j]);
        }
        law_merge_distinct(front);
        assert forall|j: int| 0 <= j < front.len() implies pool_addresses(front)[j] != pools.last().address() by {
            assert(pool_addresses(pools)[j] != pool_addresses(pools)[pools.len() - 1]);
        }
        law_last_index(pool_addresses(front), pools.last().address());
        assert(front.push(pools.last()) =~= pools);
    }
}

/// An address that stands in a sequence stands in every sequence that
/// begins with it.
proof fn lemma_present_in_extension(short: Seq<Address>, long: Seq<Address>, address: Address)
    requires
        short.len() <= long.len(),
        long.take(short.len() as int) == short,
        last_index_of(short, address) is Some,
    ensures
        last_index_of(long, address) is Some,
{
    law_last_index(short, address);
    law_last_index(long, address);
    let i = last_index_of(short, address)->Some_0;
    assert(long.take(short.len() as int)[i] == long[i]);
}

/// Where the last of a sequence of addresses is looked for.
proof fn lemma_last_index_push(addresses: Seq<Address>, added: Address, address: Address)
    ensures
        last_index_of(addresses.push(added), address) == if address == added {
            Some(addresses.len() as int)
        } else {
            last_index_of(addresses, address)
        },
{
    assert(addresses.push(added).drop_last() =~= addresses);
}

/// After a merge, the address of every merged pool is in place.
pub proof fn law_merged_present(pools: Seq<PoolView>, new_pools: Seq<PoolView>, j: int)
    requires
        0 <= j < new_pools.len(),
    ensures
        last_index_of(pool_addresses(merge_pools(pools, new_pools)), new_pools[j].address()) is Some,
    decreases new_pools.len(),
{
    let before = merge_pools(pools, new_pools.drop_last());
    law_upsert(before, new_pools.last());
    if j < new_pools.len() - 1 {
        law_merged_present(pools, new_pools.drop_last(), j);
        assert(new_pools.drop_last()[j] == new_pools[j]);
        lemma_present_in_extension(
            pool_addresses(before),
            pool_addresses(upsert(before, new_pools.last())),
            new_pools[j].address(),
        );
    }
}

/// Merging pools whose addresses are all in place adds no position.
proof fn lemma_merge_in_place(pools: Seq<PoolView>, new_pools: Seq<PoolView>)
    requires
        forall|j: int|
            0 <= j < new_pools.len() ==> last_index_of(pool_addresses(pools), (#[trigger] new_pools[j]).address())
                is Some,
    ensures
        pool_addresses(merge_pools(pools, new_pools)) == pool_addresses(pools),
        merge_pools(pools, new_pools).len() == pools.len(),
    decreases new_pools.len(),
{
    if new_pools.len() > 0 {
        let front = new_pools.drop_last();
        assert forall|j: int| 0 <= j < front.len() implies last_index_of(
            pool_addresses(pools),
            (#[trigger] front[j]).address(),
        ) is Some by {
            assert(front[j] == new_pools[j]);
        }
        lemma_merge_in_place(pools, front);
        let before = merge_pools(pools, front);
        let last = new_pools.last();
        assert(last == new_pools[new_pools.len() - 1]);
        law_last_index(pool_addresses(before), last.address());
        assert(pool_addresses(upsert(before, last)) =~= pool_addresses(before));
        assert(pool_addresses(before).len() == before.len());
        assert(pool_addresses(pools).len() == pools.len());
    }
}

/// What stands at a position after a merge: a position that is the last of
/// its address, where a merged pool has that address, holds the last such
/// pool; every other position holds what it held before.
proof fn lemma_merged_value(pools: Seq<PoolView>, new_pools: Seq<PoolView>, k: int)
    requires
        0 <= k < merge_pools(pools, new_pools).len(),
    ensures
        ({
            let merged = merge_pools(pools, new_pools);
            let address = pool_addresses(merged)[k];
            if last_index_of(pool_addresses(merged), address) == Some(k) && last_index_of(
                pool_addresses(new_pools),
                address,
            ) is Some {
                merged[k] == new_pools[last_index_of(pool_addresses(new_pools), address)->Some_0]
            } else {
                k < pools.len() && merged[k] == pools[k]
            }
        }),
    decreases new_pools.len(),
{
    let merged = merge_pools(pools, new_pools);
    let address = pool_addresses(merged)[k];
    if new_pools.len() == 0 {
        assert(pool_addresses(new_pools) =~= Seq::empty());
    } else {
        let front = new_pools.drop_last();
        let last = new_pools.last();
        let before = merge_pools(pools, front);
        assert(pool_addresses(new_pools) =~= pool_addresses(front).push(last.address()));
        lemma_last_index_push(pool_addresses(front), last.address(), address);
        law_last_index(pool_addresses(before), last.address());
        law_last_index(pool_addresses(before), address);
        law_last_index(pool_addresses(merged), address);
        law_last_index(pool_addresses(front), address);
        match last_index_of(pool_addresses(before), last.address()) {
            Some(i) => {
                assert(merged == before.update(i, last));
                assert(pool_addresses(merged) =~= pool_addresses(before));
                if k != i {
                    lemma_merged_value(pools, front, k);
                    if address != last.address() {
                        if last_index_of(pool_addresses(front), address) is Some {
                            let j = last_index_of(pool_addresses(front), address)->Some_0;
                            assert(front[j] == new_pools[j]);
                        }
                    }
                }
            },
            None => {
                assert(merged == before.push(last));
                assert(pool_addresses(merged) =~= pool_addresses(before).push(last.address()));
                lemma_last_index_push(pool_addresses(before), last.address(), address);
                if k < before.len() {
                    lemma_merged_value(pools, front, k);
                    assert(pool_addresses(before)[k] == address);
                    if last_index_of(pool_addresses(front), address) is Some {
                        let j = last_index_of(pool_addresses(front), address)->Some_0;
                        assert(front[j] == new_pools[j]);
                    }
                }
            },
        }
    }
}

/// Merging the same pools a second time changes nothing: each address is in
/// place already and holds the pool that the first merge left there.
pub proof fn law_merge_idempotent(pools: Seq<PoolView>, new_pools: Seq<PoolView>)
    ensures
        merge_pools(merge_pools(pools, new_pools), new_pools) == merge_pools(pools, new_pools),
{
    let once = merge_pools(pools, new_pools);
    let twice = merge_pools(once, new_pools);
    assert forall|j: int| 0 <= j < new_pools.len() implies last_index_of(
        pool_addresses(once),
        (#[trigger] new_pools[j]).address(),
    ) is Some by {
        law_merged_present(pools, new_pools, j);
    }
    lemma_merge_in_place(once, new_pools);
    assert forall|k: int| 0 <= k < once.len() implies twice[k] == once[k] by {
        lemma_merged_value(pools, new_pools, k);
        lemma_merged_value(once, new_pools, k);
    }
    assert(twice =~= once);
}

/// Takes the pool at position `i` out of `pools`, leaving a blank in its
/// place.
fn take_pool(pools: &mut Vec<Pool>, i: usize) -> (pool: Pool)
    requires
        i < old(pools).len(),
    ensures
        pool == old(pools)[i as int],
        final(pools).len() == old(pools).len(),
        forall|j: int| 0 <= j < old(pools).len() && j != i ==> final(pools)[j] == old(pools)[j],
{
    let blank = Address { hi: 0, lo: 0 };
    let mut pool = Pool::V2(V2Pool { address: blank, token0: blank, token1: blank, reserve0: 0, reserve1: 0 });
    core::mem::swap(&mut pool, &mut pools[i]);
    pool
}

/// Puts each of `new_pools` into `pools`, in turn.
pub(crate) fn merge_into(pools: &mut Vec<Pool>, new_pools: Vec<Pool>)
    ensures
        pool_views(final(pools)@) == merge_pools(pool_views(old(pools)@), pool_views(new_pools@)),
{
    let mut index = index_pools(pools);
    let mut incoming = new_pools;
    let ghost given = pool_views(new_pools@);
    let ghost start = pool_views(pools@);
    let mut k: usize = 0;
    proof {
        assert(given.take(0) =~= Seq::empty());
    }
    while k < incoming.len()
        invariant
            k <= incoming.len(),
            incoming.len() == given.len(),
            forall|j: int| k <= j < given.len() ==> (#[trigger] incoming[j])@ == given[j],
            index.wf(),
            index.addresses() == pool_addresses(pool_views(pools@)),
            pool_views(pools@) == merge_pools(start, given.take(k as int)),
        decreases incoming.len() - k,
    {
        let ghost before = pool_views(pools@);
        proof {
            assert(given.take(k + 1).drop_last() =~= given.take(k as int));
            assert(incoming[k as int]@ == given[k as int]);
        }
        let pool = take_pool(&mut incoming, k);
        let address = pool.address();
        match index.lookup(address) {
            Some(i) => {
                proof {
                    law_last_index(pool_addresses(before), address);
                }
                pools[i] = pool;
                proof {
                    assert(pool_views(pools@) =~= before.update(i as int, given[k as int]));
                    assert(pool_addresses(pool_views(pools@)) =~= pool_addresses(before));
                }
            },
            None => {
                index.push(address, pools.len());
                pools.push(pool);
                proof {
                    assert(pool_views(pools@) =~= before.push(given[k as int]));
                    assert(pool_addresses(pool_views(pools@)) =~= pool_addresses(before).push(address));
                }
            },
        }
        k = k + 1;
    }
    proof {
        assert(given.take(k as int) =~= given);
    }
}

/// A copy of each pool, position by position.
fn clone_pools(pools: &Vec<Pool>) -> (copy: Vec<Pool>)
    ensures
        pool_views(copy@) == pool_views(pools@),
{
    let mut copy: Vec<Pool> = Vec::new();
    let mut i: usize = 0;
    while i < pools.len()
        invariant
            i <= pools.len(),
            pool_views(copy@) == pool_views(pools@).take(i as int),
        decreases pools.len() - i,
    {
        let ghost before = pool_views(copy@);
        let pool = pools[i].clone();
        assert(pool@ == pools[i as int]@);
        copy.push(pool);
        proof {
            assert(pool_views(copy@) =~= before.push(pools[i as int]@));
            assert(pool_views(pools@).take(i + 1) =~= pool_views(pools@).take(i as int).push(pools[i as int]@));
        }
        i = i + 1;
    }
    proof {
        assert(pool_views(pools@).take(i as int) =~= pool_views(pools@));
    }
    copy
}

impl Clone for PoolCache {
    fn clone(&self) -> (copy: PoolCache)
        ensures
            copy@ == self@,
    {
        proof {
            use_type_invariant(self);
        }
        PoolCache {
            pool_type: self.pool_type,
            last_synced_block: self.last_synced_block,
            pools: clone_pools(&self.pools),
        }
    }
}

impl PoolCache {
    #[verifier::type_invariant]
    spec fn addresses_distinct(&self) -> bool {
        distinct(pool_addresses(pool_views(self.pools@)))
    }

    /// The cache of a family that has never been synchronised: no pool, and
    /// block zero as the last one scanned.
    pub fn new(pool_type: PoolType) -> (cache: PoolCache)
        ensures
            cache@ == empty_cache(pool_type),
    {
        let cache = PoolCache { pool_type, last_synced_block: 0, pools: Vec::new() };
        proof {
            assert(pool_views(cache.pools@) =~= Seq::empty());
        }
        cache
    }

    /// A cache with the given content. Where several of `pools` have one
    /// address, the last of them stands at the place of the first.
    pub fn from_parts(pool_type: PoolType, last_synced_block: u64, pools: Vec<Pool>) -> (cache: PoolCache)
        ensures
            cache@ == (PoolCacheView {
                pool_type,
                last_synced_block,
                pools: merge_pools(Seq::empty(), pool_views(pools@)),
            }),
    {
        let mut kept: Vec<Pool> = Vec::new();
        proof {
            assert(pool_views(kept@) =~= Seq::empty());
        }
        merge_into(&mut kept, pools);
        proof {
            law_merge_keeps_addresses(Seq::empty(), pool_views(pools@));
        }
        PoolCache { pool_type, last_synced_block, pools: kept }
    }

    /// The family whose pools the cache holds.
    pub fn pool_type(&self) -> (pool_type: PoolType)
        ensures
            pool_type == self@.pool_type,
    {
        self.pool_type
    }

    /// The last block that was scanned for the family.
    pub fn last_synced_block(&self) -> (block: u64)
        ensures
            block == self@.last_synced_block,
    {
        self.last_synced_block
    }

    /// The pools found so far. Their addresses are distinct.
    pub fn pools(&self) -> (pools: &Vec<Pool>)
        ensures
            pool_views(pools@) == self@.pools,
            distinct(pool_addresses(self@.pools)),
    {
        proof {
            use_type_invariant(self);
        }
        &self.pools
    }

    /// The pools found so far, each for the caller to keep.
    pub fn into_pools(self) -> (pools: Vec<Pool>)
        ensures
            pool_views(pools@) == self@.pools,
            distinct(pool_addresses(self@.pools)),
    {
        proof {
            use_type_invariant(&self);
        }
        self.pools
    }

    /// Puts newly populated pools into the cache: each takes the place of
    /// the pool that has its address, or stands behind all others where
    /// none has.
    pub fn merge(&mut self, new_pools: Vec<Pool>)
        ensures
            final(self)@ == (PoolCacheView {
                pools: merge_pools(old(self)@.pools, pool_views(new_pools@)),
                ..old(self)@
            }),
    {
        proof {
            use_type_invariant(&*self);
            law_merge_keeps_addresses(self@.pools, pool_views(new_pools@));
        }
        let mut pools: Vec<Pool> = Vec::new();
        proof {
            assert(pool_views(pools@) =~= Seq::empty());
        }
        core::mem::swap(&mut pools, &mut self.pools);
        merge_into(&mut pools, new_pools);
        self.pools = pools;
    }

    /// Brings the pools of the cache up to date with the logs fetched from
    /// its last block up to `end_block`, as `Rpc::populate_liquidity` does.
    pub fn update_liquidity(&mut self, end_block: u64, logs: Vec<PoolLog>)
        ensures
            final(self)@ == (PoolCacheView {
                pools: if old(self)@.pools.len() == 0 || end_block <= old(self)@.last_synced_block {
                    old(self)@.pools
                } else {
                    apply_logs(old(self)@.pools, old(self)@.pool_type.group_spec(), block_ordered(logs@))
                },
                ..old(self)@
            }),
    {
        proof {
            use_type_invariant(&*self);
            law_logs_keep_pools(self@.pools, self.pool_type.group_spec(), block_ordered(logs@));
        }
        let mut pools: Vec<Pool> = Vec::new();
        proof {
            assert(pool_views(pools@) =~= Seq::empty());
        }
        core::mem::swap(&mut pools, &mut self.pools);
        Rpc::populate_liquidity(self.last_synced_block, end_block, &mut pools, self.pool_type, logs);
        self.pools = pools;
    }

    /// Records that the family was scanned up to `end_block`. The block of
    /// the cache never goes back: an `end_block` before it changes nothing.
    pub fn advance(&mut self, end_block: u64)
        ensures
            final(self)@ == (PoolCacheView {
                last_synced_block: if end_block > old(self)@.last_synced_block {
                    end_block
                } else {
                    old(self)@.last_synced_block
                },
                ..old(self)@
            }),
            distinct(pool_addresses(final(self)@.pools)),
    {
        proof {
            use_type_invariant(&*self);
        }
        if end_block > self.last_synced_block {
            self.last_synced_block = end_block;
        }
    }
}

/// The position of the entry of a chain and family, if there is one.
spec fn find_entry(entries: Seq<(Chain, PoolCache)>, chain: Chain, pool_type: PoolType) -> Option<int>
    decreases entries.len(),
{
    if entries.len() == 0 {
        None
    } else if entries.last().0 == chain && entries.last().1@.pool_type == pool_type {
        Some(entries.len() - 1)
    } else {
        find_entry(entries.drop_last(), chain, pool_type)
    }
}

/// What the entries hold for a chain and family.
spec fn entry_view(entries: Seq<(Chain, PoolCache)>, chain: Chain, pool_type: PoolType) -> PoolCacheView {
    match find_entry(entries, chain, pool_type) {
        Some(i) => entries[i].1@,
        None => empty_cache(pool_type),
    }
}

/// No two entries are of one chain and family.
spec fn distinct_keys(entries: Seq<(Chain, PoolCache)>) -> bool {
    forall|i: int, j: int|
        0 <= i < j < entries.len() ==> !((#[trigger] entries[i]).0 == (#[trigger] entries[j]).0
            && entries[i].1@.pool_type == entries[j].1@.pool_type)
}

proof fn lemma_find_entry(entries: Seq<(Chain, PoolCache)>, chain: Chain, pool_type: PoolType)
    ensures
        match find_entry(entries, chain, pool_type) {
            Some(i) => 0 <= i < entries.len() && entries[i].0 == chain && entries[i].1@.pool_type == pool_type
                && forall|j: int|
                i < j < entries.len() ==> !((#[trigger] entries[j]).0 == chain && entries[j].1@.pool_type
                    == pool_type),
            None => forall|j: int|
                0 <= j < entries.len() ==> !((#[trigger] entries[j]).0 == chain && entries[j].1@.pool_type
                    == pool_type),
        },
    decreases entries.len(),
{
    if entries.len() > 0 && !(entries.last().0 == chain && entries.last().1@.pool_type == pool_type) {
        lemma_find_entry(entries.drop_last(), chain, pool_type);
        assert forall|j: int| 0 <= j < entries.len() - 1 implies entries.drop_last()[j] == entries[j] by {}
    }
}

/// Among distinct keys, the entry of a chain and family is found wherever
/// it stands.
proof fn lemma_found_at(entries: Seq<(Chain, PoolCache)>, i: int)
    requires
        distinct_keys(entries),
        0 <= i < entries.len(),
    ensures
        find_entry(entries, entries[i].0, entries[i].1@.pool_type) == Some(i),
{
    lemma_find_entry(entries, entries[i].0, entries[i].1@.pool_type);
}

/// The caches that a synchronisation works on, one for each chain and
/// family. A family that was never stored has the empty cache.
pub struct SyncCache {
    entries: Vec<(Chain, PoolCache)>,
}

/// `after` is `before` with `cache` stored for `chain` and the family of the
/// cache: that entry holds `cache`, and every other is as it was.
pub open spec fn stores(before: SyncCache, after: SyncCache, chain: Chain, cache: PoolCacheView) -> bool {
    forall|c: Chain, t: PoolType| #[trigger]
        after.cached(c, t) == if c == chain && t == cache.pool_type {
            cache
        } else {
            before.cached(c, t)
        }
}

impl SyncCache {
    #[verifier::type_invariant]
    spec fn keys_distinct(&self) -> bool {
        distinct_keys(self.entries@)
    }

    /// What is cached for a chain and family.
    pub closed spec fn cached(&self, chain: Chain, pool_type: PoolType) -> PoolCacheView {
        entry_view(self.entries@, chain, pool_type)
    }

    /// What is cached for a family is a cache of that family.
    pub proof fn law_cached_family(&self, chain: Chain, pool_type: PoolType)
        ensures
            self.cached(chain, pool_type).pool_type == pool_type,
    {
        lemma_find_entry(self.entries@, chain, pool_type);
    }

    /// Storing what is cached changes nothing.
    pub proof fn law_store_cached(before: SyncCache, after: SyncCache, chain: Chain, pool_type: PoolType)
        requires
            stores(before, after, chain, before.cached(chain, pool_type)),
        ensures
            forall|c: Chain, t: PoolType| #[trigger] after.cached(c, t) == before.cached(c, t),
    {
        before.law_cached_family(chain, pool_type);
    }

    /// What is stored is what is cached afterwards, and a later store for
    /// the same chain and family replaces it.
    pub proof fn law_cached_after_store(
        before: SyncCache,
        after: SyncCache,
        chain: Chain,
        cache: PoolCacheView,
    )
        requires
            stores(before, after, chain, cache),
        ensures
            after.cached(chain, cache.pool_type) == cache,
    {
    }

    /// A store in which nothing was stored yet.
    pub fn new() -> (store: SyncCache)
        ensures
            forall|c: Chain, t: PoolType| #[trigger] store.cached(c, t) == empty_cache(t),
    {
        SyncCache { entries: Vec::new() }
    }

    /// The position of the entry of a chain and family.
    fn position(&self, pool_type: PoolType, chain: Chain) -> (found: Option<usize>)
        ensures
            match found {
                Some(i) => i < self.entries.len() && find_entry(self.entries@, chain, pool_type) == Some(i as int),
                None => find_entry(self.entries@, chain, pool_type) is None,
            },
    {
        proof {
            lemma_find_entry(self.entries@, chain, pool_type);
        }
        let mut i: usize = self.entries.len();
        while i > 0
            invariant
                i <= self.entries.len(),
                forall|j: int|
                    i <= j < self.entries.len() ==> !((#[trigger] self.entries[j]).0 == chain
                        && self.entries[j].1@.pool_type == pool_type),
            decreases i,
        {
            i = i - 1;
            if self.entries[i].0 == chain && self.entries[i].1.pool_type() == pool_type {
                proof {
                    lemma_find_entry(self.entries@, chain, pool_type);
                }
                return Some(i);
            }
        }
        None
    }

    /// The last block that was scanned for a family, zero where it was never
    /// synchronised.
    pub fn last_synced_block(&self, pool_type: PoolType, chain: Chain) -> (block: u64)
        ensures
            block == self.cached(chain, pool_type).last_synced_block,
    {
        match self.position(pool_type, chain) {
            Some(i) => self.entries[i].1.last_synced_block(),
            None => 0,
        }
    }

    /// How many pools are cached for a family.
    pub fn pool_count(&self, pool_type: PoolType, chain: Chain) -> (count: usize)
        ensures
            count == self.cached(chain, pool_type).pools.len(),
    {
        match self.position(pool_type, chain) {
            Some(i) => self.entries[i].1.pools().len(),
            None => 0,
        }
    }

    /// A copy of what is cached for a family: the empty cache where it was
    /// never stored.
    pub fn load(&self, pool_type: PoolType, chain: Chain) -> (cache: PoolCache)
        ensures
            cache@ == self.cached(chain, pool_type),
    {
        match self.position(pool_type, chain) {
            Some(i) => self.entries[i].1.clone(),
            None => PoolCache::new(pool_type),
        }
    }

    /// Takes what is cached for a family out of the store, which then holds
    /// the empty cache for it.
    pub fn take(&mut self, pool_type: PoolType, chain: Chain) -> (cache: PoolCache)
        ensures
            cache@ == old(self).cached(chain, pool_type),
            stores(*old(self), *final(self), chain, empty_cache(pool_type)),
    {
        proof {
            use_type_invariant(&*self);
        }
        let ghost before = self.entries@;
        match self.position(pool_type, chain) {
            Some(i) => {
                let mut entries: Vec<(Chain, PoolCache)> = Vec::new();
                core::mem::swap(&mut entries, &mut self.entries);
                let entry = entries.swap_remove(i);
                proof {
                    let after = entries@;
                    lemma_find_entry(before, chain, pool_type);
                    assert forall|j: int| 0 <= j < after.len() implies (#[trigger] after[j]) == before[if j == i {
                        before.len() - 1
                    } else {
                        j
                    }] by {}
                    assert(distinct_keys(after));
                    assert forall|c: Chain, t: PoolType|
                        find_entry(after, c, t) is Some <==> (find_entry(before, c, t) is Some && !(c == chain && t
                            == pool_type)) by {
                        lemma_find_entry(after, c, t);
                        lemma_find_entry(before, c, t);
                        if find_entry(before, c, t) is Some && !(c == chain && t == pool_type) {
                            let k = find_entry(before, c, t)->Some_0;
                            let moved = if k == before.len() - 1 {
                                i as int
                            } else {
                                k
                            };
                            assert(after[moved] == before[k]);
                        }
                    }
                    assert forall|c: Chain, t: PoolType| find_entry(after, c, t) is Some implies after[find_entry(
                        after,
                        c,
                        t,
                    )->Some_0] == before[find_entry(before, c, t)->Some_0] by {
                        lemma_find_entry(after, c, t);
                        lemma_find_entry(before, c, t);
                        let k = find_entry(after, c, t)->Some_0;
                        let source = if k == i {
                            before.len() - 1
                        } else {
                            k
                        };
                        assert(after[k] == before[source]);
                        lemma_found_at(before, source);
                    }
                    assert forall|c: Chain, t: PoolType| #[trigger]
                        entry_view(after, c, t) == if c == chain && t == pool_type {
                            empty_cache(pool_type)
                        } else {
                            entry_view(before, c, t)
                        } by {
                        lemma_find_entry(after, c, t);
                        lemma_find_entry(before, c, t);
                    }
                }
                self.entries = entries;
                entry.1
            },
            None => PoolCache::new(pool_type),
        }
    }

    /// Stores a cache for a chain, in place of what was cached for its
    /// family.
    pub fn store(&mut self, cache: PoolCache, chain: Chain)
        ensures
            stores(*old(self), *final(self), chain, cache@),
    {
        proof {
            use_type_invariant(&*self);
        }
        let ghost before = self.entries@;
        let pool_type = cache.pool_type();
        let found = self.position(pool_type, chain);
        let mut entries: Vec<(Chain, PoolCache)> = Vec::new();
        core::mem::swap(&mut entries, &mut self.entries);
        proof {
            lemma_find_entry(before, chain, pool_type);
        }
        match found {
            Some(i) => {
                entries[i] = (chain, cache);
                proof {
                    let after = entries@;
                    assert(distinct_keys(after));
                    assert forall|c: Chain, t: PoolType| find_entry(after, c, t) == find_entry(before, c, t) by {
                        lemma_find_entry(after, c, t);
                        lemma_find_entry(before, c, t);
                        if find_entry(before, c, t) is Some {
                            lemma_found_at(after, find_entry(before, c, t)->Some_0);
                        }
                        if find_entry(after, c, t) is Some {
                            lemma_found_at(before, find_entry(after, c, t)->Some_0);
                        }
                    }
                    assert forall|c: Chain, t: PoolType| #[trigger]
                        entry_view(after, c, t) == if c == chain && t == pool_type {
                            cache@
                        } else {
                            entry_view(before, c, t)
                        } by {
                        lemma_find_entry(after, c, t);
                        lemma_find_entry(before, c, t);
                    }
                }
            },
            None => {
                entries.push((chain, cache));
                proof {
                    let after = entries@;
                    assert(after.drop_last() =~= before);
                    assert(distinct_keys(after));
                    assert forall|c: Chain, t: PoolType| #[trigger]
                        entry_view(after, c, t) == if c == chain && t == pool_type {
                            cache@
                        } else {
                            entry_view(before, c, t)
                        } by {
                        lemma_find_entry(after, c, t);
                        lemma_find_entry(before, c, t);
                    }
                }
            },
        }
        self.entries = entries;
    }
}

} // verus!
