//! The engine's configuration and the bookkeeping of one synchronisation.

use crate::cache::{
    distinct, law_merge_keeps_addresses, law_merged_present, merge_pools, stores, PoolCacheView, SyncCache,
};
use crate::index::{last_index_of, law_last_index};
use crate::primitives::Address;
use crate::events::PoolLog;
use crate::liquidity::{apply_logs, law_logs_keep_pools, pool_addresses};
use crate::ordering::block_ordered;
use crate::pools::{pool_views, Pool, PoolType, PoolView};
use crate::primitives::Chain;
use vstd::prelude::*;

verus! {

/// The rate limit of a builder on which none was set, in requests per
/// second.
pub const DEFAULT_RATE_LIMIT: u64 = 100;

/// The part of a synchronisation in which something went wrong.
#[derive(Clone, Copy, Debug, PartialEq, Eq, Structural)]
pub enum SyncStage {
    Discovery,
    Population,
    Update,
    Cache,
}

/// Why a synchronisation could not be configured or did not complete.
#[derive(Clone, Copy, Debug, PartialEq, Eq, Structural)]
pub enum PoolSyncError {
    /// No chain was chosen.
    ChainNotSet,
    /// The rate limit allows no request at all.
    InvalidRateLimit,
    /// A stage failed for a family.
    StageFailed { stage: SyncStage, pool_type: PoolType },
}

impl PoolSyncError {
    /// Names the stage and family in which an operation has failed, and
    /// keeps the cause beside the name; a success passes through.
    pub fn at_stage<T, E>(result: Result<T, E>, stage: SyncStage, pool_type: PoolType) -> (staged: Result<
        T,
        (PoolSyncError, E),
    >)
        ensures
            staged == match result {
                Ok(value) => Ok::<T, (PoolSyncError, E)>(value),
                Err(cause) => Err::<T, (PoolSyncError, E)>(
                    (PoolSyncError::StageFailed { stage, pool_type }, cause),
                ),
            },
    {
        match result {
            Ok(value) => Ok(value),
            Err(cause) => Err((PoolSyncError::StageFailed { stage, pool_type }, cause)),
        }
    }
}

/// A configured synchronisation: the families to synchronise, the chain, and
/// the number of requests per second that the node accepts.
#[derive(Debug, PartialEq, Eq)]
pub struct PoolSync {
    pub pool_types: Vec<PoolType>,
    pub chain: Chain,
    pub rate_limit: u64,
}

/// Collects the settings of a synchronisation.
#[derive(Debug, PartialEq, Eq)]
pub struct PoolSyncBuilder {
    pub pool_types: Vec<PoolType>,
    pub chain: Option<Chain>,
    pub rate_limit: u64,
}

/// The cache of a family after one cycle that ends at `end_block`: the
/// pools known before are brought up to date with `logs`, the `populated`
/// pools are merged in, and the last block moves forward to `end_block`.
pub open spec fn synced(cache: PoolCacheView, end_block: u64, logs: Seq<PoolLog>, populated: Seq<PoolView>) -> PoolCacheView {
    let updated = if cache.pools.len() == 0 || end_block <= cache.last_synced_block {
        cache.pools
    } else {
        apply_logs(cache.pools, cache.pool_type.group_spec(), block_ordered(logs))
    };
    PoolCacheView {
        pool_type: cache.pool_type,
        last_synced_block: if end_block > cache.last_synced_block {
            end_block
        } else {
            cache.last_synced_block
        },
        pools: merge_pools(updated, populated),
    }
}

/// The pools of the families `types` on a chain, family by family; a family
/// that is named twice counts once.
pub open spec fn all_pools(store: SyncCache, chain: Chain, types: Seq<PoolType>) -> Seq<PoolView>
    decreases types.len(),
{
    if types.len() == 0 {
        Seq::empty()
    } else if types.drop_last().contains(types.last()) {
        all_pools(store, chain, types.drop_last())
    } else {
        all_pools(store, chain, types.drop_last()) + store.cached(chain, types.last()).pools
    }
}

/// A cycle never moves the last block of a family back and never loses a
/// pool: the family stays, the last block is at least what it was, every
/// pool known before keeps its position and its address, and distinct
/// addresses stay distinct.
pub proof fn law_sync_monotonic(cache: PoolCacheView, end_block: u64, logs: Seq<PoolLog>, populated: Seq<PoolView>)
    ensures
        ({
            let after = synced(cache, end_block, logs, populated);
            &&& after.pool_type == cache.pool_type
            &&& after.last_synced_block >= cache.last_synced_block
            &&& end_block >= cache.last_synced_block ==> after.last_synced_block == end_block
            &&& after.pools.len() >= cache.pools.len()
            &&& pool_addresses(after.pools).take(cache.pools.len() as int) == pool_addresses(cache.pools)
            &&& distinct(pool_addresses(cache.pools)) ==> distinct(pool_addresses(after.pools))
        }),
{
    let updated = if cache.pools.len() == 0 || end_block <= cache.last_synced_block {
        cache.pools
    } else {
        apply_logs(cache.pools, cache.pool_type.group_spec(), block_ordered(logs))
    };
    law_logs_keep_pools(cache.pools, cache.pool_type.group_spec(), block_ordered(logs));
    law_merge_keeps_addresses(updated, populated);
    assert(updated.len() == cache.pools.len()) by {
        assert(pool_addresses(updated).len() == updated.len());
        assert(pool_addresses(cache.pools).len() == cache.pools.len());
    }
}

/// Whether one of the pools has the address.
pub open spec fn holds(pools: Seq<PoolView>, address: Address) -> bool {
    exists|k: int| 0 <= k < pools.len() && (#[trigger] pools[k]).address() == address
}

/// Whether exactly one of the pools has the address.
pub open spec fn holds_once(pools: Seq<PoolView>, address: Address) -> bool {
    exists|k: int|
        0 <= k < pools.len() && (#[trigger] pools[k]).address() == address && forall|j: int|
            0 <= j < pools.len() && j != k ==> (#[trigger] pools[j]).address() != address
}

/// Among distinct addresses, an address that is held is held once.
pub proof fn law_distinct_holds_once(pools: Seq<PoolView>, address: Address)
    requires
        distinct(pool_addresses(pools)),
        holds(pools, address),
    ensures
        holds_once(pools, address),
{
    let k = choose|k: int| 0 <= k < pools.len() && (#[trigger] pools[k]).address() == address;
    assert forall|j: int| 0 <= j < pools.len() && j != k implies (#[trigger] pools[j]).address() != address by {
        assert(pool_addresses(pools)[j] == pools[j].address());
        assert(pool_addresses(pools)[k] == pools[k].address());
    }
}

/// After a cycle the cache of the family holds every populated pool's
/// address, and, as its addresses stay distinct, holds it once.
pub proof fn law_sync_holds_once(
    cache: PoolCacheView,
    end_block: u64,
    logs: Seq<PoolLog>,
    populated: Seq<PoolView>,
    j: int,
)
    requires
        distinct(pool_addresses(cache.pools)),
        0 <= j < populated.len(),
    ensures
        holds_once(synced(cache, end_block, logs, populated).pools, populated[j].address()),
{
    let updated = if cache.pools.len() == 0 || end_block <= cache.last_synced_block {
        cache.pools
    } else {
        apply_logs(cache.pools, cache.pool_type.group_spec(), block_ordered(logs))
    };
    let after = synced(cache, end_block, logs, populated).pools;
    law_sync_monotonic(cache, end_block, logs, populated);
    law_merged_present(updated, populated, j);
    law_last_index(pool_addresses(after), populated[j].address());
    let k = last_index_of(pool_addresses(after), populated[j].address())->Some_0;
    assert(after[k].address() == populated[j].address());
    assert forall|i: int| 0 <= i < after.len() && i != k implies (#[trigger] after[i]).address() != populated[j].address() by {
        assert(pool_addresses(after)[i] == after[i].address());
        assert(pool_addresses(after)[k] == after[k].address());
    }
}

/// Where no family of `types` holds an address, the collected pools do not
/// hold it.
proof fn lemma_collected_none(store: SyncCache, chain: Chain, types: Seq<PoolType>, address: Address)
    requires
        forall|i: int| 0 <= i < types.len() ==> !holds(store.cached(chain, #[trigger] types[i]).pools, address),
    ensures
        !holds(all_pools(store, chain, types), address),
    decreases types.len(),
{
    if types.len() > 0 {
        let front = types.drop_last();
        assert forall|i: int| 0 <= i < front.len() implies !holds(
            store.cached(chain, #[trigger] front[i]).pools,
            address,
        ) by {
            assert(front[i] == types[i]);
        }
        lemma_collected_none(store, chain, front, address);
        let head = all_pools(store, chain, front);
        let tail = store.cached(chain, types.last()).pools;
        assert(types.last() == types[types.len() - 1]);
        if holds(head + tail, address) {
            let k = choose|k: int| 0 <= k < (head + tail).len() && (#[trigger] (head + tail)[k]).address() == address;
            if k < head.len() {
                assert(head[k].address() == address);
            } else {
                assert(tail[k - head.len()].address() == address);
            }
        }
    }
}

/// Where one configured family holds an address, and holds it once, and no
/// other configured family holds it, the collected pools hold it once.
pub proof fn law_collected_once(
    store: SyncCache,
    chain: Chain,
    types: Seq<PoolType>,
    family: PoolType,
    address: Address,
)
    requires
        types.contains(family),
        holds_once(store.cached(chain, family).pools, address),
        forall|i: int|
            0 <= i < types.len() && types[i] != family ==> !holds(
                store.cached(chain, #[trigger] types[i]).pools,
                address,
            ),
    ensures
        holds_once(all_pools(store, chain, types), address),
    decreases types.len(),
{
    let front = types.drop_last();
    let last = types.last();
    let head = all_pools(store, chain, front);
    let tail = store.cached(chain, last).pools;
    assert(last == types[types.len() - 1]);
    assert forall|i: int| 0 <= i < front.len() && front[i] != family implies !holds(
        store.cached(chain, #[trigger] front[i]).pools,
        address,
    ) by {
        assert(front[i] == types[i]);
    }
    if front.contains(family) {
        law_collected_once(store, chain, front, family, address);
        if !front.contains(last) {
            assert(last != family);
            let k = choose|k: int|
                0 <= k < head.len() && (#[trigger] head[k]).address() == address && forall|j: int|
                    0 <= j < head.len() && j != k ==> (#[trigger] head[j]).address() != address;
            assert((head + tail)[k].address() == address);
            assert forall|j: int| 0 <= j < (head + tail).len() && j != k implies (#[trigger] (head + tail)[j]).address()
                != address by {
                if j < head.len() {
                    assert(head[j].address() != address);
                } else {
                    assert(tail[j - head.len()] == (head + tail)[j]);
                }
            }
        }
    } else {
        let i = choose|i: int| 0 <= i < types.len() && types[i] == family;
        if i < types.len() - 1 {
            assert(front[i] == family);
        }
        assert(last == family);
        assert forall|i: int| 0 <= i < front.len() implies !holds(
            store.cached(chain, #[trigger] front[i]).pools,
            address,
        ) by {
            assert(front[i] != family);
        }
        lemma_collected_none(store, chain, front, address);
        let k = choose|k: int|
            0 <= k < tail.len() && (#[trigger] tail[k]).address() == address && forall|j: int|
                0 <= j < tail.len() && j != k ==> (#[trigger] tail[j]).address() != address;
        assert((head + tail)[head.len() + k] == tail[k]);
        assert forall|j: int| 0 <= j < (head + tail).len() && j != head.len() + k implies (#[trigger] (head
            + tail)[j]).address() != address by {
            if j < head.len() {
                assert(head[j].address() != address);
            } else {
                assert(tail[j - head.len()] == (head + tail)[j]);
            }
        }
    }
}

/// Whether `types` names `pool_type`.
fn names_type(types: &Vec<PoolType>, pool_type: PoolType) -> (named: bool)
    ensures
        named == types@.contains(pool_type),
{
    let mut i: usize = 0;
    while i < types.len()
        invariant
            i <= types.len(),
            forall|j: int| 0 <= j < i ==> types[j] != pool_type,
        decreases types.len() - i,
    {
        if types[i] == pool_type {
            assert(types@[i as int] == pool_type);
            return true;
        }
        i = i + 1;
    }
    false
}

impl Default for PoolSyncBuilder {
    fn default() -> (builder: PoolSyncBuilder)
        ensures
            builder.pool_types@ == Seq::<PoolType>::empty(),
            builder.chain is None,
            builder.rate_limit == DEFAULT_RATE_LIMIT,
    {
        PoolSyncBuilder { pool_types: Vec::new(), chain: None, rate_limit: DEFAULT_RATE_LIMIT }
    }
}

impl PoolSyncBuilder {
    /// Adds a family to synchronise. A family that was added before is not
    /// added again.
    pub fn add_pool(self, pool_type: PoolType) -> (builder: PoolSyncBuilder)
        ensures
            builder.pool_types@ == if self.pool_types@.contains(pool_type) {
                self.pool_types@
            } else {
                self.pool_types@.push(pool_type)
            },
            builder.chain == self.chain,
            builder.rate_limit == self.rate_limit,
    {
        let mut builder = self;
        if !names_type(&builder.pool_types, pool_type) {
            builder.pool_types.push(pool_type);
        }
        builder
    }

    /// Chooses the chain.
    pub fn chain(self, chain: Chain) -> (builder: PoolSyncBuilder)
        ensures
            builder.pool_types == self.pool_types,
            builder.chain == Some(chain),
            builder.rate_limit == self.rate_limit,
    {
        let mut builder = self;
        builder.chain = Some(chain);
        builder
    }

    /// Sets the number of requests per second that the node accepts.
    pub fn rate_limit(self, rate_limit: u64) -> (builder: PoolSyncBuilder)
        ensures
            builder.pool_types == self.pool_types,
            builder.chain == self.chain,
            builder.rate_limit == rate_limit,
    {
        let mut builder = self;
        builder.rate_limit = rate_limit;
        builder
    }

    /// The configured synchronisation. It is refused where no chain was
    /// chosen, and else where the rate limit is zero.
    pub fn build(self) -> (built: Result<PoolSync, PoolSyncError>)
        ensures
            built == match self.chain {
                None => Err::<PoolSync, PoolSyncError>(PoolSyncError::ChainNotSet),
                Some(chain) => if self.rate_limit == 0 {
                    Err::<PoolSync, PoolSyncError>(PoolSyncError::InvalidRateLimit)
                } else {
                    Ok::<PoolSync, PoolSyncError>(
                        PoolSync { pool_types: self.pool_types, chain, rate_limit: self.rate_limit },
                    )
                },
            },
    {
        match self.chain {
            None => Err(PoolSyncError::ChainNotSet),
            Some(chain) => {
                if self.rate_limit == 0 {
                    Err(PoolSyncError::InvalidRateLimit)
                } else {
                    Ok(PoolSync { pool_types: self.pool_types, chain, rate_limit: self.rate_limit })
                }
            },
        }
    }
}

impl PoolSync {
    /// A builder on which nothing is set yet.
    pub fn builder() -> (builder: PoolSyncBuilder)
        ensures
            builder.pool_types@ == Seq::<PoolType>::empty(),
            builder.chain is None,
            builder.rate_limit == DEFAULT_RATE_LIMIT,
    {
        PoolSyncBuilder { pool_types: Vec::new(), chain: None, rate_limit: DEFAULT_RATE_LIMIT }
    }

    /// The block from which the next cycle of a family scans: the last one
    /// that was scanned for it.
    pub fn start_block(&self, store: &SyncCache, pool_type: PoolType) -> (block: u64)
        ensures
            block == store.cached(self.chain, pool_type).last_synced_block,
    {
        store.last_synced_block(pool_type, self.chain)
    }

    /// Completes the cycle of one family: what is cached for it becomes
    /// `synced` of what was cached, and no other family is touched.
    pub fn sync_family(
        &self,
        store: &mut SyncCache,
        pool_type: PoolType,
        end_block: u64,
        logs: Vec<PoolLog>,
        populated: Vec<Pool>,
    )
        ensures
            stores(
                *old(store),
                *final(store),
                self.chain,
                synced(old(store).cached(self.chain, pool_type), end_block, logs@, pool_views(populated@)),
            ),
            distinct(pool_addresses(final(store).cached(self.chain, pool_type).pools)),
    {
        proof {
            store.law_cached_family(self.chain, pool_type);
        }
        let ghost before = *store;
        let mut cache = store.take(pool_type, self.chain);
        let ghost taken = *store;
        cache.update_liquidity(end_block, logs);
        cache.merge(populated);
        cache.advance(end_block);
        let ghost done = cache@;
        store.store(cache, self.chain);
        proof {
            assert(done == synced(before.cached(self.chain, pool_type), end_block, logs@, pool_views(populated@)));
            assert forall|c: Chain, t: PoolType| #[trigger]
                store.cached(c, t) == if c == self.chain && t == done.pool_type {
                    done
                } else {
                    before.cached(c, t)
                } by {
                let _ = taken.cached(c, t);
            }
        }
    }

    /// The pools of every configured family, family by family in the order
    /// in which the families were configured.
    pub fn collect_pools(&self, store: SyncCache) -> (pools: Vec<Pool>)
        ensures
            pool_views(pools@) == all_pools(store, self.chain, self.pool_types@),
            forall|j: int|
                0 <= j < self.pool_types.len() ==> distinct(
                    pool_addresses(store.cached(self.chain, #[trigger] self.pool_types[j]).pools),
                ),
    {
        let ghost given = store;
        let mut store = store;
        let mut pools: Vec<Pool> = Vec::new();
        let mut i: usize = 0;
        proof {
            assert(self.pool_types@.take(0) =~= Seq::empty());
            assert(pool_views(pools@) =~= Seq::empty());
        }
        while i < self.pool_types.len()
            invariant
                i <= self.pool_types.len(),
                forall|t: PoolType| #[trigger]
                    store.cached(self.chain, t) == if self.pool_types@.take(i as int).contains(t) {
                        crate::cache::empty_cache(t)
                    } else {
                        given.cached(self.chain, t)
                    },
                pool_views(pools@) == all_pools(given, self.chain, self.pool_types@.take(i as int)),
                forall|j: int|
                    0 <= j < i ==> distinct(
                        pool_addresses(given.cached(self.chain, #[trigger] self.pool_types[j]).pools),
                    ),
            decreases self.pool_types.len() - i,
        {
            let pool_type = self.pool_types[i];
            let ghost before = store;
            let ghost seen = self.pool_types@.take(i as int);
            let ghost collected = pool_views(pools@);
            let cache = store.take(pool_type, self.chain);
            let mut found = cache.into_pools();
            let ghost found_views = pool_views(found@);
            pools.append(&mut found);
            proof {
                let next = self.pool_types@.take(i + 1);
                assert(next.drop_last() =~= seen);
                assert(next.last() == pool_type);
                assert(found_views == before.cached(self.chain, pool_type).pools);
                assert(pool_views(pools@) =~= collected + found_views);
                if seen.contains(pool_type) {
                    assert(collected + found_views =~= collected);
                    let j = choose|j: int| 0 <= j < seen.len() && seen[j] == pool_type;
                    assert(self.pool_types[j] == pool_type);
                }
                assert(distinct(pool_addresses(given.cached(self.chain, pool_type).pools)));
                assert forall|t: PoolType| #[trigger]
                    store.cached(self.chain, t) == if next.contains(t) {
                        crate::cache::empty_cache(t)
                    } else {
                        given.cached(self.chain, t)
                    } by {
                    let _ = before.cached(self.chain, t);
                    if t == pool_type {
                        assert(next[i as int] == t);
                    } else if seen.contains(t) {
                        let j = choose|j: int| 0 <= j < seen.len() && seen[j] == t;
                        assert(next[j] == t);
                    } else if next.contains(t) {
                        let j = choose|j: int| 0 <= j < next.len() && next[j] == t;
                        assert(seen[j] == t);
                    }
                }
            }
            i = i + 1;
        }
        proof {
            assert(self.pool_types@.take(i as int) =~= self.pool_types@);
        }
        pools
    }
}

} // verus!
