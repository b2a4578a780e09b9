//! Bringing known pools up to date from fetched logs.

use crate::events::PoolLog;
use crate::index::{last_index_of, AddressIndex};
use crate::ordering::block_ordered;
use crate::pools::{pool_views, Pool, PoolGroup, PoolType, PoolView};
use crate::primitives::Address;
use crate::rpc::Rpc;
use crate::update::{apply_event, law_event_keeps_identity};
use vstd::prelude::*;

verus! {

/// The address of each pool, position by position.
pub open spec fn pool_addresses(pools: Seq<PoolView>) -> Seq<Address> {
    pools.map_values(|p: PoolView| p.address())
}

/// The pools after one log. The log is about the last pool that has its
/// address; it changes that pool where the pool is of group `group`, and
/// nothing where no pool has the address.
pub open spec fn apply_log(pools: Seq<PoolView>, group: PoolGroup, log: PoolLog) -> Seq<PoolView> {
    match last_index_of(pool_addresses(pools), log.address) {
        Some(i) => if pools[i].group() == group {
            pools.update(i, apply_event(pools[i], log.event))
        } else {
            pools
        },
        None => pools,
    }
}

/// The pools after each of `logs` in turn.
pub open spec fn apply_logs(pools: Seq<PoolView>, group: PoolGroup, logs: Seq<PoolLog>) -> Seq<PoolView>
    decreases logs.len(),
{
    if logs.len() == 0 {
        pools
    } else {
        apply_log(apply_logs(pools, group, logs.drop_last()), group, logs.last())
    }
}

/// Logs change what pools hold, never which pools there are: their number
/// and the address at each position stay.
pub proof fn law_logs_keep_pools(pools: Seq<PoolView>, group: PoolGroup, logs: Seq<PoolLog>)
    ensures
        pool_addresses(apply_logs(pools, group, logs)) == pool_addresses(pools),
    decreases logs.len(),
{
    if logs.len() > 0 {
        law_logs_keep_pools(pools, group, logs.drop_last());
        let before = apply_logs(pools, group, logs.drop_last());
        lemma_log_keeps_pools(before, group, logs.last());
    }
}

proof fn lemma_log_keeps_pools(pools: Seq<PoolView>, group: PoolGroup, log: PoolLog)
    ensures
        pool_addresses(apply_log(pools, group, log)) == pool_addresses(pools),
{
    crate::index::law_last_index(pool_addresses(pools), log.address);
    match last_index_of(pool_addresses(pools), log.address) {
        Some(i) => {
            law_event_keeps_identity(pools[i], log.event);
            assert(pool_addresses(apply_log(pools, group, log)) =~= pool_addresses(pools));
        },
        None => {},
    }
}

/// An index over the addresses of `pools`.
pub(crate) fn index_pools(pools: &Vec<Pool>) -> (index: AddressIndex)
    ensures
        index.wf(),
        index.addresses() == pool_addresses(pool_views(pools@)),
{
    let mut index = AddressIndex::new();
    let mut i: usize = 0;
    proof {
        assert(pool_addresses(pool_views(pools@)).take(0) =~= Seq::empty());
    }
    while i < pools.len()
        invariant
            i <= pools.len(),
            index.wf(),
            index.addresses() == pool_addresses(pool_views(pools@)).take(i as int),
        decreases pools.len() - i,
    {
        index.push(pools[i].address(), i);
        proof {
            let all = pool_addresses(pool_views(pools@));
            assert(all.take(i + 1) =~= all.take(i as int).push(pools[i as int]@.address()));
        }
        i = i + 1;
    }
    proof {
        let all = pool_addresses(pool_views(pools@));
        assert(all.take(i as int) =~= all);
    }
    index
}

impl Rpc {
    /// Applies the logs fetched over `[start_block, end_block]` to the pools
    /// of a family, in block order.
    ///
    /// Nothing is done where there is no pool or no block after
    /// `start_block`. Else the logs are put in block order, and each in turn
    /// is applied to the pool that has its address, where that pool is of
    /// the family's group. A log about an address that no pool has is passed
    /// over.
    pub fn populate_liquidity(
        start_block: u64,
        end_block: u64,
        pools: &mut Vec<Pool>,
        pool_type: PoolType,
        logs: Vec<PoolLog>,
    )
        ensures
            pool_views(final(pools)@) == if old(pools).len() == 0 || end_block <= start_block {
                pool_views(old(pools)@)
            } else {
                apply_logs(pool_views(old(pools)@), pool_type.group_spec(), block_ordered(logs@))
            },
    {
        if pools.len() == 0 || end_block <= start_block {
            return;
        }
        let index = index_pools(pools);
        let ordered = Rpc::order_logs(logs);
        let group = pool_type.group();
        let ghost given = pool_views(pools@);
        let mut k: usize = 0;
        proof {
            assert(ordered@.take(0) =~= Seq::empty());
        }
        while k < ordered.len()
            invariant
                k <= ordered.len(),
                index.wf(),
                index.addresses() == pool_addresses(pool_views(pools@)),
                pool_views(pools@) == apply_logs(given, group, ordered@.take(k as int)),
            decreases ordered.len() - k,
        {
            let log = ordered[k];
            let ghost before = pool_views(pools@);
            proof {
                assert(ordered@.take(k + 1).drop_last() =~= ordered@.take(k as int));
                crate::index::law_last_index(pool_addresses(before), log.address);
            }
            match index.lookup(log.address) {
                Some(i) => {
                    if pools[i].group() == group {
                        pools[i].apply(&log.event);
                        proof {
                            law_event_keeps_identity(before[i as int], log.event);
                            assert(pool_views(pools@) =~= before.update(i as int, apply_event(before[i as int], log.event)));
                            assert(pool_addresses(pool_views(pools@)) =~= pool_addresses(before));
                        }
                    }
                },
                None => {},
            }
            k = k + 1;
        }
        proof {
            assert(ordered@.take(k as int) =~= ordered@);
        }
    }
}

} // verus!
