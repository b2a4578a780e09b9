use pool_sync::{Address, Chain, Pool, PoolCache, PoolEvent, PoolLog, PoolType, SyncCache, V2Pool};

fn addr(lo: u128) -> Address {
    Address::new(0, lo)
}

fn pool(lo: u128, reserve: u128) -> Pool {
    Pool::V2(V2Pool { address: addr(lo), token0: addr(100), token1: addr(101), reserve0: reserve, reserve1: reserve })
}

#[test]
fn new_cache_is_empty_at_block_zero() {
    let cache = PoolCache::new(PoolType::UniswapV2);
    assert_eq!(cache.pool_type(), PoolType::UniswapV2);
    assert_eq!(cache.last_synced_block(), 0);
    assert!(cache.pools().is_empty());
}

#[test]
fn merge_overwrites_by_address_and_appends_the_rest() {
    let mut cache = PoolCache::from_parts(PoolType::UniswapV2, 10, vec![pool(1, 1), pool(2, 2)]);
    cache.merge(vec![pool(3, 3), pool(1, 10), pool(3, 30)]);
    assert_eq!(cache.pools(), &vec![pool(1, 10), pool(2, 2), pool(3, 30)]);
    assert_eq!(cache.last_synced_block(), 10);
    assert_eq!(cache.pool_type(), PoolType::UniswapV2);
}

#[test]
fn merging_twice_is_merging_once() {
    let new_pools = vec![pool(3, 3), pool(1, 10), pool(3, 30), pool(4, 4)];
    let mut once = PoolCache::from_parts(PoolType::UniswapV2, 10, vec![pool(1, 1), pool(2, 2)]);
    once.merge(new_pools.clone());
    let mut twice = once.clone();
    twice.merge(new_pools);
    assert_eq!(twice, once);
}

#[test]
fn merge_loses_no_address() {
    let mut cache = PoolCache::from_parts(PoolType::UniswapV2, 10, vec![pool(1, 1), pool(2, 2)]);
    cache.merge(vec![pool(5, 5)]);
    cache.merge(Vec::new());
    let addresses: Vec<Address> = cache.pools().iter().map(|p| p.address()).collect();
    assert_eq!(addresses, vec![addr(1), addr(2), addr(5)]);
}

#[test]
fn cache_built_from_parts_keeps_one_pool_per_address() {
    let cache = PoolCache::from_parts(PoolType::Aerodrome, 42, vec![pool(1, 1), pool(2, 2), pool(1, 3)]);
    assert_eq!(cache.last_synced_block(), 42);
    assert_eq!(cache.pool_type(), PoolType::Aerodrome);
    assert_eq!(cache.into_pools(), vec![pool(1, 3), pool(2, 2)]);
}

#[test]
fn last_block_only_moves_forward() {
    let mut cache = PoolCache::new(PoolType::UniswapV2);
    cache.advance(200);
    assert_eq!(cache.last_synced_block(), 200);
    cache.advance(150);
    assert_eq!(cache.last_synced_block(), 200);
    cache.advance(200);
    assert_eq!(cache.last_synced_block(), 200);
    cache.advance(201);
    assert_eq!(cache.last_synced_block(), 201);
}

#[test]
fn cache_is_updated_from_its_last_block() {
    let log = |block: u64, lo: u128, reserve: u128| PoolLog {
        block_number: Some(block),
        address: addr(lo),
        event: PoolEvent::Sync { reserve0: reserve, reserve1: reserve },
    };
    let mut cache = PoolCache::from_parts(PoolType::UniswapV2, 10, vec![pool(1, 1), pool(2, 2)]);
    cache.update_liquidity(20, vec![log(15, 2, 20), log(12, 2, 12), log(11, 9, 9)]);
    assert_eq!(cache.pools(), &vec![pool(1, 1), pool(2, 20)]);
    assert_eq!(cache.last_synced_block(), 10);
    cache.update_liquidity(10, vec![log(15, 1, 7)]);
    assert_eq!(cache.pools(), &vec![pool(1, 1), pool(2, 20)]);
}

#[test]
fn family_that_was_never_stored_loads_as_empty() {
    let store = SyncCache::new();
    let cache = store.load(PoolType::UniswapV3, Chain::Ethereum);
    assert_eq!(cache, PoolCache::new(PoolType::UniswapV3));
    assert_eq!(store.last_synced_block(PoolType::UniswapV3, Chain::Ethereum), 0);
    assert_eq!(store.pool_count(PoolType::UniswapV3, Chain::Ethereum), 0);
}

#[test]
fn load_after_store_gives_back_the_cache() {
    let mut store = SyncCache::new();
    let cache = PoolCache::from_parts(PoolType::UniswapV2, 77, vec![pool(1, 1), pool(2, 2)]);
    store.store(cache.clone(), Chain::Ethereum);
    assert_eq!(store.load(PoolType::UniswapV2, Chain::Ethereum), cache);
    assert_eq!(store.last_synced_block(PoolType::UniswapV2, Chain::Ethereum), 77);
    assert_eq!(store.pool_count(PoolType::UniswapV2, Chain::Ethereum), 2);
    assert_eq!(store.load(PoolType::UniswapV2, Chain::Base), PoolCache::new(PoolType::UniswapV2));
    assert_eq!(store.load(PoolType::SushiSwapV2, Chain::Ethereum), PoolCache::new(PoolType::SushiSwapV2));
}

#[test]
fn storing_what_was_loaded_changes_nothing() {
    let mut store = SyncCache::new();
    let first = PoolCache::from_parts(PoolType::UniswapV2, 77, vec![pool(1, 1)]);
    let second = PoolCache::from_parts(PoolType::UniswapV3, 78, vec![pool(2, 2)]);
    store.store(first.clone(), Chain::Ethereum);
    store.store(second.clone(), Chain::Base);
    let loaded = store.load(PoolType::UniswapV2, Chain::Ethereum);
    store.store(loaded, Chain::Ethereum);
    let absent = store.load(PoolType::BalancerV2, Chain::Base);
    store.store(absent, Chain::Base);
    assert_eq!(store.load(PoolType::UniswapV2, Chain::Ethereum), first);
    assert_eq!(store.load(PoolType::UniswapV3, Chain::Base), second);
    assert_eq!(store.load(PoolType::BalancerV2, Chain::Base), PoolCache::new(PoolType::BalancerV2));
    assert_eq!(store.load(PoolType::UniswapV3, Chain::Ethereum), PoolCache::new(PoolType::UniswapV3));
}

#[test]
fn later_store_replaces_the_earlier_one() {
    let mut store = SyncCache::new();
    store.store(PoolCache::from_parts(PoolType::UniswapV2, 1, vec![pool(1, 1)]), Chain::Ethereum);
    store.store(PoolCache::from_parts(PoolType::UniswapV3, 2, vec![pool(2, 2)]), Chain::Ethereum);
    store.store(PoolCache::from_parts(PoolType::UniswapV2, 3, vec![pool(3, 3)]), Chain::Ethereum);
    assert_eq!(
        store.load(PoolType::UniswapV2, Chain::Ethereum),
        PoolCache::from_parts(PoolType::UniswapV2, 3, vec![pool(3, 3)])
    );
    assert_eq!(
        store.load(PoolType::UniswapV3, Chain::Ethereum),
        PoolCache::from_parts(PoolType::UniswapV3, 2, vec![pool(2, 2)])
    );
}

#[test]
fn taking_a_cache_leaves_the_empty_one() {
    let mut store = SyncCache::new();
    let first = PoolCache::from_parts(PoolType::UniswapV2, 1, vec![pool(1, 1)]);
    let second = PoolCache::from_parts(PoolType::UniswapV3, 2, vec![pool(2, 2)]);
    let third = PoolCache::from_parts(PoolType::BalancerV2, 3, vec![pool(3, 3)]);
    store.store(first.clone(), Chain::Ethereum);
    store.store(second.clone(), Chain::Ethereum);
    store.store(third.clone(), Chain::Ethereum);
    assert_eq!(store.take(PoolType::UniswapV2, Chain::Ethereum), first);
    assert_eq!(store.take(PoolType::UniswapV2, Chain::Ethereum), PoolCache::new(PoolType::UniswapV2));
    assert_eq!(store.load(PoolType::UniswapV3, Chain::Ethereum), second);
    assert_eq!(store.load(PoolType::BalancerV2, Chain::Ethereum), third);
    assert_eq!(store.take(PoolType::SushiSwapV3, Chain::Base), PoolCache::new(PoolType::SushiSwapV3));
}

#[test]
fn parts_of_a_cache_build_the_same_cache() {
    let mut cache = PoolCache::from_parts(PoolType::UniswapV2, 10, vec![pool(1, 1), pool(2, 2)]);
    cache.merge(vec![pool(3, 3), pool(1, 10)]);
    let copy = cache.clone();
    let rebuilt = PoolCache::from_parts(copy.pool_type(), copy.last_synced_block(), copy.into_pools());
    assert_eq!(rebuilt, cache);
}
