use pool_sync::pool_sync::DEFAULT_RATE_LIMIT;
use pool_sync::{
    Address, Chain, Pool, PoolEvent, PoolLog, PoolSync, PoolSyncBuilder, PoolSyncError, PoolType, Rpc, SyncCache,
    SyncStage, V2Pool,
};

fn addr(lo: u128) -> Address {
    Address::new(0, lo)
}

fn pool(lo: u128, reserve: u128) -> Pool {
    Pool::V2(V2Pool { address: addr(lo), token0: addr(100), token1: addr(101), reserve0: reserve, reserve1: reserve })
}

fn engine(pool_types: &[PoolType]) -> PoolSync {
    let mut builder = PoolSync::builder().chain(Chain::Ethereum);
    for pool_type in pool_types {
        builder = builder.add_pool(*pool_type);
    }
    builder.build().unwrap()
}

#[test]
fn fresh_builder_has_nothing_set() {
    let builder = PoolSync::builder();
    assert!(builder.pool_types.is_empty());
    assert_eq!(builder.chain, None);
    assert_eq!(builder.rate_limit, DEFAULT_RATE_LIMIT);
    assert_eq!(builder, PoolSyncBuilder::default());
}

#[test]
fn builder_collects_the_settings() {
    let built = PoolSync::builder()
        .add_pool(PoolType::UniswapV2)
        .add_pool(PoolType::UniswapV3)
        .add_pool(PoolType::UniswapV2)
        .chain(Chain::Base)
        .rate_limit(25)
        .build();
    assert_eq!(
        built,
        Ok(PoolSync {
            pool_types: vec![PoolType::UniswapV2, PoolType::UniswapV3],
            chain: Chain::Base,
            rate_limit: 25,
        })
    );
}

#[test]
fn build_without_a_chain_is_refused() {
    assert_eq!(PoolSync::builder().add_pool(PoolType::UniswapV2).build(), Err(PoolSyncError::ChainNotSet));
    assert_eq!(PoolSync::builder().rate_limit(0).build(), Err(PoolSyncError::ChainNotSet));
}

#[test]
fn build_with_a_rate_limit_of_zero_is_refused() {
    assert_eq!(
        PoolSync::builder().chain(Chain::Ethereum).rate_limit(0).build(),
        Err(PoolSyncError::InvalidRateLimit)
    );
}

#[test]
fn failure_names_its_stage_and_family() {
    let failed: Result<u8, String> = Err(String::from("io"));
    assert_eq!(
        PoolSyncError::at_stage(failed, SyncStage::Discovery, PoolType::UniswapV3),
        Err((
            PoolSyncError::StageFailed { stage: SyncStage::Discovery, pool_type: PoolType::UniswapV3 },
            String::from("io")
        ))
    );
    let fine: Result<u8, String> = Ok(3);
    assert_eq!(PoolSyncError::at_stage(fine, SyncStage::Cache, PoolType::UniswapV3), Ok(3));
}

#[test]
fn cycle_merges_pools_and_moves_the_last_block() {
    let sync = engine(&[PoolType::UniswapV2]);
    let mut store = SyncCache::new();
    assert_eq!(sync.start_block(&store, PoolType::UniswapV2), 0);
    sync.sync_family(&mut store, PoolType::UniswapV2, 100, Vec::new(), vec![pool(1, 1), pool(2, 2)]);
    assert_eq!(sync.start_block(&store, PoolType::UniswapV2), 100);
    sync.sync_family(&mut store, PoolType::UniswapV2, 200, Vec::new(), vec![pool(3, 3), pool(1, 10)]);
    assert_eq!(sync.start_block(&store, PoolType::UniswapV2), 200);
    assert_eq!(
        store.load(PoolType::UniswapV2, Chain::Ethereum).into_pools(),
        vec![pool(1, 10), pool(2, 2), pool(3, 3)]
    );
    assert_eq!(store.load(PoolType::UniswapV2, Chain::Base).into_pools(), Vec::new());
}

#[test]
fn cycle_never_moves_the_last_block_back_nor_loses_a_pool() {
    let sync = engine(&[PoolType::UniswapV2]);
    let mut store = SyncCache::new();
    sync.sync_family(&mut store, PoolType::UniswapV2, 200, Vec::new(), vec![pool(1, 1), pool(2, 2)]);
    sync.sync_family(&mut store, PoolType::UniswapV2, 150, Vec::new(), vec![pool(3, 3)]);
    assert_eq!(sync.start_block(&store, PoolType::UniswapV2), 200);
    let addresses: Vec<Address> =
        store.load(PoolType::UniswapV2, Chain::Ethereum).pools().iter().map(|p| p.address()).collect();
    assert_eq!(addresses, vec![addr(1), addr(2), addr(3)]);
}

#[test]
fn cycle_updates_known_pools_before_it_merges() {
    let sync = engine(&[PoolType::UniswapV2]);
    let mut store = SyncCache::new();
    sync.sync_family(&mut store, PoolType::UniswapV2, 100, Vec::new(), vec![pool(1, 1), pool(2, 2)]);
    let log = |block: u64, lo: u128, reserve: u128| PoolLog {
        block_number: Some(block),
        address: addr(lo),
        event: PoolEvent::Sync { reserve0: reserve, reserve1: reserve },
    };
    sync.sync_family(
        &mut store,
        PoolType::UniswapV2,
        200,
        vec![log(180, 1, 18), log(150, 1, 15), log(160, 3, 16)],
        vec![pool(3, 3), pool(2, 20)],
    );
    assert_eq!(
        store.load(PoolType::UniswapV2, Chain::Ethereum).into_pools(),
        vec![pool(1, 18), pool(2, 20), pool(3, 3)]
    );
}

#[test]
fn collected_pools_are_those_of_every_family() {
    let sync = engine(&[PoolType::UniswapV3, PoolType::UniswapV2]);
    let mut store = SyncCache::new();
    sync.sync_family(&mut store, PoolType::UniswapV2, 100, Vec::new(), vec![pool(1, 1), pool(2, 2)]);
    sync.sync_family(&mut store, PoolType::UniswapV3, 100, Vec::new(), vec![pool(3, 3)]);
    sync.sync_family(&mut store, PoolType::BalancerV2, 100, Vec::new(), vec![pool(4, 4)]);
    assert_eq!(sync.collect_pools(store), vec![pool(3, 3), pool(1, 1), pool(2, 2)]);
}

#[test]
fn family_named_twice_is_collected_once() {
    let sync = PoolSync {
        pool_types: vec![PoolType::UniswapV2, PoolType::UniswapV3, PoolType::UniswapV2],
        chain: Chain::Ethereum,
        rate_limit: 10,
    };
    let mut store = SyncCache::new();
    sync.sync_family(&mut store, PoolType::UniswapV2, 100, Vec::new(), vec![pool(1, 1)]);
    sync.sync_family(&mut store, PoolType::UniswapV3, 100, Vec::new(), vec![pool(3, 3)]);
    assert_eq!(sync.collect_pools(store), vec![pool(1, 1), pool(3, 3)]);
}

#[test]
fn three_created_pools_are_synced_end_to_end() {
    let sync = engine(&[PoolType::UniswapV2]);
    let mut store = SyncCache::new();
    let head = 200;
    let created: Vec<(u64, Address)> = vec![(100, addr(1)), (150, addr(2)), (200, addr(3))];

    let start = sync.start_block(&store, PoolType::UniswapV2);
    let ranges = Rpc::address_ranges(start, head);
    assert_eq!(ranges, vec![(0, 200)]);
    let answers: Vec<Result<Vec<Address>, String>> = ranges
        .iter()
        .map(|&(from, to)| {
            Ok(created.iter().filter(|(block, _)| from <= *block && *block <= to).map(|(_, a)| *a).collect())
        })
        .collect();
    let addresses = Rpc::join_windows(answers).unwrap();
    assert_eq!(addresses, vec![addr(1), addr(2), addr(3)]);

    let batches = Rpc::batch_addresses(&addresses, PoolType::UniswapV2);
    let populated: Vec<Vec<Pool>> = batches
        .iter()
        .map(|batch| {
            let answer: Result<Vec<Pool>, String> = Ok(batch.iter().map(|a| pool(a.lo, 1000 + a.lo)).collect());
            match Rpc::after_batch_attempt(pool_sync::RetryState::new(), answer) {
                pool_sync::RetryStep::Done(pools) => pools,
                other => panic!("expected the batch to be done, got {:?}", other),
            }
        })
        .collect();
    let populated = Rpc::join_batches(populated);

    sync.sync_family(&mut store, PoolType::UniswapV2, head, Vec::new(), populated);
    assert_eq!(store.load(PoolType::UniswapV2, Chain::Ethereum).last_synced_block(), 200);
    assert_eq!(sync.collect_pools(store), vec![pool(1, 1001), pool(2, 1002), pool(3, 1003)]);
}

#[test]
fn second_run_over_the_same_range_finds_the_same_pools() {
    let sync = engine(&[PoolType::UniswapV2]);
    let mut store = SyncCache::new();
    let found = vec![pool(1, 1), pool(2, 2), pool(1, 3)];
    sync.sync_family(&mut store, PoolType::UniswapV2, 200, Vec::new(), found.clone());
    let once = store.load(PoolType::UniswapV2, Chain::Ethereum);
    sync.sync_family(&mut store, PoolType::UniswapV2, 200, Vec::new(), found);
    assert_eq!(store.load(PoolType::UniswapV2, Chain::Ethereum), once);
}

#[test]
fn rescanned_address_is_held_once() {
    let sync = engine(&[PoolType::UniswapV2, PoolType::UniswapV3]);
    let mut store = SyncCache::new();
    sync.sync_family(&mut store, PoolType::UniswapV2, 100, Vec::new(), vec![pool(1, 1), pool(2, 2)]);
    sync.sync_family(&mut store, PoolType::UniswapV3, 100, Vec::new(), vec![pool(7, 7)]);
    sync.sync_family(&mut store, PoolType::UniswapV2, 200, Vec::new(), vec![pool(2, 20), pool(3, 3)]);
    let cached = store.load(PoolType::UniswapV2, Chain::Ethereum).into_pools();
    assert_eq!(cached, vec![pool(1, 1), pool(2, 20), pool(3, 3)]);
    let collected = sync.collect_pools(store);
    assert_eq!(collected, vec![pool(1, 1), pool(2, 20), pool(3, 3), pool(7, 7)]);
    assert_eq!(collected.iter().filter(|p| p.address() == addr(2)).count(), 1);
}
