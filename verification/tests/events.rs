use pool_sync::{EventConfig, EventKind, LogRequest, PoolGroup, PoolType, Rpc};

fn tick_sync() -> EventConfig {
    EventConfig {
        events: vec![EventKind::Burn, EventKind::Mint],
        step_size: 1500,
        description: "Tick sync",
        requires_initial_sync: false,
    }
}

fn swap_sync() -> EventConfig {
    EventConfig {
        events: vec![EventKind::PancakeSwap, EventKind::Swap],
        step_size: 500,
        description: "Swap sync",
        requires_initial_sync: true,
    }
}

fn reserve_sync() -> EventConfig {
    EventConfig {
        events: vec![EventKind::AerodromeSync, EventKind::Sync],
        step_size: 500,
        description: "Reserve Sync",
        requires_initial_sync: true,
    }
}

fn balancer_sync() -> EventConfig {
    EventConfig {
        events: vec![EventKind::BalancerSwap],
        step_size: 5000,
        description: "Swap Sync",
        requires_initial_sync: true,
    }
}

#[test]
fn every_family_belongs_to_one_group() {
    for pool_type in [PoolType::UniswapV2, PoolType::SushiSwapV2, PoolType::PancakeSwapV2, PoolType::Aerodrome] {
        assert_eq!(pool_type.group(), PoolGroup::V2Like);
        assert!(pool_type.is_v2() && !pool_type.is_v3() && !pool_type.is_balancer());
    }
    for pool_type in [PoolType::UniswapV3, PoolType::SushiSwapV3, PoolType::PancakeSwapV3, PoolType::Slipstream] {
        assert_eq!(pool_type.group(), PoolGroup::V3Like);
        assert!(!pool_type.is_v2() && pool_type.is_v3() && !pool_type.is_balancer());
    }
    assert_eq!(PoolType::BalancerV2.group(), PoolGroup::BalancerLike);
    assert!(PoolType::BalancerV2.is_balancer() && !PoolType::BalancerV2.is_v2() && !PoolType::BalancerV2.is_v3());
}

#[test]
fn event_sets_of_each_group() {
    assert_eq!(Rpc::get_event_config(PoolType::UniswapV3), vec![tick_sync(), swap_sync()]);
    assert_eq!(Rpc::get_event_config(PoolType::PancakeSwapV3), vec![tick_sync(), swap_sync()]);
    assert_eq!(Rpc::get_event_config(PoolType::BalancerV2), vec![balancer_sync()]);
    assert_eq!(Rpc::get_event_config(PoolType::UniswapV2), vec![reserve_sync()]);
    assert_eq!(Rpc::get_event_config(PoolType::Aerodrome), vec![reserve_sync()]);
}

#[test]
fn nothing_is_fetched_without_pools_or_blocks() {
    assert!(Rpc::liquidity_requests(20_000_000, 20_000_100, 0, PoolType::UniswapV3).is_empty());
    assert!(Rpc::liquidity_requests(20_000_100, 20_000_100, 3, PoolType::UniswapV3).is_empty());
    assert!(Rpc::liquidity_requests(20_000_100, 20_000_000, 3, PoolType::UniswapV3).is_empty());
}

#[test]
fn trade_events_wait_for_the_initial_sync() {
    let requests = Rpc::liquidity_requests(10_000_000, 10_002_000, 1, PoolType::UniswapV3);
    assert_eq!(
        requests,
        vec![LogRequest { config: tick_sync(), ranges: vec![(10_000_000, 10_001_499), (10_001_500, 10_002_000)] }]
    );
    assert!(Rpc::liquidity_requests(10_000_000, 10_002_000, 1, PoolType::UniswapV2).is_empty());
    assert!(Rpc::liquidity_requests(0, 100, 5, PoolType::BalancerV2).is_empty());
}

#[test]
fn every_event_set_is_fetched_past_the_initial_sync() {
    let requests = Rpc::liquidity_requests(10_000_001, 10_001_001, 1, PoolType::UniswapV3);
    assert_eq!(
        requests,
        vec![
            LogRequest { config: tick_sync(), ranges: vec![(10_000_001, 10_001_001)] },
            LogRequest {
                config: swap_sync(),
                ranges: vec![(10_000_001, 10_000_500), (10_000_501, 10_001_000), (10_001_001, 10_001_001)],
            },
        ]
    );
    let requests = Rpc::liquidity_requests(10_000_001, 10_000_101, 2, PoolType::Aerodrome);
    assert_eq!(requests, vec![LogRequest { config: reserve_sync(), ranges: vec![(10_000_001, 10_000_101)] }]);
    let requests = Rpc::liquidity_requests(10_000_001, 10_006_000, 2, PoolType::BalancerV2);
    assert_eq!(
        requests,
        vec![LogRequest { config: balancer_sync(), ranges: vec![(10_000_001, 10_005_000), (10_005_001, 10_006_000)] }]
    );
}

#[test]
fn config_copy_holds_the_same() {
    let config = swap_sync();
    assert_eq!(config.clone(), config);
}
