//! Protocol families and the pool records kept for each of them.

use crate::primitives::{Address, U160};
use std::collections::HashMap;
use vstd::prelude::*;

verus! {

/// The behaviour that a protocol family shares with others of its kind.
#[derive(Clone, Copy, Debug, PartialEq, Eq, Structural, Hash)]
pub enum PoolGroup {
    /// Constant-product pools with two reserves.
    V2Like,
    /// Concentrated-liquidity pools with tick-indexed liquidity.
    V3Like,
    /// Weighted pools with one balance per token.
    BalancerLike,
}

/// A protocol family.
#[derive(Clone, Copy, Debug, PartialEq, Eq, Structural, Hash)]
pub enum PoolType {
    UniswapV2,
    SushiSwapV2,
    PancakeSwapV2,
    Aerodrome,
    UniswapV3,
    SushiSwapV3,
    PancakeSwapV3,
    Slipstream,
    BalancerV2,
}

impl PoolType {
    /// The group that decides how pools of this family are populated and
    /// updated.
    pub open spec fn group_spec(self) -> PoolGroup {
        match self {
            PoolType::UniswapV2 | PoolType::SushiSwapV2 | PoolType::PancakeSwapV2 | PoolType::Aerodrome => PoolGroup::V2Like,
            PoolType::UniswapV3 | PoolType::SushiSwapV3 | PoolType::PancakeSwapV3 | PoolType::Slipstream => PoolGroup::V3Like,
            PoolType::BalancerV2 => PoolGroup::BalancerLike,
        }
    }

    pub fn group(&self) -> (g: PoolGroup)
        ensures
            g == self.group_spec(),
    {
        match self {
            PoolType::UniswapV2 | PoolType::SushiSwapV2 | PoolType::PancakeSwapV2 | PoolType::Aerodrome => PoolGroup::V2Like,
            PoolType::UniswapV3 | PoolType::SushiSwapV3 | PoolType::PancakeSwapV3 | PoolType::Slipstream => PoolGroup::V3Like,
            PoolType::BalancerV2 => PoolGroup::BalancerLike,
        }
    }

    pub fn is_v2(&self) -> (b: bool)
        ensures
            b == (self.group_spec() == PoolGroup::V2Like),
    {
        self.group() == PoolGroup::V2Like
    }

    pub fn is_v3(&self) -> (b: bool)
        ensures
            b == (self.group_spec() == PoolGroup::V3Like),
    {
        self.group() == PoolGroup::V3Like
    }

    pub fn is_balancer(&self) -> (b: bool)
        ensures
            b == (self.group_spec() == PoolGroup::BalancerLike),
    {
        self.group() == PoolGroup::BalancerLike
    }
}

/// A constant-product pool: two tokens and the reserve held of each.
#[derive(Clone, Copy, Debug, PartialEq, Eq, Structural)]
pub struct V2Pool {
    pub address: Address,
    pub token0: Address,
    pub token1: Address,
    pub reserve0: u128,
    pub reserve1: u128,
}

/// The liquidity that is referenced at one initialised tick.
#[derive(Clone, Copy, Debug, PartialEq, Eq, Structural)]
pub struct TickInfo {
    /// Total liquidity of the positions that begin or end at the tick.
    pub liquidity_gross: u128,
    /// Liquidity that becomes active when the price crosses the tick upwards.
    pub liquidity_net: i128,
}

/// A concentrated-liquidity pool: the active price and tick, the liquidity
/// in range, and the liquidity referenced at each initialised tick.
#[derive(Debug, PartialEq, Eq)]
pub struct V3Pool {
    pub address: Address,
    pub token0: Address,
    pub token1: Address,
    pub liquidity: u128,
    pub sqrt_price: U160,
    pub tick: i32,
    pub ticks: HashMap<i32, TickInfo>,
}

/// A weighted pool: its tokens and, position by position, the balance held
/// of each.
#[derive(Debug, PartialEq, Eq)]
pub struct BalancerPool {
    pub address: Address,
    pub tokens: Vec<Address>,
    pub balances: Vec<u128>,
}

/// A pool of one of the three groups.
#[derive(Debug, PartialEq, Eq)]
pub enum Pool {
    V2(V2Pool),
    V3(V3Pool),
    Balancer(BalancerPool),
}

/// What a `V3Pool` holds.
pub struct V3PoolView {
    pub address: Address,
    pub token0: Address,
    pub token1: Address,
    pub liquidity: u128,
    pub sqrt_price: U160,
    pub tick: i32,
    pub ticks: Map<i32, TickInfo>,
}

/// What a `BalancerPool` holds.
pub struct BalancerPoolView {
    pub address: Address,
    pub tokens: Seq<Address>,
    pub balances: Seq<u128>,
}

/// What a `Pool` holds.
pub enum PoolView {
    V2(V2Pool),
    V3(V3PoolView),
    Balancer(BalancerPoolView),
}

impl View for V3Pool {
    type V = V3PoolView;

    open spec fn view(&self) -> V3PoolView {
        V3PoolView {
            address: self.address,
            token0: self.token0,
            token1: self.token1,
            liquidity: self.liquidity,
            sqrt_price: self.sqrt_price,
            tick: self.tick,
            ticks: self.ticks@,
        }
    }
}

impl View for BalancerPool {
    type V = BalancerPoolView;

    open spec fn view(&self) -> BalancerPoolView {
        BalancerPoolView { address: self.address, tokens: self.tokens@, balances: self.balances@ }
    }
}

impl View for Pool {
    type V = PoolView;

    open spec fn view(&self) -> PoolView {
        match self {
            Pool::V2(p) => PoolView::V2(*p),
            Pool::V3(p) => PoolView::V3(p@),
            Pool::Balancer(p) => PoolView::Balancer(p@),
        }
    }
}

impl PoolView {
    /// The address that identifies the pool.
    pub open spec fn address(self) -> Address {
        match self {
            PoolView::V2(p) => p.address,
            PoolView::V3(p) => p.address,
            PoolView::Balancer(p) => p.address,
        }
    }

    pub open spec fn group(self) -> PoolGroup {
        match self {
            PoolView::V2(_) => PoolGroup::V2Like,
            PoolView::V3(_) => PoolGroup::V3Like,
            PoolView::Balancer(_) => PoolGroup::BalancerLike,
        }
    }
}

/// What each pool of a sequence holds, position by position.
pub open spec fn pool_views(pools: Seq<Pool>) -> Seq<PoolView> {
    pools.map_values(|p: Pool| p@)
}

impl Clone for V3Pool {
    fn clone(&self) -> (copy: V3Pool)
        ensures
            copy@ == self@,
    {
        V3Pool {
            address: self.address,
            token0: self.token0,
            token1: self.token1,
            liquidity: self.liquidity,
            sqrt_price: self.sqrt_price,
            tick: self.tick,
            ticks: self.ticks.clone(),
        }
    }
}

impl Clone for BalancerPool {
    fn clone(&self) -> (copy: BalancerPool)
        ensures
            copy@ == self@,
    {
        BalancerPool { address: self.address, tokens: self.tokens.clone(), balances: self.balances.clone() }
    }
}

impl Clone for Pool {
    fn clone(&self) -> (copy: Pool)
        ensures
            copy@ == self@,
    {
        match self {
            Pool::V2(p) => Pool::V2(*p),
            Pool::V3(p) => Pool::V3(p.clone()),
            Pool::Balancer(p) => Pool::Balancer(p.clone()),
        }
    }
}

impl Pool {
    /// The address that identifies the pool.
    pub fn address(&self) -> (a: Address)
        ensures
            a == self@.address(),
    {
        match self {
            Pool::V2(p) => p.address,
            Pool::V3(p) => p.address,
            Pool::Balancer(p) => p.address,
        }
    }

    /// The group whose update routine handles the pool.
    pub fn group(&self) -> (g: PoolGroup)
        ensures
            g == self@.group(),
    {
        match self {
            Pool::V2(_) => PoolGroup::V2Like,
            Pool::V3(_) => PoolGroup::V3Like,
            Pool::Balancer(_) => PoolGroup::BalancerLike,
        }
    }
}

} // verus!
