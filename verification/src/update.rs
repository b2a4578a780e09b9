//! How one decoded event changes the pool that it is about.

use crate::events::PoolEvent;
use crate::pools::{BalancerPool, BalancerPoolView, Pool, PoolView, TickInfo, V2Pool, V3Pool, V3PoolView};
use crate::primitives::Address;
use std::collections::HashMap;
use vstd::prelude::*;

verus! {

/// The first position at which `tokens` holds `token`.
pub open spec fn token_index(tokens: Seq<Address>, token: Address) -> Option<int>
    decreases tokens.len(),
{
    if tokens.len() == 0 {
        None
    } else {
        match token_index(tokens.drop_last(), token) {
            Some(i) => Some(i),
            None => if tokens.last() == token {
                Some(tokens.len() - 1)
            } else {
                None
            },
        }
    }
}

/// The liquidity referenced at a tick; nothing where the tick is not
/// initialised.
pub open spec fn tick_or_empty(ticks: Map<i32, TickInfo>, tick: i32) -> TickInfo {
    if ticks.contains_key(tick) {
        ticks[tick]
    } else {
        TickInfo { liquidity_gross: 0, liquidity_net: 0 }
    }
}

/// The ticks with the liquidity at `tick` set; a tick that no position
/// references any more is dropped.
pub open spec fn put_tick(ticks: Map<i32, TickInfo>, tick: i32, gross: int, net: int) -> Map<i32, TickInfo> {
    if gross == 0 {
        ticks.remove(tick)
    } else {
        ticks.insert(tick, TickInfo { liquidity_gross: gross as u128, liquidity_net: net as i128 })
    }
}

/// Whether a change of `delta` liquidity between two ticks can be made: the
/// range is not empty and every quantity that changes stays within its
/// type.
pub open spec fn position_applies(pool: V3PoolView, tick_lower: i32, tick_upper: i32, delta: int) -> bool {
    let lower = tick_or_empty(pool.ticks, tick_lower);
    let upper = tick_or_empty(pool.ticks, tick_upper);
    &&& tick_lower < tick_upper
    &&& 0 <= lower.liquidity_gross + delta <= u128::MAX
    &&& 0 <= upper.liquidity_gross + delta <= u128::MAX
    &&& i128::MIN <= lower.liquidity_net + delta <= i128::MAX
    &&& i128::MIN <= upper.liquidity_net - delta <= i128::MAX
    &&& (tick_lower <= pool.tick < tick_upper ==> 0 <= pool.liquidity + delta <= u128::MAX)
}

/// The pool after `delta` liquidity was added between two ticks (removed,
/// where `delta` is negative): both ticks reference it, it becomes active
/// above the lower tick and inactive above the upper one, and it counts
/// towards the liquidity in range where the active tick lies between them.
/// A change that cannot be made leaves the pool as it is.
pub open spec fn apply_position(pool: V3PoolView, tick_lower: i32, tick_upper: i32, delta: int) -> V3PoolView {
    if !position_applies(pool, tick_lower, tick_upper, delta) {
        pool
    } else {
        let lower = tick_or_empty(pool.ticks, tick_lower);
        let upper = tick_or_empty(pool.ticks, tick_upper);
        V3PoolView {
            liquidity: if tick_lower <= pool.tick < tick_upper {
                (pool.liquidity + delta) as u128
            } else {
                pool.liquidity
            },
            ticks: put_tick(
                put_tick(pool.ticks, tick_lower, lower.liquidity_gross + delta, lower.liquidity_net + delta),
                tick_upper,
                upper.liquidity_gross + delta,
                upper.liquidity_net - delta,
            ),
            ..pool
        }
    }
}

/// Whether a trade can be booked: the pool holds both tokens, they differ,
/// each has a balance, and neither balance leaves its type.
pub open spec fn swap_applies(
    pool: BalancerPoolView,
    token_in: Address,
    token_out: Address,
    amount_in: u128,
    amount_out: u128,
) -> bool {
    match (token_index(pool.tokens, token_in), token_index(pool.tokens, token_out)) {
        (Some(i), Some(o)) => {
            &&& i != o
            &&& i < pool.balances.len()
            &&& o < pool.balances.len()
            &&& pool.balances[i] + amount_in <= u128::MAX
            &&& pool.balances[o] >= amount_out
        },
        _ => false,
    }
}

/// The pool after a trade: the balance of the token that came in grows by
/// `amount_in`, that of the token that went out shrinks by `amount_out`. A
/// trade that cannot be booked leaves the pool as it is.
pub open spec fn apply_swap(
    pool: BalancerPoolView,
    token_in: Address,
    token_out: Address,
    amount_in: u128,
    amount_out: u128,
) -> BalancerPoolView {
    if !swap_applies(pool, token_in, token_out, amount_in, amount_out) {
        pool
    } else {
        let i = token_index(pool.tokens, token_in)->Some_0;
        let o = token_index(pool.tokens, token_out)->Some_0;
        BalancerPoolView {
            balances: pool.balances.update(i, (pool.balances[i] + amount_in) as u128).update(
                o,
                (pool.balances[o] - amount_out) as u128,
            ),
            ..pool
        }
    }
}

/// The pool after an event. An event that is not of the pool's group leaves
/// the pool as it is.
pub open spec fn apply_event(pool: PoolView, event: PoolEvent) -> PoolView {
    match (pool, event) {
        (PoolView::V2(p), PoolEvent::Sync { reserve0, reserve1 }) => PoolView::V2(V2Pool { reserve0, reserve1, ..p }),
        (PoolView::V3(p), PoolEvent::Mint { tick_lower, tick_upper, amount }) => PoolView::V3(
            apply_position(p, tick_lower, tick_upper, amount as int),
        ),
        (PoolView::V3(p), PoolEvent::Burn { tick_lower, tick_upper, amount }) => PoolView::V3(
            apply_position(p, tick_lower, tick_upper, -(amount as int)),
        ),
        (PoolView::V3(p), PoolEvent::Swap { sqrt_price, liquidity, tick }) => PoolView::V3(
            V3PoolView { sqrt_price, liquidity, tick, ..p },
        ),
        (PoolView::Balancer(p), PoolEvent::BalancerSwap { token_in, token_out, amount_in, amount_out }) => PoolView::Balancer(
            apply_swap(p, token_in, token_out, amount_in, amount_out),
        ),
        _ => pool,
    }
}

/// An event changes neither the address of a pool nor its group.
pub proof fn law_event_keeps_identity(pool: PoolView, event: PoolEvent)
    ensures
        apply_event(pool, event).address() == pool.address(),
        apply_event(pool, event).group() == pool.group(),
{
}

/// A position that was found in a prefix of the tokens is the position in
/// all of them.
proof fn lemma_token_index_extends(tokens: Seq<Address>, token: Address, upto: int, i: int)
    requires
        0 <= upto <= tokens.len(),
        token_index(tokens.take(upto), token) == Some(i),
    ensures
        token_index(tokens, token) == Some(i),
    decreases tokens.len() - upto,
{
    if upto < tokens.len() {
        assert(tokens.take(upto + 1).drop_last() =~= tokens.take(upto));
        lemma_token_index_extends(tokens, token, upto + 1, i);
    } else {
        assert(tokens.take(upto) =~= tokens);
    }
}

/// The first position at which `tokens` holds `token`.
fn find_token(tokens: &Vec<Address>, token: Address) -> (found: Option<usize>)
    ensures
        match found {
            Some(i) => token_index(tokens@, token) == Some(i as int),
            None => token_index(tokens@, token) is None,
        },
{
    let mut i: usize = 0;
    proof {
        assert(tokens@.take(0) =~= Seq::empty());
    }
    while i < tokens.len()
        invariant
            i <= tokens.len(),
            token_index(tokens@.take(i as int), token) is None,
        decreases tokens.len() - i,
    {
        proof {
            assert(tokens@.take(i + 1).drop_last() =~= tokens@.take(i as int));
        }
        if tokens[i] == token {
            proof {
                lemma_token_index_extends(tokens@, token, i + 1, i as int);
            }
            return Some(i);
        }
        i = i + 1;
    }
    proof {
        assert(tokens@.take(i as int) =~= tokens@);
    }
    None
}

/// The liquidity referenced at a tick.
fn tick_info(ticks: &HashMap<i32, TickInfo>, tick: i32) -> (info: TickInfo)
    ensures
        info == tick_or_empty(ticks@, tick),
{
    broadcast use vstd::std_specs::hash::group_hash_axioms;

    match ticks.get(&tick) {
        Some(info) => *info,
        None => TickInfo { liquidity_gross: 0, liquidity_net: 0 },
    }
}

/// Sets the liquidity referenced at a tick.
fn set_tick(ticks: &mut HashMap<i32, TickInfo>, tick: i32, gross: u128, net: i128)
    ensures
        final(ticks)@ == put_tick(old(ticks)@, tick, gross as int, net as int),
{
    broadcast use vstd::std_specs::hash::group_hash_axioms;

    if gross == 0 {
        ticks.remove(&tick);
    } else {
        ticks.insert(tick, TickInfo { liquidity_gross: gross, liquidity_net: net });
    }
}

impl V3Pool {
    /// Adds `amount` of liquidity between two ticks, or removes it where
    /// `add` is false.
    pub fn change_position(&mut self, tick_lower: i32, tick_upper: i32, amount: u128, add: bool)
        ensures
            final(self)@ == apply_position(
                old(self)@,
                tick_lower,
                tick_upper,
                if add {
                    amount as int
                } else {
                    -(amount as int)
                },
            ),
    {
        if tick_lower >= tick_upper {
            return;
        }
        let lower = tick_info(&self.ticks, tick_lower);
        let upper = tick_info(&self.ticks, tick_upper);
        let in_range: bool = tick_lower <= self.tick && self.tick < tick_upper;
        let changed = if add {
            (
                lower.liquidity_gross.checked_add(amount),
                upper.liquidity_gross.checked_add(amount),
                lower.liquidity_net.checked_add_unsigned(amount),
                upper.liquidity_net.checked_sub_unsigned(amount),
                if in_range {
                    self.liquidity.checked_add(amount)
                } else {
                    Some(self.liquidity)
                },
            )
        } else {
            (
                lower.liquidity_gross.checked_sub(amount),
                upper.liquidity_gross.checked_sub(amount),
                lower.liquidity_net.checked_sub_unsigned(amount),
                upper.liquidity_net.checked_add_unsigned(amount),
                if in_range {
                    self.liquidity.checked_sub(amount)
                } else {
                    Some(self.liquidity)
                },
            )
        };
        match changed {
            (Some(lower_gross), Some(upper_gross), Some(lower_net), Some(upper_net), Some(liquidity)) => {
                set_tick(&mut self.ticks, tick_lower, lower_gross, lower_net);
                set_tick(&mut self.ticks, tick_upper, upper_gross, upper_net);
                self.liquidity = liquidity;
            },
            _ => {},
        }
    }
}

impl BalancerPool {
    /// Books a trade of `amount_in` of one token for `amount_out` of
    /// another.
    pub fn swap(&mut self, token_in: Address, token_out: Address, amount_in: u128, amount_out: u128)
        ensures
            final(self)@ == apply_swap(old(self)@, token_in, token_out, amount_in, amount_out),
    {
        match (find_token(&self.tokens, token_in), find_token(&self.tokens, token_out)) {
            (Some(i), Some(o)) => {
                if i != o && i < self.balances.len() && o < self.balances.len() {
                    match (self.balances[i].checked_add(amount_in), self.balances[o].checked_sub(amount_out)) {
                        (Some(grown), Some(shrunk)) => {
                            self.balances[i] = grown;
                            self.balances[o] = shrunk;
                        },
                        _ => {},
                    }
                }
            },
            _ => {},
        }
    }
}

impl Pool {
    /// Applies one event to the pool.
    pub fn apply(&mut self, event: &PoolEvent)
        ensures
            final(self)@ == apply_event(old(self)@, *event),
    {
        match self {
            Pool::V2(pool) => match event {
                PoolEvent::Sync { reserve0, reserve1 } => {
                    pool.reserve0 = *reserve0;
                    pool.reserve1 = *reserve1;
                },
                _ => {},
            },
            Pool::V3(pool) => match event {
                PoolEvent::Mint { tick_lower, tick_upper, amount } => {
                    pool.change_position(*tick_lower, *tick_upper, *amount, true);
                },
                PoolEvent::Burn { tick_lower, tick_upper, amount } => {
                    pool.change_position(*tick_lower, *tick_upper, *amount, false);
                },
                PoolEvent::Swap { sqrt_price, liquidity, tick } => {
                    pool.sqrt_price = *sqrt_price;
                    pool.liquidity = *liquidity;
                    pool.tick = *tick;
                },
                _ => {},
            },
            Pool::Balancer(pool) => match event {
                PoolEvent::BalancerSwap { token_in, token_out, amount_in, amount_out } => {
                    pool.swap(*token_in, *token_out, *amount_in, *amount_out);
                },
                _ => {},
            },
        }
    }
}

} // verus!
