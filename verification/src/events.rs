//! The events that change a pool's state, and how each group watches them.

use crate::pools::PoolGroup;
use crate::primitives::{Address, U160};
use vstd::prelude::*;

verus! {

/// An event signature that the engine watches.
#[derive(Clone, Copy, Debug, PartialEq, Eq, Structural, Hash)]
pub enum EventKind {
    /// Liquidity was removed from a tick range.
    Burn,
    /// Liquidity was added to a tick range.
    Mint,
    /// A trade in a concentrated-liquidity pool.
    Swap,
    /// A trade in a concentrated-liquidity pool, in the layout that
    /// PancakeSwap emits.
    PancakeSwap,
    /// A trade in a weighted pool.
    BalancerSwap,
    /// The reserves of a constant-product pool were set.
    Sync,
    /// The reserves of a constant-product pool were set, in the layout that
    /// Aerodrome emits.
    AerodromeSync,
}

/// One set of events that is fetched together.
#[derive(Debug, PartialEq, Eq)]
pub struct EventConfig {
    /// The signatures to watch.
    pub events: Vec<EventKind>,
    /// How many blocks one log query covers at most.
    pub step_size: u64,
    /// A label for progress display.
    pub description: &'static str,
    /// Whether the events are fetched only once the scan has passed the
    /// initial-sync block.
    pub requires_initial_sync: bool,
}

/// What an `EventConfig` holds.
pub struct EventConfigView {
    pub events: Seq<EventKind>,
    pub step_size: u64,
    pub description: Seq<char>,
    pub requires_initial_sync: bool,
}

impl View for EventConfig {
    type V = EventConfigView;

    open spec fn view(&self) -> EventConfigView {
        EventConfigView {
            events: self.events@,
            step_size: self.step_size,
            description: self.description@,
            requires_initial_sync: self.requires_initial_sync,
        }
    }
}

/// What each configuration of a sequence holds, position by position.
pub open spec fn config_views(configs: Seq<EventConfig>) -> Seq<EventConfigView> {
    configs.map_values(|c: EventConfig| c@)
}

/// The event sets of each group, in the order in which they are fetched.
pub open spec fn event_configs(group: PoolGroup) -> Seq<EventConfigView> {
    match group {
        PoolGroup::V3Like => seq![
            EventConfigView {
                events: seq![EventKind::Burn, EventKind::Mint],
                step_size: 1500,
                description: "Tick sync"@,
                requires_initial_sync: false,
            },
            EventConfigView {
                events: seq![EventKind::PancakeSwap, EventKind::Swap],
                step_size: 500,
                description: "Swap sync"@,
                requires_initial_sync: true,
            },
        ],
        PoolGroup::BalancerLike => seq![
            EventConfigView {
                events: seq![EventKind::BalancerSwap],
                step_size: 5000,
                description: "Swap Sync"@,
                requires_initial_sync: true,
            },
        ],
        PoolGroup::V2Like => seq![
            EventConfigView {
                events: seq![EventKind::AerodromeSync, EventKind::Sync],
                step_size: 500,
                description: "Reserve Sync"@,
                requires_initial_sync: true,
            },
        ],
    }
}

/// Every group watches at least one set of events, and every set names at
/// least one event and has a step of at least one block.
pub proof fn law_event_configs(group: PoolGroup)
    ensures
        event_configs(group).len() >= 1,
        forall|i: int|
            0 <= i < event_configs(group).len() ==> (#[trigger] event_configs(group)[i]).step_size > 0
                && event_configs(group)[i].events.len() >= 1,
{
}

impl Clone for EventConfig {
    fn clone(&self) -> (copy: EventConfig)
        ensures
            copy@ == self@,
    {
        EventConfig {
            events: self.events.clone(),
            step_size: self.step_size,
            description: self.description,
            requires_initial_sync: self.requires_initial_sync,
        }
    }
}

/// What a decoded log says happened to a pool.
#[derive(Clone, Copy, Debug, PartialEq, Eq, Structural)]
pub enum PoolEvent {
    /// The two reserves of a constant-product pool after a change.
    Sync { reserve0: u128, reserve1: u128 },
    /// `amount` of liquidity was added between two ticks.
    Mint { tick_lower: i32, tick_upper: i32, amount: u128 },
    /// `amount` of liquidity was removed between two ticks.
    Burn { tick_lower: i32, tick_upper: i32, amount: u128 },
    /// Price, liquidity in range and active tick after a trade.
    Swap { sqrt_price: U160, liquidity: u128, tick: i32 },
    /// A trade that moved `amount_in` of one token into a weighted pool and
    /// `amount_out` of another out of it.
    BalancerSwap { token_in: Address, token_out: Address, amount_in: u128, amount_out: u128 },
}

/// A decoded log: where it was emitted, in which block, and what it says.
#[derive(Clone, Copy, Debug, PartialEq, Eq, Structural)]
pub struct PoolLog {
    /// The block that holds the log; `None` while it is pending.
    pub block_number: Option<u64>,
    /// The pool that the log is about.
    pub address: Address,
    pub event: PoolEvent,
}

} // verus!
