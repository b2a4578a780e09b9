//! Synchronisation engine for on-chain liquidity pools.
//!
//! The engine finds the pools of several protocol families from the logs of
//! their factories, populates them in batches, keeps them up to date from
//! the events that change them, and remembers per chain and family how far
//! it has come. This crate holds every decision of that work as functions
//! on plain values: the caller talks to the node and to the disk, and hands
//! in what came back.
//!
//! - [`rpc`]: block windows, address batches, request pacing, joining of
//!   answers.
//! - [`retry`]: bounded retry with exponential backoff, as a step function.
//! - [`ordering`]: the block order in which logs are applied.
//! - [`update`], [`liquidity`], [`index`]: what an event does to a pool, and
//!   how logs find their pools.
//! - [`cache`], [`pool_sync`]: the caches, the cycle of one family, and the
//!   configuration.

pub mod cache;
pub mod events;
pub mod index;
pub mod liquidity;
pub mod ordering;
pub mod pool_sync;
pub mod pools;
pub mod primitives;
pub mod retry;
pub mod rpc;
pub mod update;

pub use cache::{PoolCache, SyncCache};
pub use events::{EventConfig, EventKind, PoolEvent, PoolLog};
pub use index::AddressIndex;
pub use pool_sync::{PoolSync, PoolSyncBuilder, PoolSyncError, SyncStage};
pub use pools::{BalancerPool, Pool, PoolGroup, PoolType, TickInfo, V2Pool, V3Pool};
pub use primitives::{Address, Chain, U160};
pub use retry::{ExhaustionPolicy, RetryState, RetryStep};
pub use rpc::{LogRequest, Rpc};
