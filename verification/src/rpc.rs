//! The computing side of log retrieval and pool population: which block
//! windows and address batches to ask for, and how the answers are joined.

use crate::events::{config_views, event_configs, law_event_configs, EventConfig, EventConfigView, EventKind};
use crate::pools::{PoolGroup, PoolType};
use crate::primitives::Address;
use crate::retry::{step_follows, ExhaustionPolicy, RetryState, RetryStep, MAX_JITTER};
use vstd::prelude::*;

verus! {

/// Number of windows of at most `step` blocks needed for the closed range
/// `[start, end]`; zero when the range holds no block after `start`.
pub open spec fn window_count(step: int, start: int, end: int) -> int {
    if end <= start {
        0
    } else {
        (end - start) / step + 1
    }
}

/// The `k`-th window of the range `[start, end]`: it begins `k` steps after
/// `start` and spans `step` blocks, cut off at `end`.
pub open spec fn window_at(step: int, start: int, end: int, k: int) -> (int, int) {
    let from = start + k * step;
    (from, if from + step - 1 < end { from + step - 1 } else { end })
}

/// The windows of `[start, end]`, in ascending order.
pub open spec fn block_windows(step: u64, start: u64, end: u64) -> Seq<(u64, u64)> {
    Seq::new(
        window_count(step as int, start as int, end as int) as nat,
        |k: int| {
            let w = window_at(step as int, start as int, end as int, k);
            (w.0 as u64, w.1 as u64)
        },
    )
}

/// How many blocks one query for pool-creation logs covers at most.
pub const ADDRESS_STEP: u64 = 10000;

/// The block that the scan must have passed before events that are marked
/// `requires_initial_sync` are fetched.
pub const INITIAL_SYNC_BLOCK: u64 = 10_000_000;

/// How many addresses one population call of a weighted-pool family takes.
pub const BALANCER_BATCH: usize = 10;

/// How many addresses one population call of any other family takes.
pub const DEFAULT_BATCH: usize = 20;

/// The nanoseconds in one second.
pub const NANOS_PER_SECOND: u64 = 1_000_000_000;

/// The pause between the starts of two requests under a limit of
/// `rate_limit` requests per second, in nanoseconds: one second divided by
/// the limit, rounded up.
pub open spec fn request_interval(rate_limit: int) -> int {
    (NANOS_PER_SECOND + rate_limit - 1) / rate_limit
}

/// The batch size of a group.
pub open spec fn batch_size_of(group: PoolGroup) -> usize {
    if group == PoolGroup::BalancerLike {
        BALANCER_BATCH
    } else {
        DEFAULT_BATCH
    }
}

/// How many batches of at most `size` items hold `len` items.
pub open spec fn batch_count(len: int, size: int) -> int {
    (len + size - 1) / size
}

/// The `k`-th batch: the items from position `k * size` on, `size` of them
/// or as many as are left.
pub open spec fn batch_at(addresses: Seq<Address>, size: int, k: int) -> Seq<Address> {
    let from = k * size;
    let to = if from + size < addresses.len() { from + size } else { addresses.len() as int };
    addresses.subrange(from, to)
}

/// The items of all parts, one part after the other.
pub open spec fn concat<T>(parts: Seq<Vec<T>>) -> Seq<T>
    decreases parts.len(),
{
    if parts.len() == 0 {
        Seq::empty()
    } else {
        concat(parts.drop_last()) + parts.last()@
    }
}

/// The items of all successful results, one result after the other.
pub open spec fn concat_ok<T, E>(results: Seq<Result<Vec<T>, E>>) -> Seq<T>
    decreases results.len(),
{
    if results.len() == 0 {
        Seq::empty()
    } else {
        concat_ok(results.drop_last()) + match results.last() {
            Ok(items) => items@,
            Err(_) => Seq::empty(),
        }
    }
}

/// Whether a set of events is fetched by a scan that starts at
/// `start_block`.
pub open spec fn is_due(config: EventConfigView, start_block: u64) -> bool {
    !config.requires_initial_sync || start_block > INITIAL_SYNC_BLOCK
}

/// One set of events together with the block windows to query for it.
#[derive(Debug, PartialEq, Eq)]
pub struct LogRequest {
    pub config: EventConfig,
    pub ranges: Vec<(u64, u64)>,
}

/// What each request of a sequence holds, position by position.
pub open spec fn request_views(requests: Seq<LogRequest>) -> Seq<(EventConfigView, Seq<(u64, u64)>)> {
    requests.map_values(|r: LogRequest| (r.config@, r.ranges@))
}

/// Of the event sets `configs`, those that are due at `start_block`, in
/// their order, each with the windows of its own step size over
/// `[start_block, end_block]`.
pub open spec fn requests_for(configs: Seq<EventConfigView>, start_block: u64, end_block: u64) -> Seq<
    (EventConfigView, Seq<(u64, u64)>),
>
    decreases configs.len(),
{
    if configs.len() == 0 {
        Seq::empty()
    } else {
        let earlier = requests_for(configs.drop_last(), start_block, end_block);
        let config = configs.last();
        if is_due(config, start_block) {
            earlier.push((config, block_windows(config.step_size, start_block, end_block)))
        } else {
            earlier
        }
    }
}

/// The log queries with which the pools of a group are brought up to date
/// over `[start_block, end_block]`: none where there is no pool or no block
/// after `start_block`, else one request for each event set of the group
/// that is due.
pub open spec fn liquidity_plan(start_block: u64, end_block: u64, pool_count: int, group: PoolGroup) -> Seq<
    (EventConfigView, Seq<(u64, u64)>),
> {
    if pool_count == 0 || end_block <= start_block {
        Seq::empty()
    } else {
        requests_for(event_configs(group), start_block, end_block)
    }
}

/// The functions that plan the queries to a node and join its answers. They
/// neither send nor wait: the caller does both and hands the answers in.
pub struct Rpc;

impl Rpc {
    /// Splits `[start_block, end_block]` into consecutive closed windows of at
    /// most `step_size` blocks each. A range with `end_block <= start_block`
    /// has no window.
    pub fn get_block_range(step_size: u64, start_block: u64, end_block: u64) -> (ranges: Vec<(u64, u64)>)
        requires
            step_size > 0,
        ensures
            ranges@ == block_windows(step_size, start_block, end_block),
    {
        let mut ranges: Vec<(u64, u64)> = Vec::new();
        if end_block <= start_block {
            return ranges;
        }
        let mut from: u64 = start_block;
        proof {
            assert(0 * step_size == 0) by (nonlinear_arith);
            assert((end_block - start_block) / (step_size as int) >= 0) by (nonlinear_arith)
                requires
                    step_size > 0,
                    end_block - start_block > 0,
            ;
        }
        loop
            invariant_except_break
                step_size > 0,
                start_block < end_block,
                start_block <= from <= end_block,
                from == start_block + ranges.len() * step_size,
                forall|k: int|
                    0 <= k < ranges.len() ==> #[trigger] ranges[k] == block_windows(
                        step_size,
                        start_block,
                        end_block,
                    )[k],
                ranges.len() < window_count(step_size as int, start_block as int, end_block as int),
            ensures
                ranges@ == block_windows(step_size, start_block, end_block),
            decreases end_block - from,
        {
            let ghost k = ranges.len() as int;
            let last: bool = end_block - from < step_size;
            let to: u64 = if last { end_block } else { from + (step_size - 1) };
            proof {
                let w = window_at(step_size as int, start_block as int, end_block as int, k);
                assert(w.0 == from);
                assert(w.1 == to);
            }
            ranges.push((from, to));
            if last {
                proof {
                    lemma_last_window(step_size as int, start_block as int, end_block as int, k);
                    assert(ranges@ =~= block_windows(step_size, start_block, end_block));
                }
                break;
            }
            proof {
                lemma_next_window(step_size as int, start_block as int, end_block as int, k);
            }
            from = to + 1;
        }
        ranges
    }

    /// The pause that paces requests under a limit of `rate_limit` requests
    /// per second, in nanoseconds.
    pub fn request_interval_nanos(rate_limit: u64) -> (nanos: u64)
        requires
            rate_limit > 0,
        ensures
            nanos == request_interval(rate_limit as int),
    {
        if rate_limit >= NANOS_PER_SECOND {
            proof {
                lemma_div_is(NANOS_PER_SECOND + rate_limit - 1, rate_limit as int, 1);
            }
            1
        } else {
            (NANOS_PER_SECOND + rate_limit - 1) / rate_limit
        }
    }

    /// What follows an attempt to fetch the logs of one window: an error is
    /// retried while retries are left and then fails the fetch; any success
    /// stands, an empty one too.
    pub fn after_log_attempt<T, E>(state: RetryState, attempt: Result<Vec<T>, E>) -> (step: RetryStep<T, E>)
        ensures
            exists|jitter: u64|
                jitter <= MAX_JITTER && #[trigger] step_follows(
                    state,
                    attempt,
                    ExhaustionPolicy::FailFast,
                    false,
                    jitter,
                    step,
                ),
    {
        state.on_attempt(attempt, ExhaustionPolicy::FailFast, false)
    }

    /// What follows an attempt to populate one batch of pools: an error and
    /// an empty answer are both retried while retries are left; after that
    /// the batch counts as having produced no pool, and the population goes
    /// on.
    pub fn after_batch_attempt<T, E>(state: RetryState, attempt: Result<Vec<T>, E>) -> (step: RetryStep<T, E>)
        ensures
            exists|jitter: u64|
                jitter <= MAX_JITTER && #[trigger] step_follows(
                    state,
                    attempt,
                    ExhaustionPolicy::Lenient,
                    true,
                    jitter,
                    step,
                ),
    {
        state.on_attempt(attempt, ExhaustionPolicy::Lenient, true)
    }

    /// The windows in which the creation logs of a family are fetched over
    /// `[start_block, end_block]`.
    pub fn address_ranges(start_block: u64, end_block: u64) -> (ranges: Vec<(u64, u64)>)
        ensures
            ranges@ == block_windows(ADDRESS_STEP, start_block, end_block),
    {
        Rpc::get_block_range(ADDRESS_STEP, start_block, end_block)
    }

    /// The event sets that a family's incremental update watches.
    pub fn get_event_config(pool_type: PoolType) -> (configs: Vec<EventConfig>)
        ensures
            config_views(configs@) == event_configs(pool_type.group_spec()),
    {
        let configs = match pool_type.group() {
            PoolGroup::V3Like => vec![
                EventConfig {
                    events: vec![EventKind::Burn, EventKind::Mint],
                    step_size: 1500,
                    description: "Tick sync",
                    requires_initial_sync: false,
                },
                EventConfig {
                    events: vec![EventKind::PancakeSwap, EventKind::Swap],
                    step_size: 500,
                    description: "Swap sync",
                    requires_initial_sync: true,
                },
            ],
            PoolGroup::BalancerLike => vec![
                EventConfig {
                    events: vec![EventKind::BalancerSwap],
                    step_size: 5000,
                    description: "Swap Sync",
                    requires_initial_sync: true,
                },
            ],
            PoolGroup::V2Like => vec![
                EventConfig {
                    events: vec![EventKind::AerodromeSync, EventKind::Sync],
                    step_size: 500,
                    description: "Reserve Sync",
                    requires_initial_sync: true,
                },
            ],
        };
        proof {
            let views = config_views(configs@);
            let expected = event_configs(pool_type.group_spec());
            assert(views.len() == expected.len());
            assert forall|i: int| 0 <= i < views.len() implies views[i] == expected[i] by {
                assert(views[i].events =~= expected[i].events);
            }
            assert(views =~= expected);
        }
        configs
    }

    /// How many addresses one population call of a family takes.
    pub fn batch_size(pool: PoolType) -> (size: usize)
        ensures
            size == batch_size_of(pool.group_spec()),
    {
        if pool.is_balancer() {
            BALANCER_BATCH
        } else {
            DEFAULT_BATCH
        }
    }

    /// The joined items of a fan-out in which no task can fail: the items of
    /// every part, in the order of the parts.
    pub fn join_batches<T>(batches: Vec<Vec<T>>) -> (joined: Vec<T>)
        ensures
            joined@ == concat(batches@),
    {
        let mut batches = batches;
        let ghost parts = batches@;
        let mut joined: Vec<T> = Vec::new();
        let mut k: usize = 0;
        while k < batches.len()
            invariant
                k <= batches.len(),
                batches.len() == parts.len(),
                forall|j: int| k <= j < parts.len() ==> batches[j] == parts[j],
                joined@ == concat(parts.take(k as int)),
            decreases batches.len() - k,
        {
            proof {
                assert(parts.take(k + 1).drop_last() =~= parts.take(k as int));
            }
            joined.append(&mut batches[k]);
            k = k + 1;
        }
        proof {
            assert(parts.take(k as int) =~= parts);
        }
        joined
    }

    /// The joined items of a fan-out in which a task can fail. Where every
    /// task has succeeded these are the items of every result, in the order
    /// of the results; else the whole fails with the error of the first
    /// result that has failed.
    pub fn join_windows<T, E>(results: Vec<Result<Vec<T>, E>>) -> (joined: Result<Vec<T>, E>)
        ensures
            match joined {
                Ok(items) => (forall|j: int| 0 <= j < results.len() ==> results[j] is Ok) && items@
                    == concat_ok(results@),
                Err(e) => exists|i: int|
                    0 <= i < results.len() && #[trigger] results[i] == Err::<Vec<T>, E>(e) && forall|j: int|
                        0 <= j < i ==> results[j] is Ok,
            },
    {
        let mut pending = results;
        let ghost given = pending@;
        let mut i: usize = 0;
        while i < pending.len()
            invariant
                i <= pending.len(),
                pending@ == given,
                results@ == given,
                forall|j: int| 0 <= j < i ==> given[j] is Ok,
            decreases pending.len() - i,
        {
            if pending[i].is_err() {
                let failed = pending.swap_remove(i);
                match failed {
                    Err(e) => {
                        assert(results[i as int] == Err::<Vec<T>, E>(e));
                        return Err(e);
                    },
                    Ok(items) => {
                        return Ok(items);
                    },
                }
            }
            i = i + 1;
        }
        let mut joined: Vec<T> = Vec::new();
        let mut k: usize = 0;
        while k < pending.len()
            invariant
                k <= pending.len(),
                pending.len() == given.len(),
                forall|j: int| 0 <= j < given.len() ==> given[j] is Ok,
                forall|j: int| k <= j < given.len() ==> pending[j] == given[j],
                joined@ == concat_ok(given.take(k as int)),
            decreases pending.len() - k,
        {
            proof {
                assert(given.take(k + 1).drop_last() =~= given.take(k as int));
                assert(pending[k as int] == given[k as int]);
                assert(given[k as int] is Ok);
            }
            take_items(&mut pending[k], &mut joined);
            k = k + 1;
        }
        proof {
            assert(given.take(k as int) =~= given);
        }
        Ok(joined)
    }

    /// Splits `addresses` into batches of `size` addresses, the last one
    /// holding what is left.
    pub fn chunk_addresses(addresses: &Vec<Address>, size: usize) -> (batches: Vec<Vec<Address>>)
        requires
            size > 0,
        ensures
            batches.len() == batch_count(addresses.len() as int, size as int),
            forall|k: int| 0 <= k < batches.len() ==> (#[trigger] batches[k])@ == batch_at(addresses@, size as int, k),
    {
        let len = addresses.len();
        let mut batches: Vec<Vec<Address>> = Vec::new();
        let mut from: usize = 0;
        proof {
            assert(0 * size == 0) by (nonlinear_arith);
            lemma_batch_count(0, size as int, 0);
        }
        while from < len
            invariant
                size > 0,
                len == addresses.len(),
                from <= len,
                from == batches.len() * size || (from == len && len < batches.len() * size),
                batches.len() == batch_count(from as int, size as int),
                forall|k: int|
                    0 <= k < batches.len() ==> (#[trigger] batches[k])@ == batch_at(addresses@, size as int, k),
            decreases len - from,
        {
            let ghost n = batches.len() as int;
            let to: usize = if len - from > size { from + size } else { len };
            let mut batch: Vec<Address> = Vec::new();
            let mut i: usize = from;
            while i < to
                invariant
                    from <= i <= to <= len,
                    len == addresses.len(),
                    batch@ == addresses@.subrange(from as int, i as int),
                decreases to - i,
            {
                batch.push(addresses[i]);
                proof {
                    assert(batch@ =~= addresses@.subrange(from as int, i + 1));
                }
                i = i + 1;
            }
            proof {
                assert((n + 1) * size == n * size + size) by (nonlinear_arith);
                lemma_batch_count(to as int, size as int, n + 1);
                assert(batch@ == batch_at(addresses@, size as int, n));
            }
            batches.push(batch);
            from = to;
        }
        batches
    }

    /// Splits the addresses of a family into the batches in which its pools
    /// are populated.
    pub fn batch_addresses(pool_addrs: &Vec<Address>, pool: PoolType) -> (batches: Vec<Vec<Address>>)
        ensures
            batches.len() == batch_count(pool_addrs.len() as int, batch_size_of(pool.group_spec()) as int),
            forall|k: int|
                0 <= k < batches.len() ==> (#[trigger] batches[k])@ == batch_at(
                    pool_addrs@,
                    batch_size_of(pool.group_spec()) as int,
                    k,
                ),
    {
        Rpc::chunk_addresses(pool_addrs, Rpc::batch_size(pool))
    }

    /// The log queries with which `pool_count` pools of a family are brought
    /// up to date over `[start_block, end_block]`.
    pub fn liquidity_requests(start_block: u64, end_block: u64, pool_count: usize, pool_type: PoolType) -> (requests:
        Vec<LogRequest>)
        ensures
            request_views(requests@) == liquidity_plan(
                start_block,
                end_block,
                pool_count as int,
                pool_type.group_spec(),
            ),
    {
        let mut requests: Vec<LogRequest> = Vec::new();
        if pool_count == 0 || end_block <= start_block {
            proof {
                assert(request_views(requests@) =~= Seq::empty());
            }
            return requests;
        }
        let configs = Rpc::get_event_config(pool_type);
        let ghost views = config_views(configs@);
        proof {
            assert(request_views(requests@) =~= Seq::empty());
        }
        let mut i: usize = 0;
        while i < configs.len()
            invariant
                i <= configs.len(),
                views == config_views(configs@),
                views == event_configs(pool_type.group_spec()),
                request_views(requests@) == requests_for(views.take(i as int), start_block, end_block),
            decreases configs.len() - i,
        {
            proof {
                assert(views.take(i + 1).drop_last() =~= views.take(i as int));
                assert(views.take(i + 1).last() == configs[i as int]@);
            }
            if !configs[i].requires_initial_sync || start_block > INITIAL_SYNC_BLOCK {
                let config = configs[i].clone();
                proof {
                    law_event_configs(pool_type.group_spec());
                    assert(views[i as int].step_size > 0);
                }
                let ranges = Rpc::get_block_range(config.step_size, start_block, end_block);
                let ghost before = requests@;
                requests.push(LogRequest { config, ranges });
                proof {
                    assert(request_views(requests@) =~= request_views(before).push(
                        (configs[i as int]@, block_windows(configs[i as int].step_size, start_block, end_block)),
                    ));
                }
            }
            i = i + 1;
        }
        proof {
            assert(views.take(i as int) =~= views);
        }
        requests
    }
}

/// Moves the items of a successful result to the end of `joined`.
fn take_items<T, E>(result: &mut Result<Vec<T>, E>, joined: &mut Vec<T>)
    requires
        *old(result) is Ok,
    ensures
        final(joined)@ == old(joined)@ + old(result)->Ok_0@,
{
    match result {
        Ok(items) => {
            joined.append(items);
        },
        Err(_) => {},
    }
}

/// `n` batches hold `len` items when the last of them is not empty: with
/// `(n - 1) * size < len <= n * size`, or with nothing at all.
proof fn lemma_batch_count(len: int, size: int, n: int)
    requires
        size > 0,
        n >= 0,
        (n == 0 && len == 0) || (n > 0 && n * size - size < len <= n * size),
    ensures
        batch_count(len, size) == n,
{
    assert((len + size - 1) / size == n) by (nonlinear_arith)
        requires
            size > 0,
            n >= 0,
            (n == 0 && len == 0) || (n > 0 && n * size - size < len <= n * size),
    ;
}

/// When the window that begins `k` steps after `start` reaches `end`, it is
/// the last one.
proof fn lemma_last_window(step: int, start: int, end: int, k: int)
    requires
        step > 0,
        start < end,
        k >= 0,
        start + k * step <= end,
        end - (start + k * step) < step,
    ensures
        window_count(step, start, end) == k + 1,
{
    assert((end - start) / step == k) by (nonlinear_arith)
        requires
            step > 0,
            k >= 0,
            k * step <= end - start,
            end - start - k * step < step,
    ;
}

/// When the window that begins `k` steps after `start` stops short of `end`,
/// another window follows it.
proof fn lemma_next_window(step: int, start: int, end: int, k: int)
    requires
        step > 0,
        start < end,
        k >= 0,
        start + k * step <= end,
        end - (start + k * step) >= step,
    ensures
        k + 1 < window_count(step, start, end),
        (k + 1) * step == k * step + step,
{
    assert((k + 1) * step == k * step + step) by (nonlinear_arith);
    assert((end - start) / step >= k + 1) by (nonlinear_arith)
        requires
            step > 0,
            k >= 0,
            (k + 1) * step <= end - start,
    ;
}

/// The window that holds block `block` when windows of `step` blocks begin
/// at `start`.
pub open spec fn window_of(step: int, start: int, block: int) -> int {
    (block - start) / step
}

/// Over a range that holds a block after `start_block`, the windows are in
/// ascending order, none is empty or longer than `step`, the first begins at
/// `start_block`, each begins right after the one before it, the last ends
/// at `end_block`, and every block of the range lies in the window that
/// `window_of` names. So the windows neither overlap nor leave a gap.
pub proof fn law_windows_partition(step: u64, start_block: u64, end_block: u64)
    requires
        step > 0,
        start_block < end_block,
    ensures
        ({
            let w = block_windows(step, start_block, end_block);
            &&& w.len() >= 1
            &&& w[0].0 == start_block
            &&& w[w.len() - 1].1 == end_block
            &&& forall|k: int| 0 <= k < w.len() ==> (#[trigger] w[k]).0 <= w[k].1 && w[k].1 - w[k].0 + 1 <= step
            &&& forall|k: int| 0 <= k < w.len() - 1 ==> (#[trigger] w[k]).1 + 1 == w[k + 1].0
            &&& forall|j: int, k: int| 0 <= j < k < w.len() ==> (#[trigger] w[j]).1 < (#[trigger] w[k]).0
            &&& forall|b: int|
                start_block <= b <= end_block ==> {
                    let k = #[trigger] window_of(step as int, start_block as int, b);
                    0 <= k < w.len() && w[k].0 <= b <= w[k].1
                }
        }),
{
    let w = block_windows(step, start_block, end_block);
    let (s, a, e) = (step as int, start_block as int, end_block as int);
    let last = window_count(s, a, e) - 1;
    lemma_div_bounds(e - a, s);
    assert(last >= 0) by {
        lemma_mul_cancel(-1, last, s);
    }
    assert(0 * s == 0) by (nonlinear_arith);
    assert forall|k: int| 0 <= k < w.len() implies (#[trigger] w[k]).0 == window_at(s, a, e, k).0 && w[k].1
        == window_at(s, a, e, k).1 && a <= window_at(s, a, e, k).0 <= window_at(s, a, e, k).1 <= e && window_at(s, a, e, k).0 == a + k * s && (k < last ==> window_at(
        s,
        a,
        e,
        k,
    ).1 == a + k * s + s - 1) && (k == last ==> window_at(s, a, e, k).1 == e) by {
        lemma_mul_le(k, last, s);
        lemma_mul_le(0, k, s);
        if k < last {
            lemma_mul_le(k + 1, last, s);
            assert((k + 1) * s == k * s + s) by (nonlinear_arith);
        }
    }
    assert forall|k: int| 0 <= k < w.len() - 1 implies (#[trigger] w[k]).1 + 1 == w[k + 1].0 by {
        assert((k + 1) * s == k * s + s) by (nonlinear_arith);
        assert(w[k + 1].0 == window_at(s, a, e, k + 1).0);
    }
    assert forall|j: int, k: int| 0 <= j < k < w.len() implies (#[trigger] w[j]).1 < (#[trigger] w[k]).0 by {
        lemma_mul_le(j + 1, k, s);
        assert((j + 1) * s == j * s + s) by (nonlinear_arith);
    }
    assert forall|b: int| start_block <= b <= end_block implies {
        let k = #[trigger] window_of(s, a, b);
        0 <= k < w.len() && w[k].0 <= b <= w[k].1
    } by {
        let k = window_of(s, a, b);
        lemma_div_bounds(b - a, s);
        lemma_mul_cancel(-1, k, s);
        lemma_mul_cancel(k, last, s);
        assert(w[k].0 == window_at(s, a, e, k).0);
    }
}

/// The batch that holds the address at position `i`.
pub open spec fn batch_of(size: int, i: int) -> int {
    i / size
}

/// The batches hold the addresses in their order, nothing lost or added:
/// none is empty or larger than `size`, all but the last are full, and the
/// address at position `i` is item `i % size` of batch `i / size`.
pub proof fn law_batches_partition(addresses: Seq<Address>, size: int)
    requires
        size > 0,
    ensures
        forall|k: int|
            0 <= k < batch_count(addresses.len() as int, size) ==> 1 <= (#[trigger] batch_at(
                addresses,
                size,
                k,
            )).len() <= size,
        forall|k: int|
            0 <= k < batch_count(addresses.len() as int, size) - 1 ==> (#[trigger] batch_at(
                addresses,
                size,
                k,
            )).len() == size,
        forall|i: int|
            0 <= i < addresses.len() ==> {
                let k = #[trigger] batch_of(size, i);
                0 <= k < batch_count(addresses.len() as int, size) && batch_at(addresses, size, k)[i % size]
                    == addresses[i]
            },
{
    assert forall|k: int| 0 <= k < batch_count(addresses.len() as int, size) implies 1 <= (#[trigger] batch_at(
        addresses,
        size,
        k,
    )).len() <= size && (k < batch_count(addresses.len() as int, size) - 1 ==> batch_at(addresses, size, k).len()
        == size) by {
        lemma_batch_len(addresses, size, k);
    }
    assert forall|i: int| 0 <= i < addresses.len() implies {
        let k = #[trigger] batch_of(size, i);
        0 <= k < batch_count(addresses.len() as int, size) && batch_at(addresses, size, k)[i % size] == addresses[i]
    } by {
        lemma_batch_item(addresses, size, i);
    }
}

/// The size of the `k`-th batch.
proof fn lemma_batch_len(addresses: Seq<Address>, size: int, k: int)
    requires
        size > 0,
        0 <= k < batch_count(addresses.len() as int, size),
    ensures
        1 <= batch_at(addresses, size, k).len() <= size,
        k < batch_count(addresses.len() as int, size) - 1 ==> batch_at(addresses, size, k).len() == size,
{
    let len = addresses.len() as int;
    let count = batch_count(len, size);
    lemma_div_bounds(len + size - 1, size);
    assert((count - 1) * size == count * size - size) by (nonlinear_arith);
    lemma_mul_le(k, count - 1, size);
    lemma_mul_le(0, k, size);
    if k < count - 1 {
        lemma_mul_le(k + 1, count - 1, size);
        assert((k + 1) * size == k * size + size) by (nonlinear_arith);
    }
}

/// The batch and the place in it of the address at position `i`.
proof fn lemma_batch_item(addresses: Seq<Address>, size: int, i: int)
    requires
        size > 0,
        0 <= i < addresses.len(),
    ensures
        0 <= i / size < batch_count(addresses.len() as int, size),
        0 <= i % size < batch_at(addresses, size, i / size).len(),
        batch_at(addresses, size, i / size)[i % size] == addresses[i],
{
    let len = addresses.len() as int;
    let count = batch_count(len, size);
    let k = i / size;
    lemma_div_bounds(len + size - 1, size);
    lemma_div_bounds(i, size);
    lemma_mul_cancel(-1, k, size);
    assert((count - 1) * size == count * size - size) by (nonlinear_arith);
    lemma_mul_cancel(k, count - 1, size);
}

/// Requests that start one pause apart keep to the limit, and no shorter
/// pause would: `rate_limit` pauses fill at least one second, and with one
/// nanosecond less they would not.
pub proof fn law_request_interval(rate_limit: u64)
    requires
        rate_limit > 0,
    ensures
        request_interval(rate_limit as int) * rate_limit >= NANOS_PER_SECOND,
        (request_interval(rate_limit as int) - 1) * rate_limit < NANOS_PER_SECOND,
{
    let r = rate_limit as int;
    let n = request_interval(r);
    lemma_div_bounds(NANOS_PER_SECOND + r - 1, r);
    assert((n - 1) * r == n * r - r) by (nonlinear_arith);
}

/// A quotient is the number whose multiples enclose the dividend.
proof fn lemma_div_is(x: int, d: int, q: int)
    requires
        d > 0,
        q * d <= x < q * d + d,
    ensures
        x / d == q,
{
    assert(x / d == q) by (nonlinear_arith)
        requires
            d > 0,
            q * d <= x < q * d + d,
    ;
}

/// A quotient and its remainder, for a positive divisor.
proof fn lemma_div_bounds(x: int, d: int)
    requires
        d > 0,
    ensures
        (x / d) * d <= x < (x / d) * d + d,
        x % d == x - (x / d) * d,
{
    vstd::arithmetic::div_mod::lemma_fundamental_div_mod(x, d);
    vstd::arithmetic::div_mod::lemma_mod_bound(x, d);
    assert(d * (x / d) == (x / d) * d) by (nonlinear_arith);
}

proof fn lemma_mul_le(a: int, b: int, d: int)
    requires
        a <= b,
        d >= 0,
    ensures
        a * d <= b * d,
{
    assert(a * d <= b * d) by (nonlinear_arith)
        requires
            a <= b,
            d >= 0,
    ;
}

/// With a positive factor, `a * d < b * d + d` leaves `a <= b`.
proof fn lemma_mul_cancel(a: int, b: int, d: int)
    requires
        d > 0,
        a * d < b * d + d,
    ensures
        a <= b,
{
    assert(a <= b) by (nonlinear_arith)
        requires
            d > 0,
            a * d < b * d + d,
    ;
}

} // verus!
