//! Bounded retry with exponential backoff, as a step function: the caller
//! performs the attempt and the wait, this module decides what comes next.

use rand::Rng;
use vstd::prelude::*;

verus! {

/// How many times an operation is attempted at most, the first attempt
/// included.
pub const MAX_ATTEMPTS: u32 = 5;

/// How many times a failed operation is tried again: once less than it is
/// attempted.
pub const MAX_RETRIES: u32 = 4;

/// The wait before the first retry, in milliseconds.
pub const INITIAL_BACKOFF: u64 = 1000;

/// The largest random addition to a wait, in milliseconds.
pub const MAX_JITTER: u64 = 100;

/// What the caller wants once every retry has been used up.
#[derive(Clone, Copy, Debug, PartialEq, Eq, Structural)]
pub enum ExhaustionPolicy {
    /// The last error is handed back, which fails the enclosing step.
    FailFast,
    /// The operation counts as having produced nothing, and work goes on.
    Lenient,
}

/// Progress of one retried operation: the number of retries made so far.
#[derive(Clone, Copy, Debug, PartialEq, Eq, Structural)]
pub struct RetryState {
    pub retry_count: u32,
}

/// What the caller does after an attempt.
#[derive(Debug, PartialEq, Eq)]
pub enum RetryStep<T, E> {
    /// The operation is over and these are its items.
    Done(Vec<T>),
    /// The operation is over and has failed with this error.
    Failed(E),
    /// Wait `millis` milliseconds, then attempt again with state `next`.
    Wait { millis: u64, next: RetryState },
}

/// The backoff that precedes retry number `retries + 1`: the initial backoff,
/// doubled once for each retry already made.
pub open spec fn backoff_after(retries: nat) -> nat
    decreases retries,
{
    if retries == 0 {
        INITIAL_BACKOFF as nat
    } else {
        2 * backoff_after((retries - 1) as nat)
    }
}

/// Whether the outcome of an attempt calls for another attempt: an error
/// always does, an empty success only where the caller asks for it.
pub open spec fn must_retry<T, E>(attempt: Result<Vec<T>, E>, retry_empty: bool) -> bool {
    match attempt {
        Ok(items) => retry_empty && items@.len() == 0,
        Err(_) => true,
    }
}

impl RetryState {
    /// Whether no retry is left.
    pub open spec fn spent(self) -> bool {
        self.retry_count >= MAX_RETRIES
    }

    /// The wait before the next retry when the jitter drawn is `jitter`, in
    /// milliseconds.
    pub open spec fn wait(self, jitter: u64) -> int {
        backoff_after(self.retry_count as nat) + jitter
    }

    /// The state after one more retry.
    pub open spec fn next(self) -> RetryState {
        RetryState { retry_count: (self.retry_count + 1) as u32 }
    }
}

/// The step that follows `attempt` in state `state` when the jitter drawn is
/// `jitter`.
pub open spec fn step_follows<T, E>(
    state: RetryState,
    attempt: Result<Vec<T>, E>,
    policy: ExhaustionPolicy,
    retry_empty: bool,
    jitter: u64,
    step: RetryStep<T, E>,
) -> bool {
    if !must_retry(attempt, retry_empty) {
        step == RetryStep::<T, E>::Done(attempt->Ok_0)
    } else if !state.spent() {
        step == (RetryStep::<T, E>::Wait { millis: state.wait(jitter) as u64, next: state.next() })
    } else {
        match attempt {
            Ok(items) => step == RetryStep::<T, E>::Done(items),
            Err(e) => match policy {
                ExhaustionPolicy::FailFast => step == RetryStep::<T, E>::Failed(e),
                ExhaustionPolicy::Lenient => step matches RetryStep::Done(items) && items@.len() == 0,
            },
        }
    }
}

/// The waits of a run in which every attempt calls for another, where
/// `jitters` holds the jitter drawn before each wait: one wait per retry,
/// until the retries or the draws are used up.
pub open spec fn failing_run(state: RetryState, jitters: Seq<u64>) -> Seq<int>
    decreases jitters.len(),
{
    if jitters.len() == 0 || state.spent() {
        Seq::empty()
    } else {
        seq![state.wait(jitters[0])] + failing_run(state.next(), jitters.skip(1))
    }
}

/// Under the lenient policy no step is a failure, and under either policy a
/// step that ends the operation after an error ends it only once the
/// retries are used up.
pub proof fn law_exhaustion<T, E>(
    state: RetryState,
    attempt: Result<Vec<T>, E>,
    policy: ExhaustionPolicy,
    retry_empty: bool,
    jitter: u64,
    step: RetryStep<T, E>,
)
    requires
        step_follows(state, attempt, policy, retry_empty, jitter, step),
    ensures
        policy == ExhaustionPolicy::Lenient ==> !(step is Failed),
        step is Failed ==> attempt is Err && state.spent(),
        attempt is Err && !(step is Wait) ==> state.spent(),
        step is Wait <==> must_retry(attempt, retry_empty) && !state.spent(),
{
}

/// The backoff starts at `INITIAL_BACKOFF`, doubles with each retry, and is
/// at most eight times the initial backoff for as long as retries are left.
pub proof fn law_backoff_doubles(retries: nat)
    ensures
        backoff_after(0) == INITIAL_BACKOFF,
        backoff_after(retries + 1) == 2 * backoff_after(retries),
        retries < MAX_RETRIES ==> backoff_after(retries) <= 8 * INITIAL_BACKOFF,
{
    reveal_with_fuel(backoff_after, 6);
}

/// An operation whose every attempt calls for another is retried
/// `MAX_RETRIES` times and no more, so that it is attempted `MAX_ATTEMPTS`
/// times at most, and the `i`-th wait is the initial backoff doubled `i`
/// times plus the jitter drawn for it.
pub proof fn law_failing_run(jitters: Seq<u64>)
    ensures
        failing_run(RetryState { retry_count: 0 }, jitters).len() + 1 <= MAX_ATTEMPTS,
        failing_run(RetryState { retry_count: 0 }, jitters).len() == if jitters.len() < MAX_RETRIES {
            jitters.len()
        } else {
            MAX_RETRIES as nat
        },
        forall|i: int|
            0 <= i < failing_run(RetryState { retry_count: 0 }, jitters).len() ==> #[trigger] failing_run(
                RetryState { retry_count: 0 },
                jitters,
            )[i] == backoff_after(i as nat) + jitters[i],
{
    lemma_failing_run_from(0, jitters);
}

proof fn lemma_failing_run_from(count: u32, jitters: Seq<u64>)
    requires
        count <= MAX_RETRIES,
    ensures
        failing_run(RetryState { retry_count: count }, jitters).len() == if jitters.len() < MAX_RETRIES
            - count {
            jitters.len()
        } else {
            (MAX_RETRIES - count) as nat
        },
        forall|i: int|
            0 <= i < failing_run(RetryState { retry_count: count }, jitters).len() ==> #[trigger] failing_run(
                RetryState { retry_count: count },
                jitters,
            )[i] == backoff_after((count + i) as nat) + jitters[i],
    decreases jitters.len(),
{
    if jitters.len() == 0 || count >= MAX_RETRIES {
    } else {
        lemma_failing_run_from((count + 1) as u32, jitters.skip(1));
        let rest = failing_run(RetryState { retry_count: (count + 1) as u32 }, jitters.skip(1));
        let run = failing_run(RetryState { retry_count: count }, jitters);
        assert(run == seq![backoff_after(count as nat) + jitters[0]] + rest);
        assert forall|i: int| 0 <= i < run.len() implies #[trigger] run[i] == backoff_after(
            (count + i) as nat,
        ) + jitters[i] by {
            if i > 0 {
                assert(run[i] == rest[i - 1]);
                assert(jitters.skip(1)[i - 1] == jitters[i]);
            }
        }
    }
}

/// Draws a number between `low` and `high`, both included.
///
/// Calls `gen_range(low..=high)` of the `rand` crate on the generator that
/// `rand::thread_rng()` hands out. The claim is what `Rng::gen_range` does on
/// an inclusive range: the value lies within the range. Which value comes is
/// left open. An empty range, on which `gen_range` panics, is excluded.
///
/// The generator takes its seed from the operating system when a thread
/// first uses it and again from time to time, and it registers a handler
/// for forks. It panics where the operating system refuses one of these,
/// whatever the range is; nothing is claimed of a call that does.
#[verifier::external_body]
fn draw_between(low: u64, high: u64) -> (drawn: u64)
    requires
        low <= high,
    ensures
        low <= drawn <= high,
{
    rand::thread_rng().gen_range(low..=high)
}

impl RetryState {
    /// The state before the first attempt.
    pub fn new() -> (state: RetryState)
        ensures
            state.retry_count == 0,
    {
        RetryState { retry_count: 0 }
    }

    /// Whether no retry is left.
    pub fn exhausted(&self) -> (b: bool)
        ensures
            b == self.spent(),
    {
        self.retry_count >= MAX_RETRIES
    }

    /// The backoff that precedes the next retry, in milliseconds.
    pub fn backoff(&self) -> (millis: u64)
        requires
            self.retry_count < MAX_RETRIES,
        ensures
            millis == backoff_after(self.retry_count as nat),
    {
        let mut millis: u64 = INITIAL_BACKOFF;
        let mut doubled: u32 = 0;
        while doubled < self.retry_count
            invariant
                doubled <= self.retry_count < MAX_RETRIES,
                millis == backoff_after(doubled as nat),
            decreases self.retry_count - doubled,
        {
            proof {
                law_backoff_doubles(doubled as nat);
            }
            millis = millis * 2;
            doubled = doubled + 1;
        }
        millis
    }

    /// Decides what follows an attempt, given the jitter to add to the wait.
    ///
    /// A success ends the operation with its items, unless it is empty and
    /// `retry_empty` asks for another attempt. Whatever calls for another
    /// attempt gets one after a wait of backoff plus jitter, as long as
    /// retries are left. Once they are used up, an empty success stands as it
    /// is, and an error is handed back under `FailFast` and becomes an empty
    /// result under `Lenient`.
    pub fn advance<T, E>(
        self,
        attempt: Result<Vec<T>, E>,
        policy: ExhaustionPolicy,
        retry_empty: bool,
        jitter: u64,
    ) -> (step: RetryStep<T, E>)
        requires
            jitter <= MAX_JITTER,
        ensures
            step_follows(self, attempt, policy, retry_empty, jitter, step),
    {
        let again: bool = match &attempt {
            Ok(items) => retry_empty && items.len() == 0,
            Err(_) => true,
        };
        if !again {
            match attempt {
                Ok(items) => RetryStep::Done(items),
                Err(e) => RetryStep::Failed(e),
            }
        } else if self.retry_count < MAX_RETRIES {
            proof {
                law_backoff_doubles(self.retry_count as nat);
            }
            let millis: u64 = self.backoff() + jitter;
            RetryStep::Wait { millis, next: RetryState { retry_count: self.retry_count + 1 } }
        } else {
            match attempt {
                Ok(items) => RetryStep::Done(items),
                Err(e) => match policy {
                    ExhaustionPolicy::FailFast => RetryStep::Failed(e),
                    ExhaustionPolicy::Lenient => RetryStep::Done(Vec::new()),
                },
            }
        }
    }

    /// Decides what follows an attempt, drawing the jitter itself: the step
    /// is the one that `advance` gives for some jitter of at most
    /// `MAX_JITTER` milliseconds.
    pub fn on_attempt<T, E>(
        self,
        attempt: Result<Vec<T>, E>,
        policy: ExhaustionPolicy,
        retry_empty: bool,
    ) -> (step: RetryStep<T, E>)
        ensures
            exists|jitter: u64|
                jitter <= MAX_JITTER && #[trigger] step_follows(self, attempt, policy, retry_empty, jitter, step),
    {
        let jitter: u64 = draw_between(0, MAX_JITTER);
        self.advance(attempt, policy, retry_empty, jitter)
    }
}

} // verus!
