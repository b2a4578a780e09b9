use pool_sync::retry::{INITIAL_BACKOFF, MAX_ATTEMPTS, MAX_JITTER, MAX_RETRIES};
use pool_sync::{ExhaustionPolicy, RetryState, RetryStep, Rpc};

fn failed() -> Result<Vec<u32>, String> {
    Err(String::from("timeout"))
}

#[test]
fn retry_constants() {
    assert_eq!(MAX_ATTEMPTS, 5);
    assert_eq!(MAX_RETRIES, 4);
    assert_eq!(INITIAL_BACKOFF, 1000);
    assert_eq!(MAX_JITTER, 100);
}

#[test]
fn first_state_has_made_no_retry() {
    let state = RetryState::new();
    assert_eq!(state.retry_count, 0);
    assert!(!state.exhausted());
    assert_eq!(state.backoff(), 1000);
}

#[test]
fn backoff_doubles_with_each_retry() {
    let expected = [1000u64, 2000, 4000, 8000];
    for retry_count in 0..4u32 {
        assert!(!RetryState { retry_count }.exhausted());
        assert_eq!(RetryState { retry_count }.backoff(), expected[retry_count as usize]);
    }
    assert!(RetryState { retry_count: 4 }.exhausted());
    assert!(RetryState { retry_count: 5 }.exhausted());
    assert!(RetryState { retry_count: u32::MAX }.exhausted());
}

#[test]
fn success_ends_the_operation() {
    let step = RetryState::new().advance(Ok::<Vec<u32>, String>(vec![1, 2]), ExhaustionPolicy::FailFast, false, 0);
    assert_eq!(step, RetryStep::Done(vec![1, 2]));
    let step = RetryState { retry_count: 4 }.advance(
        Ok::<Vec<u32>, String>(vec![9]),
        ExhaustionPolicy::Lenient,
        true,
        100,
    );
    assert_eq!(step, RetryStep::Done(vec![9]));
}

#[test]
fn empty_success_stands_where_it_is_not_retried() {
    let step = RetryState::new().advance(Ok::<Vec<u32>, String>(vec![]), ExhaustionPolicy::FailFast, false, 7);
    assert_eq!(step, RetryStep::Done(vec![]));
}

#[test]
fn empty_success_is_retried_with_backoff_where_asked() {
    let step = RetryState::new().advance(Ok::<Vec<u32>, String>(vec![]), ExhaustionPolicy::Lenient, true, 7);
    assert_eq!(step, RetryStep::Wait { millis: 1007, next: RetryState { retry_count: 1 } });
    let step = RetryState { retry_count: 4 }.advance(
        Ok::<Vec<u32>, String>(vec![]),
        ExhaustionPolicy::FailFast,
        true,
        7,
    );
    assert_eq!(step, RetryStep::Done(vec![]));
}

#[test]
fn failing_operation_is_attempted_five_times_with_doubling_backoff() {
    let jitters = [0u64, 100, 50, 1];
    let expected = [1000u64, 2100, 4050, 8001];
    let mut state = RetryState::new();
    for i in 0..4 {
        match state.advance(failed(), ExhaustionPolicy::FailFast, false, jitters[i]) {
            RetryStep::Wait { millis, next } => {
                assert_eq!(millis, expected[i]);
                assert_eq!(next.retry_count, i as u32 + 1);
                state = next;
            }
            other => panic!("expected a wait, got {:?}", other),
        }
    }
    assert_eq!(
        state.advance(failed(), ExhaustionPolicy::FailFast, false, 0),
        RetryStep::Failed(String::from("timeout"))
    );
}

#[test]
fn exhausted_lenient_operation_yields_nothing() {
    let state = RetryState { retry_count: 4 };
    assert_eq!(
        RetryState { retry_count: 3 }.advance(failed(), ExhaustionPolicy::Lenient, true, 5),
        RetryStep::Wait { millis: 8005, next: state }
    );
    assert_eq!(state.advance(failed(), ExhaustionPolicy::Lenient, true, 0), RetryStep::Done(vec![]));
    assert_eq!(state.advance(failed(), ExhaustionPolicy::Lenient, false, 0), RetryStep::Done(vec![]));
}

#[test]
fn drawn_jitter_stays_within_a_tenth_of_a_second() {
    for _ in 0..200 {
        for retry_count in 0..4u32 {
            let state = RetryState { retry_count };
            let backoff = state.backoff();
            match state.on_attempt(failed(), ExhaustionPolicy::FailFast, false) {
                RetryStep::Wait { millis, next } => {
                    assert!(millis >= backoff && millis <= backoff + 100);
                    assert_eq!(next.retry_count, retry_count + 1);
                }
                other => panic!("expected a wait, got {:?}", other),
            }
        }
    }
}

#[test]
fn log_fetch_fails_fast_once_retries_are_used_up() {
    match Rpc::after_log_attempt(RetryState::new(), failed()) {
        RetryStep::Wait { millis, next } => {
            assert!(millis >= 1000 && millis <= 1100);
            assert_eq!(next, RetryState { retry_count: 1 });
        }
        other => panic!("expected a wait, got {:?}", other),
    }
    assert_eq!(
        Rpc::after_log_attempt(RetryState { retry_count: 4 }, failed()),
        RetryStep::Failed(String::from("timeout"))
    );
    assert_eq!(
        Rpc::after_log_attempt(RetryState::new(), Ok::<Vec<u32>, String>(vec![])),
        RetryStep::Done(vec![])
    );
}

#[test]
fn batch_population_gives_up_quietly_once_retries_are_used_up() {
    match Rpc::after_batch_attempt(RetryState { retry_count: 2 }, Ok::<Vec<u32>, String>(vec![])) {
        RetryStep::Wait { millis, next } => {
            assert!(millis >= 4000 && millis <= 4100);
            assert_eq!(next, RetryState { retry_count: 3 });
        }
        other => panic!("expected a wait, got {:?}", other),
    }
    assert_eq!(Rpc::after_batch_attempt(RetryState { retry_count: 4 }, failed()), RetryStep::Done(vec![]));
    assert_eq!(
        Rpc::after_batch_attempt(RetryState { retry_count: 4 }, Ok::<Vec<u32>, String>(vec![])),
        RetryStep::Done(vec![])
    );
    assert_eq!(
        Rpc::after_batch_attempt(RetryState::new(), Ok::<Vec<u32>, String>(vec![4])),
        RetryStep::Done(vec![4])
    );
}

#[test]
fn erroring_batch_is_tried_five_times_and_then_contributes_nothing() {
    let mut state = RetryState::new();
    let mut attempts = 0;
    let mut waited = Vec::new();
    let result = loop {
        attempts += 1;
        match Rpc::after_batch_attempt(state, failed()) {
            RetryStep::Wait { millis, next } => {
                waited.push(millis);
                state = next;
            }
            RetryStep::Done(items) => break items,
            RetryStep::Failed(e) => panic!("a lenient run does not fail: {}", e),
        }
    };
    assert_eq!(attempts, 5);
    assert!(result.is_empty());
    assert_eq!(waited.len(), 4);
    for (i, millis) in waited.iter().enumerate() {
        let backoff = 1000u64 << i;
        assert!(*millis >= backoff && *millis <= backoff + 100);
    }
}

#[test]
fn failing_log_fetch_hands_back_the_error_of_the_fifth_attempt() {
    let mut state = RetryState::new();
    let mut attempts = 0u32;
    let outcome = loop {
        attempts += 1;
        let attempt: Result<Vec<u32>, String> = Err(format!("attempt {}", attempts));
        match Rpc::after_log_attempt(state, attempt) {
            RetryStep::Wait { next, .. } => state = next,
            RetryStep::Done(logs) => break Ok(logs),
            RetryStep::Failed(e) => break Err(e),
        }
    };
    assert_eq!(attempts, 5);
    assert_eq!(outcome, Err(String::from("attempt 5")));
}
