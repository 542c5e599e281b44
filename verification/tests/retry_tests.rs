use course_catalog::retry::{
    AttemptOutcome, FetchDecision, FetchError, FetchFailure, RetryPolicy,
};

#[test]
fn five_transient_failures_exhaust_three_retries() {
    let policy = RetryPolicy {
        max_retries: 3,
        backoff_base_ms: 1,
    };
    let outcomes = vec![
        AttemptOutcome::Failed(FetchFailure::Status(500)),
        AttemptOutcome::Failed(FetchFailure::Status(503)),
        AttemptOutcome::Failed(FetchFailure::TimedOut),
        AttemptOutcome::Failed(FetchFailure::ConnectionReset),
        AttemptOutcome::Failed(FetchFailure::Status(502)),
    ];
    let result = policy.resolve(&outcomes);
    assert_eq!(result.unwrap_err(), FetchError::RetriesExhausted);
}

#[test]
fn success_within_the_retry_budget_yields_the_body() {
    let policy = RetryPolicy {
        max_retries: 3,
        backoff_base_ms: 1,
    };
    let outcomes = vec![
        AttemptOutcome::Failed(FetchFailure::Status(500)),
        AttemptOutcome::Failed(FetchFailure::TimedOut),
        AttemptOutcome::Delivered("the body".to_string()),
        AttemptOutcome::Failed(FetchFailure::Status(500)),
    ];
    assert_eq!(policy.resolve(&outcomes).unwrap(), "the body");
}

#[test]
fn permanent_failures_are_not_retried() {
    let policy = RetryPolicy {
        max_retries: 3,
        backoff_base_ms: 1,
    };
    let outcomes = vec![
        AttemptOutcome::Failed(FetchFailure::Status(404)),
        AttemptOutcome::Delivered("never reached".to_string()),
        AttemptOutcome::Delivered("never reached".to_string()),
        AttemptOutcome::Delivered("never reached".to_string()),
    ];
    assert_eq!(policy.resolve(&outcomes).unwrap_err(), FetchError::NonTransient);
    assert_eq!(
        policy.decide(1, &FetchFailure::Malformed),
        FetchDecision::GiveUp(FetchError::NonTransient)
    );
}

#[test]
fn backoff_doubles_per_retry() {
    let policy = RetryPolicy {
        max_retries: 5,
        backoff_base_ms: 100,
    };
    assert_eq!(policy.backoff_delay(0), 100);
    assert_eq!(policy.backoff_delay(1), 200);
    assert_eq!(policy.backoff_delay(2), 400);
    assert_eq!(
        policy.decide(1, &FetchFailure::TimedOut),
        FetchDecision::RetryAfter(100)
    );
    assert_eq!(
        policy.decide(3, &FetchFailure::Status(599)),
        FetchDecision::RetryAfter(400)
    );
}

#[test]
fn zero_retry_policy_fails_on_the_first_transient_failure() {
    let policy = RetryPolicy {
        max_retries: 0,
        backoff_base_ms: 1,
    };
    let outcomes = vec![AttemptOutcome::Failed(FetchFailure::Status(500))];
    assert_eq!(policy.resolve(&outcomes).unwrap_err(), FetchError::RetriesExhausted);
}
