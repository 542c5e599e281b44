//! The resilient fetcher's retry policy.
//!
//! The fetcher's decisions — which failures are worth retrying, how long to
//! back off, when to give up — are pure functions of the policy and the
//! attempt history.  The unverified rim performs the transport calls and
//! the sleeps, reports each attempt's outcome as a plain value, and obeys
//! the decision it gets back.

use vstd::prelude::*;

verus! {

/// One way a transport attempt can fail, as the rim reports it.
#[derive(Clone, Copy, Debug, PartialEq, Eq, Structural)]
pub enum FetchFailure {
    /// The request timed out.
    TimedOut,
    /// The connection was reset or could not be established.
    ConnectionReset,
    /// The server answered with this status code.
    Status(u16),
    /// The request could not be made at all, e.g. a malformed URL.
    Malformed,
}

/// A terminal fetch failure.
#[derive(Clone, Copy, Debug, PartialEq, Eq, Structural)]
pub enum FetchError {
    /// Transient failures persisted through every allowed retry.
    RetriesExhausted,
    /// A non-transient failure: no retry can help.
    NonTransient,
}

/// What to do after a failed attempt.
#[derive(Clone, Copy, Debug, PartialEq, Eq, Structural)]
pub enum FetchDecision {
    /// Try again after this many milliseconds.
    RetryAfter(u64),
    /// Give up with this terminal error.
    GiveUp(FetchError),
}

/// The transient failure classes: timeouts, connection resets, and 5xx
/// answers.  Everything else is permanent.
pub open spec fn transient(f: FetchFailure) -> bool {
    match f {
        FetchFailure::TimedOut => true,
        FetchFailure::ConnectionReset => true,
        FetchFailure::Status(s) => 500 <= s <= 599,
        FetchFailure::Malformed => false,
    }
}

/// Whether a failure is worth retrying.
pub fn is_transient(f: &FetchFailure) -> (r: bool)
    ensures
        r == transient(*f),
{
    match f {
        FetchFailure::TimedOut => true,
        FetchFailure::ConnectionReset => true,
        FetchFailure::Status(s) => 500 <= *s && *s <= 599,
        FetchFailure::Malformed => false,
    }
}

/// The retry policy: an explicit immutable configuration, so that callers
/// (and tests) can inject zero-retry or fast-backoff variants.
#[derive(Clone, Copy, Debug, PartialEq, Eq, Structural)]
pub struct RetryPolicy {
    /// How many retries may follow the first attempt.
    pub max_retries: u32,
    /// The delay before the first retry, in milliseconds; it doubles for
    /// every further retry, saturating.
    pub backoff_base_ms: u64,
}

/// The backoff delay before retry number `retry_index` (zero-based):
/// the base doubled that many times, saturating at the 64-bit maximum.
pub open spec fn backoff_ms(base: u64, retry_index: nat) -> u64
    decreases retry_index,
{
    if retry_index == 0 {
        base
    } else {
        let prev = backoff_ms(base, (retry_index - 1) as nat);
        if prev <= u64::MAX / 2 {
            (2 * prev) as u64
        } else {
            u64::MAX
        }
    }
}

/// The decision after attempt number `attempts_made` (counting from one)
/// failed with `f`: a transient failure is retried with exponential
/// backoff while retries are left; a permanent failure, or a transient
/// one after the last allowed retry, is terminal.
pub open spec fn decide_model(p: RetryPolicy, attempts_made: int, f: FetchFailure) -> FetchDecision {
    if !transient(f) {
        FetchDecision::GiveUp(FetchError::NonTransient)
    } else if attempts_made <= p.max_retries {
        FetchDecision::RetryAfter(backoff_ms(p.backoff_base_ms, (attempts_made - 1) as nat))
    } else {
        FetchDecision::GiveUp(FetchError::RetriesExhausted)
    }
}

impl RetryPolicy {
    /// The delay before retry number `retry_index` (zero-based).
    pub fn backoff_delay(&self, retry_index: u32) -> (r: u64)
        ensures
            r == backoff_ms(self.backoff_base_ms, retry_index as nat),
        decreases retry_index,
    {
        if retry_index == 0 {
            self.backoff_base_ms
        } else {
            let prev = self.backoff_delay(retry_index - 1);
            if prev <= u64::MAX / 2 {
                2 * prev
            } else {
                u64::MAX
            }
        }
    }

    /// The decision after a failed attempt.  `attempts_made` counts the
    /// attempts performed so far, the failed one included.
    pub fn decide(&self, attempts_made: u64, failure: &FetchFailure) -> (r: FetchDecision)
        requires
            attempts_made >= 1,
        ensures
            r == decide_model(*self, attempts_made as int, *failure),
    {
        if !is_transient(failure) {
            FetchDecision::GiveUp(FetchError::NonTransient)
        } else if attempts_made <= self.max_retries as u64 {
            FetchDecision::RetryAfter(self.backoff_delay((attempts_made - 1) as u32))
        } else {
            FetchDecision::GiveUp(FetchError::RetriesExhausted)
        }
    }
}

/// The outcome of one transport attempt, as the rim reports it.
pub enum AttemptOutcome {
    /// A body was delivered.
    Delivered(String),
    /// The attempt failed in this way.
    Failed(FetchFailure),
}

/// What the retry loop yields when the transport answers attempt number
/// `attempt` (zero-based) and the following ones as `outcomes` says:
/// the first delivered body, or the terminal error of the first decision
/// to give up.
pub open spec fn resolve_model(
    p: RetryPolicy,
    outcomes: Seq<AttemptOutcome>,
    attempt: int,
) -> Result<Seq<char>, FetchError>
    decreases outcomes.len() - attempt,
{
    if attempt < 0 || attempt >= outcomes.len() {
        Err(FetchError::RetriesExhausted)
    } else {
        match outcomes[attempt] {
            AttemptOutcome::Delivered(body) => Ok(body@),
            AttemptOutcome::Failed(f) => match decide_model(p, attempt + 1, f) {
                FetchDecision::GiveUp(e) => Err(e),
                FetchDecision::RetryAfter(_) => resolve_model(p, outcomes, attempt + 1),
            },
        }
    }
}

impl RetryPolicy {
    /// Run the whole retry loop against a recorded list of attempt
    /// outcomes: what the fetcher returns when the transport would answer
    /// each successive attempt as `outcomes` says.  The list must cover
    /// every attempt the policy can make: one more than the allowed
    /// retries.
    pub fn resolve(&self, outcomes: &Vec<AttemptOutcome>) -> (r: Result<String, FetchError>)
        requires
            outcomes@.len() > self.max_retries,
        ensures
            r matches Ok(b) ==> resolve_model(*self, outcomes@, 0) == Ok::<Seq<char>, FetchError>(
                b@,
            ),
            r matches Err(e) ==> resolve_model(*self, outcomes@, 0) == Err::<
                Seq<char>,
                FetchError,
            >(e),
    {
        let mut attempt: usize = 0;
        loop
            invariant
                attempt <= self.max_retries,
                outcomes@.len() > self.max_retries,
                resolve_model(*self, outcomes@, 0) == resolve_model(*self, outcomes@, attempt as int),
            decreases outcomes@.len() - attempt,
        {
            match &outcomes[attempt] {
                AttemptOutcome::Delivered(body) => {
                    return Ok(body.clone());
                },
                AttemptOutcome::Failed(f) => {
                    let attempts_made = (attempt as u64) + 1;
                    match self.decide(attempts_made, f) {
                        FetchDecision::GiveUp(e) => {
                            return Err(e);
                        },
                        FetchDecision::RetryAfter(_) => {
                            proof {
                                assert(decide_model(*self, attempt + 1, *f)
                                    matches FetchDecision::RetryAfter(_));
                                assert(attempt + 1 <= self.max_retries);
                            }
                            attempt += 1;
                        },
                    }
                },
            }
        }
    }
}

} // verus!
