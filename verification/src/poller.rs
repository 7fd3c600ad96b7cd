//! When the usage endpoint is asked again, and what is made of its answers.

use crate::api::{fetch_message, FetchError, UsageResponse};
use crate::calendar::day_in_range;
use crate::clock::{after_pair, minute_before, utc_day, Timestamp};
use crate::credentials::{cred_message, CredError, StoredCreds};
use vstd::arithmetic::power2::{lemma2_to64, lemma_pow2_pos, pow2};
use vstd::prelude::*;

verus! {

/// What a poll has to tell.
#[derive(Debug, Clone)]
pub enum PollEvent {
    Updated(UsageResponse),
    AuthRequired,
    Error(String),
}

/// Why a poll failed.
#[derive(Debug)]
pub enum PollError {
    AuthRequired,
    /// The endpoint may be asked again after that many seconds, if it says so.
    RateLimited { retry_after: Option<u64> },
    Transient(String),
}

/// What an error in reading the token means for a poll.
pub fn without_credentials(e: CredError) -> (r: PollError)
    ensures
        match (e, r) {
            (CredError::NotFound, PollError::AuthRequired) => true,
            (CredError::AccessDenied, PollError::AuthRequired) => true,
            (CredError::Malformed(_), PollError::Transient(msg)) => msg@ == cred_message(e),
            (CredError::Other(_), PollError::Transient(msg)) => msg@ == cred_message(e),
            _ => false,
        },
{
    match e {
        CredError::NotFound => PollError::AuthRequired,
        CredError::AccessDenied => PollError::AuthRequired,
        _ => PollError::Transient(e.message()),
    }
}

/// What an error of the endpoint means for a poll.
pub fn without_report(e: FetchError) -> (r: PollError)
    ensures
        match (e, r) {
            (FetchError::Unauthorized, PollError::AuthRequired) => true,
            (
                FetchError::RateLimited { retry_after: a },
                PollError::RateLimited { retry_after: b },
            ) => a == b,
            (FetchError::Network(_), PollError::Transient(msg)) => msg@ == fetch_message(e),
            (FetchError::Decode(_), PollError::Transient(msg)) => msg@ == fetch_message(e),
            (FetchError::Server(_), PollError::Transient(msg)) => msg@ == fetch_message(e),
            _ => false,
        },
{
    match e {
        FetchError::Unauthorized => PollError::AuthRequired,
        FetchError::RateLimited { retry_after } => PollError::RateLimited { retry_after },
        _ => PollError::Transient(e.message()),
    }
}

/// The shortest wait after a failure, in seconds.
pub const MIN_DELAY: u64 = 60;

/// The longest wait of the backoff, in seconds.
pub const MAX_DELAY: u64 = 1800;

pub open spec fn larger_of(a: nat, b: nat) -> nat {
    if a < b {
        b
    } else {
        a
    }
}

/// Two to the power of the length of a streak, which counts up to five.
pub open spec fn backoff_factor(streak: nat) -> nat {
    if streak == 0 {
        1
    } else if streak == 1 {
        2
    } else if streak == 2 {
        4
    } else if streak == 3 {
        8
    } else if streak == 4 {
        16
    } else {
        32
    }
}

/// How long to wait after the endpoint refused for the `streak`-th time in
/// turn: the interval times two to that power, at least a minute and as long as
/// the endpoint asks for, at most half an hour.
pub open spec fn backoff(base: nat, streak: nat, retry_after: nat) -> nat {
    let wait = larger_of(larger_of(60, retry_after), base * backoff_factor(streak));
    if wait > 1800 {
        1800
    } else {
        wait
    }
}

/// How polling goes on. Times are in seconds.
#[derive(Debug, Clone, Copy)]
pub struct Schedule {
    /// The time between polls.
    pub base: u64,
    /// How many times in turn the endpoint refused because of too many
    /// requests.
    pub consecutive_429: u32,
    /// How long to wait before the next poll.
    pub next_delay: u64,
}

/// The event that a poll gives rise to.
pub open spec fn is_event_of(outcome: Result<UsageResponse, PollError>, e: PollEvent) -> bool {
    match (outcome, e) {
        (Ok(usage), PollEvent::Updated(told)) => told == usage,
        (Err(PollError::AuthRequired), PollEvent::AuthRequired) => true,
        (Err(PollError::RateLimited { .. }), PollEvent::Error(msg)) => msg@ == "rate limited"@,
        (Err(PollError::Transient(why)), PollEvent::Error(msg)) => msg == why,
        _ => false,
    }
}

pub open spec fn seconds_asked(retry_after: Option<u64>) -> nat {
    match retry_after {
        Some(n) => n as nat,
        None => 0,
    }
}

/// The refusals in turn after a poll.
pub open spec fn streak_after(s: Schedule, outcome: Result<UsageResponse, PollError>) -> int {
    match outcome {
        Err(PollError::RateLimited { .. }) => s.consecutive_429 + 1,
        _ => 0,
    }
}

/// The wait after a poll.
pub open spec fn delay_after(s: Schedule, outcome: Result<UsageResponse, PollError>) -> nat {
    match outcome {
        Ok(_) => s.base as nat,
        Err(PollError::RateLimited { retry_after }) => backoff(
            s.base as nat,
            (s.consecutive_429 + 1) as nat,
            seconds_asked(retry_after),
        ),
        Err(_) => larger_of(s.base as nat, 60),
    }
}

fn larger(a: u64, b: u64) -> (r: u64)
    ensures
        r == larger_of(a as nat, b as nat),
{
    if a < b {
        b
    } else {
        a
    }
}

fn factor(streak: u32) -> (r: u64)
    ensures
        r == backoff_factor(streak as nat),
        1 <= r <= 32,
{
    match streak {
        0 => 1,
        1 => 2,
        2 => 4,
        3 => 8,
        4 => 16,
        _ => 32,
    }
}

impl Schedule {
    /// The first poll comes at once.
    pub fn new(base: u64) -> (r: Schedule)
        ensures
            r == (Schedule { base, consecutive_429: 0, next_delay: 0 }),
    {
        Schedule { base, consecutive_429: 0, next_delay: 0 }
    }

    /// Takes in the outcome of a poll and gives the event to report.
    pub fn step(&mut self, outcome: Result<UsageResponse, PollError>) -> (r: PollEvent)
        requires
            streak_after(*old(self), outcome) <= u32::MAX,
        ensures
            is_event_of(outcome, r),
            final(self).base == old(self).base,
            final(self).consecutive_429 == streak_after(*old(self), outcome),
            final(self).next_delay == delay_after(*old(self), outcome),
    {
        match outcome {
            Ok(usage) => {
                self.consecutive_429 = 0;
                self.next_delay = self.base;
                PollEvent::Updated(usage)
            },
            Err(PollError::AuthRequired) => {
                self.consecutive_429 = 0;
                self.next_delay = larger(self.base, MIN_DELAY);
                PollEvent::AuthRequired
            },
            Err(PollError::RateLimited { retry_after }) => {
                self.consecutive_429 = self.consecutive_429 + 1;
                let f: u64 = factor(self.consecutive_429);
                let asked: u64 = match retry_after {
                    Some(n) => n,
                    None => 0,
                };
                let grown: u64 = if self.base > MAX_DELAY {
                    proof {
                        let b = self.base as int;
                        assert(b * f >= b) by (nonlinear_arith)
                            requires
                                b >= 0,
                                f >= 1,
                        ;
                    }
                    MAX_DELAY
                } else {
                    proof {
                        let b = self.base as int;
                        assert(b * f <= 1800 * 32) by (nonlinear_arith)
                            requires
                                0 <= b <= 1800,
                                1 <= f <= 32,
                        ;
                    }
                    self.base * f
                };
                let wait: u64 = larger(larger(MIN_DELAY, asked), grown);
                self.next_delay = if wait > MAX_DELAY {
                    MAX_DELAY
                } else {
                    wait
                };
                PollEvent::Error("rate limited".to_owned())
            },
            Err(PollError::Transient(msg)) => {
                self.consecutive_429 = 0;
                self.next_delay = larger(self.base, MIN_DELAY);
                PollEvent::Error(msg)
            },
        }
    }
}

/// Whatever the endpoint asks for, the wait after a refusal is at least a minute
/// and at most half an hour.
pub proof fn backoff_is_bounded(base: nat, streak: nat, retry_after: nat)
    ensures
        60 <= backoff(base, streak, retry_after) <= 1800,
{
}

/// A longer streak of refusals is not followed by a shorter wait.
pub proof fn longer_streaks_wait_longer(base: nat, streak: nat, longer: nat, retry_after: nat)
    requires
        streak <= longer,
    ensures
        backoff(base, streak, retry_after) <= backoff(base, longer, retry_after),
{
    let a = backoff_factor(streak);
    let b = backoff_factor(longer);
    assert(base * a <= base * b) by (nonlinear_arith)
        requires
            a <= b,
    ;
}

/// The wait after a refusal lies between the three things that bear on it and
/// half an hour: it is at least a minute, at least what the endpoint asks for and
/// at least the interval doubled for each refusal in turn, up to five, as far as
/// half an hour allows; and it is no longer than the largest of them.
pub proof fn the_wait_after_a_refusal(s: Schedule, retry_after: Option<u64>)
    ensures
        ({
            let wait = delay_after(s, Err(PollError::RateLimited { retry_after })) as int;
            let refusals = s.consecutive_429 + 1;
            let doublings = (if refusals < 5 { refusals } else { 5 }) as nat;
            let grown = s.base * pow2(doublings);
            let asked = match retry_after {
                Some(n) => n as int,
                None => 0,
            };
            &&& 60 <= wait <= 1800
            &&& wait >= grown || wait == 1800
            &&& wait >= asked || wait == 1800
            &&& wait <= 60 || wait <= asked || wait <= grown
        }),
{
    lemma2_to64();
}

/// An endpoint that asks for a longer wait is never asked again sooner, and
/// neither does a longer interval between polls shorten the wait.
pub proof fn longer_requests_wait_longer(s: Schedule, t: Schedule, asked: u64, more: u64)
    requires
        asked <= more,
        s.base <= t.base,
        s.consecutive_429 == t.consecutive_429,
    ensures
        delay_after(s, Err(PollError::RateLimited { retry_after: None })) <= delay_after(
            s,
            Err(PollError::RateLimited { retry_after: Some(asked) }),
        ) <= delay_after(t, Err(PollError::RateLimited { retry_after: Some(more) })),
{
    let f = backoff_factor((s.consecutive_429 + 1) as nat);
    let (a, b) = (s.base as nat, t.base as nat);
    assert(a * f <= b * f) by (nonlinear_arith)
        requires
            a <= b,
    ;
}

/// After a success the next poll comes after the interval. After any failure it
/// comes no sooner than a minute and, below half an hour, no sooner than the
/// interval; and after one that is no refusal it comes no later than the larger
/// of the two.
pub proof fn failures_never_speed_up_polling(
    s: Schedule,
    usage: UsageResponse,
    failure: PollError,
)
    ensures
        delay_after(s, Ok(usage)) == s.base,
        delay_after(s, Err(failure)) >= 60,
        delay_after(s, Err(failure)) >= s.base || delay_after(s, Err(failure)) == 1800,
        !(failure is RateLimited) ==> delay_after(s, Err(failure)) >= s.base,
        !(failure is RateLimited) ==> delay_after(s, Err(failure)) == 60 || delay_after(
            s,
            Err(failure),
        ) == s.base,
{
    if let PollError::RateLimited { retry_after } = failure {
        the_wait_after_a_refusal(s, retry_after);
        lemma2_to64();
        let n = (if s.consecutive_429 + 1 < 5 {
            s.consecutive_429 + 1
        } else {
            5
        }) as nat;
        let b = s.base as int;
        lemma_pow2_pos(n);
        assert(b * pow2(n) >= b) by (nonlinear_arith)
            requires
                b >= 0,
                pow2(n) >= 1,
        ;
    }
}

/// The refusals in turn after some polls.
pub open spec fn streak_after_all(
    s: Schedule,
    outcomes: Seq<Result<UsageResponse, PollError>>,
) -> int
    decreases outcomes.len(),
{
    if outcomes.len() == 0 {
        s.consecutive_429 as int
    } else {
        let before = streak_after_all(s, outcomes.drop_last());
        streak_after(Schedule { consecutive_429: before as u32, ..s }, outcomes.last())
    }
}

/// The streak counts the refusals at the end: those since the last poll that
/// was not refused, or since the start.
pub proof fn the_streak_counts_the_last_refusals(
    s: Schedule,
    outcomes: Seq<Result<UsageResponse, PollError>>,
    k: int,
)
    requires
        0 <= k <= outcomes.len(),
        s.consecutive_429 + outcomes.len() <= u32::MAX,
        forall|i: int|
            k <= i < outcomes.len() ==> (#[trigger] outcomes[i] matches Err(
                PollError::RateLimited { .. },
            )),
        k > 0 ==> !(outcomes[k - 1] matches Err(PollError::RateLimited { .. })),
    ensures
        streak_after_all(s, outcomes) == if k > 0 {
            outcomes.len() - k
        } else {
            s.consecutive_429 + outcomes.len()
        },
    decreases outcomes.len(),
{
    if outcomes.len() > 0 {
        let rest = outcomes.drop_last();
        assert(outcomes.last() == outcomes[outcomes.len() - 1]);
        if k < outcomes.len() {
            assert forall|i: int| k <= i < rest.len() implies (#[trigger] rest[i] matches Err(
                PollError::RateLimited { .. },
            )) by {
                assert(rest[i] == outcomes[i]);
            }
            the_streak_counts_the_last_refusals(s, rest, k);
        }
    }
}

/// What is reported of a poll tells its outcome: a report only on success, with
/// the report itself; that a token is missing only where it is; and otherwise
/// what went wrong.
pub proof fn events_tell_the_outcome(outcome: Result<UsageResponse, PollError>, e: PollEvent)
    requires
        is_event_of(outcome, e),
    ensures
        outcome is Ok <==> e is Updated,
        e matches PollEvent::Updated(told) ==> outcome == Ok::<UsageResponse, PollError>(told),
        e is AuthRequired <==> outcome == Err::<UsageResponse, PollError>(PollError::AuthRequired),
        e matches PollEvent::Error(msg) ==> (outcome matches Err(PollError::Transient(why)) ==> msg
            == why),
        e matches PollEvent::Error(msg) ==> (outcome matches Err(
            PollError::RateLimited { .. },
        ) ==> msg@ == "rate limited"@),
{
}

/// The token to poll with, from what was read of the credentials at `now`.
pub fn token_for_poll(read: Result<StoredCreds, CredError>, now: Timestamp) -> (r: Result<
    String,
    PollError,
>)
    requires
        read matches Ok(creds) ==> day_in_range(utc_day(minute_before(creds.expires_at).0)),
    ensures
        match (read, r) {
            (Ok(creds), Ok(token)) => token == creds.access_token && after_pair(
                minute_before(creds.expires_at),
                now,
            ),
            (Ok(creds), Err(PollError::AuthRequired)) => !after_pair(
                minute_before(creds.expires_at),
                now,
            ),
            (Err(CredError::NotFound), Err(PollError::AuthRequired)) => true,
            (Err(CredError::AccessDenied), Err(PollError::AuthRequired)) => true,
            (Err(CredError::Malformed(why)), Err(PollError::Transient(msg))) => msg@
                == cred_message(CredError::Malformed(why)),
            (Err(CredError::Other(why)), Err(PollError::Transient(msg))) => msg@ == cred_message(
                CredError::Other(why),
            ),
            _ => false,
        },
{
    match read {
        Ok(creds) => {
            if creds.is_expired(now) {
                Err(PollError::AuthRequired)
            } else {
                Ok(creds.access_token)
            }
        },
        Err(e) => Err(without_credentials(e)),
    }
}

} // verus!
