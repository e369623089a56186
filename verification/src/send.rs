use vstd::prelude::*;
use crate::text::{append_decimal, chars_of, decimal, trim, trim_range};

verus! {

/// `c` is one of `0` ..= `9`.
pub open spec fn is_ascii_digit(c: char) -> bool {
    48 <= (c as u32) <= 57
}

/// Value of the decimal digits `ds`.
pub open spec fn digits_value(ds: Seq<char>) -> int
    decreases ds.len(),
{
    if ds.len() == 0 {
        0
    } else {
        digits_value(ds.drop_last()) * 10 + ((ds.last() as u32) - 48)
    }
}

/// What `str::parse::<u64>` gives for `s`: an optional `+`, then one or more ASCII
/// digits whose value fits in a `u64`; anything else is an error (`None`).
pub open spec fn parse_u64_text(s: Seq<char>) -> Option<u64> {
    let ds = unsigned_digits(s);
    if ds.len() > 0 && (forall|i: int| 0 <= i < ds.len() ==> is_ascii_digit(ds[i])) && digits_value(ds)
        <= u64::MAX {
        Some(digits_value(ds) as u64)
    } else {
        None
    }
}

proof fn lemma_digits_value_grows(ds: Seq<char>, k: int)
    requires
        0 <= k <= ds.len(),
        forall|i: int| 0 <= i < ds.len() ==> is_ascii_digit(ds[i]),
    ensures
        0 <= digits_value(ds.take(k)) <= digits_value(ds),
    decreases ds.len(),
{
    if ds.len() > 0 {
        if k < ds.len() {
            lemma_digits_value_grows(ds.drop_last(), k);
            assert(ds.drop_last().take(k) =~= ds.take(k));
        } else {
            assert(ds.take(k) =~= ds);
            lemma_digits_value_grows(ds.drop_last(), 0);
        }
    } else {
        assert(ds.take(k) =~= ds);
    }
}

/// `s` with one leading `+` dropped.
pub open spec fn unsigned_digits(s: Seq<char>) -> Seq<char> {
    if s.len() > 0 && s[0] == '+' { s.drop_first() } else { s }
}

/// A non-digit, or digits whose value already passes `u64::MAX`, make the parse fail.
proof fn lemma_parse_rejects(s: Seq<char>, k: int)
    requires
        0 <= k < unsigned_digits(s).len(),
        !is_ascii_digit(unsigned_digits(s)[k]) || (
            (forall|j: int| 0 <= j < unsigned_digits(s).len() ==> is_ascii_digit(unsigned_digits(s)[j]))
            && digits_value(unsigned_digits(s).take(k + 1)) > u64::MAX),
    ensures
        parse_u64_text(s) is None,
{
    let ds = unsigned_digits(s);
    if is_ascii_digit(ds[k]) {
        lemma_digits_value_grows(ds, k + 1);
    }
}

/// Parses `v[lo..hi]` as `str::parse::<u64>` would.
pub fn parse_u64_range(v: &Vec<char>, lo: usize, hi: usize) -> (r: Option<u64>)
    requires
        lo <= hi <= v@.len(),
    ensures
        r == parse_u64_text(v@.subrange(lo as int, hi as int)),
{
    let ghost s = v@.subrange(lo as int, hi as int);
    let start = if lo < hi && v[lo] == '+' { lo + 1 } else { lo };
    let ghost ds = v@.subrange(start as int, hi as int);
    assert(ds =~= unsigned_digits(s));
    if start == hi {
        return None;
    }
    let mut acc: u64 = 0;
    let mut i = start;
    while i < hi
        invariant
            lo <= start <= i <= hi <= v@.len(),
            ds == v@.subrange(start as int, hi as int),
            s == v@.subrange(lo as int, hi as int),
            ds == unsigned_digits(s),
            forall|j: int| start <= j < i ==> is_ascii_digit(v@[j]),
            acc == digits_value(v@.subrange(start as int, i as int)),
        decreases hi - i,
    {
        let c = v[i];
        let code = c as u32;
        assert(ds[i - start] == v@[i as int]);
        if code < 48 || code > 57 {
            proof {
                lemma_parse_rejects(s, i - start);
            }
            return None;
        }
        let d = (code - 48) as u64;
        assert(v@.subrange(start as int, i + 1).drop_last() =~= v@.subrange(start as int, i as int));
        assert(v@.subrange(start as int, i + 1).last() == v@[i as int]);
        assert(digits_value(v@.subrange(start as int, i + 1)) == acc * 10 + d);
        let next = match acc.checked_mul(10) {
            Some(x) => x.checked_add(d),
            None => None,
        };
        match next {
            Some(x) => {
                acc = x;
            },
            None => {
                proof {
                    assert(ds.take(i + 1 - start) =~= v@.subrange(start as int, i + 1));
                    if forall|j: int| 0 <= j < ds.len() ==> is_ascii_digit(ds[j]) {
                        lemma_parse_rejects(s, i - start);
                    } else {
                        let k = choose|k: int| 0 <= k < ds.len() && !is_ascii_digit(ds[k]);
                        lemma_parse_rejects(s, k);
                    }
                }
                return None;
            },
        }
        i = i + 1;
    }
    assert(v@.subrange(start as int, i as int) =~= ds);
    Some(acc)
}

/// How long to wait after a `429`: the `Retry-After` header, trimmed, in whole
/// seconds, or 2 seconds when it is absent or not a number.
pub open spec fn retry_after_secs(header: Option<Seq<char>>) -> u64 {
    match header {
        Some(h) => match parse_u64_text(trim(h)) {
            Some(secs) => secs,
            None => 2,
        },
        None => 2,
    }
}

/// Seconds to wait after a `429` with this `Retry-After` header.
pub fn retry_after_delay(header: Option<&str>) -> (r: u64)
    ensures
        r == retry_after_secs(
            match header {
                Some(h) => Some(h@),
                None => None,
            },
        ),
{
    match header {
        Some(h) => {
            let v = chars_of(h);
            let (a, b) = trim_range(&v, 0, v.len());
            assert(v@.subrange(0, v@.len() as int) =~= v@);
            match parse_u64_range(&v, a, b) {
                Some(secs) => secs,
                None => 2,
            }
        },
        None => 2,
    }
}

/// Attempts at most; the first is attempt 1.
pub const MAX_RETRIES: u32 = 3;

/// What one POST to the webhook came to.
pub enum Attempt {
    /// The server answered with a status below 400.
    Response { status: u16 },
    /// The server answered with an error status, with its `Retry-After` header if any.
    ErrorStatus { code: u16, retry_after: Option<String> },
    /// The request failed on the network or timed out.
    Transport,
}

/// What to do after an attempt.
pub enum SendStep {
    /// The notification was accepted.
    Delivered,
    /// Wait, then make attempt `next_attempt`.
    Retry { wait_secs: u64, next_attempt: u32 },
    /// Wait, then give up with `message`.
    Fail { wait_secs: u64, message: String },
}

/// Mathematical model of a `SendStep`.
pub ghost enum StepModel {
    Delivered,
    Retry { wait_secs: u64, next_attempt: u32 },
    Fail { wait_secs: u64, message: Seq<char> },
}

impl View for SendStep {
    type V = StepModel;

    open spec fn view(&self) -> StepModel {
        match self {
            SendStep::Delivered => StepModel::Delivered,
            SendStep::Retry { wait_secs, next_attempt } => StepModel::Retry {
                wait_secs: *wait_secs,
                next_attempt: *next_attempt,
            },
            SendStep::Fail { wait_secs, message } => StepModel::Fail {
                wait_secs: *wait_secs,
                message: message@,
            },
        }
    }
}

/// Message for a client error status.
pub open spec fn client_error_message(code: u16) -> Seq<char> {
    "HTTP クライアントエラー: "@ + decimal(code as nat)
}

/// Message when every attempt has failed.
pub open spec fn retries_exhausted_message() -> Seq<char> {
    "最大リトライ回数を超えても送信できませんでした"@
}

/// After a failed attempt that is not a `429` or a client error: wait
/// `2 * attempt` seconds and try again, or give up after the last attempt.
pub open spec fn backoff_step(attempt: u32) -> StepModel {
    if attempt < MAX_RETRIES {
        StepModel::Retry { wait_secs: (2 * attempt) as u64, next_attempt: (attempt + 1) as u32 }
    } else {
        StepModel::Fail { wait_secs: 0, message: retries_exhausted_message() }
    }
}

/// The step after attempt `attempt` came to `outcome`: 200 and 204 are delivered;
/// a `429` waits its `Retry-After` and counts as an attempt; any other 4xx fails at
/// once; anything else backs off.
pub open spec fn step_of(attempt: u32, outcome: Attempt) -> StepModel {
    match outcome {
        Attempt::Response { status } => {
            if status == 200 || status == 204 {
                StepModel::Delivered
            } else {
                backoff_step(attempt)
            }
        },
        Attempt::ErrorStatus { code, retry_after } => {
            if code == 429 {
                let wait = retry_after_secs(retry_after.deep_view());
                if attempt < MAX_RETRIES {
                    StepModel::Retry { wait_secs: wait, next_attempt: (attempt + 1) as u32 }
                } else {
                    StepModel::Fail { wait_secs: wait, message: retries_exhausted_message() }
                }
            } else if 400 <= code < 500 {
                StepModel::Fail { wait_secs: 0, message: client_error_message(code) }
            } else {
                backoff_step(attempt)
            }
        },
        Attempt::Transport => backoff_step(attempt),
    }
}

/// The message when every attempt has failed.
pub fn retries_exhausted() -> (r: String)
    ensures
        r@ == retries_exhausted_message(),
{
    "最大リトライ回数を超えても送信できませんでした".to_owned()
}

fn backoff(attempt: u32) -> (r: SendStep)
    requires
        1 <= attempt <= MAX_RETRIES,
    ensures
        r@ == backoff_step(attempt),
{
    if attempt < MAX_RETRIES {
        SendStep::Retry { wait_secs: 2 * attempt as u64, next_attempt: attempt + 1 }
    } else {
        SendStep::Fail { wait_secs: 0, message: retries_exhausted() }
    }
}

/// Decides what follows attempt `attempt` (1 ..= `MAX_RETRIES`) of posting a notification.
pub fn next_step(attempt: u32, outcome: &Attempt) -> (r: SendStep)
    requires
        1 <= attempt <= MAX_RETRIES,
    ensures
        r@ == step_of(attempt, *outcome),
{
    match outcome {
        Attempt::Response { status } => {
            if *status == 200 || *status == 204 {
                SendStep::Delivered
            } else {
                backoff(attempt)
            }
        },
        Attempt::ErrorStatus { code, retry_after } => {
            if *code == 429 {
                let header: Option<&str> = match retry_after {
                    Some(h) => Some(h.as_str()),
                    None => None,
                };
                let wait = retry_after_delay(header);
                if attempt < MAX_RETRIES {
                    SendStep::Retry { wait_secs: wait, next_attempt: attempt + 1 }
                } else {
                    SendStep::Fail { wait_secs: wait, message: retries_exhausted() }
                }
            } else if 400 <= *code && *code < 500 {
                let mut message = "HTTP クライアントエラー: ".to_owned();
                append_decimal(&mut message, *code as u64);
                SendStep::Fail { wait_secs: 0, message }
            } else {
                backoff(attempt)
            }
        },
        Attempt::Transport => backoff(attempt),
    }
}

/// Attempts stay within `MAX_RETRIES`: a retry always moves on to the next
/// attempt and never past the last one, and a client error other than `429` is
/// never retried.
pub proof fn lemma_attempts_bounded(attempt: u32, outcome: Attempt)
    requires
        1 <= attempt <= MAX_RETRIES,
    ensures
        step_of(attempt, outcome) matches StepModel::Retry { next_attempt, .. } ==> next_attempt
            == attempt + 1 && next_attempt <= MAX_RETRIES,
        attempt == MAX_RETRIES ==> !(step_of(attempt, outcome) is Retry),
        outcome matches Attempt::ErrorStatus { code, .. } && 400 <= code < 500 && code != 429
            ==> step_of(attempt, outcome) is Fail,
{
}

/// The server accepted the notification: a 200 or a 204.
pub open spec fn is_success(outcome: Attempt) -> bool {
    outcome matches Attempt::Response { status } && (status == 200 || status == 204)
}

/// A client error that ends the delivery at once: a 4xx other than 429.
pub open spec fn is_client_error(outcome: Attempt) -> bool {
    outcome matches Attempt::ErrorStatus { code, .. } && 400 <= code < 500 && code != 429
}

/// A delivery that starts at attempt `attempt`, whose POSTs come to `outcomes` in
/// turn: whether it ends delivered, and how many POSTs it makes.
pub open spec fn run_of(attempt: u32, outcomes: Seq<Attempt>) -> (bool, nat)
    decreases outcomes.len(),
{
    if outcomes.len() == 0 {
        (false, 0)
    } else {
        match step_of(attempt, outcomes[0]) {
            StepModel::Delivered => (true, 1),
            StepModel::Fail { .. } => (false, 1),
            StepModel::Retry { next_attempt, .. } => {
                let rest = run_of(next_attempt, outcomes.drop_first());
                (rest.0, rest.1 + 1)
            },
        }
    }
}

/// The POST at index `i` is a success and none before it succeeded or hit a client error.
pub open spec fn delivered_at(outcomes: Seq<Attempt>, i: int) -> bool {
    &&& 0 <= i < outcomes.len()
    &&& is_success(outcomes[i])
    &&& forall|j: int| 0 <= j < i ==> !is_success(outcomes[j]) && !is_client_error(outcomes[j])
}

proof fn lemma_run_from(attempt: u32, outcomes: Seq<Attempt>)
    requires
        1 <= attempt <= MAX_RETRIES,
        outcomes.len() >= MAX_RETRIES - attempt + 1,
    ensures
        1 <= run_of(attempt, outcomes).1 <= MAX_RETRIES - attempt + 1,
        run_of(attempt, outcomes).0 ==> delivered_at(outcomes, run_of(attempt, outcomes).1 - 1),
        forall|i: int| 0 <= i <= MAX_RETRIES - attempt && #[trigger] delivered_at(outcomes, i)
            ==> run_of(attempt, outcomes).0,
    decreases MAX_RETRIES - attempt,
{
    let first = outcomes[0];
    let rest = outcomes.drop_first();
    if !is_success(first) && !is_client_error(first) && attempt < MAX_RETRIES {
        lemma_run_from((attempt + 1) as u32, rest);
        assert(step_of(attempt, first) is Retry);
        if run_of(attempt, outcomes).0 {
            let n = run_of(attempt, outcomes).1;
            assert(delivered_at(rest, n - 2));
            assert forall|j: int| 0 <= j < n - 1 implies !is_success(outcomes[j])
                && !is_client_error(outcomes[j]) by {
                if j > 0 {
                    assert(outcomes[j] == rest[j - 1]);
                }
            }
        }
        assert forall|i: int| 0 <= i <= MAX_RETRIES - attempt && #[trigger] delivered_at(outcomes, i)
            implies run_of(attempt, outcomes).0 by {
            if i == 0 {
                assert(is_success(outcomes[0]));
            } else {
                assert forall|j: int| 0 <= j < i - 1 implies !is_success(rest[j]) && !is_client_error(
                    rest[j],
                ) by {
                    assert(rest[j] == outcomes[j + 1]);
                }
                assert(rest[i - 1] == outcomes[i]);
                assert(delivered_at(rest, i - 1));
            }
        }
    } else {
        assert forall|i: int| 0 <= i <= MAX_RETRIES - attempt && #[trigger] delivered_at(outcomes, i)
            implies run_of(attempt, outcomes).0 by {
            if i > 0 {
                assert(!is_success(outcomes[0]) && !is_client_error(outcomes[0]));
            }
        }
    }
}

/// A delivery posts at most `MAX_RETRIES` times, and ends delivered exactly when
/// some POST gets a 200 or 204 before any POST has met a client error (a 4xx other
/// than 429); it then makes no POST after that first success.
pub proof fn lemma_delivery_run(outcomes: Seq<Attempt>)
    requires
        outcomes.len() >= MAX_RETRIES,
    ensures
        1 <= run_of(1, outcomes).1 <= MAX_RETRIES,
        run_of(1, outcomes).0 <==> exists|i: int| 0 <= i < MAX_RETRIES && delivered_at(outcomes, i),
        run_of(1, outcomes).0 ==> delivered_at(outcomes, run_of(1, outcomes).1 - 1),
{
    lemma_run_from(1, outcomes);
    if run_of(1, outcomes).0 {
        assert(delivered_at(outcomes, run_of(1, outcomes).1 - 1));
    }
}

} // verus!
