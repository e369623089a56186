use discord_send_notifier::send::{next_step, retry_after_delay, Attempt, SendStep, MAX_RETRIES};

fn retry(step: SendStep) -> (u64, u32) {
    match step {
        SendStep::Retry { wait_secs, next_attempt } => (wait_secs, next_attempt),
        _ => panic!("expected a retry"),
    }
}

fn fail(step: SendStep) -> (u64, String) {
    match step {
        SendStep::Fail { wait_secs, message } => (wait_secs, message),
        _ => panic!("expected a failure"),
    }
}

fn status_error(code: u16, retry_after: Option<&str>) -> Attempt {
    Attempt::ErrorStatus { code, retry_after: retry_after.map(|s| s.to_string()) }
}

#[test]
fn success_statuses_are_delivered() {
    assert!(matches!(next_step(1, &Attempt::Response { status: 200 }), SendStep::Delivered));
    assert!(matches!(next_step(3, &Attempt::Response { status: 204 }), SendStep::Delivered));
}

#[test]
fn other_responses_back_off() {
    assert_eq!(retry(next_step(1, &Attempt::Response { status: 201 })), (2, 2));
    assert_eq!(retry(next_step(2, &status_error(503, None))), (4, 3));
    assert_eq!(retry(next_step(1, &Attempt::Transport)), (2, 2));
    let (wait, message) = fail(next_step(MAX_RETRIES, &Attempt::Transport));
    assert_eq!(wait, 0);
    assert_eq!(message, "最大リトライ回数を超えても送信できませんでした");
}

#[test]
fn rate_limit_waits_retry_after() {
    assert_eq!(retry(next_step(1, &status_error(429, Some(" 5 ")))), (5, 2));
    assert_eq!(retry(next_step(2, &status_error(429, Some("soon")))), (2, 3));
    assert_eq!(retry(next_step(1, &status_error(429, None))), (2, 2));
    let (wait, message) = fail(next_step(3, &status_error(429, Some("7"))));
    assert_eq!(wait, 7);
    assert_eq!(message, "最大リトライ回数を超えても送信できませんでした");
}

#[test]
fn client_errors_stop_at_once() {
    let (wait, message) = fail(next_step(1, &status_error(404, None)));
    assert_eq!(wait, 0);
    assert_eq!(message, "HTTP クライアントエラー: 404");
    let (_, message) = fail(next_step(2, &status_error(400, Some("3"))));
    assert_eq!(message, "HTTP クライアントエラー: 400");
}

#[test]
fn retry_after_parses_like_u64() {
    assert_eq!(retry_after_delay(Some("+7")), 7);
    assert_eq!(retry_after_delay(Some(" 12\t")), 12);
    assert_eq!(retry_after_delay(Some("-1")), 2);
    assert_eq!(retry_after_delay(Some("+")), 2);
    assert_eq!(retry_after_delay(Some("")), 2);
    assert_eq!(retry_after_delay(Some("1 2")), 2);
    assert_eq!(retry_after_delay(Some("18446744073709551615")), u64::MAX);
    assert_eq!(retry_after_delay(Some("18446744073709551616")), 2);
    assert_eq!(retry_after_delay(None), 2);
}

/// Runs the retry decisions over `outcomes` as the program's loop does:
/// whether the delivery succeeds and how many POSTs it makes.
fn run(outcomes: Vec<Attempt>) -> (bool, usize) {
    let mut attempt = 1;
    let mut posts = 0;
    for outcome in outcomes.iter() {
        posts += 1;
        match next_step(attempt, outcome) {
            SendStep::Delivered => return (true, posts),
            SendStep::Fail { .. } => return (false, posts),
            SendStep::Retry { next_attempt, .. } => attempt = next_attempt,
        }
    }
    (false, posts)
}

#[test]
fn delivery_runs() {
    assert_eq!(run(vec![Attempt::Transport, status_error(503, None), Attempt::Response { status: 204 }]), (true, 3));
    assert_eq!(run(vec![status_error(429, Some("0")), Attempt::Response { status: 200 }, Attempt::Transport]), (true, 2));
    assert_eq!(run(vec![Attempt::Transport, status_error(403, None), Attempt::Response { status: 200 }]), (false, 2));
    assert_eq!(
        run(vec![Attempt::Transport, Attempt::Transport, Attempt::Transport, Attempt::Response { status: 200 }]),
        (false, 3)
    );
}
