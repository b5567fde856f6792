use docmill::engine::OcrFailure;
use docmill::remote::{retry, Next, Reply};

/// Send a request until it is answered or given up.
fn retry_with_sleep(
    url: &str,
    max_retries: u32,
    mut send: impl FnMut() -> Reply,
    mut sleep: impl FnMut(u64),
) -> Result<String, OcrFailure> {
    let mut attempt = 0;
    loop {
        match retry(url, attempt, max_retries, send()) {
            Next::Done { body } => return Ok(body),
            Next::Fail { failure } => return Err(failure),
            Next::Again { attempt: next, delay_secs } => {
                sleep(delay_secs);
                attempt = next;
            }
        }
    }
}

fn status(code: u16, body: &str) -> Reply {
    Reply::Status { code, body: body.to_string() }
}

#[test]
fn retries_only_transient_statuses_with_bounded_backoff() {
    for code in [408, 429, 500, 503] {
        let mut calls = 0;
        let mut delays = Vec::new();
        let out = retry_with_sleep(
            "endpoint",
            3,
            || {
                calls += 1;
                if calls == 4 {
                    status(200, "ok")
                } else {
                    status(code, "retry")
                }
            },
            |delay| delays.push(delay),
        );
        assert_eq!(out.unwrap(), "ok");
        assert_eq!(delays, [2, 4, 8]);
    }
    for code in [400, 401, 403, 404, 413, 415, 422] {
        let mut calls = 0;
        let out = retry_with_sleep(
            "endpoint",
            3,
            || {
                calls += 1;
                status(code, "error")
            },
            |_| panic!("must not sleep"),
        );
        assert!(out.is_err());
        assert_eq!(calls, 1);
    }
}

#[test]
fn zero_retries_means_one_attempt() {
    let mut calls = 0;
    assert!(retry_with_sleep(
        "endpoint",
        0,
        || {
            calls += 1;
            status(503, "")
        },
        |_| panic!("no retries")
    )
    .is_err());
    assert_eq!(calls, 1);
}

#[test]
fn local_timeout_does_not_repeat_the_request() {
    let mut calls = 0;
    let result = retry_with_sleep(
        "endpoint",
        3,
        || {
            calls += 1;
            Reply::TimedOut
        },
        |_| panic!("a timeout must fall through immediately"),
    );
    assert!(matches!(result, Err(OcrFailure::Transient(_))));
    assert_eq!(calls, 1);
}

#[test]
fn transport_failures_are_repeated() {
    let mut delays = Vec::new();
    let out = retry_with_sleep(
        "http://h",
        2,
        || Reply::Transport { error: "refused".to_string() },
        |delay| delays.push(delay),
    );
    assert_eq!(delays, [2, 4]);
    match out {
        Err(OcrFailure::Transient(message)) => {
            assert!(message.contains("giving up after 3 attempts"), "{message}");
            assert!(message.contains("refused"), "{message}");
        }
        other => panic!("{other:?}"),
    }
}

#[test]
fn statuses_say_who_failed() {
    assert!(matches!(
        retry("u", 0, 3, status(401, "")),
        Next::Fail { failure: OcrFailure::Engine(_) }
    ));
    assert!(matches!(
        retry("u", 0, 3, status(422, "")),
        Next::Fail { failure: OcrFailure::Image(_) }
    ));
}
