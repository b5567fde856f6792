//! How requests to a remote engine are repeated. Sending a request and
//! waiting are the caller's; what follows from a reply is decided here.

use vstd::prelude::*;

use crate::engine::OcrFailure;
use crate::text;

verus! {

/// What came of a request.
#[derive(Debug)]
pub enum Reply {
    /// The server answered with a status and a body.
    Status { code: u16, body: String },
    /// The time for the request was used up.
    TimedOut,
    /// The request failed in another way.
    Transport { error: String },
}

/// What is to be done after a reply.
#[derive(Debug)]
pub enum Next {
    /// This is the body of the answer.
    Done { body: String },
    /// The engine call has failed.
    Fail { failure: OcrFailure },
    /// Wait, then send the request again.
    Again { attempt: u32, delay_secs: u64 },
}

/// Statuses after which a request may succeed another time.
pub open spec fn transient(code: u16) -> bool {
    code == 408 || code == 429 || 500 <= code <= 599
}

/// Statuses that speak of the image and not of the engine.
pub open spec fn about_image(code: u16) -> bool {
    code == 413 || code == 415 || code == 422
}

/// The seconds before a repetition, counted from 1: 2, 4, 8, 16, then 30.
pub open spec fn delay(attempt: int) -> int {
    if attempt <= 1 {
        2
    } else if attempt == 2 {
        4
    } else if attempt == 3 {
        8
    } else if attempt == 4 {
        16
    } else {
        30
    }
}

/// A line end as a space.
pub open spec fn unbroken(c: char) -> char {
    if c == '\n' || c == '\r' {
        ' '
    } else {
        c
    }
}

/// The start of a body in one line.
pub open spec fn excerpt(body: Seq<char>) -> Seq<char> {
    let n = if body.len() <= 300 {
        body.len() as int
    } else {
        300
    };
    body.take(n).map_values(|c: char| unbroken(c))
}

/// The message for a status other than success.
pub open spec fn status_message(url: Seq<char>, code: u16, body: Seq<char>) -> Seq<char> {
    url + ": HTTP "@ + text::decimal(code as nat) + ": "@ + excerpt(body)
}

/// The message when the last attempt has failed.
pub open spec fn giving_up(attempt: u32, message: Seq<char>) -> Seq<char> {
    "giving up after "@ + text::decimal((attempt + 1) as nat) + " attempts: "@ + message
}

/// The contents of a [`Next`].
pub enum Verdict {
    Done { body: Seq<char> },
    Image { message: Seq<char> },
    Engine { message: Seq<char> },
    Transient { message: Seq<char> },
    Again { attempt: u32, delay_secs: u64 },
}

impl View for Next {
    type V = Verdict;

    open spec fn view(&self) -> Verdict {
        match self {
            Next::Done { body } => Verdict::Done { body: body@ },
            Next::Fail { failure } => match failure {
                OcrFailure::Engine(m) => Verdict::Engine { message: m@ },
                OcrFailure::Image(m) => Verdict::Image { message: m@ },
                OcrFailure::Transient(m) => Verdict::Transient { message: m@ },
            },
            Next::Again { attempt, delay_secs } => Verdict::Again {
                attempt: *attempt,
                delay_secs: *delay_secs,
            },
        }
    }
}

/// A failure that may pass: try again, or give up after the last attempt.
pub open spec fn repeated(attempt: u32, max_retries: u32, message: Seq<char>) -> Verdict {
    if attempt >= max_retries {
        Verdict::Transient { message: giving_up(attempt, message) }
    } else {
        Verdict::Again {
            attempt: (attempt + 1) as u32,
            delay_secs: delay(attempt + 1) as u64,
        }
    }
}

/// What follows from the reply to an attempt; the first is number 0.
pub open spec fn verdict(url: Seq<char>, attempt: u32, max_retries: u32, reply: Reply) -> Verdict {
    match reply {
        Reply::Status { code, body } => if code == 200 {
            Verdict::Done { body: body@ }
        } else if transient(code) {
            repeated(attempt, max_retries, status_message(url, code, body@))
        } else if about_image(code) {
            Verdict::Image { message: status_message(url, code, body@) }
        } else {
            Verdict::Engine { message: status_message(url, code, body@) }
        },
        Reply::TimedOut => Verdict::Transient {
            message: url + ": request timeout; raise DOCMILL_TIMEOUT if needed"@,
        },
        Reply::Transport { error } => repeated(attempt, max_retries, url + ": "@ + error@),
    }
}

fn excerpt_of(body: &str) -> (r: Vec<char>)
    ensures
        r@ == excerpt(body@),
{
    let v = text::chars_of(body);
    let mut out: Vec<char> = Vec::new();
    let mut i: usize = 0;
    let ghost f = |c: char| unbroken(c);
    while i < v.len() && i < 300
        invariant
            i <= v@.len(),
            i <= 300,
            v@ == body@,
            f == (|c: char| unbroken(c)),
            out@ == v@.take(i as int).map_values(f),
        decreases v@.len() - i,
    {
        let c = v[i];
        out.push(
            if c == '\n' || c == '\r' {
                ' '
            } else {
                c
            },
        );
        i += 1;
        assert(v@.take(i as int).map_values(f) =~= v@.take(i - 1).map_values(f).push(
            f(v@[i - 1]),
        ));
    }
    out
}

fn status_message_of(url: &str, code: u16, body: &str) -> (r: String)
    ensures
        r@ == status_message(url@, code, body@),
{
    let mut v = text::chars_of(url);
    text::append_str(&mut v, ": HTTP ");
    text::append(&mut v, &text::decimal_of(code as u64));
    text::append_str(&mut v, ": ");
    text::append(&mut v, &excerpt_of(body));
    text::string_of(&v)
}

fn repeat(attempt: u32, max_retries: u32, message: String) -> (r: Next)
    ensures
        r@ == repeated(attempt, max_retries, message@),
{
    if attempt >= max_retries {
        let mut v: Vec<char> = Vec::new();
        text::append_str(&mut v, "giving up after ");
        assert(v@ =~= "giving up after "@);
        text::append(&mut v, &text::decimal_of(attempt as u64 + 1));
        text::append_str(&mut v, " attempts: ");
        text::append_str(&mut v, &message);
        Next::Fail { failure: OcrFailure::Transient(text::string_of(&v)) }
    } else {
        let next: u32 = attempt + 1;
        let delay_secs: u64 = if next == 1 {
            2
        } else if next == 2 {
            4
        } else if next == 3 {
            8
        } else if next == 4 {
            16
        } else {
            30
        };
        Next::Again { attempt: next, delay_secs }
    }
}

/// Decide what follows from the reply to an attempt; the first is number 0.
pub fn retry(url: &str, attempt: u32, max_retries: u32, reply: Reply) -> (r: Next)
    ensures
        r@ == verdict(url@, attempt, max_retries, reply),
{
    match reply {
        Reply::Status { code, body } => {
            if code == 200 {
                return Next::Done { body };
            }
            let message = status_message_of(url, code, &body);
            if code == 408 || code == 429 || (500 <= code && code <= 599) {
                repeat(attempt, max_retries, message)
            } else if code == 413 || code == 415 || code == 422 {
                Next::Fail { failure: OcrFailure::Image(message) }
            } else {
                Next::Fail { failure: OcrFailure::Engine(message) }
            }
        },
        Reply::TimedOut => {
            let mut v = text::chars_of(url);
            text::append_str(&mut v, ": request timeout; raise DOCMILL_TIMEOUT if needed");
            Next::Fail { failure: OcrFailure::Transient(text::string_of(&v)) }
        },
        Reply::Transport { error } => {
            let mut v = text::chars_of(url);
            text::append_str(&mut v, ": ");
            text::append_str(&mut v, &error);
            repeat(attempt, max_retries, text::string_of(&v))
        },
    }
}

/// How many requests are sent when the replies come one after another.
pub open spec fn requests_sent(
    url: Seq<char>,
    attempt: u32,
    max_retries: u32,
    replies: Seq<Reply>,
) -> nat
    decreases replies.len(),
{
    if replies.len() == 0 {
        0
    } else {
        match verdict(url, attempt, max_retries, replies[0]) {
            Verdict::Again { attempt: next, .. } => 1 + requests_sent(
                url,
                next,
                max_retries,
                replies.skip(1),
            ),
            _ => 1,
        }
    }
}

/// A call sends one request more than the retries at most: without retries it
/// sends one.
pub proof fn law_retries_are_bounded(
    url: Seq<char>,
    attempt: u32,
    max_retries: u32,
    replies: Seq<Reply>,
)
    requires
        attempt <= max_retries,
    ensures
        requests_sent(url, attempt, max_retries, replies) <= max_retries - attempt + 1,
    decreases replies.len(),
{
    if replies.len() > 0 {
        match verdict(url, attempt, max_retries, replies[0]) {
            Verdict::Again { attempt: next, .. } => {
                law_retries_are_bounded(url, next, max_retries, replies.skip(1));
            },
            _ => {},
        }
    }
}

/// Only failures that may pass are repeated, after a wait of 2 to 30 seconds;
/// a timeout never is.
pub proof fn law_only_transient_failures_are_repeated(
    url: Seq<char>,
    attempt: u32,
    max_retries: u32,
    reply: Reply,
)
    requires
        verdict(url, attempt, max_retries, reply) is Again,
    ensures
        attempt < max_retries,
        match reply {
            Reply::Status { code, .. } => transient(code),
            Reply::TimedOut => false,
            Reply::Transport { .. } => true,
        },
        2 <= verdict(url, attempt, max_retries, reply)->delay_secs <= 30,
{
}

} // verus!
