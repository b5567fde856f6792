//! What becomes of engines that fail, and how often and after which waits a
//! request is repeated.

use vstd::prelude::*;

use crate::engine;
use crate::engine::{Action, Event, OcrFailure, Runner, Slot};
use crate::remote;
use crate::remote::{Reply, Verdict};
use crate::text;

verus! {

broadcast use vstd::string::group_string_axioms;

/// Engines are asked in their order: the first at the start, and after one
/// that gave nothing the next, until there is none left. A cached result and
/// an answer are the outcome.
pub proof fn law_engines_are_asked_in_order(r: Runner, slot: usize, failure: OcrFailure, now: u64)
    requires
        slot < r.slots.len(),
        r.slots.len() <= usize::MAX,
    ensures
        engine::step(r, Event::Start).1 == (Action::LookUp { slot: 0 }),
        engine::step(r, Event::Hit { slot }).1 == (Action::UseCached { slot }),
        engine::step(r, Event::Answered { slot }).1 == (Action::UseAnswer { slot }),
        slot + 1 < r.slots.len() ==> (engine::step(
            r,
            Event::Failed { slot, failure, now },
        ).1 matches Action::LookUp { slot: next } && next == slot + 1),
        slot + 1 == r.slots.len() ==> engine::step(r, Event::Failed { slot, failure, now }).1
            == Action::GiveUp,
        engine::step(r, Event::Miss { slot, now }).1 == (Action::Call { slot }) || engine::step(
            r,
            Event::Miss { slot, now },
        ).1 == engine::step(r, Event::Failed { slot, failure, now }).1,
{
}

/// Without engines there is nothing to ask.
pub proof fn law_an_empty_chain_gives_up(r: Runner)
    requires
        r.slots.len() == 0,
    ensures
        engine::step(r, Event::Start).1 == Action::GiveUp,
{
}

/// An engine that is broken is never called again; a failure with one image
/// says nothing of the engine.
pub proof fn law_broken_engines_leave(r: Runner, slot: usize, message: String, now: u64, later: u64)
    requires
        slot < r.slots.len(),
    ensures
        ({
            let broken = engine::step(
                r,
                Event::Failed { slot, failure: OcrFailure::Engine(message), now },
            ).0;
            let passed = engine::step(
                r,
                Event::Failed { slot, failure: OcrFailure::Image(message), now },
            ).0;
            &&& engine::step(broken, Event::Miss { slot, now: later }).1 != (Action::Call { slot })
            &&& passed.slots == r.slots && passed.cooldown == r.cooldown
        }),
{
    let passed = engine::step(
        r,
        Event::Failed { slot, failure: OcrFailure::Image(message), now },
    ).0;
    assert(passed.slots =~= r.slots);
}

/// What happens to one engine changes nothing for another, and nothing changes
/// how long engines rest.
pub proof fn law_engines_do_not_affect_each_other(r: Runner, e: Event, other: int)
    requires
        engine::sensible(r, e),
        0 <= other < r.slots.len(),
        match e {
            Event::Start => true,
            Event::Hit { slot } => true,
            Event::Miss { slot, .. } => slot != other,
            Event::Answered { slot } => slot != other,
            Event::Failed { slot, .. } => slot != other,
        },
    ensures
        engine::step(r, e).0.slots[other] == r.slots[other],
        engine::step(r, e).0.slots.len() == r.slots.len(),
        engine::step(r, e).0.cooldown == r.cooldown,
{
}

/// An engine that is called after its rest and fails again rests anew at once:
/// only an answer starts the count anew.
pub proof fn law_a_second_rest_comes_at_once(
    r: Runner,
    slot: usize,
    rest: u64,
    asked: u64,
    message: String,
    now: u64,
)
    requires
        slot < r.slots.len(),
        r.cooldown == Some(rest),
        now + rest <= u64::MAX,
        !r.slots[slot as int].dead,
        3 <= r.slots[slot as int].consecutive_failures < u32::MAX,
        engine::step(r, Event::Miss { slot, now: asked }).1 == (Action::Call { slot }),
    ensures
        ({
            let called = engine::step(r, Event::Miss { slot, now: asked }).0;
            let failed = engine::step(
                called,
                Event::Failed { slot, failure: OcrFailure::Transient(message), now },
            ).0;
            &&& called.slots[slot as int].retry_at is None
            &&& failed.slots[slot as int].retry_at == Some((now + rest) as u64)
            &&& !failed.slots[slot as int].dead
        }),
{
}

/// The report of a failure names the engine and says why it failed; what
/// follows tells an engine that stays from one that leaves or rests.
pub proof fn law_reports_name_engine_and_reason(
    id: Seq<char>,
    failure: OcrFailure,
    s: Slot,
    cooldown: Option<u64>,
)
    ensures
        ({
            let r = engine::notice(id, failure, s, cooldown);
            let head = "docmill: "@ + id + ": "@ + failure.text();
            &&& head.len() <= r.len()
            &&& r.take(head.len() as int) == head
            &&& failure is Transient && s.consecutive_failures < 3 <==> r.len() == head.len()
        }),
{
    reveal_strlit(" — disabling this engine for the run");
    reveal_strlit(" — trying next engine");
    reveal_strlit(" — retrying after ");
    reveal_strlit("s cooldown");
    let r = engine::notice(id, failure, s, cooldown);
    let head = "docmill: "@ + id + ": "@ + failure.text();
    assert(r.take(head.len() as int) =~= head);
}

/// Each wait is twice the one before, from two seconds up to half a minute.
pub proof fn law_waits_double(attempt: int)
    requires
        1 <= attempt,
    ensures
        remote::delay(1) == 2,
        2 * remote::delay(attempt) <= 30 ==> remote::delay(attempt + 1) == 2 * remote::delay(
            attempt,
        ),
        2 * remote::delay(attempt) > 30 ==> remote::delay(attempt + 1) == 30,
{
}

/// What a status means: success gives the body; a server that is busy or
/// broken is asked again; a request about an image that is too large or cannot
/// be read fails for this image; any other status speaks of the engine.
pub proof fn law_what_a_status_means(
    url: Seq<char>,
    attempt: u32,
    max_retries: u32,
    code: u16,
    body: String,
)
    ensures
        ({
            let v = remote::verdict(url, attempt, max_retries, Reply::Status { code, body });
            &&& v is Done <==> code == 200
            &&& code == 200 ==> v == (Verdict::Done { body: body@ })
            &&& v is Again <==> (code == 408 || code == 429 || 500 <= code <= 599) && attempt
                < max_retries
            &&& v is Transient <==> (code == 408 || code == 429 || 500 <= code <= 599) && attempt
                >= max_retries
            &&& v is Image <==> code == 413 || code == 415 || code == 422
        }),
{
}

/// A request that ran out of time is not repeated; one that did not get
/// through is, as long as attempts are left.
pub proof fn law_lost_requests(url: Seq<char>, attempt: u32, max_retries: u32, error: String)
    ensures
        remote::verdict(url, attempt, max_retries, Reply::TimedOut) is Transient,
        attempt < max_retries ==> remote::verdict(
            url,
            attempt,
            max_retries,
            Reply::Transport { error },
        ) is Again,
        attempt >= max_retries ==> remote::verdict(
            url,
            attempt,
            max_retries,
            Reply::Transport { error },
        ) is Transient,
{
}

/// Attempts are counted one by one, and the wait before one is the wait for
/// its number.
pub proof fn law_attempts_are_counted(url: Seq<char>, attempt: u32, max_retries: u32, reply: Reply)
    ensures
        remote::verdict(url, attempt, max_retries, reply) matches Verdict::Again {
            attempt: next,
            delay_secs,
        } ==> next == attempt + 1 && delay_secs == remote::delay(next as int),
{
}

/// A reply after which a request is sent again if attempts are left.
pub open spec fn passing(reply: Reply) -> bool {
    match reply {
        Reply::Status { code, .. } => code == 408 || code == 429 || 500 <= code <= 599,
        Reply::TimedOut => false,
        Reply::Transport { .. } => true,
    }
}

/// As long as failures may pass, all attempts are made.
pub proof fn law_all_attempts_are_made(
    url: Seq<char>,
    attempt: u32,
    max_retries: u32,
    replies: Seq<Reply>,
)
    requires
        attempt <= max_retries,
        replies.len() > max_retries - attempt,
        forall|i: int| 0 <= i < replies.len() ==> passing(#[trigger] replies[i]),
    ensures
        remote::requests_sent(url, attempt, max_retries, replies) == max_retries - attempt + 1,
    decreases replies.len(),
{
    assert(passing(replies[0]));
    if attempt < max_retries {
        let rest = replies.skip(1);
        assert forall|i: int| 0 <= i < rest.len() implies passing(#[trigger] rest[i]) by {
            assert(rest[i] == replies[i + 1]);
        }
        law_all_attempts_are_made(url, (attempt + 1) as u32, max_retries, rest);
    }
}

/// A success or a failure that does not pass ends a call with one request.
pub proof fn law_one_request_is_enough(
    url: Seq<char>,
    attempt: u32,
    max_retries: u32,
    replies: Seq<Reply>,
)
    requires
        replies.len() > 0,
        !passing(replies[0]),
    ensures
        remote::requests_sent(url, attempt, max_retries, replies) == 1,
{
}

/// An excerpt is the start of a body, at most so long, in which each end of a
/// line is a space and all else stays.
pub proof fn law_excerpts_are_one_line(body: Seq<char>, i: int)
    requires
        0 <= i < body.len(),
    ensures
        remote::excerpt(body).len() == if body.len() <= 300 {
            body.len() as int
        } else {
            300
        },
        i < 300 ==> remote::excerpt(body)[i] == (if body[i] == '\n' || body[i] == '\r' {
            ' '
        } else {
            body[i]
        }),
{
}

/// A message about a status begins with the URL and ends in the excerpt, with
/// the status between them.
pub proof fn law_status_messages(url: Seq<char>, code: u16, body: Seq<char>)
    ensures
        ({
            let m = remote::status_message(url, code, body);
            let number = text::decimal(code as nat);
            let n = url.len() + 7;
            &&& m.len() == n + number.len() + 2 + remote::excerpt(body).len()
            &&& m.take(url.len() as int) == url
            &&& m.subrange(n as int, (n + number.len()) as int) == number
            &&& m.skip((n + number.len() + 2) as int) == remote::excerpt(body)
        }),
{
    reveal_strlit(": HTTP ");
    reveal_strlit(": ");
    let m = remote::status_message(url, code, body);
    let number = text::decimal(code as nat);
    let n = url.len() + 7;
    assert(m.take(url.len() as int) =~= url);
    assert(m.subrange(n as int, (n + number.len()) as int) =~= number);
    assert(m.skip((n + number.len() + 2) as int) =~= remote::excerpt(body));
}

/// Giving up tells the number of requests that were sent, and why the last of
/// them failed.
pub proof fn law_giving_up_counts_requests(
    url: Seq<char>,
    attempt: u32,
    max_retries: u32,
    code: u16,
    body: String,
)
    requires
        attempt >= max_retries,
        code == 408 || code == 429 || 500 <= code <= 599,
    ensures
        ({
            let v = remote::verdict(url, attempt, max_retries, Reply::Status { code, body });
            let why = remote::status_message(url, code, body@);
            let number = text::decimal((attempt + 1) as nat);
            v matches Verdict::Transient { message } && message == "giving up after "@ + number
                + " attempts: "@ + why
        }),
{
}

} // verus!
