//! OCR engines in a chain: what one recognised, how a call of one can fail,
//! and which one is asked next.
//!
//! Each engine gets a cache lookup and then, unless it is out of the chain, a
//! call, in the configured order. So a cached result of a later engine never
//! stands in for an earlier engine that works. Lookups, calls and the clock
//! are the caller's; the runner decides.

use vstd::prelude::*;

use crate::cache::{Cached, CachedOcr};
use crate::text;

verus! {

/// How an engine call failed.
#[derive(Debug, PartialEq, Eq)]
pub enum OcrFailure {
    /// The engine itself is unusable: it is not called again.
    Engine(String),
    /// Only this image failed: the next engine is tried.
    Image(String),
    /// A request failed after its own retries: a few in a row take the engine
    /// out of the chain.
    Transient(String),
}

impl OcrFailure {
    /// The message of a failure of any kind.
    pub open spec fn text(&self) -> Seq<char> {
        match self {
            OcrFailure::Engine(m) => m@,
            OcrFailure::Image(m) => m@,
            OcrFailure::Transient(m) => m@,
        }
    }

    /// The failure's message.
    pub fn message(&self) -> (r: &str)
        ensures
            r@ == self.text(),
    {
        match self {
            OcrFailure::Engine(m) => m.as_str(),
            OcrFailure::Image(m) => m.as_str(),
            OcrFailure::Transient(m) => m.as_str(),
        }
    }
}

/// What an engine recognised: the text in reading order and, from an engine
/// that knows where its boxes lie, a rendering that keeps their layout.
#[derive(Debug, PartialEq, Eq)]
pub struct OcrText {
    pub text: String,
    pub grid: Option<String>,
}

impl OcrText {
    /// Text without a layout.
    pub fn plain(text: String) -> (r: OcrText)
        ensures
            r.text == text,
            r.grid is None,
    {
        OcrText { text, grid: None }
    }
}

/// An OCR engine. `cache_salt` holds every setting that changes what the
/// engine returns.
pub trait OcrEngine {
    fn id(&self) -> &'static str;

    fn cache_salt(&self) -> String;

    fn ocr(&mut self, bytes: &[u8], mimetype: &str) -> Result<OcrText, OcrFailure>;
}

/// A successful outcome. The text may be empty: there is none in the image.
#[derive(Debug, PartialEq, Eq)]
pub struct OcrOutcome {
    pub text: String,
    pub grid: Option<String>,
    pub engine: String,
    pub from_cache: bool,
}

/// The contents of an [`OcrOutcome`].
pub struct Outcome {
    pub text: Seq<char>,
    pub grid: Option<Seq<char>>,
    pub engine: Seq<char>,
    pub from_cache: bool,
}

impl View for OcrOutcome {
    type V = Outcome;

    open spec fn view(&self) -> Outcome {
        Outcome {
            text: self.text@,
            grid: text::opt_view(self.grid),
            engine: self.engine@,
            from_cache: self.from_cache,
        }
    }
}

impl OcrOutcome {
    /// The outcome that a cached result is.
    pub fn cached(hit: CachedOcr) -> (r: OcrOutcome)
        ensures
            r@ == (Outcome {
                text: hit@.text,
                grid: hit@.grid,
                engine: hit@.engine,
                from_cache: true,
            }),
    {
        OcrOutcome { text: hit.text, grid: hit.grid, engine: hit.engine, from_cache: true }
    }

    /// The outcome that an engine's answer is, and the result to cache: the
    /// same text, also when it is empty.
    pub fn fresh(engine: &str, answer: OcrText, now: u64) -> (r: (OcrOutcome, CachedOcr))
        ensures
            r.0@ == (Outcome {
                text: answer.text@,
                grid: text::opt_view(answer.grid),
                engine: engine@,
                from_cache: false,
            }),
            r.1@ == (Cached {
                text: answer.text@,
                grid: text::opt_view(answer.grid),
                engine: engine@,
                created: now,
            }),
    {
        let grid = match &answer.grid {
            Some(g) => Some(g.clone()),
            None => None,
        };
        let kept = CachedOcr {
            text: answer.text.clone(),
            grid,
            engine: engine.to_owned(),
            created: now,
        };
        (
            OcrOutcome {
                text: answer.text,
                grid: answer.grid,
                engine: engine.to_owned(),
                from_cache: false,
            },
            kept,
        )
    }
}

/// Transient failures in a row that take an engine out of the chain.
pub const DEAD_AFTER: u32 = 3;

/// What the runner knows of one engine.
#[derive(Debug, Clone, Copy, PartialEq, Eq, Structural)]
pub struct Slot {
    /// The engine is not called again.
    pub dead: bool,
    /// Transient failures since its last answer.
    pub consecutive_failures: u32,
    /// The engine is not called before this time.
    pub retry_at: Option<u64>,
}

/// The engines of a chain, in order. Times are in nanoseconds.
#[derive(Debug)]
pub struct OcrRunner {
    pub slots: Vec<Slot>,
    /// How long an engine rests that failed too often; without it such an
    /// engine leaves the chain.
    pub cooldown: Option<u64>,
}

/// The contents of an [`OcrRunner`].
pub struct Runner {
    pub slots: Seq<Slot>,
    pub cooldown: Option<u64>,
}

impl View for OcrRunner {
    type V = Runner;

    open spec fn view(&self) -> Runner {
        Runner { slots: self.slots@, cooldown: self.cooldown }
    }
}

/// What happened while the runner works on an image.
#[derive(Debug)]
pub enum Event {
    /// There is an image to read.
    Start,
    /// The cache has this engine's result.
    Hit { slot: usize },
    /// The cache does not have it, and this is the time.
    Miss { slot: usize, now: u64 },
    /// The engine answered.
    Answered { slot: usize },
    /// The engine failed, and this is the time after that.
    Failed { slot: usize, failure: OcrFailure, now: u64 },
}

/// What the runner wants done.
#[derive(Debug, Clone, Copy, PartialEq, Eq, Structural)]
pub enum Action {
    /// Look for this engine's result in the cache.
    LookUp { slot: usize },
    /// Let this engine read the image.
    Call { slot: usize },
    /// The cached result is the outcome.
    UseCached { slot: usize },
    /// The engine's answer is the outcome, and goes into the cache.
    UseAnswer { slot: usize },
    /// No engine could read the image.
    GiveUp,
}

/// An engine that is new to the chain.
pub open spec fn new_slot() -> Slot {
    Slot { dead: false, consecutive_failures: 0, retry_at: None }
}

/// The engine after this one.
pub open spec fn after(r: Runner, slot: int) -> Action {
    if slot + 1 < r.slots.len() {
        Action::LookUp { slot: (slot + 1) as usize }
    } else {
        Action::GiveUp
    }
}

/// An engine may be called at a time.
pub open spec fn available(s: Slot, now: u64) -> bool {
    !s.dead && (s.retry_at matches Some(t) ==> t <= now)
}

/// What is known of an engine after it failed at a time.
pub open spec fn failed_slot(s: Slot, cooldown: Option<u64>, failure: OcrFailure, now: u64) -> Slot {
    match failure {
        OcrFailure::Engine(_) => Slot { dead: true, ..s },
        OcrFailure::Image(_) => s,
        OcrFailure::Transient(_) => {
            let n = (s.consecutive_failures + 1) as u32;
            if n < DEAD_AFTER {
                Slot { consecutive_failures: n, ..s }
            } else {
                match cooldown {
                    Some(c) => Slot {
                        consecutive_failures: n,
                        retry_at: Some((now + c) as u64),
                        ..s
                    },
                    None => Slot { consecutive_failures: n, dead: true, ..s },
                }
            }
        },
    }
}

/// What an event does to the runner, and what the runner wants done then.
pub open spec fn step(r: Runner, e: Event) -> (Runner, Action) {
    match e {
        Event::Start => (r, after(r, -1)),
        Event::Hit { slot } => (r, Action::UseCached { slot }),
        Event::Miss { slot, now } => {
            let s = r.slots[slot as int];
            if available(s, now) {
                (
                    Runner {
                        slots: r.slots.update(slot as int, Slot { retry_at: None, ..s }),
                        ..r
                    },
                    Action::Call { slot },
                )
            } else {
                (r, after(r, slot as int))
            }
        },
        Event::Answered { slot } => {
            let s = r.slots[slot as int];
            (
                Runner {
                    slots: r.slots.update(slot as int, Slot { consecutive_failures: 0, ..s }),
                    ..r
                },
                Action::UseAnswer { slot },
            )
        },
        Event::Failed { slot, failure, now } => {
            let s = r.slots[slot as int];
            (
                Runner {
                    slots: r.slots.update(
                        slot as int,
                        failed_slot(s, r.cooldown, failure, now),
                    ),
                    ..r
                },
                after(r, slot as int),
            )
        },
    }
}

/// The event names an engine of the chain, and the failures and the end of a
/// rest can be counted.
pub open spec fn sensible(r: Runner, e: Event) -> bool {
    match e {
        Event::Start => true,
        Event::Hit { slot } => slot < r.slots.len(),
        Event::Miss { slot, .. } => slot < r.slots.len(),
        Event::Answered { slot } => slot < r.slots.len(),
        Event::Failed { slot, now, .. } => slot < r.slots.len()
            && r.slots[slot as int].consecutive_failures < u32::MAX && match r.cooldown {
            Some(c) => now + c <= u64::MAX,
            None => true,
        },
    }
}

impl OcrRunner {
    /// A chain of new engines.
    pub fn new(engines: usize) -> (r: OcrRunner)
        ensures
            r@.slots == Seq::new(engines as nat, |i: int| new_slot()),
            r@.cooldown is None,
    {
        let mut slots: Vec<Slot> = Vec::new();
        let mut i: usize = 0;
        while i < engines
            invariant
                i <= engines,
                slots@ == Seq::new(i as nat, |k: int| new_slot()),
            decreases engines - i,
        {
            slots.push(Slot { dead: false, consecutive_failures: 0, retry_at: None });
            i += 1;
            assert(slots@ =~= Seq::new(i as nat, |k: int| new_slot()));
        }
        OcrRunner { slots, cooldown: None }
    }

    /// The chain with engines that rest instead of leaving it.
    pub fn with_cooldown(self, cooldown: u64) -> (r: OcrRunner)
        ensures
            r@ == (Runner { cooldown: Some(cooldown), ..self@ }),
    {
        OcrRunner { slots: self.slots, cooldown: Some(cooldown) }
    }

    fn after_slot(&self, slot: usize) -> (r: Action)
        requires
            slot < self@.slots.len(),
        ensures
            r == after(self@, slot as int),
    {
        let n: usize = self.slots.len();
        if slot < n - 1 {
            Action::LookUp { slot: slot + 1 }
        } else {
            Action::GiveUp
        }
    }

    /// Whether an event can be taken note of.
    pub fn expects(&self, event: &Event) -> (r: bool)
        ensures
            r == sensible(self@, *event),
    {
        match event {
            Event::Start => true,
            Event::Hit { slot } => *slot < self.slots.len(),
            Event::Miss { slot, .. } => *slot < self.slots.len(),
            Event::Answered { slot } => *slot < self.slots.len(),
            Event::Failed { slot, now, .. } => *slot < self.slots.len()
                && self.slots[*slot].consecutive_failures < u32::MAX && match self.cooldown {
                Some(c) => now.checked_add(c).is_some(),
                None => true,
            },
        }
    }

    /// Take note of an event and say what is to be done.
    pub fn run(&mut self, event: &Event) -> (action: Action)
        requires
            sensible(old(self)@, *event),
        ensures
            final(self)@ == step(old(self)@, *event).0,
            action == step(old(self)@, *event).1,
    {
        match event {
            Event::Start => if self.slots.len() > 0 {
                Action::LookUp { slot: 0 }
            } else {
                Action::GiveUp
            },
            Event::Hit { slot } => Action::UseCached { slot: *slot },
            Event::Miss { slot, now } => {
                let s = self.slots[*slot];
                let resting = match s.retry_at {
                    Some(t) => *now < t,
                    None => false,
                };
                if s.dead || resting {
                    return self.after_slot(*slot);
                }
                self.slots.set(
                    *slot,
                    Slot {
                        dead: s.dead,
                        consecutive_failures: s.consecutive_failures,
                        retry_at: None,
                    },
                );
                Action::Call { slot: *slot }
            },
            Event::Answered { slot } => {
                let s = self.slots[*slot];
                self.slots.set(
                    *slot,
                    Slot { dead: s.dead, consecutive_failures: 0, retry_at: s.retry_at },
                );
                Action::UseAnswer { slot: *slot }
            },
            Event::Failed { slot, failure, now } => {
                let mut s = self.slots[*slot];
                match failure {
                    OcrFailure::Engine(_) => {
                        s.dead = true;
                    },
                    OcrFailure::Image(_) => {},
                    OcrFailure::Transient(_) => {
                        s.consecutive_failures = s.consecutive_failures + 1;
                        if s.consecutive_failures >= DEAD_AFTER {
                            match self.cooldown {
                                Some(c) => {
                                    s.retry_at = Some(*now + c);
                                },
                                None => {
                                    s.dead = true;
                                },
                            }
                        }
                    },
                }
                let next = self.after_slot(*slot);
                self.slots.set(*slot, s);
                next
            },
        }
    }
}

/// How the runner reports a failure, by what is known of the engine then.
pub open spec fn notice(
    id: Seq<char>,
    failure: OcrFailure,
    s: Slot,
    cooldown: Option<u64>,
) -> Seq<char> {
    let head = "docmill: "@ + id + ": "@ + failure.text();
    match failure {
        OcrFailure::Engine(_) => head + " — disabling this engine for the run"@,
        OcrFailure::Image(_) => head + " — trying next engine"@,
        OcrFailure::Transient(_) => if s.consecutive_failures < DEAD_AFTER {
            head
        } else {
            match cooldown {
                Some(c) => head + " — retrying after "@ + text::decimal(
                    (c / 1_000_000_000) as nat,
                ) + "s cooldown"@,
                None => head + " — disabling this engine for the run"@,
            }
        },
    }
}

/// The report of a failure, by what is known of the engine then.
pub fn failure_notice(id: &str, failure: &OcrFailure, s: &Slot, cooldown: Option<u64>) -> (r: String)
    ensures
        r@ == notice(id@, *failure, *s, cooldown),
{
    let mut v: Vec<char> = Vec::new();
    text::append_str(&mut v, "docmill: ");
    assert(v@ =~= "docmill: "@);
    text::append_str(&mut v, id);
    text::append_str(&mut v, ": ");
    text::append_str(&mut v, failure.message());
    match failure {
        OcrFailure::Engine(_) => {
            text::append_str(&mut v, " — disabling this engine for the run");
        },
        OcrFailure::Image(_) => {
            text::append_str(&mut v, " — trying next engine");
        },
        OcrFailure::Transient(_) => {
            if s.consecutive_failures >= DEAD_AFTER {
                match cooldown {
                    Some(c) => {
                        text::append_str(&mut v, " — retrying after ");
                        text::append(&mut v, &text::decimal_of(c / 1_000_000_000));
                        text::append_str(&mut v, "s cooldown");
                    },
                    None => {
                        text::append_str(&mut v, " — disabling this engine for the run");
                    },
                }
            }
        },
    }
    text::string_of(&v)
}

/// What an engine and its cache would do for one image: whether the cache has
/// its result, when that was looked up, what a call gives and when it ends.
pub struct Reply {
    pub hit: bool,
    pub asked: u64,
    pub answer: Result<(), OcrFailure>,
    pub ended: u64,
}

/// One image from an engine on: the runner after it, and the engine whose
/// result is the outcome, with whether the cache had it.
pub open spec fn play(r: Runner, slot: nat, replies: Seq<Reply>) -> (Runner, Option<(nat, bool)>)
    decreases replies.len() - slot,
{
    if slot >= r.slots.len() || slot >= replies.len() {
        (r, None)
    } else {
        let reply = replies[slot as int];
        let at = slot as usize;
        if reply.hit {
            (step(r, Event::Hit { slot: at }).0, Some((slot, true)))
        } else {
            let (called, action) = step(r, Event::Miss { slot: at, now: reply.asked });
            if action == (Action::Call { slot: at }) {
                match reply.answer {
                    Ok(()) => (
                        step(called, Event::Answered { slot: at }).0,
                        Some((slot, false)),
                    ),
                    Err(failure) => play(
                        step(called, Event::Failed { slot: at, failure, now: reply.ended }).0,
                        slot + 1,
                        replies,
                    ),
                }
            } else {
                play(called, slot + 1, replies)
            }
        }
    }
}

/// Neither the cache nor a call gives this engine's result.
pub open spec fn fruitless(s: Slot, reply: Reply) -> bool {
    !reply.hit && (!available(s, reply.asked) || reply.answer is Err)
}

/// An image is read by the first engine whose result is cached or that can be
/// called and answers. So no cached result of a later engine stands in for an
/// earlier one that works, and where all fail there is no outcome.
pub proof fn law_first_success_wins(r: Runner, replies: Seq<Reply>)
    requires
        replies.len() == r.slots.len(),
        r.slots.len() <= usize::MAX,
    ensures
        match play(r, 0, replies).1 {
            Some((i, from_cache)) => i < r.slots.len() && from_cache == replies[i as int].hit
                && !fruitless(r.slots[i as int], replies[i as int]) && forall|j: int|
                0 <= j < i ==> fruitless(#[trigger] r.slots[j], replies[j]),
            None => forall|j: int|
                0 <= j < r.slots.len() ==> fruitless(#[trigger] r.slots[j], replies[j]),
        },
{
    lemma_play(r, r, 0, replies);
}

proof fn lemma_play(start: Runner, r: Runner, slot: nat, replies: Seq<Reply>)
    requires
        replies.len() == r.slots.len(),
        start.slots.len() == r.slots.len(),
        r.slots.len() <= usize::MAX,
        forall|j: int| slot <= j < r.slots.len() ==> #[trigger] r.slots[j] == start.slots[j],
    ensures
        match play(r, slot, replies).1 {
            Some((i, from_cache)) => slot <= i < r.slots.len() && from_cache
                == replies[i as int].hit && !fruitless(start.slots[i as int], replies[i as int])
                && forall|j: int|
                slot <= j < i ==> fruitless(#[trigger] start.slots[j], replies[j]),
            None => forall|j: int|
                slot <= j < r.slots.len() ==> fruitless(#[trigger] start.slots[j], replies[j]),
        },
    decreases replies.len() - slot,
{
    if slot < r.slots.len() {
        let reply = replies[slot as int];
        let at = slot as usize;
        assert(r.slots[slot as int] == start.slots[slot as int]);
        if !reply.hit {
            let (called, action) = step(r, Event::Miss { slot: at, now: reply.asked });
            if action == (Action::Call { slot: at }) {
                if let Err(failure) = reply.answer {
                    let next = step(
                        called,
                        Event::Failed { slot: at, failure, now: reply.ended },
                    ).0;
                    lemma_play(start, next, slot + 1, replies);
                }
            } else {
                lemma_play(start, called, slot + 1, replies);
            }
        }
    }
}

/// An engine that left the chain never comes back and is never called: no
/// event brings it back, and after a lookup the runner goes on to the next.
pub proof fn law_dead_engines_stay_dead(r: Runner, e: Event, slot: usize)
    requires
        sensible(r, e),
        slot < r.slots.len(),
        r.slots[slot as int].dead,
    ensures
        step(r, e).0.slots[slot as int].dead,
        step(r, e).1 != (Action::Call { slot }),
{
}

/// The runner after an engine failed transiently three times in a row.
pub open spec fn thrice_failed(r: Runner, e1: Event, e2: Event, e3: Event) -> Runner {
    step(step(step(r, e1).0, e2).0, e3).0
}

/// Three transient failures in a row, and no fewer, take an engine out of the
/// chain; where engines rest instead, it rests from the end of the third.
pub proof fn law_three_transient_failures(
    r: Runner,
    slot: usize,
    a: OcrFailure,
    b: OcrFailure,
    c: OcrFailure,
    t1: u64,
    t2: u64,
    t3: u64,
)
    requires
        slot < r.slots.len(),
        r.slots[slot as int] == new_slot(),
        a is Transient && b is Transient && c is Transient,
        r.cooldown matches Some(d) ==> t3 + d <= u64::MAX,
    ensures
        ({
            let e1 = Event::Failed { slot, failure: a, now: t1 };
            let e2 = Event::Failed { slot, failure: b, now: t2 };
            let e3 = Event::Failed { slot, failure: c, now: t3 };
            let two = step(step(r, e1).0, e2).0.slots[slot as int];
            let three = thrice_failed(r, e1, e2, e3).slots[slot as int];
            &&& !two.dead && two.retry_at is None
            &&& three.dead == r.cooldown is None
            &&& three.retry_at == match r.cooldown {
                Some(d) => Some((t3 + d) as u64),
                None => None,
            }
        }),
{
}

/// An answer starts the count of transient failures anew.
pub proof fn law_an_answer_resets_the_count(r: Runner, slot: usize)
    requires
        slot < r.slots.len(),
    ensures
        step(r, Event::Answered { slot }).0.slots[slot as int].consecutive_failures == 0,
{
}

/// A resting engine is not called before its rest is over and is called then.
pub proof fn law_resting_engines_recover(r: Runner, slot: usize, until: u64, now: u64)
    requires
        slot < r.slots.len(),
        !r.slots[slot as int].dead,
        r.slots[slot as int].retry_at == Some(until),
    ensures
        step(r, Event::Miss { slot, now }).1 == (Action::Call { slot }) <==> until <= now,
{
}

/// Where engines rest, only a failure of the engine itself takes it out of
/// the chain.
pub proof fn law_with_cooldown_only_broken_engines_die(r: Runner, e: Event, slot: usize)
    requires
        sensible(r, e),
        slot < r.slots.len(),
        r.cooldown is Some,
        !r.slots[slot as int].dead,
        step(r, e).0.slots[slot as int].dead,
    ensures
        e matches Event::Failed { slot: s, failure, .. } && s == slot && failure is Engine,
{
}

} // verus!
