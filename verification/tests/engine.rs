use std::collections::HashMap;

use docmill::cache::{result_key, OcrCache};
use docmill::engine::{
    failure_notice, Action, Event, OcrEngine, OcrFailure, OcrOutcome, OcrRunner, OcrText, Slot,
    DEAD_AFTER,
};

const SECOND: u64 = 1_000_000_000;

/// Scripted engine: pops one response per call.
struct MockEngine {
    id: &'static str,
    salt: String,
    responses: Vec<Result<String, OcrFailure>>,
    calls: usize,
}

impl MockEngine {
    fn new(id: &'static str, responses: Vec<Result<String, OcrFailure>>) -> Self {
        Self { id, salt: String::new(), responses, calls: 0 }
    }
}

impl OcrEngine for MockEngine {
    fn id(&self) -> &'static str {
        self.id
    }
    fn cache_salt(&self) -> String {
        self.salt.clone()
    }
    fn ocr(&mut self, _bytes: &[u8], _mimetype: &str) -> Result<OcrText, OcrFailure> {
        self.calls += 1;
        let text = if self.responses.is_empty() {
            "default".to_string()
        } else {
            self.responses.remove(0)?
        };
        Ok(OcrText { text, grid: None })
    }
}

/// A runner with its engines and a cache in memory.
struct Chain {
    runner: OcrRunner,
    engines: Vec<MockEngine>,
    cache: OcrCache,
    files: HashMap<String, String>,
}

impl Chain {
    fn new(engines: Vec<MockEngine>) -> Self {
        Self {
            runner: OcrRunner::new(engines.len()),
            engines,
            cache: OcrCache::new("/cache".to_string()),
            files: HashMap::new(),
        }
    }

    fn run(&mut self, bytes: &[u8], mimetype: &str) -> Option<OcrOutcome> {
        self.run_at(bytes, mimetype, 0)
    }

    fn run_at(&mut self, bytes: &[u8], mimetype: &str, now: u64) -> Option<OcrOutcome> {
        let mut event = Event::Start;
        let mut hit = None;
        let mut answer = None;
        loop {
            let action = self.runner.run(&event);
            event = match action {
                Action::LookUp { slot } => {
                    let engine = &self.engines[slot];
                    let key = result_key(engine.id(), &engine.cache_salt(), mimetype, bytes);
                    let path = self.cache.entry_path(&key).unwrap();
                    hit = self.files.get(&path).and_then(|body| self.cache.get(body));
                    if hit.is_some() {
                        Event::Hit { slot }
                    } else {
                        Event::Miss { slot, now }
                    }
                }
                Action::Call { slot } => match self.engines[slot].ocr(bytes, mimetype) {
                    Ok(text) => {
                        answer = Some(text);
                        Event::Answered { slot }
                    }
                    Err(failure) => Event::Failed { slot, failure, now },
                },
                Action::UseCached { .. } => return Some(OcrOutcome::cached(hit.unwrap())),
                Action::UseAnswer { slot } => {
                    let engine = &self.engines[slot];
                    let key = result_key(engine.id(), &engine.cache_salt(), mimetype, bytes);
                    let (outcome, entry) =
                        OcrOutcome::fresh(engine.id(), answer.unwrap(), now / SECOND);
                    if let Some((path, body)) = self.cache.put(&key, &entry) {
                        self.files.insert(path, body);
                    }
                    return Some(outcome);
                }
                Action::GiveUp => return None,
            };
        }
    }
}

#[test]
fn first_ok_wins_and_is_cached() {
    let a = MockEngine::new("a", vec![Ok("text-a".into())]);
    let b = MockEngine::new("b", vec![Ok("text-b".into())]);
    let mut chain = Chain::new(vec![a, b]);
    let out = chain.run(b"img", "image/png").unwrap();
    assert_eq!(out.text, "text-a");
    assert!(!out.from_cache);
    assert_eq!(chain.engines[1].calls, 0);
    let out2 = chain.run(b"img", "image/png").unwrap();
    assert!(out2.from_cache);
    assert_eq!(out2.text, "text-a");
    assert_eq!(chain.engines[0].calls, 1);
}

#[test]
fn engine_failure_falls_through_the_chain() {
    let a = MockEngine::new("a", vec![Err(OcrFailure::Image("undecodable".into()))]);
    let b = MockEngine::new("b", vec![Ok("from-b".into())]);
    let mut chain = Chain::new(vec![a, b]);
    let out = chain.run(b"wmf", "image/x-wmf").unwrap();
    assert_eq!((out.text.as_str(), out.engine.as_str()), ("from-b", "b"));
}

#[test]
fn fatal_engine_error_disables_engine() {
    let a = MockEngine::new("a", vec![Err(OcrFailure::Engine("no model".into()))]);
    let b = MockEngine::new("b", vec![Ok("b1".into()), Ok("b2".into())]);
    let mut chain = Chain::new(vec![a, b]);
    assert_eq!(chain.run(b"one", "image/png").unwrap().text, "b1");
    assert_eq!(chain.run(b"two", "image/png").unwrap().text, "b2");
    assert_eq!(chain.engines[0].calls, 1);
}

#[test]
fn transient_failures_kill_engine_after_threshold() {
    let responses = (0..5).map(|_| Err(OcrFailure::Transient("timeout".into()))).collect();
    let mut chain = Chain::new(vec![MockEngine::new("a", responses)]);
    for i in 0..5 {
        assert!(chain.run(format!("img{i}").as_bytes(), "image/png").is_none());
    }
    assert_eq!(chain.engines[0].calls, DEAD_AFTER as usize);
}

#[test]
fn empty_result_is_valid_and_negatively_cached() {
    let a = MockEngine::new("a", vec![Ok(String::new())]);
    let b = MockEngine::new("b", vec![]);
    let mut chain = Chain::new(vec![a, b]);
    let out = chain.run(b"logo", "image/png").unwrap();
    assert_eq!(out.text, "");
    assert_eq!(chain.engines[1].calls, 0);
    let out2 = chain.run(b"logo", "image/png").unwrap();
    assert!(out2.from_cache);
    assert_eq!(chain.engines[0].calls, 1);
}

#[test]
fn preferred_engine_recovers_before_a_cached_fallback_is_used() {
    let mut responses = (0..3)
        .map(|_| Err(OcrFailure::Transient("down".into())))
        .collect::<Vec<_>>();
    responses.push(Ok("preferred".into()));
    let a = MockEngine::new("a", responses);
    let b = MockEngine::new("b", vec![Ok("fallback".into())]);
    let mut chain = Chain::new(vec![a, b]);
    chain.runner = OcrRunner::new(2).with_cooldown(30 * SECOND);
    let now = 5 * SECOND;
    for _ in 0..4 {
        assert_eq!(chain.run_at(b"same", "image/png", now).unwrap().text, "fallback");
    }
    assert_eq!(chain.engines[0].calls, 3);
    assert_eq!(chain.engines[1].calls, 1);
    assert_eq!(
        chain.run_at(b"same", "image/png", now + 30 * SECOND).unwrap().text,
        "preferred"
    );
    assert_eq!(chain.engines[0].calls, 4);
}

#[test]
fn mime_type_participates_in_cache_identity() {
    let mut chain = Chain::new(vec![MockEngine::new("a", vec![])]);
    chain.run(b"same", "image/png").unwrap();
    assert!(chain.run(b"same", "image/png").unwrap().from_cache);
    assert!(!chain.run(b"same", "image/jpeg").unwrap().from_cache);
    assert_eq!(chain.engines[0].calls, 2);
}

#[test]
fn an_answer_between_failures_keeps_the_engine() {
    let down = || Err(OcrFailure::Transient("down".into()));
    let a = MockEngine::new("a", vec![down(), down(), Ok("up".into()), down(), down()]);
    let mut chain = Chain::new(vec![a]);
    for i in 0..5 {
        chain.run(format!("img{i}").as_bytes(), "image/png");
    }
    assert_eq!(chain.engines[0].calls, 5);
    assert!(!chain.runner.slots[0].dead);
    assert_eq!(chain.runner.slots[0].consecutive_failures, 2);
}

#[test]
fn an_empty_chain_gives_up() {
    let mut chain = Chain::new(vec![]);
    assert!(chain.run(b"img", "image/png").is_none());
}

#[test]
fn notices_say_what_becomes_of_the_engine() {
    let down = OcrFailure::Transient("down".to_string());
    let first = Slot { dead: false, consecutive_failures: 1, retry_at: None };
    assert_eq!(failure_notice("vlm", &down, &first, None), "docmill: vlm: down");
    let dead = Slot { dead: true, consecutive_failures: 3, retry_at: None };
    assert_eq!(
        failure_notice("vlm", &down, &dead, None),
        "docmill: vlm: down — disabling this engine for the run"
    );
    let resting = Slot { dead: false, consecutive_failures: 3, retry_at: Some(31 * SECOND) };
    assert_eq!(
        failure_notice("vlm", &down, &resting, Some(30 * SECOND)),
        "docmill: vlm: down — retrying after 30s cooldown"
    );
}

#[test]
fn events_of_unknown_engines_are_not_expected() {
    let mut runner = OcrRunner::new(1).with_cooldown(30 * SECOND);
    let failed = |slot, now| {
        let failure = OcrFailure::Transient("busy".to_string());
        Event::Failed { slot, failure, now }
    };
    assert!(runner.expects(&Event::Start));
    assert!(runner.expects(&Event::Hit { slot: 0 }) && !runner.expects(&Event::Hit { slot: 1 }));
    assert!(!runner.expects(&Event::Miss { slot: 1, now: 0 }));
    assert!(!runner.expects(&Event::Answered { slot: 1 }));
    assert!(runner.expects(&failed(0, 0)) && !runner.expects(&failed(1, 0)));
    assert!(!runner.expects(&failed(0, u64::MAX)));
    runner.slots[0].consecutive_failures = u32::MAX;
    assert!(!runner.expects(&failed(0, 0)));
}
