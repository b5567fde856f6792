//! The settings of picture OCR: a value from the command line comes before one
//! from the environment, and that before the default. Settings that can never
//! work are refused at once.

use vstd::prelude::*;

use crate::cache;
use crate::cache::OcrCache;
use crate::engine::OcrRunner;
use crate::json;
use crate::json::{Json, JsonView};
use crate::local;
use crate::paddle::PaddleServer;
use crate::paths;
use crate::postprocess::OutputMode;
use crate::text;
use crate::vlm;
use crate::vlm::OpenAiVlm;

verus! {

broadcast use vstd::string::group_string_axioms;

/// A kind of OCR engine.
#[derive(Debug, Clone, Copy, PartialEq, Eq, Structural)]
pub enum EngineKind {
    Local,
    Vlm,
    Paddle,
}

impl EngineKind {
    /// The kind that a name stands for.
    pub open spec fn named(s: Seq<char>) -> Option<EngineKind> {
        let name = text::lowercase(text::trim(s));
        if name == "local"@ || name == "ppocr"@ {
            Some(EngineKind::Local)
        } else if name == "vlm"@ {
            Some(EngineKind::Vlm)
        } else if name == "paddle"@ {
            Some(EngineKind::Paddle)
        } else {
            None
        }
    }

    /// The kind that a name stands for, if it does.
    pub fn parse(s: &str) -> (r: Option<EngineKind>)
        ensures
            r == EngineKind::named(s@),
    {
        let v = text::chars_of(s);
        let name = text::lowered(text::trimmed(&v));
        if text::same_chars(&name, "local") || text::same_chars(&name, "ppocr") {
            Some(EngineKind::Local)
        } else if text::same_chars(&name, "vlm") {
            Some(EngineKind::Vlm)
        } else if text::same_chars(&name, "paddle") {
            Some(EngineKind::Paddle)
        } else {
            None
        }
    }
}

/// What the command line gives.
#[derive(Debug)]
pub struct CliOverrides {
    pub engine: Option<String>,
    pub mode: Option<String>,
    pub lang: Option<String>,
    pub endpoint: Option<String>,
    pub model: Option<String>,
    pub api_key: Option<String>,
    pub prompt: Option<String>,
    pub min_px: Option<String>,
    pub cache_dir: Option<String>,
    pub no_cache: bool,
    pub timeout: Option<String>,
    pub max_retries: Option<String>,
    pub models_dir: Option<String>,
}

/// The contents of [`CliOverrides`].
#[verifier::ext_equal]
pub struct Overrides {
    pub engine: Option<Seq<char>>,
    pub mode: Option<Seq<char>>,
    pub lang: Option<Seq<char>>,
    pub endpoint: Option<Seq<char>>,
    pub model: Option<Seq<char>>,
    pub api_key: Option<Seq<char>>,
    pub prompt: Option<Seq<char>>,
    pub min_px: Option<Seq<char>>,
    pub cache_dir: Option<Seq<char>>,
    pub no_cache: bool,
    pub timeout: Option<Seq<char>>,
    pub max_retries: Option<Seq<char>>,
    pub models_dir: Option<Seq<char>>,
}

impl View for CliOverrides {
    type V = Overrides;

    open spec fn view(&self) -> Overrides {
        Overrides {
            engine: text::opt_view(self.engine),
            mode: text::opt_view(self.mode),
            lang: text::opt_view(self.lang),
            endpoint: text::opt_view(self.endpoint),
            model: text::opt_view(self.model),
            api_key: text::opt_view(self.api_key),
            prompt: text::opt_view(self.prompt),
            min_px: text::opt_view(self.min_px),
            cache_dir: text::opt_view(self.cache_dir),
            no_cache: self.no_cache,
            timeout: text::opt_view(self.timeout),
            max_retries: text::opt_view(self.max_retries),
            models_dir: text::opt_view(self.models_dir),
        }
    }
}

impl Default for CliOverrides {
    fn default() -> (r: CliOverrides)
        ensures
            r == no_overrides(),
    {
        CliOverrides {
            engine: None,
            mode: None,
            lang: None,
            endpoint: None,
            model: None,
            api_key: None,
            prompt: None,
            min_px: None,
            cache_dir: None,
            no_cache: false,
            timeout: None,
            max_retries: None,
            models_dir: None,
        }
    }
}

/// The command line gives nothing.
pub open spec fn no_overrides() -> CliOverrides {
    CliOverrides {
        engine: None,
        mode: None,
        lang: None,
        endpoint: None,
        model: None,
        api_key: None,
        prompt: None,
        min_px: None,
        cache_dir: None,
        no_cache: false,
        timeout: None,
        max_retries: None,
        models_dir: None,
    }
}

/// What the environment gives: the variables that begin with `DOCMILL_`, those
/// that the default cache directory is made of, and the models directory that
/// was found.
#[derive(Debug)]
pub struct Environment {
    pub engine: Option<String>,
    pub mode: Option<String>,
    pub lang: Option<String>,
    pub endpoint: Option<String>,
    pub model: Option<String>,
    pub api_key: Option<String>,
    pub prompt: Option<String>,
    pub min_px: Option<String>,
    pub cache_dir: Option<String>,
    pub timeout: Option<String>,
    pub max_retries: Option<String>,
    pub models_dir: Option<String>,
    pub extra_body: Option<String>,
    pub xdg_cache_home: Option<String>,
    pub home: Option<String>,
    pub local_app_data: Option<String>,
    pub user_profile: Option<String>,
    pub found_models_dir: String,
}

/// The settings of picture OCR.
#[derive(Debug)]
pub struct ImgOcrConfig {
    /// The chain of engines.
    pub engines: Vec<EngineKind>,
    pub mode: OutputMode,
    /// The language of the local engine's older models.
    pub lang: String,
    pub endpoint: Option<String>,
    pub model: Option<String>,
    pub api_key: Option<String>,
    pub prompt: Option<String>,
    pub min_pixels: u32,
    pub cache_dir: Option<String>,
    pub cache_enabled: bool,
    pub timeout_secs: u64,
    pub max_retries: u32,
    /// Where the local engine's models are.
    pub models_dir: String,
    /// Members that every request to a vision endpoint gets.
    pub extra_body: Vec<(String, Json)>,
}

/// The contents of an [`ImgOcrConfig`].
pub struct Settings {
    pub engines: Seq<EngineKind>,
    pub mode: OutputMode,
    pub lang: Seq<char>,
    pub endpoint: Option<Seq<char>>,
    pub model: Option<Seq<char>>,
    pub api_key: Option<Seq<char>>,
    pub prompt: Option<Seq<char>>,
    pub min_pixels: u32,
    pub cache_dir: Option<Seq<char>>,
    pub cache_enabled: bool,
    pub timeout_secs: u64,
    pub max_retries: u32,
    pub models_dir: Seq<char>,
    pub extra_body: Seq<(Seq<char>, JsonView)>,
}

impl View for ImgOcrConfig {
    type V = Settings;

    open spec fn view(&self) -> Settings {
        Settings {
            engines: self.engines@,
            mode: self.mode,
            lang: self.lang@,
            endpoint: text::opt_view(self.endpoint),
            model: text::opt_view(self.model),
            api_key: text::opt_view(self.api_key),
            prompt: text::opt_view(self.prompt),
            min_pixels: self.min_pixels,
            cache_dir: text::opt_view(self.cache_dir),
            cache_enabled: self.cache_enabled,
            timeout_secs: self.timeout_secs,
            max_retries: self.max_retries,
            models_dir: self.models_dir@,
            extra_body: json::members_view(self.extra_body@),
        }
    }
}

/// A value of the command line, else one of the environment that is not blank.
pub open spec fn picked(cli: Option<String>, env: Option<String>) -> Option<Seq<char>> {
    match cli {
        Some(v) => Some(v@),
        None => local::given(text::opt_view(env)),
    }
}

fn pick(cli: Option<String>, env: &Option<String>) -> (r: Option<String>)
    ensures
        text::opt_view(r) == picked(cli, *env),
{
    match cli {
        Some(v) => Some(v),
        None => match env {
            Some(v) => if text::is_blank_str(v) {
                None
            } else {
                Some(v.clone())
            },
            None => None,
        },
    }
}

/// The kinds that the first parts of a list name, none twice, or the message
/// for the first part that names none.
pub open spec fn chain_of(parts: Seq<Seq<char>>) -> Result<Seq<EngineKind>, Seq<char>>
    decreases parts.len(),
{
    if parts.len() == 0 {
        Ok(seq![])
    } else {
        match chain_of(parts.drop_last()) {
            Err(e) => Err(e),
            Ok(front) => match EngineKind::named(parts.last()) {
                None => Err(
                    "--img-ocr-engine: "@ + text::str_debug(parts.last())
                        + " is not local|vlm|paddle"@,
                ),
                Some(k) => if front.contains(k) {
                    Ok(front)
                } else {
                    Ok(front.push(k))
                },
            },
        }
    }
}

/// The chain that a list of names stands for.
pub open spec fn chain(spec: Seq<char>) -> Result<Seq<EngineKind>, Seq<char>> {
    chain_of(text::split(spec, ','))
}

fn names_kind(engines: &Vec<EngineKind>, kind: EngineKind) -> (r: bool)
    ensures
        r == engines@.contains(kind),
{
    let mut i: usize = 0;
    while i < engines.len()
        invariant
            i <= engines@.len(),
            forall|k: int| 0 <= k < i ==> engines@[k] != kind,
        decreases engines@.len() - i,
    {
        if engines[i] == kind {
            assert(engines@[i as int] == kind);
            return true;
        }
        i += 1;
    }
    false
}

/// A list that is not good does not become so with more parts.
proof fn lemma_chain_err(parts: Seq<Seq<char>>, k: int)
    requires
        0 <= k <= parts.len(),
        chain_of(parts.take(k)) is Err,
    ensures
        chain_of(parts) == chain_of(parts.take(k)),
    decreases parts.len(),
{
    if k < parts.len() {
        assert(parts.drop_last().take(k) =~= parts.take(k));
        lemma_chain_err(parts.drop_last(), k);
    } else {
        assert(parts.take(k) =~= parts);
    }
}

fn chain_from(spec: &str) -> (r: Result<Vec<EngineKind>, String>)
    ensures
        match r {
            Ok(v) => chain(spec@) == Ok::<Seq<EngineKind>, Seq<char>>(v@),
            Err(e) => chain(spec@) == Err::<Seq<EngineKind>, Seq<char>>(e@),
        },
{
    let v = text::chars_of(spec);
    let parts = text::split_on(&v, ',');
    let ghost all = text::views(parts@);
    let mut out: Vec<EngineKind> = Vec::new();
    let mut i: usize = 0;
    assert(all.take(0) =~= Seq::empty());
    while i < parts.len()
        invariant
            i <= parts@.len(),
            all == text::views(parts@),
            all == text::split(spec@, ','),
            chain_of(all.take(i as int)) == Ok::<Seq<EngineKind>, Seq<char>>(out@),
        decreases parts@.len() - i,
    {
        proof {
            assert(all.take(i + 1).drop_last() =~= all.take(i as int));
            assert(all.take(i + 1).last() == parts@[i as int]@);
        }
        let part = text::string_of(&parts[i]);
        match EngineKind::parse(&part) {
            None => {
                proof {
                    lemma_chain_err(all, i + 1);
                }
                return Err(
                    text::around_quoted("--img-ocr-engine: ", &part, " is not local|vlm|paddle"),
                );
            },
            Some(kind) => {
                if !names_kind(&out, kind) {
                    out.push(kind);
                }
            },
        }
        i += 1;
    }
    assert(all.take(i as int) =~= all);
    Ok(out)
}

/// The output mode that a name stands for.
pub open spec fn mode_named(s: Seq<char>) -> Option<OutputMode> {
    if s == "fence"@ {
        Some(OutputMode::Fence)
    } else if s == "markers"@ {
        Some(OutputMode::Markers)
    } else if s == "text"@ {
        Some(OutputMode::Text)
    } else if s == "quote"@ {
        Some(OutputMode::Quote)
    } else if s == "placeholder"@ {
        Some(OutputMode::Placeholder)
    } else {
        None
    }
}

/// The output mode that a name stands for, if it does.
pub fn parse_mode(s: &str) -> (r: Option<OutputMode>)
    ensures
        r == mode_named(s@),
{
    if text::same(s, "fence") {
        Some(OutputMode::Fence)
    } else if text::same(s, "markers") {
        Some(OutputMode::Markers)
    } else if text::same(s, "text") {
        Some(OutputMode::Text)
    } else if text::same(s, "quote") {
        Some(OutputMode::Quote)
    } else if text::same(s, "placeholder") {
        Some(OutputMode::Placeholder)
    } else {
        None
    }
}

/// The value, or the default.
pub open spec fn or_default(v: Option<Seq<char>>, default: Seq<char>) -> Seq<char> {
    match v {
        Some(s) => s,
        None => default,
    }
}

fn or_default_of(v: Option<String>, default: &str) -> (r: String)
    ensures
        r@ == or_default(text::opt_view(v), default@),
{
    match v {
        Some(s) => s,
        None => default.to_owned(),
    }
}

/// A number that a value writes, or the default where there is no value.
pub open spec fn number_or(v: Option<Seq<char>>, max: nat, default: nat) -> Option<nat> {
    match v {
        Some(s) => text::unsigned(text::trim(s), max),
        None => Some(default),
    }
}

fn number_of(v: &Option<String>, max: u64, default: u64) -> (r: Option<u64>)
    requires
        default <= max,
    ensures
        match r {
            Some(n) => number_or(text::opt_view(*v), max as nat, default as nat) == Some(n as nat)
                && n <= max,
            None => number_or(text::opt_view(*v), max as nat, default as nat) is None && v is Some,
        },
{
    match v {
        Some(s) => {
            let chars = text::chars_of(s);
            text::unsigned_of(text::trimmed(&chars), max)
        },
        None => Some(default),
    }
}

/// The members that a value adds to requests: it is an object.
pub open spec fn extra_members(v: JsonView) -> Result<Seq<(Seq<char>, JsonView)>, Seq<char>> {
    match v {
        JsonView::Object(m) => Ok(m),
        _ => Err("DOCMILL_EXTRA_BODY must be a JSON object"@),
    }
}

/// The members that a value of the environment adds to requests.
pub open spec fn extra_of(v: Option<Seq<char>>) -> Result<
    Seq<(Seq<char>, JsonView)>,
    Seq<char>,
> {
    match local::given(v) {
        None => Ok(seq![]),
        Some(s) => match json::json_parse(s) {
            Ok(v) => extra_members(v),
            Err(e) => Err("DOCMILL_EXTRA_BODY: "@ + e),
        },
    }
}

/// The members that a JSON value adds to requests.
pub fn extra_members_of(v: Json) -> (r: Result<Vec<(String, Json)>, String>)
    requires
        json::well_formed(v),
    ensures
        match r {
            Ok(m) => extra_members(v@) == Ok::<Seq<(Seq<char>, JsonView)>, Seq<char>>(
                json::members_view(m@),
            ) && json::distinct(json::members_view(m@)) && json::members_well_formed(m@),
            Err(e) => extra_members(v@) == Err::<Seq<(Seq<char>, JsonView)>, Seq<char>>(e@),
        },
{
    match v {
        Json::Object(m) => Ok(m),
        Json::Number(n) => {
            assert(json::value_view(n) is Number);
            Err("DOCMILL_EXTRA_BODY must be a JSON object".to_owned())
        },
        _ => Err("DOCMILL_EXTRA_BODY must be a JSON object".to_owned()),
    }
}

fn extra_from(v: &Option<String>) -> (r: Result<Vec<(String, Json)>, String>)
    ensures
        match r {
            Ok(m) => extra_of(text::opt_view(*v)) == Ok::<Seq<(Seq<char>, JsonView)>, Seq<char>>(
                json::members_view(m@),
            ) && json::distinct(json::members_view(m@)) && json::members_well_formed(m@),
            Err(e) => extra_of(text::opt_view(*v)) == Err::<
                Seq<(Seq<char>, JsonView)>,
                Seq<char>,
            >(e@),
        },
{
    if let Some(s) = v {
        if !text::is_blank_str(s) {
            return match json::parse(s) {
                Ok(j) => extra_members_of(j),
                Err(e) => {
                    let mut message = text::chars_of("DOCMILL_EXTRA_BODY: ");
                    text::append_str(&mut message, &e);
                    Err(text::string_of(&message))
                },
            };
        }
    }
    let none: Vec<(String, Json)> = Vec::new();
    assert(json::members_view(none@) =~= Seq::empty());
    Ok(none)
}

/// Engines of a chain that lack what they cannot work without.
pub open spec fn lacking(
    engines: Seq<EngineKind>,
    endpoint: Option<Seq<char>>,
    model: Option<Seq<char>>,
) -> Option<Seq<char>> {
    if engines.contains(EngineKind::Vlm) && endpoint is None {
        Some("vlm engine needs --img-ocr-endpoint or DOCMILL_ENDPOINT"@)
    } else if engines.contains(EngineKind::Vlm) && model is None {
        Some("vlm engine needs --img-ocr-model or DOCMILL_MODEL"@)
    } else if engines.contains(EngineKind::Paddle) && endpoint is None {
        Some("paddle engine needs --img-ocr-endpoint or DOCMILL_ENDPOINT"@)
    } else {
        None
    }
}

fn lacking_of(engines: &Vec<EngineKind>, endpoint: &Option<String>, model: &Option<String>) -> (r:
    Option<String>)
    ensures
        text::opt_view(r) == lacking(
            engines@,
            text::opt_view(*endpoint),
            text::opt_view(*model),
        ),
{
    if names_kind(engines, EngineKind::Vlm) {
        if endpoint.is_none() {
            return Some("vlm engine needs --img-ocr-endpoint or DOCMILL_ENDPOINT".to_owned());
        }
        if model.is_none() {
            return Some("vlm engine needs --img-ocr-model or DOCMILL_MODEL".to_owned());
        }
    }
    if names_kind(engines, EngineKind::Paddle) && endpoint.is_none() {
        return Some("paddle engine needs --img-ocr-endpoint or DOCMILL_ENDPOINT".to_owned());
    }
    None
}

/// Where the cache is, unless it is said otherwise.
pub open spec fn default_cache(env: Environment) -> Option<Seq<char>> {
    match cache::cache_base(
        text::opt_view(env.xdg_cache_home),
        text::opt_view(env.home),
        text::opt_view(env.local_app_data),
        text::opt_view(env.user_profile),
    ) {
        Some(base) => Some(paths::joined(base, "docmill"@)),
        None => None,
    }
}

/// The message about a value that is no number.
pub open spec fn not_a_number(flag: Seq<char>, v: Option<Seq<char>>, what: Seq<char>) -> Seq<char> {
    flag + text::str_debug(or_default(v, seq![])) + what
}

/// The settings for a command line and an environment, or the message for the
/// first that is wrong.
pub open spec fn resolved(cli: CliOverrides, env: Environment) -> Result<Settings, Seq<char>> {
    let mode = or_default(picked(cli.mode, env.mode), "fence"@);
    let lang = or_default(picked(cli.lang, env.lang), "en"@);
    let endpoint = picked(cli.endpoint, env.endpoint);
    let model = picked(cli.model, env.model);
    let min_px = picked(cli.min_px, env.min_px);
    let timeout = picked(cli.timeout, env.timeout);
    let retries = picked(cli.max_retries, env.max_retries);
    match chain(or_default(picked(cli.engine, env.engine), "local"@)) {
        Err(e) => Err(e),
        Ok(engines) => if mode_named(mode) is None {
            Err(
                "--img-ocr-mode: "@ + text::str_debug(mode)
                    + " is not fence|markers|text|quote|placeholder"@,
            )
        } else if lang != "en"@ && lang != "ch"@ {
            Err("--img-ocr-lang: "@ + text::str_debug(lang) + " is not en|ch"@)
        } else if lacking(engines, endpoint, model) is Some {
            Err(lacking(engines, endpoint, model)->0)
        } else if number_or(min_px, u32::MAX as nat, 2500) is None {
            Err(not_a_number("--img-ocr-min-px: "@, min_px, " is not a number"@))
        } else if number_or(timeout, u64::MAX as nat, 120) is None {
            Err(not_a_number("--img-ocr-timeout: "@, timeout, " is not a number of seconds"@))
        } else if number_or(retries, u32::MAX as nat, 3) is None {
            Err(not_a_number("--img-ocr-max-retries: "@, retries, " is not a number"@))
        } else {
            match extra_of(text::opt_view(env.extra_body)) {
                Err(e) => Err(e),
                Ok(extra_body) => Ok(
                    Settings {
                        engines,
                        mode: mode_named(mode)->0,
                        lang,
                        endpoint,
                        model,
                        api_key: picked(cli.api_key, env.api_key),
                        prompt: picked(cli.prompt, env.prompt),
                        min_pixels: number_or(min_px, u32::MAX as nat, 2500)->0 as u32,
                        cache_dir: match picked(cli.cache_dir, env.cache_dir) {
                            Some(d) => Some(d),
                            None => default_cache(env),
                        },
                        cache_enabled: !cli.no_cache,
                        timeout_secs: number_or(timeout, u64::MAX as nat, 120)->0 as u64,
                        max_retries: number_or(retries, u32::MAX as nat, 3)->0 as u32,
                        models_dir: or_default(
                            picked(cli.models_dir, env.models_dir),
                            env.found_models_dir@,
                        ),
                        extra_body,
                    },
                ),
            }
        },
    }
}

fn number_error(flag: &str, v: &Option<String>, what: &str) -> (r: String)
    ensures
        r@ == not_a_number(flag@, text::opt_view(*v), what@),
{
    match v {
        Some(s) => text::around_quoted(flag, s, what),
        None => {
            let none = String::new();
            assert(none@ =~= Seq::empty());
            text::around_quoted(flag, &none, what)
        },
    }
}

/// An engine of the chain and its settings.
#[derive(Debug)]
pub enum EnginePlan {
    Local { lang: String, models_dir: String },
    Vlm(OpenAiVlm),
    Paddle(PaddleServer),
}

/// The plan for an engine follows from the settings.
pub open spec fn plan_matches(p: EnginePlan, kind: EngineKind, s: Settings) -> bool {
    match kind {
        EngineKind::Local => p matches EnginePlan::Local { lang, models_dir } && lang@ == s.lang
            && models_dir@ == s.models_dir,
        EngineKind::Vlm => p matches EnginePlan::Vlm(v) && v.valid() && Some(v.endpoint@)
            == s.endpoint && Some(v.model@) == s.model && v.prompt@ == or_default(
            s.prompt,
            vlm::default_prompt(),
        ) && text::opt_view(v.api_key) == s.api_key && v.timeout_secs == s.timeout_secs
            && v.max_retries == s.max_retries && v.extra() == s.extra_body,
        EngineKind::Paddle => p matches EnginePlan::Paddle(v) && Some(v.endpoint@) == s.endpoint
            && v.timeout_secs == s.timeout_secs && v.max_retries == s.max_retries,
    }
}

impl ImgOcrConfig {
    /// No engine lacks what it cannot work without, and the additional members
    /// are those of an object.
    pub open spec fn usable(&self) -> bool {
        &&& lacking(
            self.engines@,
            text::opt_view(self.endpoint),
            text::opt_view(self.model),
        ) is None
        &&& json::distinct(json::members_view(self.extra_body@))
        &&& json::members_well_formed(self.extra_body@)
    }

    /// Find the settings for a command line and an environment.
    pub fn resolve(cli: CliOverrides, env: &Environment) -> (r: Result<ImgOcrConfig, String>)
        ensures
            match r {
                Ok(cfg) => resolved(cli, *env) == Ok::<Settings, Seq<char>>(cfg@) && cfg.usable(),
                Err(e) => resolved(cli, *env) == Err::<Settings, Seq<char>>(e@),
            },
    {
        let engine_spec = or_default_of(pick(cli.engine, &env.engine), "local");
        let engines = match chain_from(&engine_spec) {
            Ok(v) => v,
            Err(e) => return Err(e),
        };
        let mode_name = or_default_of(pick(cli.mode, &env.mode), "fence");
        let mode = match parse_mode(&mode_name) {
            Some(m) => m,
            None => return Err(
                text::around_quoted(
                    "--img-ocr-mode: ",
                    &mode_name,
                    " is not fence|markers|text|quote|placeholder",
                ),
            ),
        };
        let lang = or_default_of(pick(cli.lang, &env.lang), "en");
        if !text::same(&lang, "en") && !text::same(&lang, "ch") {
            return Err(text::around_quoted("--img-ocr-lang: ", &lang, " is not en|ch"));
        }
        let endpoint = pick(cli.endpoint, &env.endpoint);
        let model = pick(cli.model, &env.model);
        let api_key = pick(cli.api_key, &env.api_key);
        let prompt = pick(cli.prompt, &env.prompt);
        if let Some(e) = lacking_of(&engines, &endpoint, &model) {
            return Err(e);
        }
        let min_px = pick(cli.min_px, &env.min_px);
        let min_pixels: u32 = match number_of(&min_px, u32::MAX as u64, 2500) {
            Some(n) => n as u32,
            None => return Err(number_error("--img-ocr-min-px: ", &min_px, " is not a number")),
        };
        let timeout = pick(cli.timeout, &env.timeout);
        let timeout_secs: u64 = match number_of(&timeout, u64::MAX, 120) {
            Some(n) => n,
            None => return Err(
                number_error("--img-ocr-timeout: ", &timeout, " is not a number of seconds"),
            ),
        };
        let retries = pick(cli.max_retries, &env.max_retries);
        let max_retries: u32 = match number_of(&retries, u32::MAX as u64, 3) {
            Some(n) => n as u32,
            None => return Err(
                number_error("--img-ocr-max-retries: ", &retries, " is not a number"),
            ),
        };
        let extra_body = match extra_from(&env.extra_body) {
            Ok(m) => m,
            Err(e) => return Err(e),
        };
        let cache_dir = match pick(cli.cache_dir, &env.cache_dir) {
            Some(d) => Some(d),
            None => OcrCache::default_dir(
                text::opt_clone(&env.xdg_cache_home),
                text::opt_clone(&env.home),
                text::opt_clone(&env.local_app_data),
                text::opt_clone(&env.user_profile),
            ),
        };
        let models_dir = or_default_of(
            pick(cli.models_dir, &env.models_dir),
            &env.found_models_dir,
        );
        Ok(
            ImgOcrConfig {
                engines,
                mode,
                lang,
                endpoint,
                model,
                api_key,
                prompt,
                min_pixels,
                cache_dir,
                cache_enabled: !cli.no_cache,
                timeout_secs,
                max_retries,
                models_dir,
                extra_body,
            },
        )
    }

    /// The first engine is a remote one.
    pub open spec fn is_remote_first(&self) -> bool {
        self.engines@.len() > 0 && self.engines@[0] != EngineKind::Local
    }

    /// Whether the first engine is a remote one.
    pub fn remote_first(&self) -> (r: bool)
        ensures
            r == self.is_remote_first(),
    {
        self.engines.len() > 0 && self.engines[0] != EngineKind::Local
    }

    fn plan(&self, kind: EngineKind) -> (p: EnginePlan)
        requires
            self.usable(),
            self.engines@.contains(kind),
        ensures
            plan_matches(p, kind, self@),
    {
        match kind {
            EngineKind::Local => EnginePlan::Local {
                lang: self.lang.clone(),
                models_dir: self.models_dir.clone(),
            },
            EngineKind::Vlm => {
                let endpoint = text::opt_clone(&self.endpoint).unwrap();
                let model = text::opt_clone(&self.model).unwrap();
                let mut extra: Vec<(String, Json)> = Vec::new();
                assert(json::members_view(extra@) =~= Seq::empty());
                json::copy_members(&mut extra, &self.extra_body);
                let v = OpenAiVlm::new(
                    endpoint,
                    model,
                    text::opt_clone(&self.prompt),
                    text::opt_clone(&self.api_key),
                    self.timeout_secs,
                );
                EnginePlan::Vlm(v.request_options(self.max_retries, extra))
            },
            EngineKind::Paddle => {
                let endpoint = text::opt_clone(&self.endpoint).unwrap();
                EnginePlan::Paddle(
                    PaddleServer::new(endpoint, self.timeout_secs).request_options(
                        self.max_retries,
                    ),
                )
            },
        }
    }

    /// Plan the chain: each engine with its settings, the runner and the
    /// cache. A chain without engines is refused.
    pub fn build_runner(&self) -> (r: Result<(Vec<EnginePlan>, OcrRunner, OcrCache), String>)
        requires
            self.usable(),
        ensures
            match r {
                Ok((plans, runner, cache)) => {
                    &&& self.engines@.len() > 0
                    &&& plans@.len() == self.engines@.len()
                    &&& forall|i: int|
                        0 <= i < plans@.len() ==> plan_matches(
                            #[trigger] plans@[i],
                            self.engines@[i],
                            self@,
                        )
                    &&& runner@.slots == Seq::new(
                        plans@.len(),
                        |i: int| crate::engine::new_slot(),
                    )
                    &&& runner@.cooldown is None
                    &&& text::opt_view(cache.dir) == if self.cache_enabled {
                        text::opt_view(self.cache_dir)
                    } else {
                        None
                    }
                },
                Err(e) => self.engines@.len() == 0 && e@
                    == "no usable OCR engine in the configured chain"@,
            },
    {
        let mut plans: Vec<EnginePlan> = Vec::new();
        let mut i: usize = 0;
        while i < self.engines.len()
            invariant
                i <= self.engines@.len(),
                self.usable(),
                plans@.len() == i,
                forall|k: int|
                    0 <= k < i ==> plan_matches(#[trigger] plans@[k], self.engines@[k], self@),
            decreases self.engines@.len() - i,
        {
            assert(self.engines@.contains(self.engines@[i as int]));
            let p = self.plan(self.engines[i]);
            plans.push(p);
            i += 1;
        }
        if plans.len() == 0 {
            return Err("no usable OCR engine in the configured chain".to_owned());
        }
        let cache = match &self.cache_dir {
            Some(d) => if self.cache_enabled {
                OcrCache::new(d.clone())
            } else {
                OcrCache::disabled()
            },
            None => OcrCache::disabled(),
        };
        let runner = OcrRunner::new(plans.len());
        Ok((plans, runner, cache))
    }
}

/// A part of a list is the first that names a kind.
pub open spec fn first_names(parts: Seq<Seq<char>>, kind: EngineKind, p: int) -> bool {
    &&& 0 <= p < parts.len()
    &&& EngineKind::named(parts[p]) == Some(kind)
    &&& forall|q: int| 0 <= q < p ==> EngineKind::named(#[trigger] parts[q]) != Some(kind)
}

/// Some part of a list names a kind.
pub open spec fn is_named(parts: Seq<Seq<char>>, kind: EngineKind) -> bool {
    exists|p: int| first_names(parts, kind, p)
}

/// A chain holds the kinds that its list names and no others, none twice, in
/// the order in which they first come; and it is never empty.
pub proof fn law_chain_has_no_repeats(parts: Seq<Seq<char>>)
    requires
        chain_of(parts) is Ok,
    ensures
        ({
            let v = chain_of(parts)->Ok_0;
            &&& v.no_duplicates()
            &&& parts.len() > 0 ==> v.len() > 0
            &&& forall|i: int|
                0 <= i < parts.len() ==> EngineKind::named(#[trigger] parts[i]) is Some
                    && v.contains(EngineKind::named(parts[i])->0)
            &&& forall|i: int|
                0 <= i < v.len() ==> is_named(parts, #[trigger] v[i])
            &&& forall|i: int, j: int, p: int, q: int|
                0 <= i < j < v.len() && #[trigger] first_names(parts, v[i], p)
                    && #[trigger] first_names(parts, v[j], q) ==> p < q
        }),
    decreases parts.len(),
{
    if parts.len() > 0 {
        let front = parts.drop_last();
        let n = parts.len() - 1;
        law_chain_has_no_repeats(front);
        let v = chain_of(parts)->Ok_0;
        let u = chain_of(front)->Ok_0;
        let kind = EngineKind::named(parts.last())->0;
        assert forall|k: EngineKind, p: int| 0 <= p < n implies #[trigger] first_names(parts, k, p)
            == first_names(front, k, p) by {
            assert(front[p] == parts[p]);
            assert forall|q: int| 0 <= q < p implies front[q] == parts[q] by {}
            if first_names(front, k, p) {
                assert forall|q: int| 0 <= q < p implies EngineKind::named(#[trigger] parts[q])
                    != Some(k) by {
                    assert(front[q] == parts[q]);
                }
            }
        }
        assert(v.contains(kind)) by {
            if !u.contains(kind) {
                assert(v[u.len() as int] == kind);
            }
        }
        assert forall|i: int| 0 <= i < parts.len() implies EngineKind::named(
            #[trigger] parts[i],
        ) is Some && v.contains(EngineKind::named(parts[i])->0) by {
            if i < n {
                assert(front[i] == parts[i]);
                let x = EngineKind::named(front[i])->0;
                assert(u.contains(x));
                let j = choose|j: int| 0 <= j < u.len() && u[j] == x;
                assert(v[j] == x);
            }
        }
        if !u.contains(kind) {
            assert(first_names(parts, kind, n)) by {
                assert forall|q: int| 0 <= q < n implies EngineKind::named(#[trigger] parts[q])
                    != Some(kind) by {
                    assert(front[q] == parts[q]);
                }
            }
        }
        assert forall|i: int| 0 <= i < v.len() implies is_named(parts, #[trigger] v[i]) by {
            if i < u.len() {
                assert(v[i] == u[i]);
                assert(is_named(front, u[i]));
                let p = choose|p: int| first_names(front, u[i], p);
                assert(first_names(parts, v[i], p));
            } else {
                assert(first_names(parts, v[i], n));
            }
        }
        assert forall|i: int, j: int, p: int, q: int|
            0 <= i < j < v.len() && #[trigger] first_names(parts, v[i], p)
                && #[trigger] first_names(parts, v[j], q) implies p < q by {
            assert(v[i] == u[i]);
            assert(is_named(front, u[i]));
            let a = choose|a: int| first_names(front, u[i], a);
            assert(first_names(parts, v[i], a));
            assert(p == a);
            if j < u.len() {
                assert(v[j] == u[j]);
                assert(is_named(front, u[j]));
                let b = choose|b: int| first_names(front, u[j], b);
                assert(first_names(parts, v[j], b));
                assert(q == b);
            } else {
                assert(v[j] == kind);
                assert(q == n);
            }
        }
    }
}

/// Where models may be: in the working directory, beside the program, and
/// beside the directory that the program is in.
pub open spec fn models_places(program_dir: Option<Seq<char>>) -> Seq<Seq<char>> {
    match program_dir {
        None => seq![".models"@],
        Some(dir) => match paths::parent(dir) {
            None => seq![".models"@, paths::joined(dir, ".models"@)],
            Some(up) => seq![
                ".models"@,
                paths::joined(dir, ".models"@),
                paths::joined(up, ".models"@),
            ],
        },
    }
}

/// Where models may be, in the order in which they are looked for.
/// `program_dir` is the directory of the program, past links.
pub fn models_candidates(program_dir: &Option<String>) -> (r: Vec<String>)
    ensures
        text::string_views(r@) == models_places(text::opt_view(*program_dir)),
        r@.len() > 0,
{
    let mut r: Vec<String> = Vec::new();
    r.push(".models".to_owned());
    match program_dir {
        Some(dir) => {
            r.push(paths::join(dir, ".models"));
            match paths::parent_of(dir) {
                Some(up) => {
                    r.push(paths::join(&up, ".models"));
                },
                None => {},
            }
        },
        None => {},
    }
    assert(text::string_views(r@) =~= models_places(text::opt_view(*program_dir)));
    r
}

/// The first place that exists; where none does, that in the working
/// directory.
pub open spec fn first_present(places: Seq<Seq<char>>, present: Seq<bool>) -> Seq<char>
    decreases places.len(),
{
    if places.len() == 0 {
        ".models"@
    } else if present[0] {
        places[0]
    } else {
        first_present(places.skip(1), present.skip(1))
    }
}

/// Choose where the models are by which of the places exist.
pub fn default_models_dir(places: &Vec<String>, present: &Vec<bool>) -> (r: String)
    requires
        places@.len() == present@.len(),
    ensures
        r@ == first_present(text::string_views(places@), present@),
{
    let ghost all = text::string_views(places@);
    let mut i: usize = 0;
    assert(all.skip(0) == all);
    assert(present@.skip(0) == present@);
    while i < places.len()
        invariant
            i <= places@.len(),
            places@.len() == present@.len(),
            all == text::string_views(places@),
            first_present(all, present@) == first_present(
                all.skip(i as int),
                present@.skip(i as int),
            ),
        decreases places@.len() - i,
    {
        assert(all.skip(i as int)[0] == places@[i as int]@);
        assert(present@.skip(i as int)[0] == present@[i as int]);
        if present[i] {
            return places[i].clone();
        }
        assert(all.skip(i as int).skip(1) == all.skip(i + 1));
        assert(present@.skip(i as int).skip(1) == present@.skip(i + 1));
        i += 1;
    }
    ".models".to_owned()
}

/// A flag decides alone, or else what the environment gives.
pub open spec fn settled(cli: Option<String>, a: Option<String>, b: Option<String>) -> bool {
    cli is Some || local::given(text::opt_view(a)) == local::given(text::opt_view(b))
}

/// A flag goes before the environment: two environments that differ only in
/// variables whose flags are given lead to the same settings.
pub proof fn law_flags_go_before_the_environment(cli: CliOverrides, a: Environment, b: Environment)
    requires
        settled(cli.engine, a.engine, b.engine),
        settled(cli.mode, a.mode, b.mode),
        settled(cli.lang, a.lang, b.lang),
        settled(cli.endpoint, a.endpoint, b.endpoint),
        settled(cli.model, a.model, b.model),
        settled(cli.api_key, a.api_key, b.api_key),
        settled(cli.prompt, a.prompt, b.prompt),
        settled(cli.min_px, a.min_px, b.min_px),
        settled(cli.timeout, a.timeout, b.timeout),
        settled(cli.max_retries, a.max_retries, b.max_retries),
        settled(cli.cache_dir, a.cache_dir, b.cache_dir),
        cli.cache_dir is Some || default_cache(a) == default_cache(b),
        settled(cli.models_dir, a.models_dir, b.models_dir),
        cli.models_dir is Some || a.found_models_dir@ == b.found_models_dir@,
        text::opt_view(a.extra_body) == text::opt_view(b.extra_body),
    ensures
        resolved(cli, a) == resolved(cli, b),
{
    assert(picked(cli.engine, a.engine) == picked(cli.engine, b.engine));
    assert(picked(cli.mode, a.mode) == picked(cli.mode, b.mode));
    assert(picked(cli.lang, a.lang) == picked(cli.lang, b.lang));
    assert(picked(cli.endpoint, a.endpoint) == picked(cli.endpoint, b.endpoint));
    assert(picked(cli.model, a.model) == picked(cli.model, b.model));
    assert(picked(cli.api_key, a.api_key) == picked(cli.api_key, b.api_key));
    assert(picked(cli.prompt, a.prompt) == picked(cli.prompt, b.prompt));
    assert(picked(cli.min_px, a.min_px) == picked(cli.min_px, b.min_px));
    assert(picked(cli.timeout, a.timeout) == picked(cli.timeout, b.timeout));
    assert(picked(cli.max_retries, a.max_retries) == picked(cli.max_retries, b.max_retries));
    assert(picked(cli.cache_dir, a.cache_dir) == picked(cli.cache_dir, b.cache_dir));
    assert(picked(cli.models_dir, a.models_dir) == picked(cli.models_dir, b.models_dir));
}

} // verus!
