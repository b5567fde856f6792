//! The command line: its words, what they ask for, and what is refused.

use vstd::prelude::*;

use crate::config::{CliOverrides, ImgOcrConfig, Overrides};
use crate::conversion;
use crate::conversion::{Conversion, ConversionOptions, Word, WordView};
use crate::converted::ImageMode;
use crate::input::InputFormat;
use crate::paths;
use crate::postprocess::{OutputMode, OutputTarget, PostOptions};
use crate::text;

verus! {

broadcast use vstd::string::group_string_axioms;

/// What `--version` prints.
pub const VERSION_LINE: &'static str = "docmill 1.4.2\n";

/// Where the server listens unless it is told otherwise.
pub const DEFAULT_ADDRESS: &'static str = "127.0.0.1:8877";

/// How a word of the command line is used.
pub enum Taken<T> {
    /// Not by these options.
    Not,
    /// By itself.
    Alone(T),
    /// With the word that follows it, where there is one.
    Valued(T),
    /// Not at all: why.
    Refused(Seq<char>),
}

/// How a word of the command line was used.
#[derive(Debug)]
pub enum FlagUse {
    Not,
    Alone,
    Valued,
    Refused(String),
}

/// A word was used in the way that is stated, with its effect.
pub open spec fn used<T>(u: FlagUse, t: Taken<T>, before: T, after: T) -> bool {
    match u {
        FlagUse::Not => t is Not && after == before,
        FlagUse::Alone => t == Taken::Alone(after),
        FlagUse::Valued => t == Taken::Valued(after),
        FlagUse::Refused(e) => t == Taken::<T>::Refused(e@),
    }
}

/// The text of the word that follows.
pub open spec fn next_view(next: Option<WordView>) -> Option<Seq<char>> {
    match next {
        Some(w) => Some(w.text),
        None => None,
    }
}

fn next_text(next: Option<&Word>) -> (r: Option<String>)
    ensures
        text::opt_view(r) == next_view(conversion::word_view(next)),
{
    match next {
        Some(w) => Some(w.text.clone()),
        None => None,
    }
}

/// What the options of picture OCR do.
#[verifier::opaque]
pub open spec fn overridden(o: Overrides, arg: Seq<char>, next: Option<Seq<char>>) -> Taken<
    Overrides,
> {
    if arg == "--img-ocr-engine"@ {
        Taken::Valued(Overrides { engine: next, ..o })
    } else if arg == "--img-ocr-mode"@ {
        Taken::Valued(Overrides { mode: next, ..o })
    } else if arg == "--img-ocr-lang"@ {
        Taken::Valued(Overrides { lang: next, ..o })
    } else if arg == "--img-ocr-endpoint"@ {
        Taken::Valued(Overrides { endpoint: next, ..o })
    } else if arg == "--img-ocr-model"@ {
        Taken::Valued(Overrides { model: next, ..o })
    } else if arg == "--img-ocr-api-key"@ {
        Taken::Valued(Overrides { api_key: next, ..o })
    } else if arg == "--img-ocr-prompt"@ {
        Taken::Valued(Overrides { prompt: next, ..o })
    } else if arg == "--img-ocr-min-px"@ {
        Taken::Valued(Overrides { min_px: next, ..o })
    } else if arg == "--img-ocr-cache-dir"@ {
        Taken::Valued(Overrides { cache_dir: next, ..o })
    } else if arg == "--img-ocr-timeout"@ {
        Taken::Valued(Overrides { timeout: next, ..o })
    } else if arg == "--img-ocr-models-dir"@ {
        Taken::Valued(Overrides { models_dir: next, ..o })
    } else if arg == "--no-img-ocr-cache"@ {
        Taken::Alone(Overrides { no_cache: true, ..o })
    } else if arg == "--img-ocr-max-retries"@ {
        match next {
            Some(v) => Taken::Valued(Overrides { max_retries: Some(v), ..o }),
            None => Taken::Refused("--img-ocr-max-retries needs a value"@),
        }
    } else {
        Taken::Not
    }
}

/// Take an option of picture OCR.
pub fn parse_override(o: &mut CliOverrides, arg: &str, next: Option<&Word>) -> (r: FlagUse)
    ensures
        used(
            r,
            overridden(old(o)@, arg@, next_view(conversion::word_view(next))),
            old(o)@,
            final(o)@,
        ),
{
    proof {
        reveal(overridden);
    }
    if text::same(arg, "--img-ocr-engine") {
        o.engine = next_text(next);
        FlagUse::Valued
    } else if text::same(arg, "--img-ocr-mode") {
        o.mode = next_text(next);
        FlagUse::Valued
    } else if text::same(arg, "--img-ocr-lang") {
        o.lang = next_text(next);
        FlagUse::Valued
    } else if text::same(arg, "--img-ocr-endpoint") {
        o.endpoint = next_text(next);
        FlagUse::Valued
    } else if text::same(arg, "--img-ocr-model") {
        o.model = next_text(next);
        FlagUse::Valued
    } else if text::same(arg, "--img-ocr-api-key") {
        o.api_key = next_text(next);
        FlagUse::Valued
    } else if text::same(arg, "--img-ocr-prompt") {
        o.prompt = next_text(next);
        FlagUse::Valued
    } else if text::same(arg, "--img-ocr-min-px") {
        o.min_px = next_text(next);
        FlagUse::Valued
    } else if text::same(arg, "--img-ocr-cache-dir") {
        o.cache_dir = next_text(next);
        FlagUse::Valued
    } else if text::same(arg, "--img-ocr-timeout") {
        o.timeout = next_text(next);
        FlagUse::Valued
    } else if text::same(arg, "--img-ocr-models-dir") {
        o.models_dir = next_text(next);
        FlagUse::Valued
    } else if text::same(arg, "--no-img-ocr-cache") {
        o.no_cache = true;
        FlagUse::Alone
    } else if text::same(arg, "--img-ocr-max-retries") {
        match next {
            Some(w) => {
                o.max_retries = Some(w.text.clone());
                FlagUse::Valued
            },
            None => FlagUse::Refused("--img-ocr-max-retries needs a value".to_owned()),
        }
    } else {
        FlagUse::Not
    }
}

/// The switches that the command line and the server's start share.
#[verifier::opaque]
pub open spec fn start_switch(c: Conversion, arg: Seq<char>) -> Option<Conversion> {
    if arg == "--no-ocr"@ {
        Some(Conversion { no_ocr: true, ..c })
    } else if arg == "--no-table-former"@ {
        Some(Conversion { no_table_former: true, ..c })
    } else if arg == "--force-full-page-ocr"@ {
        Some(Conversion { force_full_page_ocr: true, ..c })
    } else if arg == "--no-text-panels"@ {
        Some(Conversion { no_text_panels: true, ..c })
    } else if arg == "--strict"@ {
        Some(Conversion { strict: true, ..c })
    } else {
        None
    }
}

fn take_start_switch(c: &mut ConversionOptions, arg: &str) -> (r: bool)
    ensures
        match start_switch(old(c)@, arg@) {
            Some(after) => r && final(c)@ == after,
            None => !r && final(c)@ == old(c)@,
        },
{
    proof {
        reveal(start_switch);
    }
    if text::same(arg, "--no-ocr") {
        c.no_ocr = true;
    } else if text::same(arg, "--no-table-former") {
        c.no_table_former = true;
    } else if text::same(arg, "--force-full-page-ocr") {
        c.force_full_page_ocr = true;
    } else if text::same(arg, "--no-text-panels") {
        c.no_text_panels = true;
    } else if text::same(arg, "--strict") {
        c.strict = true;
    } else {
        return false;
    }
    true
}

/// The other switches of the command line.
#[verifier::opaque]
pub open spec fn file_switch(c: Conversion, arg: Seq<char>) -> Option<Conversion> {
    if arg == "--fetch-images"@ {
        Some(Conversion { fetch_images: true, ..c })
    } else if arg == "--use-web-browser"@ {
        Some(Conversion { use_web_browser: true, ..c })
    } else if arg == "--enrich-picture-classes"@ {
        Some(Conversion { enrich_picture_classes: true, ..c })
    } else if arg == "--enrich-code"@ {
        Some(Conversion { enrich_code: true, ..c })
    } else if arg == "--enrich-formula"@ {
        Some(Conversion { enrich_formula: true, ..c })
    } else {
        None
    }
}

fn take_file_switch(c: &mut ConversionOptions, arg: &str) -> (r: bool)
    ensures
        match file_switch(old(c)@, arg@) {
            Some(after) => r && final(c)@ == after,
            None => !r && final(c)@ == old(c)@,
        },
{
    proof {
        reveal(file_switch);
    }
    if text::same(arg, "--fetch-images") {
        c.fetch_images = true;
    } else if text::same(arg, "--use-web-browser") {
        c.use_web_browser = true;
    } else if text::same(arg, "--enrich-picture-classes") {
        c.enrich_picture_classes = true;
    } else if text::same(arg, "--enrich-code") {
        c.enrich_code = true;
    } else if text::same(arg, "--enrich-formula") {
        c.enrich_formula = true;
    } else {
        return false;
    }
    true
}

/// The options that [`ConversionOptions::parse_flag`] takes.
pub open spec fn is_shared(arg: Seq<char>) -> bool {
    arg == "--skip-ocr"@ || arg == "--heading-hierarchy"@ || arg == "--ocr-mode"@ || arg
        == "--ocr-scale"@ || arg == "--encoding"@ || arg == "--page-break-placeholder"@
}

fn shared(arg: &str) -> (r: bool)
    ensures
        r == is_shared(arg@),
{
    text::same(arg, "--skip-ocr") || text::same(arg, "--heading-hierarchy") || text::same(
        arg,
        "--ocr-mode",
    ) || text::same(arg, "--ocr-scale") || text::same(arg, "--encoding") || text::same(
        arg,
        "--page-break-placeholder",
    )
}

/// What the command line asks for.
#[derive(Debug)]
pub struct CliArgs {
    pub conversion: ConversionOptions,
    pub overrides: CliOverrides,
    pub request: Request,
}

/// What the command line asks for besides settings.
#[derive(Debug)]
pub struct Request {
    pub to: String,
    pub output: Option<String>,
    pub images: String,
    pub no_stream: bool,
    pub bench_warm: Option<usize>,
    pub pipeline: Option<String>,
    pub vlm_endpoint: Option<String>,
    pub vlm_model: Option<String>,
    pub path: Option<String>,
    pub input: Option<String>,
    pub jobs: usize,
    pub jobs_set: bool,
}

/// The contents of a [`Request`].
#[verifier::ext_equal]
pub struct RequestView {
    pub to: Seq<char>,
    pub output: Option<Seq<char>>,
    pub images: Seq<char>,
    pub no_stream: bool,
    pub bench_warm: Option<usize>,
    pub pipeline: Option<Seq<char>>,
    pub vlm_endpoint: Option<Seq<char>>,
    pub vlm_model: Option<Seq<char>>,
    pub path: Option<Seq<char>>,
    pub input: Option<Seq<char>>,
    pub jobs: usize,
    pub jobs_set: bool,
}

impl View for Request {
    type V = RequestView;

    open spec fn view(&self) -> RequestView {
        RequestView {
            to: self.to@,
            output: text::opt_view(self.output),
            images: self.images@,
            no_stream: self.no_stream,
            bench_warm: self.bench_warm,
            pipeline: text::opt_view(self.pipeline),
            vlm_endpoint: text::opt_view(self.vlm_endpoint),
            vlm_model: text::opt_view(self.vlm_model),
            path: text::opt_view(self.path),
            input: text::opt_view(self.input),
            jobs: self.jobs,
            jobs_set: self.jobs_set,
        }
    }
}

/// The contents of [`CliArgs`].
#[verifier::ext_equal]
pub struct Asked {
    pub conversion: Conversion,
    pub overrides: Overrides,
    pub request: RequestView,
}

impl View for CliArgs {
    type V = Asked;

    open spec fn view(&self) -> Asked {
        Asked {
            conversion: self.conversion@,
            overrides: self.overrides@,
            request: self.request@,
        }
    }
}

/// An empty command line.
pub open spec fn nothing_asked() -> Asked {
    Asked {
        conversion: conversion::plain(),
        overrides: crate::config::no_overrides()@,
        request: RequestView {
            to: "md"@,
            output: None,
            images: "placeholder"@,
            no_stream: false,
            bench_warm: None,
            pipeline: None,
            vlm_endpoint: None,
            vlm_model: None,
            path: None,
            input: None,
            jobs: 1,
            jobs_set: false,
        },
    }
}

fn no_args() -> (r: CliArgs)
    ensures
        r@ == nothing_asked(),
{
    CliArgs {
        conversion: ConversionOptions::default(),
        overrides: CliOverrides::default(),
        request: Request {
            to: "md".to_owned(),
            output: None,
            images: "placeholder".to_owned(),
            no_stream: false,
            bench_warm: None,
            pipeline: None,
            vlm_endpoint: None,
            vlm_model: None,
            path: None,
            input: None,
            jobs: 1,
            jobs_set: false,
        },
    }
}

/// A machine word that a text writes in decimal.
pub open spec fn count_of(v: Option<Seq<char>>) -> Option<usize> {
    match v {
        Some(s) => match text::unsigned(s, usize::MAX as nat) {
            Some(n) => Some(n as usize),
            None => None,
        },
        None => None,
    }
}

fn count(next: Option<&Word>) -> (r: Option<usize>)
    ensures
        r == count_of(next_view(conversion::word_view(next))),
{
    match next {
        Some(w) => match text::unsigned_of(&text::chars_of(&w.text), usize::MAX as u64) {
            Some(n) => Some(n as usize),
            None => None,
        },
        None => None,
    }
}

/// What the options for files do, and any other word.
#[verifier::opaque]
pub open spec fn requested(r: RequestView, arg: Seq<char>, next: Option<WordView>) -> Taken<
    RequestView,
> {
    let value = next_view(next);
    if arg == "--no-stream"@ {
        Taken::Alone(RequestView { no_stream: true, ..r })
    } else if arg == "--to"@ {
        Taken::Valued(RequestView { to: crate::config::or_default(value, Seq::empty()), ..r })
    } else if arg == "--images"@ {
        Taken::Valued(RequestView { images: crate::config::or_default(value, Seq::empty()), ..r })
    } else if arg == "--vlm-endpoint"@ {
        Taken::Valued(RequestView { vlm_endpoint: value, ..r })
    } else if arg == "--vlm-model"@ {
        Taken::Valued(RequestView { vlm_model: value, ..r })
    } else if arg == "--input"@ {
        match value {
            Some(v) => Taken::Valued(RequestView { input: Some(v), ..r }),
            None => Taken::Refused("--input needs a glob pattern or directory"@),
        }
    } else if arg == "-o"@ || arg == "--output"@ {
        match value {
            Some(v) => Taken::Valued(RequestView { output: Some(v), ..r }),
            None => Taken::Refused("--output needs a path"@),
        }
    } else if arg == "--jobs"@ {
        match count_of(value) {
            Some(n) if n >= 1 => Taken::Valued(RequestView { jobs: n, jobs_set: true, ..r }),
            _ => Taken::Refused("--jobs needs a positive integer"@),
        }
    } else if arg == "--bench-warm"@ {
        match count_of(value) {
            Some(n) => Taken::Valued(RequestView { bench_warm: Some(n), ..r }),
            None => Taken::Refused("--bench-warm needs a positive run count"@),
        }
    } else if arg == "--pipeline"@ {
        match value {
            Some(v) => if text::trim(v) == "standard"@ || text::trim(v) == "vlm"@ {
                Taken::Valued(RequestView { pipeline: Some(v), ..r })
            } else {
                Taken::Refused("--pipeline "@ + text::str_debug(v) + " is not standard|vlm"@)
            },
            None => Taken::Refused("--pipeline needs a value (standard|vlm)"@),
        }
    } else if text::starts_with(arg, "--"@) {
        Taken::Refused("unknown flag '"@ + arg + "' (try --help)"@)
    } else {
        Taken::Alone(RequestView { path: Some(arg), ..r })
    }
}

fn parse_request(r: &mut Request, arg: &str, next: Option<&Word>) -> (u: FlagUse)
    ensures
        used(u, requested(old(r)@, arg@, conversion::word_view(next)), old(r)@, final(r)@),
        !(u is Not),
{
    proof {
        reveal(requested);
    }
    if text::same(arg, "--no-stream") {
        r.no_stream = true;
        return FlagUse::Alone;
    }
    if text::same(arg, "--to") {
        r.to = text_or_empty(next);
        return FlagUse::Valued;
    }
    if text::same(arg, "--images") {
        r.images = text_or_empty(next);
        return FlagUse::Valued;
    }
    if text::same(arg, "--vlm-endpoint") {
        r.vlm_endpoint = next_text(next);
        return FlagUse::Valued;
    }
    if text::same(arg, "--vlm-model") {
        r.vlm_model = next_text(next);
        return FlagUse::Valued;
    }
    if text::same(arg, "--input") {
        return match next {
            Some(w) => {
                r.input = Some(w.text.clone());
                FlagUse::Valued
            },
            None => FlagUse::Refused("--input needs a glob pattern or directory".to_owned()),
        };
    }
    if text::same(arg, "-o") || text::same(arg, "--output") {
        return match next {
            Some(w) => {
                r.output = Some(w.text.clone());
                FlagUse::Valued
            },
            None => FlagUse::Refused("--output needs a path".to_owned()),
        };
    }
    if text::same(arg, "--jobs") {
        return match count(next) {
            Some(n) => if n >= 1 {
                r.jobs = n;
                r.jobs_set = true;
                FlagUse::Valued
            } else {
                FlagUse::Refused("--jobs needs a positive integer".to_owned())
            },
            None => FlagUse::Refused("--jobs needs a positive integer".to_owned()),
        };
    }
    if text::same(arg, "--bench-warm") {
        return match count(next) {
            Some(n) => {
                r.bench_warm = Some(n);
                FlagUse::Valued
            },
            None => FlagUse::Refused("--bench-warm needs a positive run count".to_owned()),
        };
    }
    if text::same(arg, "--pipeline") {
        return match next {
            Some(w) => {
                let v = text::trim_str(&w.text);
                if text::same(&v, "standard") || text::same(&v, "vlm") {
                    r.pipeline = Some(w.text.clone());
                    FlagUse::Valued
                } else {
                    FlagUse::Refused(
                        text::around_quoted("--pipeline ", &w.text, " is not standard|vlm"),
                    )
                }
            },
            None => FlagUse::Refused("--pipeline needs a value (standard|vlm)".to_owned()),
        };
    }
    if text::has_prefix(&text::chars_of(arg), "--") {
        return FlagUse::Refused(text::around("unknown flag '", arg, "' (try --help)"));
    }
    r.path = Some(arg.to_owned());
    FlagUse::Alone
}

fn text_or_empty(next: Option<&Word>) -> (r: String)
    ensures
        r@ == crate::config::or_default(next_view(conversion::word_view(next)), Seq::empty()),
{
    match next {
        Some(w) => w.text.clone(),
        None => String::new(),
    }
}

/// What the options for a document's pages, language and sound do.
#[verifier::opaque]
pub open spec fn tuned(c: Conversion, arg: Seq<char>, next: Option<WordView>) -> Taken<
    Conversion,
> {
    if arg == "--asr-model"@ {
        Taken::Valued(Conversion { asr_model: next_view(next), ..c })
    } else if arg == "--asr-lang"@ {
        Taken::Valued(Conversion { asr_lang: next_view(next), ..c })
    } else if arg == "--video-frames"@ {
        Taken::Valued(Conversion { video_frames: count_of(next_view(next)), ..c })
    } else if arg == "--pages"@ {
        match next {
            Some(w) => match conversion::page_range(w.text) {
                Ok(range) => Taken::Valued(Conversion { pages: Some(range), ..c }),
                Err(e) => Taken::Refused("--pages: "@ + e),
            },
            None => Taken::Refused("--pages needs a range like 1-10"@),
        }
    } else if arg == "--ocr-lang"@ {
        match next {
            Some(w) => match conversion::ocr_lang(w.text) {
                Ok(lang) => Taken::Valued(Conversion { ocr_lang: Some(lang), ..c }),
                Err(e) => Taken::Refused(e),
            },
            None => Taken::Refused("--ocr-lang needs a value (en|ch)"@),
        }
    } else {
        Taken::Not
    }
}

fn parse_tuning(c: &mut ConversionOptions, arg: &str, next: Option<&Word>) -> (r: FlagUse)
    ensures
        used(r, tuned(old(c)@, arg@, conversion::word_view(next)), old(c)@, final(c)@),
{
    proof {
        reveal(tuned);
    }
    if text::same(arg, "--asr-model") {
        c.asr_model = next_text(next);
        return FlagUse::Valued;
    }
    if text::same(arg, "--asr-lang") {
        c.asr_lang = next_text(next);
        return FlagUse::Valued;
    }
    if text::same(arg, "--video-frames") {
        c.video_frames = count(next);
        return FlagUse::Valued;
    }
    if text::same(arg, "--pages") {
        return match next {
            Some(w) => match docling::parse_page_range(&w.text) {
                Ok(range) => {
                    c.pages = Some(range);
                    FlagUse::Valued
                },
                Err(e) => FlagUse::Refused(text::both("--pages: ", &e)),
            },
            None => FlagUse::Refused("--pages needs a range like 1-10".to_owned()),
        };
    }
    if text::same(arg, "--ocr-lang") {
        return match next {
            Some(w) => match conversion::normalize_ocr_lang(&w.text) {
                Ok(lang) => {
                    c.ocr_lang = Some(lang);
                    FlagUse::Valued
                },
                Err(e) => FlagUse::Refused(e),
            },
            None => FlagUse::Refused("--ocr-lang needs a value (en|ch)".to_owned()),
        };
    }
    FlagUse::Not
}

/// What a word of the command line does.
#[verifier::opaque]
pub open spec fn step(a: Asked, arg: Seq<char>, next: Option<WordView>) -> Taken<Asked> {
    if is_shared(arg) {
        match conversion::flagged(a.conversion, arg, next) {
            Ok((c, true)) => Taken::Valued(Asked { conversion: c, ..a }),
            Ok((c, false)) => Taken::Alone(Asked { conversion: c, ..a }),
            Err(e) => Taken::Refused(e),
        }
    } else {
        match start_switch(a.conversion, arg) {
            Some(c) => Taken::Alone(Asked { conversion: c, ..a }),
            None => match file_switch(a.conversion, arg) {
                Some(c) => Taken::Alone(Asked { conversion: c, ..a }),
                None => match tuned(a.conversion, arg, next) {
                    Taken::Alone(c) => Taken::Alone(Asked { conversion: c, ..a }),
                    Taken::Valued(c) => Taken::Valued(Asked { conversion: c, ..a }),
                    Taken::Refused(e) => Taken::Refused(e),
                    Taken::Not => match overridden(a.overrides, arg, next_view(next)) {
                        Taken::Alone(o) => Taken::Alone(Asked { overrides: o, ..a }),
                        Taken::Valued(o) => Taken::Valued(Asked { overrides: o, ..a }),
                        Taken::Refused(e) => Taken::Refused(e),
                        Taken::Not => match requested(a.request, arg, next) {
                            Taken::Alone(r) => Taken::Alone(Asked { request: r, ..a }),
                            Taken::Valued(r) => Taken::Valued(Asked { request: r, ..a }),
                            Taken::Refused(e) => Taken::Refused(e),
                            Taken::Not => Taken::Not,
                        },
                    },
                },
            },
        }
    }
}

fn take_word(a: &mut CliArgs, arg: &str, next: Option<&Word>) -> (r: FlagUse)
    ensures
        used(r, step(old(a)@, arg@, conversion::word_view(next)), old(a)@, final(a)@),
        !(r is Not),
{
    proof {
        reveal(step);
    }
    if shared(arg) {
        return match a.conversion.parse_flag(arg, next) {
            Ok(took) => if took {
                FlagUse::Valued
            } else {
                FlagUse::Alone
            },
            Err(e) => FlagUse::Refused(e),
        };
    }
    if take_start_switch(&mut a.conversion, arg) {
        return FlagUse::Alone;
    }
    if take_file_switch(&mut a.conversion, arg) {
        return FlagUse::Alone;
    }
    match parse_tuning(&mut a.conversion, arg, next) {
        FlagUse::Not => {},
        u => return u,
    }
    match parse_override(&mut a.overrides, arg, next) {
        FlagUse::Not => {},
        u => return u,
    }
    parse_request(&mut a.request, arg, next)
}

/// What a command line comes to.
pub enum CliResult {
    /// The help is asked for.
    Help,
    /// The version is asked for.
    Version,
    /// A word is refused.
    Refused(Seq<char>),
    /// It asks for this.
    Asks(Asked),
}

/// What a command line comes to.
#[derive(Debug)]
pub enum Parsed {
    Help,
    Version,
    Refused(String),
    Asks(CliArgs),
}

/// The contents of a [`Parsed`].
pub open spec fn parsed_view(p: Parsed) -> CliResult {
    match p {
        Parsed::Help => CliResult::Help,
        Parsed::Version => CliResult::Version,
        Parsed::Refused(e) => CliResult::Refused(e@),
        Parsed::Asks(a) => CliResult::Asks(a@),
    }
}

/// The code that the program ends with where nothing is converted: 0 where the
/// help or the version is shown, 2 where the command line is refused.
pub open spec fn parsed_code(p: CliResult) -> Option<u8> {
    match p {
        CliResult::Help => Some(0),
        CliResult::Version => Some(0),
        CliResult::Refused(_) => Some(2),
        CliResult::Asks(_) => None,
    }
}

impl Parsed {
    /// The code that the program ends with where nothing is converted.
    pub fn exit_code(&self) -> (r: Option<u8>)
        ensures
            r == parsed_code(parsed_view(*self)),
    {
        match self {
            Parsed::Help => Some(0),
            Parsed::Version => Some(0),
            Parsed::Refused(_) => Some(2),
            Parsed::Asks(_) => None,
        }
    }
}

/// The words by their contents.
pub open spec fn word_views(words: Seq<Word>) -> Seq<WordView> {
    words.map_values(|w: Word| w@)
}

/// The word that follows the first.
pub open spec fn second(words: Seq<WordView>) -> Option<WordView> {
    if words.len() > 1 {
        Some(words[1])
    } else {
        None
    }
}

/// The words that follow one that was used with its value, if it has one.
pub open spec fn past_value(words: Seq<WordView>) -> Seq<WordView> {
    if words.len() > 1 {
        words.skip(2)
    } else {
        Seq::empty()
    }
}

/// What a command line comes to, word by word.
pub open spec fn read(a: Asked, words: Seq<WordView>) -> CliResult
    decreases words.len(),
{
    if words.len() == 0 {
        CliResult::Asks(a)
    } else {
        let arg = words[0].text;
        if arg == "-h"@ || arg == "--help"@ {
            CliResult::Help
        } else if arg == "-V"@ || arg == "--version"@ {
            CliResult::Version
        } else {
            match step(a, arg, second(words)) {
                Taken::Alone(b) => read(b, words.skip(1)),
                Taken::Valued(b) => read(b, past_value(words)),
                Taken::Refused(e) => CliResult::Refused(e),
                Taken::Not => CliResult::Asks(a),
            }
        }
    }
}

/// Read the command line.
pub fn parse_args(words: &Vec<Word>) -> (r: Parsed)
    ensures
        parsed_view(r) == read(nothing_asked(), word_views(words@)),
{
    let ghost all = word_views(words@);
    let mut a = no_args();
    let mut i: usize = 0;
    assert(all.skip(0) == all);
    while i < words.len()
        invariant
            i <= words@.len(),
            all == word_views(words@),
            read(nothing_asked(), all) == read(a@, all.skip(i as int)),
        decreases words@.len() - i,
    {
        let ghost rest = all.skip(i as int);
        assert(rest[0] == words@[i as int]@);
        let arg = &words[i].text;
        if text::same(arg, "-h") || text::same(arg, "--help") {
            return Parsed::Help;
        }
        if text::same(arg, "-V") || text::same(arg, "--version") {
            return Parsed::Version;
        }
        let next: Option<&Word> = if i + 1 < words.len() {
            Some(&words[i + 1])
        } else {
            None
        };
        assert(conversion::word_view(next) == second(rest)) by {
            if i + 1 < words@.len() {
                assert(rest[1] == words@[i + 1]@);
            }
        }
        match take_word(&mut a, arg, next) {
            FlagUse::Refused(e) => return Parsed::Refused(e),
            FlagUse::Valued => {
                if i + 1 < words.len() {
                    assert(past_value(rest) == all.skip(i + 2));
                    i += 2;
                } else {
                    assert(past_value(rest) == all.skip(i + 1));
                    i += 1;
                }
            },
            _ => {
                assert(rest.skip(1) == all.skip(i + 1));
                i += 1;
            },
        }
    }
    Parsed::Asks(a)
}

/// What is then done.
#[derive(Debug)]
pub enum Command {
    /// Nothing: it is refused.
    Refused(String),
    /// Nothing: the usage is shown.
    Usage,
    /// Many files are converted into a directory.
    Batch { pattern: String, outdir: String, images: ImageMode },
    /// One file is converted.
    Single { path: String, images: ImageMode },
}

/// The contents of a [`Command`].
pub enum CommandView {
    Refused(Seq<char>),
    Usage,
    Batch { pattern: Seq<char>, outdir: Seq<char>, images: ImageMode },
    Single { path: Seq<char>, images: ImageMode },
}

/// The contents of a [`Command`].
pub open spec fn command_view(c: Command) -> CommandView {
    match c {
        Command::Refused(e) => CommandView::Refused(e@),
        Command::Usage => CommandView::Usage,
        Command::Batch { pattern, outdir, images } => CommandView::Batch {
            pattern: pattern@,
            outdir: outdir@,
            images,
        },
        Command::Single { path, images } => CommandView::Single { path: path@, images },
    }
}

/// The code that the program ends with where nothing is converted.
pub open spec fn command_code(c: CommandView) -> Option<u8> {
    match c {
        CommandView::Refused(_) => Some(2),
        CommandView::Usage => Some(2),
        CommandView::Batch { .. } => None,
        CommandView::Single { .. } => None,
    }
}

impl Command {
    /// The code that the program ends with where nothing is converted.
    pub fn exit_code(&self) -> (r: Option<u8>)
        ensures
            r == command_code(command_view(*self)),
    {
        match self {
            Command::Refused(_) => Some(2),
            Command::Usage => Some(2),
            Command::Batch { .. } => None,
            Command::Single { .. } => None,
        }
    }
}

/// The way to show pictures that a word names.
pub open spec fn image_mode(s: Seq<char>) -> Option<ImageMode> {
    if s == "placeholder"@ {
        Some(ImageMode::Placeholder)
    } else if s == "embedded"@ {
        Some(ImageMode::Embedded)
    } else if s == "referenced"@ {
        Some(ImageMode::Referenced)
    } else {
        None
    }
}

/// The way to show pictures that a word names.
pub fn parse_image_mode(s: &str) -> (r: Option<ImageMode>)
    ensures
        r == image_mode(s@),
{
    if text::same(s, "placeholder") {
        Some(ImageMode::Placeholder)
    } else if text::same(s, "embedded") {
        Some(ImageMode::Embedded)
    } else if text::same(s, "referenced") {
        Some(ImageMode::Referenced)
    } else {
        None
    }
}

/// The output formats.
pub open spec fn is_format(to: Seq<char>) -> bool {
    to == "md"@ || to == "markdown"@ || to == "json"@ || to == "dclx"@ || to == "chunks"@
}

/// What a command line that was read is refused for, or asks to be done.
pub open spec fn command(r: RequestView) -> CommandView {
    if !is_format(r.to) {
        CommandView::Refused("unknown --to '"@ + r.to + "' (expected: md, json, dclx, chunks)"@)
    } else {
        match image_mode(r.images) {
            None => CommandView::Refused(
                "unknown --images '"@ + r.images
                    + "' (expected: placeholder, embedded, referenced)"@,
            ),
            Some(images) => match r.input {
                Some(pattern) => if r.path is Some {
                    CommandView::Refused(
                        "--input and a positional input file are mutually exclusive"@,
                    )
                } else if r.bench_warm is Some {
                    CommandView::Refused("--bench-warm is a single-file mode; drop --input"@)
                } else {
                    match r.output {
                        Some(outdir) => CommandView::Batch { pattern, outdir, images },
                        None => CommandView::Refused(
                            "--input needs --output DIR for the converted files"@,
                        ),
                    }
                },
                None => if r.jobs_set {
                    CommandView::Refused("--jobs requires --input GLOB|DIR"@)
                } else {
                    match r.path {
                        Some(path) => CommandView::Single { path, images },
                        None => CommandView::Usage,
                    }
                },
            },
        }
    }
}

impl Request {
    /// Check the request as a whole.
    pub fn command(&self) -> (r: Command)
        ensures
            command_view(r) == command(self@),
    {
        let known = text::same(&self.to, "md") || text::same(&self.to, "markdown") || text::same(
            &self.to,
            "json",
        ) || text::same(&self.to, "dclx") || text::same(&self.to, "chunks");
        if !known {
            return Command::Refused(
                text::around(
                    "unknown --to '",
                    &self.to,
                    "' (expected: md, json, dclx, chunks)",
                ),
            );
        }
        let images = match parse_image_mode(&self.images) {
            Some(m) => m,
            None => return Command::Refused(
                text::around(
                    "unknown --images '",
                    &self.images,
                    "' (expected: placeholder, embedded, referenced)",
                ),
            ),
        };
        match &self.input {
            Some(pattern) => {
                if self.path.is_some() {
                    return Command::Refused(
                        "--input and a positional input file are mutually exclusive".to_owned(),
                    );
                }
                if self.bench_warm.is_some() {
                    return Command::Refused(
                        "--bench-warm is a single-file mode; drop --input".to_owned(),
                    );
                }
                match &self.output {
                    Some(outdir) => Command::Batch {
                        pattern: pattern.clone(),
                        outdir: outdir.clone(),
                        images,
                    },
                    None => Command::Refused(
                        "--input needs --output DIR for the converted files".to_owned(),
                    ),
                }
            },
            None => {
                if self.jobs_set {
                    return Command::Refused("--jobs requires --input GLOB|DIR".to_owned());
                }
                match &self.path {
                    Some(path) => Command::Single { path: path.clone(), images },
                    None => Command::Usage,
                }
            },
        }
    }

    /// The pages are read by a remote vision model.
    pub open spec fn wants_vlm(&self) -> bool {
        self@.pipeline == Some("vlm"@)
    }

    /// Whether the pages are read by a remote vision model.
    pub fn uses_vlm(&self) -> (r: bool)
        ensures
            r == self.wants_vlm(),
    {
        match &self.pipeline {
            Some(p) => text::same(p, "vlm"),
            None => false,
        }
    }
}

/// Batch options without a batch, and a batch without its directory, are
/// refused.
pub proof fn law_batch_options_belong_together(r: RequestView)
    requires
        is_format(r.to),
        image_mode(r.images) is Some,
    ensures
        r.input is None && r.jobs_set ==> command(r) is Refused,
        r.input is Some && r.output is None ==> command(r) is Refused,
        r.input is Some && r.path is Some ==> command(r) is Refused,
        command(r) is Batch <==> r.input is Some && r.output is Some && r.path is None
            && r.bench_warm is None,
{
}

/// How one file is converted.
#[derive(Debug)]
pub enum Way {
    /// Its warm conversion is timed.
    Bench { runs: usize },
    /// Its pages are read by a remote vision model.
    Vlm,
    /// It is refused.
    Refused(String),
    /// It is a picture for a remote engine, and becomes a document of its own.
    Bypass,
    /// Its Markdown is written as it comes.
    Stream,
    /// It is converted as a whole.
    Whole,
}

/// A picture goes to a remote engine without being converted.
pub open spec fn bypasses(cfg: ImgOcrConfig, format: InputFormat) -> bool {
    cfg.mode != OutputMode::Placeholder && cfg.is_remote_first() && format == InputFormat::Image
}

/// Whether a picture goes to a remote engine without being converted.
pub fn is_bypass(cfg: &ImgOcrConfig, format: InputFormat) -> (r: bool)
    ensures
        r == bypasses(*cfg, format),
{
    cfg.mode != OutputMode::Placeholder && cfg.remote_first() && format == InputFormat::Image
}

impl Request {
    /// The Markdown can be written as it comes: nothing is recognised in
    /// pictures, and it goes to the standard output.
    pub open spec fn streams(&self, cfg: ImgOcrConfig) -> bool {
        &&& cfg.mode == OutputMode::Placeholder
        &&& self@.to == "md"@ || self@.to == "markdown"@
        &&& !self@.no_stream
        &&& self@.output is None
    }

    /// Choose how one file is converted.
    pub fn way(&self, cfg: &ImgOcrConfig, format: InputFormat) -> (r: Way)
        ensures
            match self@.bench_warm {
                Some(runs) => r == (Way::Bench { runs }),
                None => if self.wants_vlm() {
                    if conversion::through_pipeline(format) {
                        r is Vlm
                    } else {
                        (r matches Way::Refused(e) && e@
                            == "--pipeline vlm supports docling PDF/image inputs only"@)
                    }
                } else if bypasses(*cfg, format) {
                    r is Bypass
                } else if self.streams(*cfg) {
                    r is Stream
                } else {
                    r is Whole
                },
            },
    {
        if let Some(runs) = self.bench_warm {
            return Way::Bench { runs };
        }
        if self.uses_vlm() {
            if format == InputFormat::Pdf || format == InputFormat::Image {
                return Way::Vlm;
            }
            return Way::Refused(
                "--pipeline vlm supports docling PDF/image inputs only".to_owned(),
            );
        }
        if is_bypass(cfg, format) {
            return Way::Bypass;
        }
        let markdown = text::same(&self.to, "md") || text::same(&self.to, "markdown");
        if cfg.mode == OutputMode::Placeholder && markdown && !self.no_stream
            && self.output.is_none() {
            return Way::Stream;
        }
        Way::Whole
    }
}

/// The settings of picture OCR for an output format.
pub fn post_options(cfg: &ImgOcrConfig, images: ImageMode, to: &str) -> (r: PostOptions)
    ensures
        r == (PostOptions {
            mode: cfg.mode,
            min_pixels: cfg.min_pixels,
            keep_picture: images != ImageMode::Placeholder,
            target: OutputTarget::named(to@),
        }),
{
    PostOptions {
        mode: cfg.mode,
        min_pixels: cfg.min_pixels,
        keep_picture: images != ImageMode::Placeholder,
        target: OutputTarget::from_format(to),
    }
}

/// What is written of a converted document.
#[derive(Debug, Clone, Copy, PartialEq, Eq, Structural)]
pub enum Export {
    /// A DocLang archive.
    Archive,
    Json,
    /// The records of its chunks, as JSON.
    Chunks,
    Markdown,
    /// Markdown with its pictures.
    Illustrated,
}

/// What is written in a format, with pictures shown in some way.
pub open spec fn exported(to: Seq<char>, images: ImageMode) -> Export {
    if to == "dclx"@ {
        Export::Archive
    } else if to == "json"@ {
        Export::Json
    } else if to == "chunks"@ {
        Export::Chunks
    } else if images == ImageMode::Placeholder {
        Export::Markdown
    } else {
        Export::Illustrated
    }
}

/// Choose what is written of a converted document.
pub fn export_of(to: &str, images: ImageMode) -> (r: Export)
    ensures
        r == exported(to@, images),
{
    if text::same(to, "dclx") {
        Export::Archive
    } else if text::same(to, "json") {
        Export::Json
    } else if text::same(to, "chunks") {
        Export::Chunks
    } else if images == ImageMode::Placeholder {
        Export::Markdown
    } else {
        Export::Illustrated
    }
}

/// Where a DocLang archive is written: where the command line says, or beside
/// the working directory under the input's name.
pub open spec fn archive_path(input: Seq<char>, output: Option<Seq<char>>) -> Seq<char> {
    match output {
        Some(p) => p,
        None => crate::config::or_default(paths::stem(input), "document"@) + ".dclx"@,
    }
}

/// Where a DocLang archive is written.
pub fn dclx_path(input: &str, output: &Option<String>) -> (r: String)
    ensures
        r@ == archive_path(input@, text::opt_view(*output)),
{
    match output {
        Some(p) => p.clone(),
        None => match paths::stem_of(input) {
            Some(stem) => text::both(&stem, ".dclx"),
            None => text::both("document", ".dclx"),
        },
    }
}

/// What a server is started with.
#[derive(Debug)]
pub struct ServeArgs {
    pub addr: String,
    pub conversion: ConversionOptions,
    pub overrides: CliOverrides,
}

/// The contents of [`ServeArgs`].
#[verifier::ext_equal]
pub struct Start {
    pub addr: Seq<char>,
    pub conversion: Conversion,
    pub overrides: Overrides,
}

impl View for ServeArgs {
    type V = Start;

    open spec fn view(&self) -> Start {
        Start {
            addr: self.addr@,
            conversion: self.conversion@,
            overrides: self.overrides@,
        }
    }
}

/// Why a server is not started.
#[derive(Debug)]
pub enum ServeRefusal {
    /// A word is refused.
    Usage(String),
    /// A word is not known to the server.
    Unknown(String),
}

/// The contents of a [`ServeRefusal`].
pub enum NoStart {
    Usage(Seq<char>),
    Unknown(Seq<char>),
}

/// The contents of a [`ServeRefusal`].
pub open spec fn no_start(r: ServeRefusal) -> NoStart {
    match r {
        ServeRefusal::Usage(e) => NoStart::Usage(e@),
        ServeRefusal::Unknown(w) => NoStart::Unknown(w@),
    }
}

/// The options of the server alone.
#[verifier::opaque]
pub open spec fn own_option(s: Start, arg: Seq<char>, next: Option<WordView>) -> Taken<Start> {
    if arg == "--addr"@ {
        match next {
            Some(w) => Taken::Valued(Start { addr: w.text, ..s }),
            None => Taken::Refused("--addr needs HOST:PORT"@),
        }
    } else if arg == "--ocr-lang"@ {
        match next {
            Some(w) => match conversion::ocr_lang(w.text) {
                Ok(lang) => Taken::Valued(
                    Start { conversion: Conversion { ocr_lang: Some(lang), ..s.conversion }, ..s },
                ),
                Err(e) => Taken::Refused(e),
            },
            None => Taken::Refused("--ocr-lang needs a language tag"@),
        }
    } else {
        Taken::Not
    }
}

fn take_own_option(s: &mut ServeArgs, arg: &str, next: Option<&Word>) -> (r: FlagUse)
    ensures
        used(r, own_option(old(s)@, arg@, conversion::word_view(next)), old(s)@, final(s)@),
{
    proof {
        reveal(own_option);
    }
    if text::same(arg, "--addr") {
        return match next {
            Some(w) => {
                s.addr = w.text.clone();
                FlagUse::Valued
            },
            None => FlagUse::Refused("--addr needs HOST:PORT".to_owned()),
        };
    }
    if text::same(arg, "--ocr-lang") {
        return match next {
            Some(w) => match conversion::normalize_ocr_lang(&w.text) {
                Ok(lang) => {
                    s.conversion.ocr_lang = Some(lang);
                    FlagUse::Valued
                },
                Err(e) => FlagUse::Refused(e),
            },
            None => FlagUse::Refused("--ocr-lang needs a language tag".to_owned()),
        };
    }
    FlagUse::Not
}

/// What a word of the server's command line does.
#[verifier::opaque]
pub open spec fn serve_step(s: Start, arg: Seq<char>, next: Option<WordView>) -> Taken<Start> {
    if is_shared(arg) {
        match conversion::flagged(s.conversion, arg, next) {
            Ok((c, true)) => Taken::Valued(Start { conversion: c, ..s }),
            Ok((c, false)) => Taken::Alone(Start { conversion: c, ..s }),
            Err(e) => Taken::Refused(e),
        }
    } else {
        match start_switch(s.conversion, arg) {
            Some(c) => Taken::Alone(Start { conversion: c, ..s }),
            None => match overridden(s.overrides, arg, next_view(next)) {
                Taken::Alone(o) => Taken::Alone(Start { overrides: o, ..s }),
                Taken::Valued(o) => Taken::Valued(Start { overrides: o, ..s }),
                Taken::Refused(e) => Taken::Refused(e),
                Taken::Not => own_option(s, arg, next),
            },
        }
    }
}

fn take_serve_word(s: &mut ServeArgs, arg: &str, next: Option<&Word>) -> (r: FlagUse)
    ensures
        used(r, serve_step(old(s)@, arg@, conversion::word_view(next)), old(s)@, final(s)@),
{
    proof {
        reveal(serve_step);
    }
    if shared(arg) {
        return match s.conversion.parse_flag(arg, next) {
            Ok(took) => if took {
                FlagUse::Valued
            } else {
                FlagUse::Alone
            },
            Err(e) => FlagUse::Refused(e),
        };
    }
    if take_start_switch(&mut s.conversion, arg) {
        return FlagUse::Alone;
    }
    match parse_override(&mut s.overrides, arg, next) {
        FlagUse::Not => {},
        u => return u,
    }
    take_own_option(s, arg, next)
}

/// What a server is started with, word by word.
pub open spec fn serve_read(s: Start, words: Seq<WordView>) -> Result<Start, NoStart>
    decreases words.len(),
{
    if words.len() == 0 {
        Ok(s)
    } else {
        match serve_step(s, words[0].text, second(words)) {
            Taken::Alone(t) => serve_read(t, words.skip(1)),
            Taken::Valued(t) => serve_read(t, past_value(words)),
            Taken::Refused(e) => Err(NoStart::Usage(e)),
            Taken::Not => Err(NoStart::Unknown(words[0].text)),
        }
    }
}

/// A server's command line without words.
pub open spec fn plain_start() -> Start {
    Start {
        addr: DEFAULT_ADDRESS@,
        conversion: conversion::plain(),
        overrides: crate::config::no_overrides()@,
    }
}

/// Read the server's command line.
pub fn parse_serve_args(words: &Vec<Word>) -> (r: Result<ServeArgs, ServeRefusal>)
    ensures
        match r {
            Ok(s) => serve_read(plain_start(), word_views(words@)) == Ok::<Start, NoStart>(s@),
            Err(e) => serve_read(plain_start(), word_views(words@)) == Err::<Start, NoStart>(
                no_start(e),
            ),
        },
{
    let ghost all = word_views(words@);
    let mut s = ServeArgs {
        addr: DEFAULT_ADDRESS.to_owned(),
        conversion: ConversionOptions::default(),
        overrides: CliOverrides::default(),
    };
    let mut i: usize = 0;
    assert(all.skip(0) == all);
    while i < words.len()
        invariant
            i <= words@.len(),
            all == word_views(words@),
            serve_read(plain_start(), all) == serve_read(s@, all.skip(i as int)),
        decreases words@.len() - i,
    {
        let ghost rest = all.skip(i as int);
        assert(rest[0] == words@[i as int]@);
        let arg = &words[i].text;
        let next: Option<&Word> = if i + 1 < words.len() {
            Some(&words[i + 1])
        } else {
            None
        };
        assert(conversion::word_view(next) == second(rest)) by {
            if i + 1 < words@.len() {
                assert(rest[1] == words@[i + 1]@);
            }
        }
        match take_serve_word(&mut s, arg, next) {
            FlagUse::Refused(e) => return Err(ServeRefusal::Usage(e)),
            FlagUse::Not => return Err(ServeRefusal::Unknown(arg.clone())),
            FlagUse::Valued => {
                if i + 1 < words.len() {
                    assert(past_value(rest) == all.skip(i + 2));
                    i += 2;
                } else {
                    assert(past_value(rest) == all.skip(i + 1));
                    i += 1;
                }
            },
            FlagUse::Alone => {
                assert(rest.skip(1) == all.skip(i + 1));
                i += 1;
            },
        }
    }
    Ok(s)
}

} // verus!
