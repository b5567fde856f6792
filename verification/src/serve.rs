//! Conversion over HTTP: what each request is answered.

use vstd::prelude::*;

use crate::cache::OcrCache;
use crate::config;
use crate::config::{EnginePlan, ImgOcrConfig};
use crate::conversion;
use crate::conversion::{Conversion, ConversionOptions, WarmPipeline};
use crate::converted::ImageMode;
use crate::engine::{OcrRunner, Runner};
use crate::input;
use crate::input::{DetectedSource, InputError, InputFormat};
use crate::multipart;
use crate::multipart::Upload;
use crate::postprocess::{OutputMode, OutputTarget, PostOptions};
use crate::query;
use crate::query::Params;
use crate::text;

verus! {

broadcast use vstd::string::group_string_axioms;

/// Bodies that are longer than this are refused: 200 MiB.
pub const MAX_BODY: usize = 209_715_200;

/// How many requests may wait for the worker.
pub const QUEUE: usize = 4;

/// How long an engine of the server rests after failing, in nanoseconds.
pub const COOLDOWN: u64 = 30_000_000_000;

/// The page with the upload form.
pub const FORM_HTML: &'static str = r#"<!doctype html>
<meta charset="utf-8">
<title>docmill</title>
<style>body{font:15px system-ui;margin:3em auto;max-width:36em;padding:0 1em}
label{display:block;margin:.8em 0 .2em}</style>
<h1>docmill</h1>
<p>Convert a document or picture to Markdown, including OCR over embedded images.</p>
<form method="post" action="convert" enctype="multipart/form-data">
  <label>File</label><input type="file" name="file" required>
  <label>Output</label>
  <select name="to"><option value="md">markdown</option><option value="json">json</option></select>
  <label>Picture-OCR mode</label>
  <select name="mode">
    <option value="fence">fence (layout-preserving, default)</option>
    <option value="markers">markers</option>
    <option value="text">text</option>
    <option value="quote">quote</option>
    <option value="placeholder">placeholder (no OCR)</option>
  </select>
  <label></label><button>Convert</button>
</form>
<p><small>POST /convert also accepts a raw body with ?filename=doc.docx (the extension may be omitted when content is recognizable);
GET /health for liveness.</small></p>
"#;

/// An answer with a text.
#[derive(Debug, PartialEq, Eq)]
pub struct Answer {
    pub status: u16,
    pub content_type: &'static str,
    pub body: String,
}

/// A refused conversion: the status and the reason.
#[derive(Debug)]
pub struct Refusal {
    pub status: u16,
    pub message: String,
}

/// The contents of a refusal.
pub open spec fn refusal(r: Refusal) -> (u16, Seq<char>) {
    (r.status, r.message@)
}

/// The answer is a plain text.
pub open spec fn says(a: Answer, status: u16, body: Seq<char>) -> bool {
    &&& a.status == status
    &&& a.content_type@ == "text/plain; charset=utf-8"@
    &&& a.body@ == body
}

/// Answer with a plain text.
pub fn text_answer(status: u16, body: &str) -> (r: Answer)
    ensures
        says(r, status, body@),
{
    Answer { status, content_type: "text/plain; charset=utf-8", body: body.to_owned() }
}

/// Answer a refused conversion.
pub fn refuse(r: &Refusal) -> (a: Answer)
    ensures
        says(a, r.status, "error: "@ + r.message@ + "\n"@),
{
    text_answer(r.status, &text::around("error: ", &r.message, "\n"))
}

fn refused(status: u16, message: String) -> (r: Refusal)
    ensures
        refusal(r) == (status, message@),
{
    Refusal { status, message }
}

/// The methods that requests are told apart by.
#[derive(Debug, Clone, Copy, PartialEq, Eq, Structural)]
pub enum Method {
    Get,
    Post,
    Other,
}

/// What becomes of a request.
#[derive(Debug)]
pub enum Dispatch {
    /// It is answered at once.
    Answered(Answer),
    /// It waits for the worker, or is answered with [`queue_full`].
    Queued,
}

/// The path of a URL: what stands before the first `?`.
pub open spec fn path(url: Seq<char>) -> Seq<char> {
    url.take(text::index_of(url, '?'))
}

/// The query of a URL: what stands behind the first `?`.
pub open spec fn query_part(url: Seq<char>) -> Seq<char> {
    let i = text::index_of(url, '?');
    if i < url.len() {
        url.skip(i + 1)
    } else {
        Seq::empty()
    }
}

/// The query of a URL.
pub fn query_of(url: &str) -> (r: String)
    ensures
        r@ == query_part(url@),
{
    let v = text::chars_of(url);
    let i: usize = text::position_of(&v, '?');
    if i < v.len() {
        let q = vstd::slice::slice_subrange(&v, i + 1, v.len());
        assert(q@ == v@.skip(i + 1));
        text::string_of(q)
    } else {
        String::new()
    }
}

/// What a request is answered; none where it is converted.
pub open spec fn routed(method: Method, url: Seq<char>, length: Option<usize>) -> Option<
    (u16, Seq<char>, Seq<char>),
> {
    let plain = "text/plain; charset=utf-8"@;
    if method == Method::Get && path(url) == "/"@ {
        Some((200, "text/html; charset=utf-8"@, FORM_HTML@))
    } else if method == Method::Get && path(url) == "/health"@ {
        Some((200, plain, "ok\n"@))
    } else if method == Method::Post && path(url) == "/convert"@ {
        match length {
            Some(n) if n > MAX_BODY => Some((413, plain, "error: body exceeds 200 MiB\n"@)),
            _ => None,
        }
    } else {
        Some((404, plain, "not found (try GET /, GET /health, POST /convert)\n"@))
    }
}

/// Answer a request, or let it wait for the worker. `length` is the length
/// that the request declares for its body.
pub fn dispatch(method: Method, url: &str, length: Option<usize>) -> (r: Dispatch)
    ensures
        match r {
            Dispatch::Answered(a) => routed(method, url@, length) == Some(
                (a.status, a.content_type@, a.body@),
            ),
            Dispatch::Queued => routed(method, url@, length) is None,
        },
{
    let v = text::chars_of(url);
    let n: usize = text::position_of(&v, '?');
    let p = vstd::slice::slice_subrange(&v, 0, n);
    assert(p@ == path(url@));
    if method == Method::Get && text::same_chars(p, "/") {
        return Dispatch::Answered(
            Answer {
                status: 200,
                content_type: "text/html; charset=utf-8",
                body: FORM_HTML.to_owned(),
            },
        );
    }
    if method == Method::Get && text::same_chars(p, "/health") {
        return Dispatch::Answered(text_answer(200, "ok\n"));
    }
    if method == Method::Post && text::same_chars(p, "/convert") {
        return match length {
            Some(len) => if len > MAX_BODY {
                Dispatch::Answered(text_answer(413, "error: body exceeds 200 MiB\n"))
            } else {
                Dispatch::Queued
            },
            None => Dispatch::Queued,
        };
    }
    Dispatch::Answered(
        text_answer(404, "not found (try GET /, GET /health, POST /convert)\n"),
    )
}

/// The answer where no more requests may wait.
pub fn queue_full() -> (r: Answer)
    ensures
        says(r, 503, "error: conversion queue is full; retry later\n"@),
{
    text_answer(503, "error: conversion queue is full; retry later\n")
}

/// A file as it was uploaded, and the parameters that came with it.
#[derive(Debug)]
pub struct Received {
    pub params: Params,
    pub filename: String,
    pub bytes: Vec<u8>,
}

/// The contents of a [`Received`].
#[verifier::ext_equal]
pub struct ReceivedView {
    pub params: Map<Seq<char>, Seq<char>>,
    pub filename: Seq<char>,
    pub bytes: Seq<u8>,
}

impl View for Received {
    type V = ReceivedView;

    open spec fn view(&self) -> ReceivedView {
        ReceivedView { params: self.params@, filename: self.filename@, bytes: self.bytes@ }
    }
}

/// The fields of a form add to the parameters and never override them.
pub open spec fn completed(
    m: Map<Seq<char>, Seq<char>>,
    fields: Seq<(Seq<char>, Seq<char>)>,
) -> Map<Seq<char>, Seq<char>>
    decreases fields.len(),
{
    if fields.len() == 0 {
        m
    } else {
        query::with_default(
            completed(m, fields.drop_last()),
            fields.last().0,
            fields.last().1,
        )
    }
}

/// The file that a request uploads, or why there is none.
pub open spec fn received(
    q: Seq<char>,
    content_type: Seq<char>,
    body: Result<Seq<u8>, Seq<char>>,
) -> Result<ReceivedView, (u16, Seq<char>)> {
    match body {
        Err(e) => Err((400, "read body: "@ + e)),
        Ok(b) => if b.len() > MAX_BODY {
            Err((413, "body exceeds 200 MiB"@))
        } else {
            let m = query::params(q);
            match multipart::boundary(content_type) {
                Some(boundary) => match multipart::upload(b, boundary) {
                    Some(Upload { file: Some((filename, bytes)), fields }) => Ok(
                        ReceivedView { params: completed(m, fields), filename, bytes },
                    ),
                    _ => Err((400, "multipart body has no file part"@)),
                },
                None => match query::value(m, "filename"@) {
                    Some(filename) => Ok(ReceivedView { params: m, filename, bytes: b }),
                    None => Err((400, "raw uploads need ?filename=<name.ext>"@)),
                },
            }
        },
    }
}

/// A body that was read, by its bytes, or why reading failed.
pub open spec fn body_view(body: Result<Vec<u8>, String>) -> Result<Seq<u8>, Seq<char>> {
    match body {
        Ok(v) => Ok(v@),
        Err(e) => Err(e@),
    }
}

/// Take the file out of a request: as `multipart/form-data`, or as the whole
/// body with its name in the query. `body` is what was read, at least one byte
/// more than [`MAX_BODY`] where there is more, or why reading failed.
pub fn receive(q: &str, content_type: &str, body: Result<Vec<u8>, String>) -> (r: Result<
    Received,
    Refusal,
>)
    ensures
        received(q@, content_type@, body_view(body)) == match r {
            Ok(f) => Ok::<ReceivedView, (u16, Seq<char>)>(f@),
            Err(e) => Err(refusal(e)),
        },
{
    let body = match body {
        Ok(v) => v,
        Err(e) => return Err(refused(400, text::both("read body: ", &e))),
    };
    if body.len() > MAX_BODY {
        return Err(refused(413, "body exceeds 200 MiB".to_owned()));
    }
    let mut params = query::parse_query(q);
    match multipart::multipart_boundary(content_type) {
        Some(boundary) => match multipart::parse_multipart(&body, &boundary) {
            Some((filename, content, fields)) => {
                let ghost m = params@;
                let ghost all = query::pair_views(fields@);
                assert(all.take(0).len() == 0);
                for i in 0..fields.len()
                    invariant
                        all == query::pair_views(fields@),
                        params@ == completed(m, all.take(i as int)),
                {
                    assert(all.take(i + 1).drop_last() == all.take(i as int));
                    assert(all.take(i + 1).last() == all[i as int]);
                    let (k, v) = (fields[i].0.clone(), fields[i].1.clone());
                    params.or_insert(k, v);
                }
                assert(all.take(all.len() as int) == all);
                Ok(Received { params, filename, bytes: content })
            },
            None => Err(refused(400, "multipart body has no file part".to_owned())),
        },
        None => {
            let filename = match params.get("filename") {
                Some(name) => name.clone(),
                None => return Err(
                    refused(400, "raw uploads need ?filename=<name.ext>".to_owned()),
                ),
            };
            Ok(Received { params, filename, bytes: body })
        },
    }
}

/// What the query says is never overridden by a field of the form.
pub proof fn law_the_query_wins(
    m: Map<Seq<char>, Seq<char>>,
    fields: Seq<(Seq<char>, Seq<char>)>,
    name: Seq<char>,
)
    requires
        m.dom().contains(name),
    ensures
        query::value(completed(m, fields), name) == Some(m[name]),
    decreases fields.len(),
{
    if fields.len() > 0 {
        law_the_query_wins(m, fields.drop_last(), name);
    }
}

/// A field that the query does not name counts with its first value.
pub proof fn law_the_first_field_counts(
    m: Map<Seq<char>, Seq<char>>,
    fields: Seq<(Seq<char>, Seq<char>)>,
    i: int,
)
    requires
        0 <= i < fields.len(),
        !m.dom().contains(fields[i].0),
        forall|k: int| 0 <= k < i ==> (#[trigger] fields[k]).0 != fields[i].0,
    ensures
        query::value(completed(m, fields), fields[i].0) == Some(fields[i].1),
    decreases fields.len(),
{
    let shorter = fields.drop_last();
    if i == fields.len() - 1 {
        lemma_unnamed(m, shorter, fields[i].0);
    } else {
        assert forall|k: int| 0 <= k < i implies (#[trigger] shorter[k]).0 != shorter[i].0 by {
            assert(fields[k].0 != fields[i].0);
        }
        law_the_first_field_counts(m, shorter, i);
    }
}

proof fn lemma_unnamed(
    m: Map<Seq<char>, Seq<char>>,
    fields: Seq<(Seq<char>, Seq<char>)>,
    name: Seq<char>,
)
    requires
        !m.dom().contains(name),
        forall|k: int| 0 <= k < fields.len() ==> (#[trigger] fields[k]).0 != name,
    ensures
        !completed(m, fields).dom().contains(name),
    decreases fields.len(),
{
    if fields.len() > 0 {
        let shorter = fields.drop_last();
        assert forall|k: int| 0 <= k < shorter.len() implies (#[trigger] shorter[k]).0 != name by {
            assert(fields[k].0 != name);
        }
        lemma_unnamed(m, shorter, name);
        assert(fields[fields.len() - 1].0 != name);
    }
}

/// The status of an input that is not converted.
pub open spec fn error_status(error: InputError) -> u16 {
    match error {
        InputError::Unsupported { .. } => 415,
        InputError::Io { .. } => 400,
    }
}

/// The status of an input that is not converted.
pub fn input_error_status(error: &InputError) -> (r: u16)
    ensures
        r == error_status(*error),
{
    match error {
        InputError::Unsupported { .. } => 415,
        InputError::Io { .. } => 400,
    }
}

/// A switch of a request has a value that is none.
pub open spec fn misset(m: Map<Seq<char>, Seq<char>>, name: Seq<char>) -> bool {
    match query::value(m, name) {
        None => false,
        Some(v) => v != "1"@ && v != "true"@ && v != "0"@ && v != "false"@,
    }
}

/// What is said of a switch with another value.
pub open spec fn not_a_switch(name: Seq<char>) -> Seq<char> {
    name + " must be 0|1|false|true"@
}

/// A switch of a request.
pub open spec fn set(m: Map<Seq<char>, Seq<char>>, name: Seq<char>, default: bool) -> bool {
    match query::value(m, name) {
        None => default,
        Some(v) => v == "1"@ || v == "true"@,
    }
}

fn switch_of(opts: &Params, name: &str, default: bool) -> (r: Result<bool, String>)
    ensures
        match r {
            Ok(b) => !misset(opts@, name@) && b == set(opts@, name@, default),
            Err(e) => misset(opts@, name@) && e@ == not_a_switch(name@),
        },
{
    match opts.get(name) {
        None => Ok(default),
        Some(v) => if text::same(v, "1") || text::same(v, "true") {
            Ok(true)
        } else if text::same(v, "0") || text::same(v, "false") {
            proof {
                reveal_strlit("0");
                reveal_strlit("1");
                reveal_strlit("false");
                reveal_strlit("true");
                assert("0"@[0] != "1"@[0] && "0"@.len() != "true"@.len());
                assert("false"@.len() != "1"@.len() && "false"@.len() != "true"@.len());
            }
            Ok(false)
        } else {
            Err(text::both(name, " must be 0|1|false|true"))
        },
    }
}

/// The settings with the switches of a request.
#[verifier::opaque]
pub open spec fn switched(m: Map<Seq<char>, Seq<char>>, d: Conversion) -> Result<
    Conversion,
    Seq<char>,
> {
    if misset(m, "strict"@) {
        Err(not_a_switch("strict"@))
    } else if misset(m, "no_ocr"@) {
        Err(not_a_switch("no_ocr"@))
    } else if misset(m, "no_table_former"@) {
        Err(not_a_switch("no_table_former"@))
    } else if misset(m, "skip_ocr"@) {
        Err(not_a_switch("skip_ocr"@))
    } else if misset(m, "force_full_page_ocr"@) {
        Err(not_a_switch("force_full_page_ocr"@))
    } else if misset(m, "no_text_panels"@) {
        Err(not_a_switch("no_text_panels"@))
    } else if misset(m, "heading_hierarchy"@) {
        Err(not_a_switch("heading_hierarchy"@))
    } else {
        Ok(
            Conversion {
                strict: set(m, "strict"@, d.strict),
                no_ocr: set(m, "no_ocr"@, d.no_ocr),
                no_table_former: set(m, "no_table_former"@, d.no_table_former),
                skip_ocr: set(m, "skip_ocr"@, d.skip_ocr),
                force_full_page_ocr: set(m, "force_full_page_ocr"@, d.force_full_page_ocr),
                no_text_panels: set(m, "no_text_panels"@, d.no_text_panels),
                heading_hierarchy: set(m, "heading_hierarchy"@, d.heading_hierarchy),
                ..d
            },
        )
    }
}

/// The pages that a request asks for.
#[verifier::opaque]
pub open spec fn pages_of(
    m: Map<Seq<char>, Seq<char>>,
    default: Option<(usize, usize)>,
) -> Result<Option<(usize, usize)>, Seq<char>> {
    match query::value(m, "pages"@) {
        None => Ok(default),
        Some(v) => match conversion::page_range(v) {
            Ok(p) => Ok(Some(p)),
            Err(e) => Err(e),
        },
    }
}

/// The page OCR language that a request asks for.
#[verifier::opaque]
pub open spec fn lang_of(m: Map<Seq<char>, Seq<char>>, default: Option<Seq<char>>) -> Result<
    Option<Seq<char>>,
    Seq<char>,
> {
    match query::value(m, "ocr_lang"@) {
        None => Ok(default),
        Some(v) => match conversion::ocr_lang(v) {
            Ok(lang) => Ok(Some(lang)),
            Err(e) => Err(e),
        },
    }
}

/// The page OCR mode that a request asks for.
#[verifier::opaque]
pub open spec fn ocr_mode_of(m: Map<Seq<char>, Seq<char>>, default: Option<Seq<char>>) -> Result<
    Option<Seq<char>>,
    Seq<char>,
> {
    match query::value(m, "ocr_mode"@) {
        None => Ok(default),
        Some(v) => match conversion::ocr_mode(v) {
            Ok(mode) => Ok(Some(mode)),
            Err(e) => Err(e),
        },
    }
}

/// The scale that a request asks for.
#[verifier::opaque]
pub open spec fn scale_of(m: Map<Seq<char>, Seq<char>>, default: Option<u32>, scale: Option<u32>) -> Result<
    Option<u32>,
    Seq<char>,
> {
    match query::value(m, "ocr_scale"@) {
        None => Ok(default),
        Some(v) => match conversion::ocr_scale(v, scale) {
            Ok(bits) => Ok(Some(bits)),
            Err(e) => Err(e),
        },
    }
}

/// The value of a parameter, or the default.
pub open spec fn value_or(
    m: Map<Seq<char>, Seq<char>>,
    name: Seq<char>,
    default: Option<Seq<char>>,
) -> Option<Seq<char>> {
    match query::value(m, name) {
        Some(v) => Some(v),
        None => default,
    }
}

/// The settings of a request: those that the server started with, with what
/// the request asks for.
pub open spec fn requested(m: Map<Seq<char>, Seq<char>>, d: Conversion, scale: Option<u32>) -> Result<
    Conversion,
    Seq<char>,
> {
    match switched(m, d) {
        Err(e) => Err(e),
        Ok(c) => match pages_of(m, c.pages) {
            Err(e) => Err(e),
            Ok(pages) => match lang_of(m, c.ocr_lang) {
                Err(e) => Err(e),
                Ok(ocr_lang) => match ocr_mode_of(m, c.ocr_mode) {
                    Err(e) => Err(e),
                    Ok(ocr_mode) => match scale_of(m, c.ocr_scale, scale) {
                        Err(e) => Err(e),
                        Ok(ocr_scale) => Ok(
                            Conversion {
                                pages,
                                ocr_lang,
                                ocr_mode,
                                ocr_scale,
                                encoding: value_or(m, "encoding"@, c.encoding),
                                page_break_placeholder: value_or(
                                    m,
                                    "page_break_placeholder"@,
                                    c.page_break_placeholder,
                                ),
                                ..c
                            },
                        ),
                    },
                },
            },
        },
    }
}

/// The switches of a request that a server's settings hold too.
struct Switches {
    strict: bool,
    no_ocr: bool,
    no_table_former: bool,
    skip_ocr: bool,
    force_full_page_ocr: bool,
    no_text_panels: bool,
    heading_hierarchy: bool,
}

fn switches_of(opts: &Params, c: &ConversionOptions) -> (r: Result<Switches, String>)
    ensures
        match r {
            Ok(s) => switched(opts@, c@) == Ok::<Conversion, Seq<char>>(
                Conversion {
                    strict: s.strict,
                    no_ocr: s.no_ocr,
                    no_table_former: s.no_table_former,
                    skip_ocr: s.skip_ocr,
                    force_full_page_ocr: s.force_full_page_ocr,
                    no_text_panels: s.no_text_panels,
                    heading_hierarchy: s.heading_hierarchy,
                    ..c@
                },
            ),
            Err(e) => switched(opts@, c@) == Err::<Conversion, Seq<char>>(e@),
        },
{
    proof {
        reveal(switched);
    }
    let strict = match switch_of(opts, "strict", c.strict) {
        Ok(b) => b,
        Err(e) => return Err(e),
    };
    let no_ocr = match switch_of(opts, "no_ocr", c.no_ocr) {
        Ok(b) => b,
        Err(e) => return Err(e),
    };
    let no_table_former = match switch_of(opts, "no_table_former", c.no_table_former) {
        Ok(b) => b,
        Err(e) => return Err(e),
    };
    let skip_ocr = match switch_of(opts, "skip_ocr", c.skip_ocr) {
        Ok(b) => b,
        Err(e) => return Err(e),
    };
    let force_full_page_ocr = match switch_of(opts, "force_full_page_ocr", c.force_full_page_ocr) {
        Ok(b) => b,
        Err(e) => return Err(e),
    };
    let no_text_panels = match switch_of(opts, "no_text_panels", c.no_text_panels) {
        Ok(b) => b,
        Err(e) => return Err(e),
    };
    let heading_hierarchy = match switch_of(opts, "heading_hierarchy", c.heading_hierarchy) {
        Ok(b) => b,
        Err(e) => return Err(e),
    };
    Ok(
        Switches {
            strict,
            no_ocr,
            no_table_former,
            skip_ocr,
            force_full_page_ocr,
            no_text_panels,
            heading_hierarchy,
        },
    )
}

fn pages_for(opts: &Params, defaults: &ConversionOptions) -> (r: Result<Option<(usize, usize)>, String>)
    ensures
        match r {
            Ok(v) => pages_of(opts@, defaults.pages) == Ok::<Option<(usize, usize)>, Seq<char>>(v),
            Err(e) => pages_of(opts@, defaults.pages) == Err::<Option<(usize, usize)>, Seq<char>>(e@),
        },
{
    proof {
        reveal(pages_of);
    }
    match opts.get("pages") {
        Some(v) => match docling::parse_page_range(v) {
            Ok(p) => Ok(Some(p)),
            Err(e) => Err(e),
        },
        None => Ok(defaults.pages),
    }
}

fn lang_for(opts: &Params, defaults: &ConversionOptions) -> (r: Result<Option<String>, String>)
    ensures
        match r {
            Ok(v) => lang_of(opts@, defaults@.ocr_lang) == Ok::<Option<Seq<char>>, Seq<char>>(text::opt_view(v)),
            Err(e) => lang_of(opts@, defaults@.ocr_lang) == Err::<Option<Seq<char>>, Seq<char>>(e@),
        },
{
    proof {
        reveal(lang_of);
    }
    match opts.get("ocr_lang") {
        Some(v) => match conversion::normalize_ocr_lang(v) {
            Ok(lang) => Ok(Some(lang)),
            Err(e) => Err(e),
        },
        None => Ok(text::opt_clone(&defaults.ocr_lang)),
    }
}

fn ocr_mode_for(opts: &Params, defaults: &ConversionOptions) -> (r: Result<Option<String>, String>)
    ensures
        match r {
            Ok(v) => ocr_mode_of(opts@, defaults@.ocr_mode) == Ok::<Option<Seq<char>>, Seq<char>>(text::opt_view(v)),
            Err(e) => ocr_mode_of(opts@, defaults@.ocr_mode) == Err::<Option<Seq<char>>, Seq<char>>(e@),
        },
{
    proof {
        reveal(ocr_mode_of);
    }
    match opts.get("ocr_mode") {
        Some(v) => match conversion::parse_ocr_mode(v) {
            Ok(mode) => Ok(Some(mode)),
            Err(e) => Err(e),
        },
        None => Ok(text::opt_clone(&defaults.ocr_mode)),
    }
}

fn scale_for(opts: &Params, defaults: &ConversionOptions, scale: Option<u32>) -> (r: Result<Option<u32>, String>)
    ensures
        match r {
            Ok(v) => scale_of(opts@, defaults.ocr_scale, scale) == Ok::<Option<u32>, Seq<char>>(v),
            Err(e) => scale_of(opts@, defaults.ocr_scale, scale) == Err::<Option<u32>, Seq<char>>(e@),
        },
{
    proof {
        reveal(scale_of);
    }
    match opts.get("ocr_scale") {
        Some(v) => match conversion::parse_ocr_scale(v, scale) {
            Ok(bits) => Ok(Some(bits)),
            Err(e) => Err(e),
        },
        None => Ok(defaults.ocr_scale),
    }
}

fn value_for(opts: &Params, name: &str, default: &Option<String>) -> (r: Option<String>)
    ensures
        text::opt_view(r) == value_or(opts@, name@, text::opt_view(*default)),
{
    match opts.get(name) {
        Some(v) => Some(v.clone()),
        None => text::opt_clone(default),
    }
}

/// The settings of a request: those that the server started with, with what
/// the request asks for. `scale` has the bits of the single-precision number
/// that std's parser reads in the parameter `ocr_scale`.
pub fn request_conversion(opts: &Params, defaults: &ConversionOptions, scale: Option<u32>) -> (r:
    Result<ConversionOptions, String>)
    ensures
        match r {
            Ok(c) => requested(opts@, defaults@, scale) == Ok::<Conversion, Seq<char>>(c@),
            Err(e) => requested(opts@, defaults@, scale) == Err::<Conversion, Seq<char>>(e@),
        },
{
    let switches = match switches_of(opts, defaults) {
        Ok(s) => s,
        Err(e) => return Err(e),
    };
    let pages = match pages_for(opts, defaults) {
        Ok(v) => v,
        Err(e) => return Err(e),
    };
    let ocr_lang = match lang_for(opts, defaults) {
        Ok(v) => v,
        Err(e) => return Err(e),
    };
    let ocr_mode = match ocr_mode_for(opts, defaults) {
        Ok(v) => v,
        Err(e) => return Err(e),
    };
    let ocr_scale = match scale_for(opts, defaults, scale) {
        Ok(v) => v,
        Err(e) => return Err(e),
    };
    let encoding = value_for(opts, "encoding", &defaults.encoding);
    let page_break_placeholder = value_for(
        opts,
        "page_break_placeholder",
        &defaults.page_break_placeholder,
    );
    Ok(
        ConversionOptions {
            strict: switches.strict,
            fetch_images: defaults.fetch_images,
            no_table_former: switches.no_table_former,
            no_ocr: switches.no_ocr,
            skip_ocr: switches.skip_ocr,
            force_full_page_ocr: switches.force_full_page_ocr,
            no_text_panels: switches.no_text_panels,
            heading_hierarchy: switches.heading_hierarchy,
            use_web_browser: defaults.use_web_browser,
            enrich_picture_classes: defaults.enrich_picture_classes,
            enrich_code: defaults.enrich_code,
            enrich_formula: defaults.enrich_formula,
            asr_model: text::opt_clone(&defaults.asr_model),
            asr_lang: text::opt_clone(&defaults.asr_lang),
            video_frames: defaults.video_frames,
            pages,
            ocr_lang,
            ocr_mode,
            ocr_scale,
            encoding,
            page_break_placeholder,
        },
    )
}

/// A request that asks for nothing gets the settings that the server started
/// with, whatever was asked for before.
pub proof fn law_options_reset_to_the_defaults(d: Conversion, scale: Option<u32>)
    ensures
        requested(Map::<Seq<char>, Seq<char>>::empty(), d, scale) == Ok::<Conversion, Seq<char>>(d),
{
    let m = Map::<Seq<char>, Seq<char>>::empty();
    reveal(switched);
    reveal(pages_of);
    reveal(lang_of);
    reveal(ocr_mode_of);
    reveal(scale_of);
    assert(switched(m, d) == Ok::<Conversion, Seq<char>>(d));
}

/// The parameters of a request are told apart.
proof fn lemma_names()
    ensures
        "strict"@.len() == 6,
        "no_ocr"@.len() == 6,
        "no_table_former"@.len() == 15,
        "skip_ocr"@.len() == 8,
        "force_full_page_ocr"@.len() == 19,
        "no_text_panels"@.len() == 14,
        "heading_hierarchy"@.len() == 17,
        "pages"@.len() == 5,
        "ocr_lang"@.len() == 8,
        "ocr_mode"@.len() == 8,
        "ocr_scale"@.len() == 9,
        "encoding"@.len() == 8,
        "page_break_placeholder"@.len() == 22,
        "strict"@[0] == 's',
        "no_ocr"@[0] == 'n',
        "skip_ocr"@[0] == 's',
        "encoding"@[0] == 'e',
        "ocr_lang"@[0] == 'o',
        "ocr_mode"@[0] == 'o',
        "ocr_lang"@[4] == 'l',
        "ocr_mode"@[4] == 'm',
        "1"@ != "0"@,
{
    reveal_strlit("strict");
    reveal_strlit("no_ocr");
    reveal_strlit("no_table_former");
    reveal_strlit("skip_ocr");
    reveal_strlit("force_full_page_ocr");
    reveal_strlit("no_text_panels");
    reveal_strlit("heading_hierarchy");
    reveal_strlit("pages");
    reveal_strlit("ocr_lang");
    reveal_strlit("ocr_mode");
    reveal_strlit("ocr_scale");
    reveal_strlit("encoding");
    reveal_strlit("page_break_placeholder");
    reveal_strlit("1");
    reveal_strlit("0");
    assert("1"@[0] != "0"@[0]);
}

/// A request with one parameter.
pub open spec fn only(name: Seq<char>, v: Seq<char>) -> Map<Seq<char>, Seq<char>> {
    Map::<Seq<char>, Seq<char>>::empty().insert(name, v)
}

/// An option of the command line and a parameter of a request do the same with
/// a value, and refuse it with the same words.
pub open spec fn agree(
    d: Conversion,
    flag: Seq<char>,
    name: Seq<char>,
    v: Seq<char>,
    scale: Option<u32>,
) -> bool {
    match conversion::flagged(d, flag, Some((conversion::WordView { text: v, scale }))) {
        Ok((c, _)) => requested(only(name, v), d, scale) == Ok::<Conversion, Seq<char>>(c),
        Err(e) => requested(only(name, v), d, scale) == Err::<Conversion, Seq<char>>(e),
    }
}

/// A switch of the command line and a parameter that is `1` do the same.
pub open spec fn switches_agree(d: Conversion, flag: Seq<char>, name: Seq<char>) -> bool {
    match conversion::flagged(d, flag, None) {
        Ok((c, _)) => requested(only(name, "1"@), d, None) == Ok::<Conversion, Seq<char>>(c),
        Err(_) => false,
    }
}

/// A request without switches leaves them as they are.
proof fn lemma_unswitched(m: Map<Seq<char>, Seq<char>>, d: Conversion)
    requires
        query::value(m, "strict"@) is None,
        query::value(m, "no_ocr"@) is None,
        query::value(m, "no_table_former"@) is None,
        query::value(m, "skip_ocr"@) is None,
        query::value(m, "force_full_page_ocr"@) is None,
        query::value(m, "no_text_panels"@) is None,
        query::value(m, "heading_hierarchy"@) is None,
    ensures
        switched(m, d) == Ok::<Conversion, Seq<char>>(d),
{
    reveal(switched);
}

/// A request that does not ask for a control leaves it as it is.
proof fn lemma_unasked(m: Map<Seq<char>, Seq<char>>, d: Conversion, scale: Option<u32>)
    ensures
        query::value(m, "pages"@) is None ==> pages_of(m, d.pages) == Ok::<
            Option<(usize, usize)>,
            Seq<char>,
        >(d.pages),
        query::value(m, "ocr_lang"@) is None ==> lang_of(m, d.ocr_lang) == Ok::<
            Option<Seq<char>>,
            Seq<char>,
        >(d.ocr_lang),
        query::value(m, "ocr_mode"@) is None ==> ocr_mode_of(m, d.ocr_mode) == Ok::<
            Option<Seq<char>>,
            Seq<char>,
        >(d.ocr_mode),
        query::value(m, "ocr_scale"@) is None ==> scale_of(m, d.ocr_scale, scale) == Ok::<
            Option<u32>,
            Seq<char>,
        >(d.ocr_scale),
{
    reveal(pages_of);
    reveal(lang_of);
    reveal(ocr_mode_of);
    reveal(scale_of);
}

proof fn lemma_mode_agrees(d: Conversion, v: Seq<char>, scale: Option<u32>)
    ensures
        agree(d, "--ocr-mode"@, "ocr_mode"@, v, scale),
{
    lemma_names();
    lemma_flags();
    let m = only("ocr_mode"@, v);
    lemma_unswitched(m, d);
    lemma_unasked(m, d, scale);
    assert(ocr_mode_of(m, d.ocr_mode) == (match conversion::ocr_mode(v) {
        Ok(mode) => Ok::<Option<Seq<char>>, Seq<char>>(Some(mode)),
        Err(e) => Err(e),
    })) by {
        reveal(ocr_mode_of);
    }
}

proof fn lemma_scale_agrees(d: Conversion, v: Seq<char>, scale: Option<u32>)
    ensures
        agree(d, "--ocr-scale"@, "ocr_scale"@, v, scale),
{
    lemma_names();
    lemma_flags();
    let m = only("ocr_scale"@, v);
    lemma_unswitched(m, d);
    lemma_unasked(m, d, scale);
    assert(scale_of(m, d.ocr_scale, scale) == (match conversion::ocr_scale(v, scale) {
        Ok(bits) => Ok::<Option<u32>, Seq<char>>(Some(bits)),
        Err(e) => Err(e),
    })) by {
        reveal(scale_of);
    }
}

proof fn lemma_encoding_agrees(d: Conversion, v: Seq<char>, scale: Option<u32>)
    ensures
        agree(d, "--encoding"@, "encoding"@, v, scale),
{
    lemma_names();
    lemma_flags();
    let m = only("encoding"@, v);
    lemma_unswitched(m, d);
    lemma_unasked(m, d, scale);
}

proof fn lemma_page_break_agrees(d: Conversion, v: Seq<char>, scale: Option<u32>)
    ensures
        agree(d, "--page-break-placeholder"@, "page_break_placeholder"@, v, scale),
{
    lemma_names();
    lemma_flags();
    let m = only("page_break_placeholder"@, v);
    lemma_unswitched(m, d);
    lemma_unasked(m, d, scale);
}

proof fn lemma_skip_agrees(d: Conversion)
    ensures
        switches_agree(d, "--skip-ocr"@, "skip_ocr"@),
{
    lemma_names();
    lemma_flags();
    let m = only("skip_ocr"@, "1"@);
    lemma_unasked(m, Conversion { skip_ocr: true, ..d }, None);
    assert(switched(m, d) == Ok::<Conversion, Seq<char>>(Conversion { skip_ocr: true, ..d })) by {
        reveal(switched);
    }
}

proof fn lemma_hierarchy_agrees(d: Conversion)
    ensures
        switches_agree(d, "--heading-hierarchy"@, "heading_hierarchy"@),
{
    lemma_names();
    lemma_flags();
    let m = only("heading_hierarchy"@, "1"@);
    lemma_unasked(m, Conversion { heading_hierarchy: true, ..d }, None);
    assert(switched(m, d) == Ok::<Conversion, Seq<char>>(
        Conversion { heading_hierarchy: true, ..d },
    )) by {
        reveal(switched);
    }
}

/// The controls of page conversion work alike for files and for requests.
pub proof fn law_files_and_requests_are_controlled_alike(
    d: Conversion,
    v: Seq<char>,
    scale: Option<u32>,
)
    ensures
        agree(d, "--ocr-mode"@, "ocr_mode"@, v, scale),
        agree(d, "--ocr-scale"@, "ocr_scale"@, v, scale),
        agree(d, "--encoding"@, "encoding"@, v, scale),
        agree(d, "--page-break-placeholder"@, "page_break_placeholder"@, v, scale),
        switches_agree(d, "--skip-ocr"@, "skip_ocr"@),
        switches_agree(d, "--heading-hierarchy"@, "heading_hierarchy"@),
{
    lemma_mode_agrees(d, v, scale);
    lemma_scale_agrees(d, v, scale);
    lemma_encoding_agrees(d, v, scale);
    lemma_page_break_agrees(d, v, scale);
    lemma_skip_agrees(d);
    lemma_hierarchy_agrees(d);
}

/// The options that share their meaning with a parameter are told apart.
proof fn lemma_flags()
    ensures
        "--skip-ocr"@.len() == 10,
        "--ocr-mode"@.len() == 10,
        "--encoding"@.len() == 10,
        "--heading-hierarchy"@.len() == 19,
        "--ocr-scale"@.len() == 11,
        "--page-break-placeholder"@.len() == 24,
        "--skip-ocr"@[2] == 's',
        "--ocr-mode"@[2] == 'o',
        "--encoding"@[2] == 'e',
{
    reveal_strlit("--skip-ocr");
    reveal_strlit("--ocr-mode");
    reveal_strlit("--encoding");
    reveal_strlit("--heading-hierarchy");
    reveal_strlit("--ocr-scale");
    reveal_strlit("--page-break-placeholder");
}

/// No request changes what only the start of the server sets.
pub proof fn law_requests_keep_the_start_settings(
    m: Map<Seq<char>, Seq<char>>,
    d: Conversion,
    scale: Option<u32>,
)
    requires
        requested(m, d, scale) is Ok,
    ensures
        ({
            let c = requested(m, d, scale)->Ok_0;
            &&& c.fetch_images == d.fetch_images
            &&& c.use_web_browser == d.use_web_browser
            &&& c.enrich_picture_classes == d.enrich_picture_classes
            &&& c.enrich_code == d.enrich_code
            &&& c.enrich_formula == d.enrich_formula
            &&& c.asr_model == d.asr_model
            &&& c.asr_lang == d.asr_lang
            &&& c.video_frames == d.video_frames
        }),
{
    reveal(switched);
}

/// How a request is converted and answered.
#[derive(Debug)]
pub struct Plan {
    /// JSON, or else Markdown.
    pub json: bool,
    pub conversion: ConversionOptions,
    pub images: ImageMode,
    pub mode: OutputMode,
    /// The file is a picture for a remote engine: it is not converted but
    /// wrapped as a document of its own.
    pub bypass: bool,
}

/// The contents of a [`Plan`].
#[verifier::ext_equal]
pub struct PlanView {
    pub json: bool,
    pub conversion: Conversion,
    pub images: ImageMode,
    pub mode: OutputMode,
    pub bypass: bool,
}

impl View for Plan {
    type V = PlanView;

    open spec fn view(&self) -> PlanView {
        PlanView {
            json: self.json,
            conversion: self.conversion@,
            images: self.images,
            mode: self.mode,
            bypass: self.bypass,
        }
    }
}

/// The format that a request wants its answer in.
pub open spec fn wanted(m: Map<Seq<char>, Seq<char>>) -> Seq<char> {
    match query::value(m, "to"@) {
        Some(to) => to,
        None => "md"@,
    }
}

/// How a request shows pictures.
pub open spec fn images_wanted(m: Map<Seq<char>, Seq<char>>) -> Option<ImageMode> {
    match query::value(m, "images"@) {
        None => Some(ImageMode::Placeholder),
        Some(v) => if v == "placeholder"@ {
            Some(ImageMode::Placeholder)
        } else if v == "embedded"@ {
            Some(ImageMode::Embedded)
        } else {
            None
        },
    }
}

/// The mode of picture OCR that a request asks for.
pub open spec fn mode_wanted(m: Map<Seq<char>, Seq<char>>, default: OutputMode) -> Option<
    OutputMode,
> {
    match query::value(m, "mode"@) {
        None => Some(default),
        Some(v) => config::mode_named(v),
    }
}

/// How a request is converted, or why it is refused.
pub open spec fn planned(
    m: Map<Seq<char>, Seq<char>>,
    format: InputFormat,
    cfg: ImgOcrConfig,
    d: Conversion,
    scale: Option<u32>,
) -> Result<PlanView, (u16, Seq<char>)> {
    let to = wanted(m);
    if !(to == "md"@ || to == "markdown"@ || to == "json"@) {
        Err((400, "to="@ + text::str_debug(to) + " is not md|json"@))
    } else {
        match requested(m, d, scale) {
            Err(e) => Err((400, e)),
            Ok(conversion) => match images_wanted(m) {
                None => Err(
                    (
                        400,
                        "images must be placeholder|embedded; referenced artifacts are not served"@,
                    ),
                ),
                Some(images) => match mode_wanted(m, cfg.mode) {
                    None => Err(
                        (
                            400,
                            "mode="@ + text::str_debug(query::value(m, "mode"@)->0)
                                + " is unknown"@,
                        ),
                    ),
                    Some(mode) => Ok(
                        PlanView {
                            json: to == "json"@,
                            conversion,
                            images,
                            mode,
                            bypass: mode != OutputMode::Placeholder && cfg.is_remote_first()
                                && format == InputFormat::Image,
                        },
                    ),
                },
            },
        }
    }
}

/// Plan the conversion of an upload.
pub fn plan(
    params: &Params,
    format: InputFormat,
    cfg: &ImgOcrConfig,
    defaults: &ConversionOptions,
    scale: Option<u32>,
) -> (r: Result<Plan, Refusal>)
    ensures
        match r {
            Ok(p) => planned(params@, format, *cfg, defaults@, scale) == Ok::<
                PlanView,
                (u16, Seq<char>),
            >(p@),
            Err(e) => planned(params@, format, *cfg, defaults@, scale) == Err::<
                PlanView,
                (u16, Seq<char>),
            >(refusal(e)),
        },
{
    let to: String = match params.get("to") {
        Some(v) => v.clone(),
        None => "md".to_owned(),
    };
    if !(text::same(&to, "md") || text::same(&to, "markdown") || text::same(&to, "json")) {
        return Err(refused(400, text::around_quoted("to=", &to, " is not md|json")));
    }
    let conversion = match request_conversion(params, defaults, scale) {
        Ok(c) => c,
        Err(e) => return Err(refused(400, e)),
    };
    let images = match params.get("images") {
        None => ImageMode::Placeholder,
        Some(v) => if text::same(v, "placeholder") {
            ImageMode::Placeholder
        } else if text::same(v, "embedded") {
            ImageMode::Embedded
        } else {
            return Err(
                refused(
                    400,
                    "images must be placeholder|embedded; referenced artifacts are not served".to_owned(),
                ),
            );
        },
    };
    let mode = match params.get("mode") {
        None => cfg.mode,
        Some(v) => match config::parse_mode(v) {
            Some(mode) => mode,
            None => return Err(refused(400, text::around_quoted("mode=", v, " is unknown"))),
        },
    };
    let bypass = mode != OutputMode::Placeholder && cfg.remote_first() && format
        == InputFormat::Image;
    Ok(Plan { json: text::same(&to, "json"), conversion, images, mode, bypass })
}

impl Plan {
    /// Whether text is recognised in pictures.
    pub open spec fn reads(&self) -> bool {
        self.mode != OutputMode::Placeholder
    }

    /// Whether text is recognised in pictures.
    pub fn run_ocr(&self) -> (r: bool)
        ensures
            r == self.reads(),
    {
        self.mode != OutputMode::Placeholder
    }

    /// The settings of picture OCR.
    pub fn post_options(&self, min_pixels: u32) -> (r: PostOptions)
        ensures
            r == (PostOptions {
                mode: self.mode,
                min_pixels,
                keep_picture: self.images != ImageMode::Placeholder,
                target: if self.json {
                    OutputTarget::Json
                } else {
                    OutputTarget::Markdown
                },
            }),
    {
        PostOptions {
            mode: self.mode,
            min_pixels,
            keep_picture: self.images != ImageMode::Placeholder,
            target: if self.json {
                OutputTarget::Json
            } else {
                OutputTarget::Markdown
            },
        }
    }

    /// The content type of the converted document.
    pub fn content_type(&self) -> (r: &'static str)
        ensures
            r@ == (if self.json {
                "application/json"@
            } else {
                "text/markdown; charset=utf-8"@
            }),
    {
        if self.json {
            "application/json"
        } else {
            "text/markdown; charset=utf-8"
        }
    }
}

/// The settings of picture OCR name the target as the request did.
pub proof fn law_targets_agree(m: Map<Seq<char>, Seq<char>>)
    requires
        wanted(m) == "md"@ || wanted(m) == "markdown"@ || wanted(m) == "json"@,
    ensures
        OutputTarget::named(wanted(m)) == (if wanted(m) == "json"@ {
            OutputTarget::Json
        } else {
            OutputTarget::Markdown
        }),
{
    reveal_strlit("md");
    reveal_strlit("markdown");
    reveal_strlit("json");
    reveal_strlit("dclx");
    reveal_strlit("chunks");
    assert("md"@.len() != "dclx"@.len() && "md"@.len() != "chunks"@.len());
    assert("markdown"@.len() != "dclx"@.len() && "markdown"@.len() != "chunks"@.len());
    assert("json"@[0] != "dclx"@[0] && "json"@.len() != "chunks"@.len());
}

/// Refuse an input whose format is not known, or that cannot be read.
pub fn refuse_input(error: &InputError) -> (r: Refusal)
    ensures
        refusal(r) == (error_status(*error), error.words()),
{
    refused(input_error_status(error), error.message())
}

/// The contents of an upload whose format is known, and how it is converted.
#[verifier::ext_equal]
pub struct AcceptedView {
    pub name: Seq<char>,
    pub bytes: Seq<u8>,
    pub format: InputFormat,
    pub warning: Option<Seq<char>>,
    pub plan: PlanView,
}

/// The contents of what [`accept`] hands on.
pub open spec fn accepted_view(source: DetectedSource, plan: Plan) -> AcceptedView {
    AcceptedView {
        name: source.name@,
        bytes: source.bytes@,
        format: source.format,
        warning: text::opt_view(source.warning),
        plan: plan@,
    }
}

/// What is converted for a request and how, or why it is refused: first for
/// its body, then for the format of its file, then for its parameters.
pub open spec fn accepted(
    q: Seq<char>,
    content_type: Seq<char>,
    body: Result<Seq<u8>, Seq<char>>,
    cfg: ImgOcrConfig,
    d: Conversion,
    scale: Option<u32>,
) -> Result<AcceptedView, (u16, Seq<char>)> {
    match received(q, content_type, body) {
        Err(e) => Err(e),
        Ok(f) => {
            let shown = input::content_of(f.bytes);
            let hint = input::suggested(f.filename);
            match input::chosen(shown, hint) {
                None => Err(
                    (415, "unsupported input format for "@ + text::str_debug(f.filename)),
                ),
                Some(format) => match planned(f.params, format, cfg, d, scale) {
                    Err(e) => Err(e),
                    Ok(plan) => Ok(
                        AcceptedView {
                            name: f.filename,
                            bytes: f.bytes,
                            format,
                            warning: input::mismatch(shown, hint),
                            plan,
                        },
                    ),
                },
            }
        },
    }
}

/// What is noted about a request: that the name of its file suggests another
/// format than the content.
pub open spec fn noted(
    q: Seq<char>,
    content_type: Seq<char>,
    body: Result<Seq<u8>, Seq<char>>,
) -> Option<Seq<char>> {
    match received(q, content_type, body) {
        Err(_) => None,
        Ok(f) => match input::mismatch(input::content_of(f.bytes), input::suggested(f.filename)) {
            None => None,
            Some(warning) => Some("convert "@ + f.filename + ": warning: "@ + warning),
        },
    }
}

/// `scale` is what `read` gave for the scale that a request asks for.
pub open spec fn scale_read<F: Fn(&str) -> Option<u32>>(
    q: Seq<char>,
    content_type: Seq<char>,
    body: Result<Seq<u8>, Seq<char>>,
    read: F,
    scale: Option<u32>,
) -> bool {
    match received(q, content_type, body) {
        Err(_) => true,
        Ok(f) => match query::value(f.params, "ocr_scale"@) {
            None => scale is None,
            Some(v) => exists|s: &str| s@ == v && #[trigger] read.ensures((s,), scale),
        },
    }
}

/// Take the file out of a request, detect its format and plan its conversion;
/// beside that, what is noted about the request. `body` is as for [`receive`].
/// `read` gives the bits of the single-precision number that std's parser
/// reads in a text.
pub fn accept<F: Fn(&str) -> Option<u32>>(
    q: &str,
    content_type: &str,
    body: Result<Vec<u8>, String>,
    cfg: &ImgOcrConfig,
    defaults: &ConversionOptions,
    read: F,
) -> (r: (Option<String>, Result<(DetectedSource, Plan), Refusal>))
    requires
        forall|s: &str| read.requires((s,)),
    ensures
        text::opt_view(r.0) == noted(q@, content_type@, body_view(body)),
        exists|scale: Option<u32>|
            {
                &&& #[trigger] scale_read(q@, content_type@, body_view(body), read, scale)
                &&& accepted(q@, content_type@, body_view(body), *cfg, defaults@, scale) == match r.1 {
                    Ok((source, plan)) => Ok::<AcceptedView, (u16, Seq<char>)>(
                        accepted_view(source, plan),
                    ),
                    Err(e) => Err(refusal(e)),
                }
            },
{
    let ghost b = body_view(body);
    let upload = match receive(q, content_type, body) {
        Ok(f) => f,
        Err(e) => {
            assert(scale_read(q@, content_type@, b, read, None));
            return (None, Err(e));
        },
    };
    let scale = match upload.params.get("ocr_scale") {
        Some(v) => read(v),
        None => None,
    };
    assert(scale_read(q@, content_type@, b, read, scale));
    let Received { params, filename, bytes } = upload;
    let source = match DetectedSource::from_bytes(&filename, bytes) {
        Ok(source) => source,
        Err(e) => return (None, Err(refuse_input(&e))),
    };
    let note = match &source.warning {
        Some(warning) => {
            let mut v = text::chars_of("convert ");
            text::append_str(&mut v, &filename);
            text::append_str(&mut v, ": warning: ");
            text::append_str(&mut v, warning);
            Some(text::string_of(&v))
        },
        None => None,
    };
    match plan(&params, source.format, cfg, defaults, scale) {
        Ok(plan) => (note, Ok((source, plan))),
        Err(e) => (note, Err(e)),
    }
}

/// An upload that is refused is answered by the first thing that is wrong with
/// it: 400 or 413 for the body, 415 for the format, 400 for the parameters.
pub proof fn law_refusals_come_in_order(
    q: Seq<char>,
    content_type: Seq<char>,
    body: Result<Seq<u8>, Seq<char>>,
    cfg: ImgOcrConfig,
    d: Conversion,
    scale: Option<u32>,
)
    requires
        accepted(q, content_type, body, cfg, d, scale) is Err,
    ensures
        ({
            let (status, _) = accepted(q, content_type, body, cfg, d, scale)->Err_0;
            match received(q, content_type, body) {
                Err(e) => (status == 400 || status == 413) && accepted(
                    q,
                    content_type,
                    body,
                    cfg,
                    d,
                    scale,
                ) == Err::<AcceptedView, (u16, Seq<char>)>(e),
                Ok(f) => status == if input::chosen(
                    input::content_of(f.bytes),
                    input::suggested(f.filename),
                ) is None {
                    415u16
                } else {
                    400u16
                },
            }
        }),
{
}

/// Refuse a document that the converter failed on.
pub fn refuse_conversion(filename: &str, error: &str) -> (r: Refusal)
    ensures
        refusal(r) == (422u16, "convert "@ + filename@ + ": "@ + error@),
{
    let mut v = text::chars_of("convert ");
    text::append_str(&mut v, filename);
    text::append_str(&mut v, ": ");
    text::append_str(&mut v, error);
    refused(422, text::string_of(&v))
}

/// What the worker keeps from one request to the next.
#[derive(Debug)]
pub struct WorkerState {
    pub runner: Option<OcrRunner>,
    pub pipeline: WarmPipeline,
}

impl Default for WorkerState {
    fn default() -> (r: WorkerState)
        ensures
            r.runner is None,
            r.pipeline.slot is None,
    {
        WorkerState { runner: None, pipeline: WarmPipeline::default() }
    }
}

/// A runner with engines that have not failed, which rest when they do.
pub open spec fn fresh_runner(engines: nat) -> Runner {
    Runner {
        slots: Seq::new(engines, |i: int| crate::engine::new_slot()),
        cooldown: Some(COOLDOWN),
    }
}

impl WorkerState {
    /// Get a runner where there is none; the engines and the cache that it
    /// runs are then handed out.
    pub fn ready(&mut self, cfg: &ImgOcrConfig) -> (r: Result<
        Option<(Vec<EnginePlan>, OcrCache)>,
        Refusal,
    >)
        requires
            cfg.usable(),
        ensures
            final(self).pipeline == old(self).pipeline,
            match r {
                Ok(None) => old(self).runner is Some && final(self).runner == old(self).runner,
                Ok(Some((plans, cache))) => {
                    &&& old(self).runner is None
                    &&& cfg.engines@.len() > 0
                    &&& plans@.len() == cfg.engines@.len()
                    &&& forall|i: int|
                        0 <= i < plans@.len() ==> config::plan_matches(
                            #[trigger] plans@[i],
                            cfg.engines@[i],
                            cfg@,
                        )
                    &&& text::opt_view(cache.dir) == if cfg.cache_enabled {
                        text::opt_view(cfg.cache_dir)
                    } else {
                        None
                    }
                    &&& match final(self).runner {
                        Some(runner) => runner@ =~= fresh_runner(cfg.engines@.len()),
                        None => false,
                    }
                },
                Err(e) => {
                    &&& old(self).runner is None
                    &&& final(self).runner is None
                    &&& cfg.engines@.len() == 0
                    &&& refusal(e) == (500u16, "no usable OCR engine in the configured chain"@)
                },
            },
    {
        if self.runner.is_some() {
            return Ok(None);
        }
        match cfg.build_runner() {
            Ok((plans, runner, cache)) => {
                self.runner = Some(runner.with_cooldown(COOLDOWN));
                Ok(Some((plans, cache)))
            },
            Err(e) => Err(refused(500, e)),
        }
    }
}

/// How a conversion ended.
#[derive(Debug)]
pub enum Ended {
    /// With an answer.
    Answered,
    /// With a refusal.
    Refused(Refusal),
    /// With a panic.
    Panicked,
}

/// Recover from a conversion: a refusal is answered, and after a panic the
/// worker starts anew. An answered conversion needs nothing more.
pub fn recover(worker: &mut WorkerState, ended: &Ended) -> (r: Option<Answer>)
    ensures
        match *ended {
            Ended::Answered => r is None && *final(worker) == *old(worker),
            Ended::Refused(e) => *final(worker) == *old(worker) && match r {
                Some(a) => says(a, e.status, "error: "@ + e.message@ + "\n"@),
                None => false,
            },
            Ended::Panicked => final(worker).runner is None && final(worker).pipeline.slot is None
                && match r {
                Some(a) => says(
                    a,
                    500,
                    "error: conversion failed unexpectedly; worker reset\n"@,
                ),
                None => false,
            },
        },
{
    match ended {
        Ended::Answered => None,
        Ended::Refused(e) => Some(refuse(e)),
        Ended::Panicked => {
            *worker = WorkerState::default();
            Some(
                text_answer(500, "error: conversion failed unexpectedly; worker reset\n"),
            )
        },
    }
}

/// Every refusal of an upload has one of the statuses 400 and 413.
pub proof fn law_refused_uploads(
    q: Seq<char>,
    content_type: Seq<char>,
    body: Result<Seq<u8>, Seq<char>>,
)
    requires
        received(q, content_type, body) is Err,
    ensures
        ({
            let (status, _) = received(q, content_type, body)->Err_0;
            &&& status == 400 || status == 413
            &&& status == 413 <==> body is Ok && body->Ok_0.len() > MAX_BODY
        }),
{
}

/// Every refused parameter is answered 400.
pub proof fn law_refused_parameters(
    m: Map<Seq<char>, Seq<char>>,
    format: InputFormat,
    cfg: ImgOcrConfig,
    d: Conversion,
    scale: Option<u32>,
)
    requires
        planned(m, format, cfg, d, scale) is Err,
    ensures
        ({
            let (status, _) = planned(m, format, cfg, d, scale)->Err_0;
            status == 400
        }),
{
}

/// The server's health does not depend on anything that a conversion does:
/// it is answered at once.
pub proof fn law_health_never_waits(url: Seq<char>, length: Option<usize>)
    requires
        path(url) == "/health"@,
    ensures
        routed(Method::Get, url, length) == Some(
            (200u16, "text/plain; charset=utf-8"@, "ok\n"@),
        ),
{
    reveal_strlit("/");
    reveal_strlit("/health");
    assert("/"@.len() != "/health"@.len());
}

} // verus!
