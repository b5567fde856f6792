//! What a request to the server means.

use vstd::prelude::*;

use crate::config;
use crate::config::ImgOcrConfig;
use crate::conversion;
use crate::conversion::Conversion;
use crate::converted::ImageMode;
use crate::input;
use crate::input::{InputError, InputFormat};
use crate::multipart;
use crate::postprocess::OutputMode;
use crate::query;
use crate::serve;
use crate::serve::Method;
use crate::text;

verus! {

broadcast use vstd::string::group_string_axioms;

/// A URL is a path and, behind the first question mark, a query.
pub proof fn law_urls(p: Seq<char>, q: Seq<char>)
    requires
        text::lacks(p, '?'),
    ensures
        serve::path(p + seq!['?'] + q) == p,
        serve::query_part(p + seq!['?'] + q) == q,
        serve::path(p) == p,
        serve::query_part(p).len() == 0,
{
    let url = p + seq!['?'] + q;
    let n = p.len() as int;
    assert forall|k: int| 0 <= k < n implies url[k] != '?' by {
        assert(url[k] == p[k]);
    }
    text::lemma_index_of_is(url, '?', n);
    text::lemma_index_of_is(p, '?', n);
    assert(url.take(n) =~= p);
    assert(url.skip(n + 1) =~= q);
    assert(p.take(n) =~= p);
}

/// The form, the health and the conversion are found under their paths,
/// whatever the query, each with its own method; all else is not found. A body
/// that is announced as too large is refused before it is read.
pub proof fn law_routes(method: Method, url: Seq<char>, length: Option<usize>)
    ensures
        ({
            let r = serve::routed(method, url, length);
            let p = serve::path(url);
            let form = method is Get && p == "/"@;
            let health = method is Get && p == "/health"@;
            let convert = method is Post && p == "/convert"@;
            let large = length is Some && length->0 > 200 * 1024 * 1024;
            &&& r is None <==> convert && !large
            &&& r matches Some((status, _, _)) ==> {
                &&& status == 200 <==> form || health
                &&& status == 413 <==> convert && large
                &&& status == 404 <==> !form && !health && !convert
            }
        }),
{
    reveal_strlit("/");
    reveal_strlit("/health");
    reveal_strlit("/convert");
}

/// Without a form the body is the file, under the name that the query gives.
pub proof fn law_raw_uploads_arrive(q: Seq<char>, content_type: Seq<char>, body: Seq<u8>)
    requires
        multipart::boundary(content_type) is None,
        body.len() <= 200 * 1024 * 1024,
    ensures
        ({
            let m = query::params(q);
            match serve::received(q, content_type, Ok(body)) {
                Ok(r) => m.dom().contains("filename"@) && r.filename == m["filename"@] && r.bytes
                    == body && r.params == m,
                Err((status, _)) => status == 400 && !m.dom().contains("filename"@),
            }
        }),
{
}

/// With a form the body is taken apart: the file is that of the form, and its
/// fields add to the parameters.
pub proof fn law_form_uploads_arrive(
    q: Seq<char>,
    content_type: Seq<char>,
    body: Seq<u8>,
    boundary: Seq<char>,
)
    requires
        multipart::boundary(content_type) == Some(boundary),
        body.len() <= 200 * 1024 * 1024,
    ensures
        match (serve::received(q, content_type, Ok(body)), multipart::upload(body, boundary)) {
            (Ok(r), Some(u)) => u.file == Some((r.filename, r.bytes)) && r.params
                == serve::completed(query::params(q), u.fields),
            (Ok(_), None) => false,
            (Err((status, _)), Some(u)) => status == 400 && u.file is None,
            (Err((status, _)), None) => status == 400,
        },
{
}

/// A parameter turns a setting on or off, and without it the setting is that
/// of the server.
pub open spec fn turns(
    m: Map<Seq<char>, Seq<char>>,
    name: Seq<char>,
    got: bool,
    default: bool,
) -> bool {
    &&& !m.dom().contains(name) ==> got == default
    &&& m.dom().contains(name) && (m[name] == "1"@ || m[name] == "true"@) ==> got
    &&& m.dom().contains(name) && (m[name] == "0"@ || m[name] == "false"@) ==> !got
    &&& m.dom().contains(name) ==> m[name] == "1"@ || m[name] == "true"@ || m[name] == "0"@
        || m[name] == "false"@
}

/// Each switch of a request turns its own setting on or off and no other; a
/// value that is neither is refused.
pub proof fn law_switches_of_a_request(
    m: Map<Seq<char>, Seq<char>>,
    d: Conversion,
    scale: Option<u32>,
)
    ensures
        serve::requested(m, d, scale) matches Ok(c) ==> {
            &&& turns(m, "strict"@, c.strict, d.strict)
            &&& turns(m, "no_ocr"@, c.no_ocr, d.no_ocr)
            &&& turns(m, "no_table_former"@, c.no_table_former, d.no_table_former)
            &&& turns(m, "skip_ocr"@, c.skip_ocr, d.skip_ocr)
            &&& turns(m, "force_full_page_ocr"@, c.force_full_page_ocr, d.force_full_page_ocr)
            &&& turns(m, "no_text_panels"@, c.no_text_panels, d.no_text_panels)
            &&& turns(m, "heading_hierarchy"@, c.heading_hierarchy, d.heading_hierarchy)
        },
{
    reveal(serve::switched);
    reveal_strlit("1");
    reveal_strlit("0");
    reveal_strlit("true");
    reveal_strlit("false");
    assert("1"@.len() == 1 && "0"@.len() == 1 && "true"@.len() == 4 && "false"@.len() == 5);
    assert("1"@[0] != "0"@[0]);
}

/// The other parameters of a request each set their own thing, as it is
/// understood; without them the settings of the server stay, and so do those
/// that no parameter speaks of.
pub proof fn law_values_of_a_request(
    m: Map<Seq<char>, Seq<char>>,
    d: Conversion,
    scale: Option<u32>,
)
    ensures
        serve::requested(m, d, scale) matches Ok(c) ==> {
            &&& if m.dom().contains("pages"@) {
                c.pages is Some && conversion::page_range(m["pages"@]) == Ok::<_, Seq<char>>(
                    c.pages->0,
                )
            } else {
                c.pages == d.pages
            }
            &&& if m.dom().contains("ocr_lang"@) {
                c.ocr_lang is Some && conversion::ocr_lang(m["ocr_lang"@]) == Ok::<_, Seq<char>>(
                    c.ocr_lang->0,
                )
            } else {
                c.ocr_lang == d.ocr_lang
            }
            &&& if m.dom().contains("ocr_mode"@) {
                c.ocr_mode is Some && conversion::ocr_mode(m["ocr_mode"@]) == Ok::<_, Seq<char>>(
                    c.ocr_mode->0,
                )
            } else {
                c.ocr_mode == d.ocr_mode
            }
            &&& if m.dom().contains("ocr_scale"@) {
                c.ocr_scale == scale && scale is Some
            } else {
                c.ocr_scale == d.ocr_scale
            }
            &&& if m.dom().contains("encoding"@) {
                c.encoding == Some(m["encoding"@])
            } else {
                c.encoding == d.encoding
            }
            &&& if m.dom().contains("page_break_placeholder"@) {
                c.page_break_placeholder == Some(m["page_break_placeholder"@])
            } else {
                c.page_break_placeholder == d.page_break_placeholder
            }
            &&& c.fetch_images == d.fetch_images
            &&& c.use_web_browser == d.use_web_browser
            &&& c.enrich_picture_classes == d.enrich_picture_classes
            &&& c.enrich_code == d.enrich_code
            &&& c.enrich_formula == d.enrich_formula
            &&& c.asr_model == d.asr_model
            &&& c.asr_lang == d.asr_lang
            &&& c.video_frames == d.video_frames
        },
{
    reveal(serve::switched);
    reveal(serve::pages_of);
    reveal(serve::lang_of);
    reveal(serve::ocr_mode_of);
    reveal(serve::scale_of);
}

/// A request without parameters is converted as the server was started, to
/// Markdown, with pictures as placeholders.
pub proof fn law_requests_without_parameters(
    format: InputFormat,
    cfg: ImgOcrConfig,
    d: Conversion,
    scale: Option<u32>,
)
    ensures
        serve::planned(Map::empty(), format, cfg, d, scale) matches Ok(p) && !p.json
            && p.conversion == d && p.images == ImageMode::Placeholder && p.mode == cfg.mode,
{
    reveal(serve::switched);
    reveal(serve::pages_of);
    reveal(serve::lang_of);
    reveal(serve::ocr_mode_of);
    reveal(serve::scale_of);
    reveal_strlit("md");
    reveal_strlit("json");
    assert("md"@.len() != "json"@.len());
    let m = Map::<Seq<char>, Seq<char>>::empty();
    assert(serve::requested(m, d, scale) == Ok::<Conversion, Seq<char>>(d));
}

/// What a plan says follows from the request: the format, how pictures are
/// shown, and how their text is. A picture file goes past the converter to a
/// remote engine that comes first, if text in pictures is wanted at all.
pub proof fn law_plans_follow_the_request(
    m: Map<Seq<char>, Seq<char>>,
    format: InputFormat,
    cfg: ImgOcrConfig,
    d: Conversion,
    scale: Option<u32>,
)
    ensures
        serve::planned(m, format, cfg, d, scale) matches Ok(p) ==> {
            &&& p.json <==> m.dom().contains("to"@) && m["to"@] == "json"@
            &&& m.dom().contains("to"@) ==> m["to"@] == "md"@ || m["to"@] == "markdown"@ || m["to"@]
                == "json"@
            &&& serve::requested(m, d, scale) == Ok::<Conversion, Seq<char>>(p.conversion)
            &&& p.images is Embedded <==> m.dom().contains("images"@) && m["images"@]
                == "embedded"@
            &&& p.images !is Referenced
            &&& !m.dom().contains("mode"@) ==> p.mode == cfg.mode
            &&& m.dom().contains("mode"@) ==> config::mode_named(m["mode"@]) == Some(p.mode)
            &&& p.bypass <==> !(p.mode is Placeholder) && format is Image && cfg.engines@.len() > 0
                && !(cfg.engines@[0] is Local)
        },
{
    reveal_strlit("md");
    reveal_strlit("markdown");
    reveal_strlit("json");
    reveal_strlit("placeholder");
    reveal_strlit("embedded");
    assert("md"@.len() != "json"@.len());
    assert("placeholder"@.len() != "embedded"@.len());
}

/// What is converted for a request is the file that it uploads, as the content
/// shows it or else as the name suggests.
pub proof fn law_uploads_are_converted_as_they_are(
    q: Seq<char>,
    content_type: Seq<char>,
    body: Result<Seq<u8>, Seq<char>>,
    cfg: ImgOcrConfig,
    d: Conversion,
    scale: Option<u32>,
)
    ensures
        serve::accepted(q, content_type, body, cfg, d, scale) matches Ok(a) ==> {
            let f = serve::received(q, content_type, body)->Ok_0;
            &&& serve::received(q, content_type, body) is Ok
            &&& a.name == f.filename
            &&& a.bytes == f.bytes
            &&& input::content_of(f.bytes) is Some ==> input::content_of(f.bytes) == Some(a.format)
            &&& input::content_of(f.bytes) is None ==> input::suggested(f.filename) == Some(
                a.format,
            )
            &&& serve::planned(f.params, a.format, cfg, d, scale) == Ok::<_, (u16, Seq<char>)>(
                a.plan,
            )
        },
{
}

/// An input that is not supported is told from one that cannot be read.
pub proof fn law_statuses_of_inputs(e: InputError)
    ensures
        e is Unsupported ==> serve::error_status(e) == 415,
        e is Io ==> serve::error_status(e) == 400,
{
}

/// The engines of a server begin without a failure and rest when they fail too
/// often.
pub proof fn law_engines_of_a_server_rest(engines: nat, i: int)
    requires
        0 <= i < engines,
    ensures
        serve::fresh_runner(engines).slots.len() == engines,
        !serve::fresh_runner(engines).slots[i].dead,
        serve::fresh_runner(engines).slots[i].consecutive_failures == 0,
        serve::fresh_runner(engines).slots[i].retry_at is None,
        serve::fresh_runner(engines).cooldown == Some(30_000_000_000u64),
{
}

/// A file whose name suggests another format than its content is noted, and no
/// other.
pub proof fn law_what_is_noted(
    q: Seq<char>,
    content_type: Seq<char>,
    body: Result<Seq<u8>, Seq<char>>,
)
    ensures
        serve::noted(q, content_type, body) is Some <==> (serve::received(
            q,
            content_type,
            body,
        ) matches Ok(f) && input::content_of(f.bytes) is Some && input::suggested(f.filename) is Some
            && input::content_of(f.bytes) != input::suggested(f.filename)),
{
}

} // verus!
