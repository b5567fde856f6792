//! Where settings come from, and how the format of an input is found.

use vstd::prelude::*;

use crate::bytes;
use crate::config;
use crate::config::{CliOverrides, EngineKind, EnginePlan, Environment, Settings};
use crate::conversion_laws;
use crate::input;
use crate::input::{Archive, InputFormat};
use crate::json;
use crate::json::JsonView;
use crate::paths;
use crate::postprocess::OutputMode;
use crate::text;
use crate::text_laws;

verus! {

broadcast use vstd::string::group_string_axioms;

/// What the command line or the environment says: a flag goes first, and a
/// blank variable says nothing.
pub open spec fn source(cli: Option<String>, env: Option<String>) -> Option<Seq<char>> {
    if cli is Some {
        Some(cli->0@)
    } else if env is Some && !text::blank(env->0@) {
        Some(env->0@)
    } else {
        None
    }
}

/// A number is what the source writes, or the default without one.
pub open spec fn number_from(
    got: nat,
    default: nat,
    cli: Option<String>,
    env: Option<String>,
) -> bool {
    &&& source(cli, env) is None ==> got == default
    &&& forall|k: nat| #[trigger]
        text_laws::is_trimmed(source(cli, env)->0, text::decimal(k)) && source(cli, env) is Some
            ==> got == k
}

proof fn lemma_number(v: Option<Seq<char>>, max: nat, default: nat, k: nat)
    requires
        v is Some,
        text_laws::is_trimmed(v->0, text::decimal(k)),
        config::number_or(v, max, default) is Some,
    ensures
        config::number_or(v, max, default) == Some(k),
{
    conversion_laws::lemma_trimmed(v->0, text::decimal(k));
    text_laws::law_numbers_are_read_as_written(k);
    if k > max {
        assert(text::unsigned(text::decimal(k), max) is None);
    } else {
        assert(text::unsigned(text::decimal(k), max) == Some(k));
    }
}

/// Each setting comes from its own flag, else from its own variable, else it
/// is the default.
pub proof fn law_where_settings_come_from(cli: CliOverrides, env: Environment)
    ensures
        config::resolved(cli, env) matches Ok(s) ==> {
            &&& s.endpoint == source(cli.endpoint, env.endpoint)
            &&& s.model == source(cli.model, env.model)
            &&& s.api_key == source(cli.api_key, env.api_key)
            &&& s.prompt == source(cli.prompt, env.prompt)
            &&& s.lang == match source(cli.lang, env.lang) {
                Some(v) => v,
                None => "en"@,
            }
            &&& s.models_dir == match source(cli.models_dir, env.models_dir) {
                Some(v) => v,
                None => env.found_models_dir@,
            }
            &&& source(cli.cache_dir, env.cache_dir) is Some ==> s.cache_dir == source(
                cli.cache_dir,
                env.cache_dir,
            )
            &&& source(cli.cache_dir, env.cache_dir) is None ==> s.cache_dir
                == config::default_cache(env)
            &&& s.cache_enabled == !cli.no_cache
            &&& source(cli.mode, env.mode) is None ==> s.mode == OutputMode::Fence
            &&& source(cli.mode, env.mode) matches Some(m) ==> config::mode_named(m) == Some(s.mode)
            &&& source(cli.engine, env.engine) is None ==> s.engines == seq![EngineKind::Local]
            &&& source(cli.engine, env.engine) matches Some(e) ==> config::chain(e) == Ok::<
                _,
                Seq<char>,
            >(s.engines)
        },
        config::resolved(cli, env) matches Ok(s) ==> number_from(
            s.min_pixels as nat,
            2500,
            cli.min_px,
            env.min_px,
        ) && number_from(s.timeout_secs as nat, 120, cli.timeout, env.timeout) && number_from(
            s.max_retries as nat,
            3,
            cli.max_retries,
            env.max_retries,
        ),
{
    if let Ok(s) = config::resolved(cli, env) {
        lemma_one_name();
        reveal_strlit("fence");
        assert forall|k: nat| #[trigger]
            text_laws::is_trimmed(source(cli.min_px, env.min_px)->0, text::decimal(k)) && source(
                cli.min_px,
                env.min_px,
            ) is Some implies s.min_pixels == k by {
            lemma_number(config::picked(cli.min_px, env.min_px), u32::MAX as nat, 2500, k);
        }
        assert forall|k: nat| #[trigger]
            text_laws::is_trimmed(source(cli.timeout, env.timeout)->0, text::decimal(k)) && source(
                cli.timeout,
                env.timeout,
            ) is Some implies s.timeout_secs == k by {
            lemma_number(config::picked(cli.timeout, env.timeout), u64::MAX as nat, 120, k);
        }
        assert forall|k: nat| #[trigger]
            text_laws::is_trimmed(source(cli.max_retries, env.max_retries)->0, text::decimal(k))
                && source(cli.max_retries, env.max_retries) is Some implies s.max_retries == k by {
            lemma_number(config::picked(cli.max_retries, env.max_retries), u32::MAX as nat, 3, k);
        }
    }
}

proof fn lemma_one_name()
    ensures
        config::chain("local"@) == Ok::<_, Seq<char>>(seq![EngineKind::Local]),
{
    let name = "local"@;
    let kind = EngineKind::Local;
    reveal_strlit("local");
    assert(name.subrange(0, 5) =~= name);
    assert(text_laws::surrounded_at(name, name, 0));
    assert(text::lowercase(name) =~= name);
    law_engine_names(name, name);
    assert(text::lacks(name, ','));
    text::lemma_index_of_is(name, ',', name.len() as int);
    let parts = text::split(name, ',');
    assert(parts == seq![name]);
    reveal_with_fuel(config::chain_of, 2);
    assert(parts.drop_last() =~= Seq::empty());
    assert(Seq::<EngineKind>::empty().push(kind) =~= seq![kind]);
}

/// An engine is named in any case, with white space around the name or
/// without; nothing but the four names is an engine.
pub proof fn law_engine_names(value: Seq<char>, name: Seq<char>)
    requires
        text_laws::is_trimmed(value, name),
    ensures
        ({
            let low = text::lowercase(name);
            &&& low == "local"@ || low == "ppocr"@ <==> EngineKind::named(value) == Some(
                EngineKind::Local,
            )
            &&& low == "vlm"@ <==> EngineKind::named(value) == Some(EngineKind::Vlm)
            &&& low == "paddle"@ <==> EngineKind::named(value) == Some(EngineKind::Paddle)
        }),
{
    reveal_strlit("local");
    reveal_strlit("ppocr");
    reveal_strlit("vlm");
    reveal_strlit("paddle");
    assert("local"@.len() == 5 && "ppocr"@.len() == 5 && "vlm"@.len() == 3 && "paddle"@.len() == 6);
    conversion_laws::lemma_trimmed(value, name);
}

/// The five output modes have these names, and no other text names one.
pub proof fn law_mode_names(name: Seq<char>)
    ensures
        config::mode_named("fence"@) == Some(OutputMode::Fence),
        config::mode_named("markers"@) == Some(OutputMode::Markers),
        config::mode_named("text"@) == Some(OutputMode::Text),
        config::mode_named("quote"@) == Some(OutputMode::Quote),
        config::mode_named("placeholder"@) == Some(OutputMode::Placeholder),
        name != "fence"@ && name != "markers"@ && name != "text"@ && name != "quote"@ && name
            != "placeholder"@ ==> config::mode_named(name) is None,
{
    reveal_strlit("fence");
    reveal_strlit("markers");
    reveal_strlit("text");
    reveal_strlit("quote");
    reveal_strlit("placeholder");
    assert("fence"@.len() == 5 && "markers"@.len() == 7 && "text"@.len() == 4 && "quote"@.len() == 5
        && "placeholder"@.len() == 11);
    assert("fence"@[0] == 'f' && "quote"@[0] == 'q');
}

/// Settings are refused exactly where a value is none of those it may be, or
/// an engine lacks what it needs: the chat engine an endpoint and a model, the
/// other remote one an endpoint.
pub proof fn law_which_settings_are_refused(cli: CliOverrides, env: Environment)
    ensures
        config::resolved(cli, env) matches Ok(s) ==> {
            &&& s.lang == "en"@ || s.lang == "ch"@
            &&& s.engines.contains(EngineKind::Vlm) ==> s.endpoint is Some && s.model is Some
            &&& s.engines.contains(EngineKind::Paddle) ==> s.endpoint is Some
        },
        config::resolved(cli, env) is Ok <==> {
            let e = source(cli.engine, env.engine);
            let m = source(cli.mode, env.mode);
            let l = source(cli.lang, env.lang);
            let chain = config::chain(
                if e is Some {
                    e->0
                } else {
                    "local"@
                },
            );
            &&& chain is Ok
            &&& m is None || config::mode_named(m->0) is Some
            &&& l is None || l->0 == "en"@ || l->0 == "ch"@
            &&& chain->Ok_0.contains(EngineKind::Vlm) ==> source(cli.endpoint, env.endpoint) is Some
                && source(cli.model, env.model) is Some
            &&& chain->Ok_0.contains(EngineKind::Paddle) ==> source(
                cli.endpoint,
                env.endpoint,
            ) is Some
            &&& config::number_or(source(cli.min_px, env.min_px), u32::MAX as nat, 2500) is Some
            &&& config::number_or(source(cli.timeout, env.timeout), u64::MAX as nat, 120) is Some
            &&& config::number_or(
                source(cli.max_retries, env.max_retries),
                u32::MAX as nat,
                3,
            ) is Some
            &&& config::extra_of(text::opt_view(env.extra_body)) is Ok
        },
{
    law_mode_names("fence"@);
}

/// What is added to requests are the members of the object that the
/// environment gives, or nothing where it gives nothing.
pub proof fn law_what_is_added_to_requests(v: Option<Seq<char>>, m: Seq<(Seq<char>, JsonView)>)
    ensures
        v is None || text::blank(v->0) ==> config::extra_of(v) == Ok::<_, Seq<char>>(
            Seq::<(Seq<char>, JsonView)>::empty(),
        ),
        v is Some && !text::blank(v->0) ==> {
            &&& json::json_parse(v->0) == Ok::<_, Seq<char>>(JsonView::Object(m))
                ==> config::extra_of(v) == Ok::<_, Seq<char>>(m)
            &&& json::json_parse(v->0) is Err ==> config::extra_of(v) is Err
            &&& json::json_parse(v->0) matches Ok(x) ==> (x is Object <==> config::extra_of(v) is Ok)
        },
{
}

/// The models are in the first of the places that exists.
pub proof fn law_the_first_place_counts(places: Seq<Seq<char>>, present: Seq<bool>, i: int)
    requires
        places.len() == present.len(),
        0 <= i < places.len(),
        present[i],
        forall|k: int| 0 <= k < i ==> !present[k],
    ensures
        config::first_present(places, present) == places[i],
    decreases places.len(),
{
    if i > 0 {
        let p = present.skip(1);
        assert forall|k: int| 0 <= k < i - 1 implies !p[k] by {
            assert(p[k] == present[k + 1]);
        }
        law_the_first_place_counts(places.skip(1), p, i - 1);
    }
}

/// Bytes in place of characters.
pub proof fn lemma_signed(s: Seq<u8>, sig: Seq<char>)
    ensures
        bytes::signed(s, sig) <==> bytes::latin(sig).len() <= s.len() && s.take(
            bytes::latin(sig).len() as int,
        ) == bytes::latin(sig),
{
    let pat = bytes::latin(sig);
    if bytes::signed(s, sig) {
        assert(s.take(pat.len() as int) =~= pat);
    }
    if pat.len() <= s.len() && s.take(pat.len() as int) == pat {
        assert(s.subrange(0, pat.len() as int) =~= pat);
    }
}

/// A document that begins like a PDF, a PNG, a JPEG, a GIF or a BMP is one,
/// whatever its name.
pub proof fn law_signatures_show_the_format(rest: Seq<u8>)
    ensures
        input::content_of(seq![0x25u8, 0x50, 0x44, 0x46, 0x2d] + rest) == Some(InputFormat::Pdf),
        input::content_of(seq![0x89u8, 0x50, 0x4e, 0x47, 0x0d, 0x0a, 0x1a, 0x0a] + rest) == Some(
            InputFormat::Image,
        ),
        input::content_of(seq![0xffu8, 0xd8, 0xff] + rest) == Some(InputFormat::Image),
        input::content_of(seq![0x42u8, 0x4d] + rest) == Some(InputFormat::Image),
        input::content_of(seq![0x7bu8, 0x5c, 0x72, 0x74, 0x66] + rest) == Some(InputFormat::Rtf),
{
    reveal_strlit("{\\rtf");
    reveal_strlit("%PDF-");
    reveal_strlit("\u{ef}\u{bb}\u{bf}");
    reveal_strlit("\u{89}PNG\r\n\u{1a}\n");
    reveal_strlit("\u{ff}\u{d8}\u{ff}");
    reveal_strlit("BM");
    let pdf = seq![0x25u8, 0x50, 0x44, 0x46, 0x2d];
    let png = seq![0x89u8, 0x50, 0x4e, 0x47, 0x0d, 0x0a, 0x1a, 0x0a];
    let jpg = seq![0xffu8, 0xd8, 0xff];
    let bmp = seq![0x42u8, 0x4d];
    let rtf = seq![0x7bu8, 0x5c, 0x72, 0x74, 0x66];
    assert(bytes::latin("%PDF-"@) =~= pdf);
    assert(bytes::latin("\u{89}PNG\r\n\u{1a}\n"@) =~= png);
    assert(bytes::latin("\u{ff}\u{d8}\u{ff}"@) =~= jpg);
    assert(bytes::latin("BM"@) =~= bmp);
    assert(bytes::latin("{\\rtf"@) =~= rtf);
    lemma_begins(pdf, rest);
    lemma_begins(png, rest);
    lemma_begins(jpg, rest);
    lemma_begins(bmp, rest);
    lemma_begins(rtf, rest);
    lemma_no_mark(pdf + rest);
    lemma_no_mark(png + rest);
    lemma_no_mark(jpg + rest);
    lemma_no_mark(bmp + rest);
    lemma_no_mark(rtf + rest);
    lemma_signed(pdf + rest, "%PDF-"@);
    lemma_signed(png + rest, "%PDF-"@);
    lemma_signed(jpg + rest, "%PDF-"@);
    lemma_signed(bmp + rest, "%PDF-"@);
    lemma_signed(png + rest, "\u{89}PNG\r\n\u{1a}\n"@);
    lemma_signed(jpg + rest, "\u{ff}\u{d8}\u{ff}"@);
    lemma_signed(bmp + rest, "BM"@);
    lemma_signed(pdf + rest, "{\\rtf"@);
    lemma_signed(png + rest, "{\\rtf"@);
    lemma_signed(jpg + rest, "{\\rtf"@);
    lemma_signed(bmp + rest, "{\\rtf"@);
    lemma_signed(rtf + rest, "{\\rtf"@);
    assert((pdf + rest)[0] == 0x25);
    assert((png + rest)[0] == 0x89);
    assert((jpg + rest)[0] == 0xff);
    assert((bmp + rest)[0] == 0x42);
    assert((pdf + rest).take(5)[0] == 0x25);
    if (png + rest).len() >= 5 {
        assert((png + rest).take(5)[0] == 0x89);
    }
    if (jpg + rest).len() >= 5 {
        assert((jpg + rest).take(5)[0] == 0xff);
    }
    if (bmp + rest).len() >= 5 {
        assert((bmp + rest).take(5)[0] == 0x42);
    }
    assert(pdf[0] == 0x25 && rtf[0] == 0x7b);
}

proof fn lemma_begins(sig: Seq<u8>, rest: Seq<u8>)
    ensures
        (sig + rest).take(sig.len() as int) == sig,
{
    assert((sig + rest).take(sig.len() as int) =~= sig);
}

/// Without a byte order mark and without white space in front nothing is
/// passed over.
proof fn lemma_no_mark(s: Seq<u8>)
    requires
        s.len() > 0,
        s[0] != 0xef,
        !input::ascii_white(s[0]),
    ensures
        input::past_white(input::past_mark(s)) == s,
{
    reveal_strlit("\u{ef}\u{bb}\u{bf}");
    let mark = bytes::latin("\u{ef}\u{bb}\u{bf}"@);
    assert(mark.len() == 3 && mark[0] == 0xef);
    lemma_signed(s, "\u{ef}\u{bb}\u{bf}"@);
    if bytes::signed(s, "\u{ef}\u{bb}\u{bf}"@) {
        assert(s.take(3)[0] == mark[0]);
    }
}

/// What the content shows goes before what the name suggests; where the two
/// differ there is a warning, and else none.
pub proof fn law_content_goes_first(content: Option<InputFormat>, hint: Option<InputFormat>)
    ensures
        content is Some ==> input::chosen(content, hint) == content,
        content is None ==> input::chosen(content, hint) == hint,
        input::mismatch(content, hint) is Some <==> content is Some && hint is Some && content
            != hint,
{
}

/// An office document is known by its main part, whatever the case of its
/// name and the slashes in it.
pub proof fn law_archives_are_known_by_their_parts(
    names: Seq<Seq<char>>,
    mimetype: Option<Seq<char>>,
)
    requires
        !input::holds(names, "xl/workbook.bin"@),
    ensures
        input::holds(names, "word/document.xml"@) ==> input::archive_format(names, mimetype)
            == Some(InputFormat::Docx),
        !input::holds(names, "word/document.xml"@) && input::holds(names, "ppt/presentation.xml"@)
            ==> input::archive_format(names, mimetype) == Some(InputFormat::Pptx),
        !input::holds(names, "word/document.xml"@) && !input::holds(names, "ppt/presentation.xml"@)
            && input::holds(names, "xl/workbook.xml"@) ==> input::archive_format(names, mimetype)
            == Some(InputFormat::Xlsx),
{
}

/// The name of an entry counts by its letters, in any case, and with either
/// slash.
pub proof fn law_entry_names(name: Seq<char>, i: int)
    requires
        0 <= i < name.len(),
    ensures
        input::entry_name(name).len() == name.len(),
        name[i] == '\\' ==> input::entry_name(name)[i] == '/',
        'A' <= name[i] <= 'Z' ==> input::entry_name(name)[i] as int == name[i] as int + 32,
        name[i] != '\\' && !('A' <= name[i] <= 'Z') ==> input::entry_name(name)[i] == name[i],
{
    let m = name.map_values(|c: char| if c == '\\' { '/' } else { c });
    text_laws::law_lower_case(m, i);
}

/// An engine gets the settings that are meant for it: the local one its
/// language and models, a remote one its endpoint, time and retries, and the
/// chat engine its model, prompt, key and additional members too.
pub proof fn law_engines_get_their_settings(p: EnginePlan, kind: EngineKind, s: Settings)
    requires
        config::plan_matches(p, kind, s),
    ensures
        kind is Local ==> (p matches EnginePlan::Local { lang, models_dir } && lang@ == s.lang
            && models_dir@ == s.models_dir),
        kind is Vlm ==> (p matches EnginePlan::Vlm(v) && s.endpoint == Some(v.endpoint@) && s.model
            == Some(v.model@) && text::opt_view(v.api_key) == s.api_key && v.timeout_secs
            == s.timeout_secs && v.max_retries == s.max_retries && v.extra() == s.extra_body && (
        s.prompt matches Some(t) ==> v.prompt@ == t)),
        kind is Paddle ==> (p matches EnginePlan::Paddle(v) && s.endpoint == Some(v.endpoint@)
            && v.timeout_secs == s.timeout_secs && v.max_retries == s.max_retries),
{
}

/// Models are looked for in the working directory, then beside the program,
/// then a directory above it.
pub proof fn law_where_models_are_looked_for(dir: Seq<char>)
    ensures
        config::models_places(None) == seq![".models"@],
        ({
            let places = config::models_places(Some(dir));
            &&& places.len() >= 2
            &&& places[0] == ".models"@
            &&& places[1] == paths::joined(dir, ".models"@)
            &&& paths::parent(dir) is None <==> places.len() == 2
            &&& paths::parent(dir) matches Some(up) ==> places.len() == 3 && places[2]
                == paths::joined(up, ".models"@)
        }),
{
}

/// White space and a byte order mark before a document do not hide what it is.
pub proof fn law_rtf_behind_white_space(s: Seq<u8>, b: u8)
    requires
        input::ascii_white(b),
    ensures
        input::past_white(seq![b] + s) == input::past_white(s),
        b == 9 || b == 10 || b == 12 || b == 13 || b == 32,
        input::past_white(s).len() > 0 ==> !input::ascii_white(input::past_white(s)[0]),
    decreases s.len(),
{
    assert((seq![b] + s).skip(1) =~= s);
    assert((seq![b] + s)[0] == b);
    if s.len() > 0 && input::ascii_white(s[0]) {
        law_rtf_behind_white_space(s.skip(1), b);
    }
}

/// An archive that names its type is of that type.
pub proof fn law_archives_that_name_their_type(m: Seq<char>)
    ensures
        input::mime_format("application/vnd.oasis.opendocument.text"@) == Some(InputFormat::Odt),
        input::mime_format("application/vnd.oasis.opendocument.spreadsheet"@) == Some(
            InputFormat::Ods,
        ),
        input::mime_format("application/vnd.oasis.opendocument.presentation"@) == Some(
            InputFormat::Odp,
        ),
        input::mime_format("application/epub+zip"@) == Some(InputFormat::Epub),
        input::mime_format(m) is Some ==> input::mime_format(m)->0 is Odt || input::mime_format(
            m,
        )->0 is Ods || input::mime_format(m)->0 is Odp || input::mime_format(m)->0 is Epub,
{
    reveal_strlit("application/vnd.oasis.opendocument.text");
    reveal_strlit("application/vnd.oasis.opendocument.spreadsheet");
    reveal_strlit("application/vnd.oasis.opendocument.presentation");
    reveal_strlit("application/epub+zip");
    assert("application/vnd.oasis.opendocument.text"@.len() == 39);
    assert("application/vnd.oasis.opendocument.spreadsheet"@.len() == 46);
    assert("application/vnd.oasis.opendocument.presentation"@.len() == 47);
    assert("application/epub+zip"@.len() == 20);
}

/// An archive with too many entries, or with one that cannot be opened, is
/// none; and neither is what does not open.
pub proof fn law_archives_that_do_not_count(a: Archive, i: int)
    ensures
        input::opened_format(None) is None,
        a.entries.len() > input::MAX_ENTRIES ==> input::opened_format(Some(a)) is None,
        0 <= i < a.entries.len() && a.entries[i] is None ==> input::opened_format(Some(a)) is None,
{
}

} // verus!
