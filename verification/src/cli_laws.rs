//! What the words of a command line mean.

use vstd::prelude::*;

use crate::cli;
use crate::cli::{
    Asked, CliResult, CommandView, Export, NoStart, Request, RequestView, Start, Taken,
};
use crate::config::{ImgOcrConfig, Overrides};
use crate::conversion;
use crate::conversion::{Conversion, WordView};
use crate::converted::ImageMode;
use crate::input::InputFormat;
use crate::paths;
use crate::text;
use crate::text_laws;

verus! {

broadcast use vstd::string::group_string_axioms;

/// Each flag of picture OCR takes the word that follows it as its own value
/// and leaves all other values.
pub proof fn law_flags_take_their_values(o: Overrides, v: Seq<char>)
    ensures
        cli::overridden(o, "--img-ocr-engine"@, Some(v)) == Taken::Valued(
            Overrides { engine: Some(v), ..o },
        ),
        cli::overridden(o, "--img-ocr-mode"@, Some(v)) == Taken::Valued(
            Overrides { mode: Some(v), ..o },
        ),
        cli::overridden(o, "--img-ocr-lang"@, Some(v)) == Taken::Valued(
            Overrides { lang: Some(v), ..o },
        ),
        cli::overridden(o, "--img-ocr-endpoint"@, Some(v)) == Taken::Valued(
            Overrides { endpoint: Some(v), ..o },
        ),
        cli::overridden(o, "--img-ocr-model"@, Some(v)) == Taken::Valued(
            Overrides { model: Some(v), ..o },
        ),
        cli::overridden(o, "--img-ocr-api-key"@, Some(v)) == Taken::Valued(
            Overrides { api_key: Some(v), ..o },
        ),
        cli::overridden(o, "--img-ocr-prompt"@, Some(v)) == Taken::Valued(
            Overrides { prompt: Some(v), ..o },
        ),
        cli::overridden(o, "--img-ocr-min-px"@, Some(v)) == Taken::Valued(
            Overrides { min_px: Some(v), ..o },
        ),
        cli::overridden(o, "--img-ocr-cache-dir"@, Some(v)) == Taken::Valued(
            Overrides { cache_dir: Some(v), ..o },
        ),
        cli::overridden(o, "--img-ocr-timeout"@, Some(v)) == Taken::Valued(
            Overrides { timeout: Some(v), ..o },
        ),
        cli::overridden(o, "--img-ocr-models-dir"@, Some(v)) == Taken::Valued(
            Overrides { models_dir: Some(v), ..o },
        ),
        cli::overridden(o, "--img-ocr-max-retries"@, Some(v)) == Taken::Valued(
            Overrides { max_retries: Some(v), ..o },
        ),
        cli::overridden(o, "--no-img-ocr-cache"@, Some(v)) == Taken::Alone(
            Overrides { no_cache: true, ..o },
        ),
{
    reveal(cli::overridden);
    reveal_strlit("--img-ocr-engine");
    reveal_strlit("--img-ocr-mode");
    reveal_strlit("--img-ocr-lang");
    reveal_strlit("--img-ocr-endpoint");
    reveal_strlit("--img-ocr-model");
    reveal_strlit("--img-ocr-api-key");
    reveal_strlit("--img-ocr-prompt");
    reveal_strlit("--img-ocr-min-px");
    reveal_strlit("--img-ocr-cache-dir");
    reveal_strlit("--img-ocr-timeout");
    reveal_strlit("--img-ocr-models-dir");
    reveal_strlit("--no-img-ocr-cache");
    reveal_strlit("--img-ocr-max-retries");
    assert("--img-ocr-engine"@.len() == 16 && "--img-ocr-mode"@.len() == 14 && "--img-ocr-lang"@.len() == 14 && "--img-ocr-endpoint"@.len() == 18 && "--img-ocr-model"@.len() == 15 && "--img-ocr-api-key"@.len() == 17 && "--img-ocr-prompt"@.len() == 16 && "--img-ocr-min-px"@.len() == 16 && "--img-ocr-cache-dir"@.len() == 19 && "--img-ocr-timeout"@.len() == 17 && "--img-ocr-models-dir"@.len() == 20 && "--no-img-ocr-cache"@.len() == 18 && "--img-ocr-max-retries"@.len() == 21);
    assert("--img-ocr-engine"@[10] != "--img-ocr-prompt"@[10]);
    assert("--img-ocr-engine"@[10] != "--img-ocr-min-px"@[10]);
    assert("--img-ocr-mode"@[10] != "--img-ocr-lang"@[10]);
    assert("--img-ocr-endpoint"@[2] != "--no-img-ocr-cache"@[2]);
    assert("--img-ocr-api-key"@[10] != "--img-ocr-timeout"@[10]);
    assert("--img-ocr-prompt"@[10] != "--img-ocr-min-px"@[10]);
}

/// Each switch turns its own setting on and leaves all others.
pub proof fn law_switches_turn_on_their_settings(c: Conversion)
    ensures
        cli::start_switch(c, "--no-ocr"@) == Some(Conversion { no_ocr: true, ..c }),
        cli::start_switch(c, "--no-table-former"@) == Some(Conversion { no_table_former: true, ..c }),
        cli::start_switch(c, "--force-full-page-ocr"@) == Some(Conversion { force_full_page_ocr: true, ..c }),
        cli::start_switch(c, "--no-text-panels"@) == Some(Conversion { no_text_panels: true, ..c }),
        cli::start_switch(c, "--strict"@) == Some(Conversion { strict: true, ..c }),
        cli::file_switch(c, "--fetch-images"@) == Some(Conversion { fetch_images: true, ..c }),
        cli::file_switch(c, "--use-web-browser"@) == Some(Conversion { use_web_browser: true, ..c }),
        cli::file_switch(c, "--enrich-picture-classes"@) == Some(Conversion { enrich_picture_classes: true, ..c }),
        cli::file_switch(c, "--enrich-code"@) == Some(Conversion { enrich_code: true, ..c }),
        cli::file_switch(c, "--enrich-formula"@) == Some(Conversion { enrich_formula: true, ..c }),
{
    reveal(cli::start_switch);
    reveal(cli::file_switch);
    reveal_strlit("--no-ocr");
    reveal_strlit("--no-table-former");
    reveal_strlit("--force-full-page-ocr");
    reveal_strlit("--no-text-panels");
    reveal_strlit("--strict");
    assert("--no-ocr"@.len() == 8 && "--no-table-former"@.len() == 17 && "--force-full-page-ocr"@.len() == 21 && "--no-text-panels"@.len() == 16 && "--strict"@.len() == 8);
    assert("--no-ocr"@[2] != "--strict"@[2]);
    reveal_strlit("--fetch-images");
    reveal_strlit("--use-web-browser");
    reveal_strlit("--enrich-picture-classes");
    reveal_strlit("--enrich-code");
    reveal_strlit("--enrich-formula");
    assert("--fetch-images"@.len() == 14 && "--use-web-browser"@.len() == 17 && "--enrich-picture-classes"@.len() == 24 && "--enrich-code"@.len() == 13 && "--enrich-formula"@.len() == 16);
}

/// Words about input and output each set their own thing: the format, the way
/// to show pictures, where from and where to, and a word that is no flag is the
/// file to convert.
pub proof fn law_words_about_input_and_output(r: RequestView, w: WordView, path: Seq<char>)
    requires
        path.len() >= 2 ==> path[0] != '-' || path[1] != '-',
        path != "-o"@,
    ensures
        cli::requested(r, "--to"@, Some(w)) == Taken::Valued(RequestView { to: w.text, ..r }),
        cli::requested(r, "--images"@, Some(w)) == Taken::Valued(
            RequestView { images: w.text, ..r },
        ),
        cli::requested(r, "--vlm-endpoint"@, Some(w)) == Taken::Valued(
            RequestView { vlm_endpoint: Some(w.text), ..r },
        ),
        cli::requested(r, "--vlm-model"@, Some(w)) == Taken::Valued(
            RequestView { vlm_model: Some(w.text), ..r },
        ),
        cli::requested(r, "--input"@, Some(w)) == Taken::Valued(
            RequestView { input: Some(w.text), ..r },
        ),
        cli::requested(r, "-o"@, Some(w)) == Taken::Valued(
            RequestView { output: Some(w.text), ..r },
        ),
        cli::requested(r, "--output"@, Some(w)) == Taken::Valued(
            RequestView { output: Some(w.text), ..r },
        ),
        cli::requested(r, "--no-stream"@, Some(w)) == Taken::Alone(
            RequestView { no_stream: true, ..r },
        ),
        cli::requested(r, path, Some(w)) == Taken::Alone(RequestView { path: Some(path), ..r }),
{
    reveal(cli::requested);
    reveal_strlit("--no-stream");
    reveal_strlit("--to");
    reveal_strlit("--images");
    reveal_strlit("--vlm-endpoint");
    reveal_strlit("--vlm-model");
    reveal_strlit("--input");
    reveal_strlit("-o");
    reveal_strlit("--output");
    reveal_strlit("--jobs");
    reveal_strlit("--bench-warm");
    reveal_strlit("--pipeline");
    assert("--no-stream"@.len() == 11 && "--to"@.len() == 4 && "--images"@.len() == 8 && "--vlm-endpoint"@.len() == 14 && "--vlm-model"@.len() == 11 && "--input"@.len() == 7 && "-o"@.len() == 2 && "--output"@.len() == 8 && "--jobs"@.len() == 6 && "--bench-warm"@.len() == 12 && "--pipeline"@.len() == 10);
    assert("--no-stream"@[2] != "--vlm-model"@[2]);
    assert("--images"@[2] != "--output"@[2]);
    reveal_strlit("--");
    let dashes = "--"@;
    assert(dashes.len() == 2 && dashes[0] == '-' && dashes[1] == '-');
    if text::starts_with(path, dashes) {
        assert(path.subrange(0, 2) == dashes);
        assert(path.subrange(0, 2)[0] == path[0] && path.subrange(0, 2)[1] == path[1]);
    }
    lemma_dashes(path, "--no-stream"@);
    lemma_dashes(path, "--to"@);
    lemma_dashes(path, "--images"@);
    lemma_dashes(path, "--vlm-endpoint"@);
    lemma_dashes(path, "--vlm-model"@);
    lemma_dashes(path, "--input"@);
    lemma_dashes(path, "--output"@);
    lemma_dashes(path, "--jobs"@);
    lemma_dashes(path, "--bench-warm"@);
    lemma_dashes(path, "--pipeline"@);
}

proof fn lemma_dashes(path: Seq<char>, flag: Seq<char>)
    requires
        path.len() >= 2 ==> path[0] != '-' || path[1] != '-',
        flag.len() >= 2,
        flag[0] == '-',
        flag[1] == '-',
    ensures
        path != flag,
{
}

/// The number of workers and of runs is read as it is written; there is at
/// least one worker.
pub proof fn law_numbers_of_workers_and_runs(r: RequestView, n: usize, scale: Option<u32>)
    ensures
        ({
            let w = WordView { text: text::decimal(n as nat), scale };
            &&& n >= 1 ==> cli::requested(r, "--jobs"@, Some(w)) == Taken::Valued(
                RequestView { jobs: n, jobs_set: true, ..r },
            )
            &&& n == 0 ==> cli::requested(r, "--jobs"@, Some(w)) is Refused
            &&& cli::requested(r, "--bench-warm"@, Some(w)) == Taken::Valued(
                RequestView { bench_warm: Some(n), ..r },
            )
        }),
{
    reveal(cli::requested);
    reveal_strlit("--no-stream");
    reveal_strlit("--to");
    reveal_strlit("--images");
    reveal_strlit("--vlm-endpoint");
    reveal_strlit("--vlm-model");
    reveal_strlit("--input");
    reveal_strlit("-o");
    reveal_strlit("--output");
    reveal_strlit("--jobs");
    reveal_strlit("--bench-warm");
    reveal_strlit("--pipeline");
    assert("--no-stream"@.len() == 11 && "--to"@.len() == 4 && "--images"@.len() == 8 && "--vlm-endpoint"@.len() == 14 && "--vlm-model"@.len() == 11 && "--input"@.len() == 7 && "-o"@.len() == 2 && "--output"@.len() == 8 && "--jobs"@.len() == 6 && "--bench-warm"@.len() == 12 && "--pipeline"@.len() == 10);
    assert("--no-stream"@[2] != "--vlm-model"@[2]);
    assert("--images"@[2] != "--output"@[2]);
    text_laws::law_numbers_are_read_as_written(n as nat);
    assert(text::unsigned(text::decimal(n as nat), usize::MAX as nat) == Some(n as nat));
}

/// The options of a conversion that take a value: models and languages as they
/// are given, numbers as they are written, pages and page OCR languages as they
/// are understood.
pub proof fn law_options_of_a_conversion(c: Conversion, w: WordView)
    ensures
        cli::tuned(c, "--asr-model"@, Some(w)) == Taken::Valued(
            Conversion { asr_model: Some(w.text), ..c },
        ),
        cli::tuned(c, "--asr-lang"@, Some(w)) == Taken::Valued(
            Conversion { asr_lang: Some(w.text), ..c },
        ),
        forall|n: usize|
            w.text == #[trigger] text::decimal(n as nat) ==> cli::tuned(c, "--video-frames"@, Some(w))
                == Taken::Valued(Conversion { video_frames: Some(n), ..c }),
        conversion::page_range(w.text) matches Ok(p) ==> cli::tuned(c, "--pages"@, Some(w))
            == Taken::Valued(Conversion { pages: Some(p), ..c }),
        conversion::page_range(w.text) is Err ==> cli::tuned(c, "--pages"@, Some(w)) is Refused,
        conversion::ocr_lang(w.text) matches Ok(l) ==> cli::tuned(c, "--ocr-lang"@, Some(w))
            == Taken::Valued(Conversion { ocr_lang: Some(l), ..c }),
        conversion::ocr_lang(w.text) is Err ==> cli::tuned(c, "--ocr-lang"@, Some(w)) is Refused,
{
    reveal(cli::tuned);
    reveal_strlit("--asr-model");
    reveal_strlit("--asr-lang");
    reveal_strlit("--video-frames");
    reveal_strlit("--pages");
    reveal_strlit("--ocr-lang");
    assert("--asr-model"@.len() == 11 && "--asr-lang"@.len() == 10 && "--video-frames"@.len() == 14 && "--pages"@.len() == 7 && "--ocr-lang"@.len() == 10);
    assert("--asr-lang"@[2] != "--ocr-lang"@[2]);
    assert forall|n: usize| w.text == #[trigger] text::decimal(n as nat) implies cli::tuned(
        c,
        "--video-frames"@,
        Some(w),
    ) == Taken::Valued(Conversion { video_frames: Some(n), ..c }) by {
        text_laws::law_numbers_are_read_as_written(n as nat);
        assert(text::unsigned(text::decimal(n as nat), usize::MAX as nat) == Some(n as nat));
    }
}

/// A word changes one thing: the conversion, picture OCR or the request, and
/// leaves the other two.
pub proof fn law_a_word_changes_one_thing(a: Asked, arg: Seq<char>, next: Option<WordView>)
    ensures
        match cli::step(a, arg, next) {
            Taken::Alone(b) => one_changed(a, b),
            Taken::Valued(b) => one_changed(a, b),
            _ => true,
        },
{
    reveal(cli::step);
}

/// Of two command lines at most one of the three parts differs.
pub open spec fn one_changed(a: Asked, b: Asked) -> bool {
    ||| a.overrides == b.overrides && a.request == b.request
    ||| a.conversion == b.conversion && a.request == b.request
    ||| a.conversion == b.conversion && a.overrides == b.overrides
}

/// Words are read from the first on: one that is used alone is followed by the
/// next, one that takes a value by the word behind the value; help and version
/// come before all that follows them, and a refusal ends the reading.
pub proof fn law_words_are_read_in_order(a: Asked, words: Seq<WordView>)
    requires
        words.len() > 0,
    ensures
        ({
            let arg = words[0].text;
            let next = if words.len() > 1 {
                Some(words[1])
            } else {
                None
            };
            let help = arg == "-h"@ || arg == "--help"@;
            let version = arg == "-V"@ || arg == "--version"@;
            &&& help ==> cli::read(a, words) is Help
            &&& version ==> cli::read(a, words) is Version
            &&& !help && !version ==> match cli::step(a, arg, next) {
                Taken::Alone(b) => cli::read(a, words) == cli::read(b, words.skip(1)),
                Taken::Valued(b) => cli::read(a, words) == cli::read(
                    b,
                    if words.len() > 1 {
                        words.skip(2)
                    } else {
                        seq![]
                    },
                ),
                Taken::Refused(e) => cli::read(a, words) == CliResult::Refused(e),
                Taken::Not => true,
            }
        }),
        cli::read(a, seq![]) == CliResult::Asks(a),
{
    reveal_strlit("-h");
    reveal_strlit("--help");
    reveal_strlit("-V");
    reveal_strlit("--version");
    assert("-h"@.len() == 2 && "--help"@.len() == 6 && "-V"@.len() == 2 && "--version"@.len() == 9);
    assert("-h"@[1] != "-V"@[1]);
}

/// Help and version end the program with success, a refusal with code 2.
pub proof fn law_exit_codes(r: CliResult, c: CommandView)
    ensures
        r is Help || r is Version ==> cli::parsed_code(r) == Some(0u8),
        r is Refused ==> cli::parsed_code(r) == Some(2u8),
        r is Asks ==> cli::parsed_code(r) is None,
        c is Refused || c is Usage ==> cli::command_code(c) == Some(2u8),
        c is Batch || c is Single ==> cli::command_code(c) is None,
{
}

/// A command line without a batch converts the one file that it names, with
/// the pictures shown as it says; a batch converts what it matches into the
/// directory that it names.
pub proof fn law_what_a_command_does(r: RequestView)
    ensures
        cli::command(r) matches CommandView::Single { path, images } ==> r.path == Some(path)
            && cli::image_mode(r.images) == Some(images) && r.input is None && !r.jobs_set,
        cli::command(r) matches CommandView::Batch { pattern, outdir, images } ==> r.input == Some(
            pattern,
        ) && r.output == Some(outdir) && cli::image_mode(r.images) == Some(images) && r.path is None,
        cli::command(r) is Usage ==> r.path is None && r.input is None,
        !cli::is_format(r.to) || cli::image_mode(r.images) is None ==> cli::command(r) is Refused,
        cli::is_format(r.to) && cli::image_mode(r.images) is Some && r.input is None && !r.jobs_set
            && r.path is Some ==> cli::command(r) is Single,
{
}

/// The three ways to show pictures have these names, and the output formats
/// have these.
pub proof fn law_names_of_formats(s: Seq<char>)
    ensures
        cli::image_mode("placeholder"@) == Some(ImageMode::Placeholder),
        cli::image_mode("embedded"@) == Some(ImageMode::Embedded),
        cli::image_mode("referenced"@) == Some(ImageMode::Referenced),
        s != "placeholder"@ && s != "embedded"@ && s != "referenced"@ ==> cli::image_mode(s) is None,
        cli::is_format(s) <==> s == "md"@ || s == "markdown"@ || s == "json"@ || s == "dclx"@ || s
            == "chunks"@,
{
    reveal_strlit("placeholder");
    reveal_strlit("embedded");
    reveal_strlit("referenced");
    assert("placeholder"@.len() == 11 && "embedded"@.len() == 8 && "referenced"@.len() == 10);
}

/// A picture file goes past the converter exactly where text in pictures is
/// wanted and the first engine is a remote one.
pub proof fn law_which_pictures_go_past_the_converter(cfg: ImgOcrConfig, format: InputFormat)
    ensures
        cli::bypasses(cfg, format) <==> format is Image && !(cfg.mode is Placeholder)
            && cfg.engines@.len() > 0 && !(cfg.engines@[0] is Local),
{
}

/// Output is written as it comes only as Markdown to the standard output, with
/// nothing to recognise in pictures and no word against it.
pub proof fn law_what_is_written_as_it_comes(r: Request, cfg: ImgOcrConfig)
    ensures
        r.streams(cfg) <==> cfg.mode is Placeholder && r.output is None && !r.no_stream && (r.to@
            == "md"@ || r.to@ == "markdown"@),
{
}

/// Each format is written as what it is; Markdown shows its pictures unless
/// they are placeholders.
pub proof fn law_what_is_written(images: ImageMode, to: Seq<char>)
    ensures
        cli::exported("dclx"@, images) == Export::Archive,
        cli::exported("json"@, images) == Export::Json,
        cli::exported("chunks"@, images) == Export::Chunks,
        to != "dclx"@ && to != "json"@ && to != "chunks"@ ==> {
            &&& cli::exported(to, images) is Markdown <==> images is Placeholder
            &&& cli::exported(to, images) is Illustrated <==> !(images is Placeholder)
        },
{
    reveal_strlit("dclx");
    reveal_strlit("json");
    reveal_strlit("chunks");
    assert("dclx"@.len() == 4 && "json"@.len() == 4 && "chunks"@.len() == 6);
    assert("dclx"@[0] != "json"@[0]);
}

/// An archive is written where the command line says, or under the stem of the
/// input's name.
pub proof fn law_where_archives_go(input: Seq<char>, out: Seq<char>)
    ensures
        cli::archive_path(input, Some(out)) == out,
        paths::stem(input) matches Some(stem) ==> cli::archive_path(input, None) == stem
            + ".dclx"@,
{
}

/// A server takes its address from the word behind the flag; its switches and
/// its flags of picture OCR do what they do for a file.
pub proof fn law_words_for_a_server(s: Start, w: WordView, arg: Seq<char>)
    ensures
        cli::own_option(s, "--addr"@, Some(w)) == Taken::Valued(Start { addr: w.text, ..s }),
        !cli::is_shared(arg) ==> {
            &&& cli::start_switch(s.conversion, arg) matches Some(c) ==> cli::serve_step(
                s,
                arg,
                Some(w),
            ) == Taken::Alone(Start { conversion: c, ..s })
            &&& cli::start_switch(s.conversion, arg) is None ==> {
                &&& cli::overridden(s.overrides, arg, Some(w.text)) matches Taken::Valued(o)
                    ==> cli::serve_step(s, arg, Some(w)) == Taken::Valued(
                    Start { overrides: o, ..s },
                )
                &&& cli::overridden(s.overrides, arg, Some(w.text)) matches Taken::Alone(o)
                    ==> cli::serve_step(s, arg, Some(w)) == Taken::Alone(
                    Start { overrides: o, ..s },
                )
                &&& cli::overridden(s.overrides, arg, Some(w.text)) is Not ==> cli::serve_step(
                    s,
                    arg,
                    Some(w),
                ) == cli::own_option(s, arg, Some(w))
            }
        },
{
    reveal(cli::own_option);
    reveal(cli::serve_step);
}

/// The words of a server's command line are read in order; one that is not
/// known is named.
pub proof fn law_words_for_a_server_are_read_in_order(s: Start, words: Seq<WordView>)
    requires
        words.len() > 0,
    ensures
        ({
            let next = if words.len() > 1 {
                Some(words[1])
            } else {
                None
            };
            match cli::serve_step(s, words[0].text, next) {
                Taken::Alone(t) => cli::serve_read(s, words) == cli::serve_read(t, words.skip(1)),
                Taken::Valued(t) => cli::serve_read(s, words) == cli::serve_read(
                    t,
                    if words.len() > 1 {
                        words.skip(2)
                    } else {
                        seq![]
                    },
                ),
                Taken::Refused(e) => cli::serve_read(s, words) == Err::<Start, NoStart>(
                    NoStart::Usage(e),
                ),
                Taken::Not => cli::serve_read(s, words) == Err::<Start, NoStart>(
                    NoStart::Unknown(words[0].text),
                ),
            }
        }),
        cli::serve_read(s, seq![]) == Ok::<Start, NoStart>(s),
{
}

} // verus!
