//! Conversion settings, shared by the entry points for one file, a batch and
//! HTTP requests, and the warm pipeline that they run through.

use vstd::prelude::*;

use crate::converted::{Contents, Document};
use crate::input::InputFormat;
use crate::text;

verus! {

broadcast use vstd::string::group_string_axioms;

/// Settings of a document's conversion.
#[derive(Debug)]
pub struct ConversionOptions {
    pub strict: bool,
    pub fetch_images: bool,
    pub no_table_former: bool,
    pub no_ocr: bool,
    pub skip_ocr: bool,
    pub force_full_page_ocr: bool,
    pub no_text_panels: bool,
    pub heading_hierarchy: bool,
    pub use_web_browser: bool,
    pub enrich_picture_classes: bool,
    pub enrich_code: bool,
    pub enrich_formula: bool,
    pub asr_model: Option<String>,
    pub asr_lang: Option<String>,
    pub video_frames: Option<usize>,
    /// First and last page.
    pub pages: Option<(usize, usize)>,
    pub ocr_lang: Option<String>,
    pub ocr_mode: Option<String>,
    /// The bits of a single-precision number.
    pub ocr_scale: Option<u32>,
    pub encoding: Option<String>,
    pub page_break_placeholder: Option<String>,
}

/// The contents of [`ConversionOptions`].
#[verifier::ext_equal]
pub struct Conversion {
    pub strict: bool,
    pub fetch_images: bool,
    pub no_table_former: bool,
    pub no_ocr: bool,
    pub skip_ocr: bool,
    pub force_full_page_ocr: bool,
    pub no_text_panels: bool,
    pub heading_hierarchy: bool,
    pub use_web_browser: bool,
    pub enrich_picture_classes: bool,
    pub enrich_code: bool,
    pub enrich_formula: bool,
    pub asr_model: Option<Seq<char>>,
    pub asr_lang: Option<Seq<char>>,
    pub video_frames: Option<usize>,
    pub pages: Option<(usize, usize)>,
    pub ocr_lang: Option<Seq<char>>,
    pub ocr_mode: Option<Seq<char>>,
    pub ocr_scale: Option<u32>,
    pub encoding: Option<Seq<char>>,
    pub page_break_placeholder: Option<Seq<char>>,
}

impl View for ConversionOptions {
    type V = Conversion;

    open spec fn view(&self) -> Conversion {
        Conversion {
            strict: self.strict,
            fetch_images: self.fetch_images,
            no_table_former: self.no_table_former,
            no_ocr: self.no_ocr,
            skip_ocr: self.skip_ocr,
            force_full_page_ocr: self.force_full_page_ocr,
            no_text_panels: self.no_text_panels,
            heading_hierarchy: self.heading_hierarchy,
            use_web_browser: self.use_web_browser,
            enrich_picture_classes: self.enrich_picture_classes,
            enrich_code: self.enrich_code,
            enrich_formula: self.enrich_formula,
            asr_model: text::opt_view(self.asr_model),
            asr_lang: text::opt_view(self.asr_lang),
            video_frames: self.video_frames,
            pages: self.pages,
            ocr_lang: text::opt_view(self.ocr_lang),
            ocr_mode: text::opt_view(self.ocr_mode),
            ocr_scale: self.ocr_scale,
            encoding: text::opt_view(self.encoding),
            page_break_placeholder: text::opt_view(self.page_break_placeholder),
        }
    }
}

/// Every switch off, nothing chosen.
pub open spec fn plain() -> Conversion {
    Conversion {
        strict: false,
        fetch_images: false,
        no_table_former: false,
        no_ocr: false,
        skip_ocr: false,
        force_full_page_ocr: false,
        no_text_panels: false,
        heading_hierarchy: false,
        use_web_browser: false,
        enrich_picture_classes: false,
        enrich_code: false,
        enrich_formula: false,
        asr_model: None,
        asr_lang: None,
        video_frames: None,
        pages: None,
        ocr_lang: None,
        ocr_mode: None,
        ocr_scale: None,
        encoding: None,
        page_break_placeholder: None,
    }
}

impl Default for ConversionOptions {
    fn default() -> (r: ConversionOptions)
        ensures
            r@ == plain(),
    {
        ConversionOptions {
            strict: false,
            fetch_images: false,
            no_table_former: false,
            no_ocr: false,
            skip_ocr: false,
            force_full_page_ocr: false,
            no_text_panels: false,
            heading_hierarchy: false,
            use_web_browser: false,
            enrich_picture_classes: false,
            enrich_code: false,
            enrich_formula: false,
            asr_model: None,
            asr_lang: None,
            video_frames: None,
            pages: None,
            ocr_lang: None,
            ocr_mode: None,
            ocr_scale: None,
            encoding: None,
            page_break_placeholder: None,
        }
    }
}

/// A word of the command line, with the number that it may be.
#[derive(Debug)]
pub struct Word {
    pub text: String,
    /// The bits of the single-precision number that std's parser reads.
    pub scale: Option<u32>,
}

/// The contents of a [`Word`].
#[verifier::ext_equal]
pub struct WordView {
    pub text: Seq<char>,
    pub scale: Option<u32>,
}

impl View for Word {
    type V = WordView;

    open spec fn view(&self) -> WordView {
        WordView { text: self.text@, scale: self.scale }
    }
}

/// A result with its strings by their characters.
pub open spec fn texts(r: Result<String, String>) -> Result<Seq<char>, Seq<char>> {
    match r {
        Ok(s) => Ok(s@),
        Err(e) => Err(e@),
    }
}

/// One of the page OCR modes.
pub open spec fn is_ocr_mode(mode: Seq<char>) -> bool {
    mode == "default"@ || mode == "full_page"@ || mode == "layout_regions"@ || mode
        == "pdf_aware_layout_regions"@
}

/// The page OCR mode that a value names.
pub open spec fn ocr_mode(value: Seq<char>) -> Result<Seq<char>, Seq<char>> {
    let mode = text::lowercase(text::trim(value));
    if is_ocr_mode(mode) {
        Ok(mode)
    } else {
        Err(
            "unknown OCR mode "@ + text::str_debug(value)
                + "; expected default|full_page|layout_regions|pdf_aware_layout_regions"@,
        )
    }
}

/// Read the name of a page OCR mode, whatever its case.
pub fn parse_ocr_mode(value: &str) -> (r: Result<String, String>)
    ensures
        texts(r) == ocr_mode(value@),
{
    let v = text::chars_of(value);
    let mode = text::lowered(text::trimmed(&v));
    if text::same_chars(&mode, "default") || text::same_chars(&mode, "full_page")
        || text::same_chars(&mode, "layout_regions") || text::same_chars(
        &mode,
        "pdf_aware_layout_regions",
    ) {
        Ok(text::string_of(&mode))
    } else {
        Err(
            text::around_quoted(
                "unknown OCR mode ",
                value,
                "; expected default|full_page|layout_regions|pdf_aware_layout_regions",
            ),
        )
    }
}

/// The bits of a single-precision number that is finite and positive.
pub open spec fn positive_bits(bits: u32) -> bool {
    0 < bits < 0x7f80_0000
}

/// The scale that a value gives.
pub open spec fn ocr_scale(value: Seq<char>, number: Option<u32>) -> Result<u32, Seq<char>> {
    match number {
        Some(bits) if positive_bits(bits) => Ok(bits),
        _ => Err("OCR scale "@ + text::str_debug(value) + " must be finite and positive"@),
    }
}

/// Check a scale: `number` has the bits of the single-precision number that
/// std's parser reads in `value`.
pub fn parse_ocr_scale(value: &str, number: Option<u32>) -> (r: Result<u32, String>)
    ensures
        match r {
            Ok(bits) => ocr_scale(value@, number) == Ok::<u32, Seq<char>>(bits),
            Err(e) => ocr_scale(value@, number) == Err::<u32, Seq<char>>(e@),
        },
{
    match number {
        Some(bits) => {
            if 0 < bits && bits < 0x7f80_0000 {
                return Ok(bits);
            }
        },
        None => {},
    }
    Err(text::around_quoted("OCR scale ", value, " must be finite and positive"))
}

/// The page that a part of a range names.
pub open spec fn page_number(part: Seq<char>) -> Result<usize, Seq<char>> {
    match text::unsigned(text::trim(part), usize::MAX as nat) {
        Some(n) => Ok(n as usize),
        None => Err("invalid page number '"@ + text::trim(part) + "'"@),
    }
}

/// The first and last page of a range such as `3-7`, or of a single page.
pub open spec fn page_range(s: Seq<char>) -> Result<(usize, usize), Seq<char>> {
    let i = text::index_of(s, '-');
    match (page_number(s.take(i)), page_number(if i < s.len() {
        s.skip(i + 1)
    } else {
        s
    })) {
        (Err(e), _) => Err(e),
        (Ok(_), Err(e)) => Err(e),
        (Ok(first), Ok(last)) => if first == 0 {
            Err("pages are 1-based; the range starts at 1"@)
        } else if last < first {
            Err(
                "range "@ + text::decimal(first as nat) + "-"@ + text::decimal(last as nat)
                    + " is inverted (first <= last)"@,
            )
        } else {
            Ok((first, last))
        },
    }
}

/// A result with its string by its characters.
pub open spec fn range_view(r: Result<(usize, usize), String>) -> Result<
    (usize, usize),
    Seq<char>,
> {
    match r {
        Ok(p) => Ok(p),
        Err(e) => Err(e@),
    }
}

/// `docling::parse_page_range` reads two page numbers with a `-` between them,
/// or one that stands for both, with white space around each; pages count from
/// 1 and the last is not before the first.
pub assume_specification[ docling::parse_page_range ](s: &str) -> (r: Result<
    (usize, usize),
    String,
>)
    ensures
        range_view(r) == page_range(s@),
;

/// The primary subtag of a language tag: what stands before the first `-` or
/// `_`.
pub open spec fn primary(tag: Seq<char>) -> Seq<char> {
    let hyphen = text::index_of(tag, '-');
    let line = text::index_of(tag, '_');
    if hyphen <= line {
        tag.take(hyphen)
    } else {
        tag.take(line)
    }
}

/// A language tag without the registry that may stand before it.
pub open spec fn bare_tag(value: Seq<char>) -> Seq<char> {
    if text::starts_with(value, "iso:"@) {
        text::trim(value.skip(4))
    } else {
        text::trim(value)
    }
}

/// The page OCR language that a value names: English or Chinese.
pub open spec fn ocr_lang(value: Seq<char>) -> Result<Seq<char>, Seq<char>> {
    let lower = text::lowercase(text::trim(value));
    let p = primary(bare_tag(lower));
    if p == "en"@ || p == "eng"@ || p == "english"@ {
        Ok("en"@)
    } else if p == "ch"@ || p == "zh"@ || p == "zho"@ || p == "chi"@ || p == "cmn"@ || p
        == "chinese"@ {
        Ok("ch"@)
    } else {
        Err(
            "unsupported page OCR language "@ + text::str_debug(lower)
                + "; expected an English or Chinese language tag"@,
        )
    }
}

/// Read a language tag or alias as one of the page OCR languages.
pub fn normalize_ocr_lang(value: &str) -> (r: Result<String, String>)
    ensures
        texts(r) == ocr_lang(value@),
{
    let v = text::chars_of(value);
    let lower = text::lowered(text::trimmed(&v));
    let tag = if text::has_prefix(&lower, "iso:") {
        proof {
            reveal_strlit("iso:");
        }
        text::trimmed(vstd::slice::slice_subrange(&lower, 4, lower.len()))
    } else {
        text::trimmed(&lower)
    };
    assert(tag@ == bare_tag(lower@)) by {
        reveal_strlit("iso:");
        if text::starts_with(lower@, "iso:"@) {
            assert(lower@.subrange(4, lower@.len() as int) =~= lower@.skip(4));
        }
    }
    let hyphen: usize = text::position_of(tag, '-');
    let line: usize = text::position_of(tag, '_');
    let end: usize = if hyphen <= line {
        hyphen
    } else {
        line
    };
    let p = vstd::slice::slice_subrange(tag, 0, end);
    assert(p@ =~= primary(tag@));
    if text::same_chars(p, "en") || text::same_chars(p, "eng") || text::same_chars(p, "english") {
        Ok("en".to_owned())
    } else if text::same_chars(p, "ch") || text::same_chars(p, "zh") || text::same_chars(p, "zho")
        || text::same_chars(p, "chi") || text::same_chars(p, "cmn") || text::same_chars(
        p,
        "chinese",
    ) {
        Ok("ch".to_owned())
    } else {
        Err(
            text::around_quoted(
                "unsupported page OCR language ",
                &text::string_of(&lower),
                "; expected an English or Chinese language tag",
            ),
        )
    }
}

/// A language that was normalised stays what it is.
pub proof fn law_normal_languages_stay(value: Seq<char>)
    requires
        ocr_lang(value) is Ok,
    ensures
        ocr_lang(ocr_lang(value)->Ok_0) == ocr_lang(value),
{
    reveal_strlit("en");
    reveal_strlit("ch");
    reveal_strlit("iso:");
    lemma_two_letters('e', 'n');
    lemma_two_letters('c', 'h');
    assert("en"@ =~= seq!['e', 'n']);
    assert("ch"@ =~= seq!['c', 'h']);
    assert("ch"@[0] != "en"@[0]);
    reveal_strlit("eng");
    reveal_strlit("english");
}

proof fn lemma_two_letters(a: char, b: char)
    requires
        'a' <= a <= 'z',
        'a' <= b <= 'z',
    ensures
        ({
            let s = seq![a, b];
            primary(bare_tag(text::lowercase(text::trim(s)))) == s
        }),
{
    let s = seq![a, b];
    reveal_strlit("iso:");
    reveal_with_fuel(text::trim_start, 2);
    reveal_with_fuel(text::trim_end, 2);
    assert(text::trim(s) == s);
    assert(text::lowercase(s) =~= s);
    assert(!text::starts_with(s, "iso:"@));
    text::lemma_index_of(s, '-');
    text::lemma_index_of(s, '_');
    assert(s.take(2) =~= s);
}

/// What an option of the command line does to the settings, and whether it
/// takes the word that follows it.
pub open spec fn flagged(o: Conversion, arg: Seq<char>, value: Option<WordView>) -> Result<
    (Conversion, bool),
    Seq<char>,
> {
    if arg == "--skip-ocr"@ {
        Ok((Conversion { skip_ocr: true, ..o }, false))
    } else if arg == "--heading-hierarchy"@ {
        Ok((Conversion { heading_hierarchy: true, ..o }, false))
    } else if arg == "--ocr-mode"@ || arg == "--ocr-scale"@ || arg == "--encoding"@ || arg
        == "--page-break-placeholder"@ {
        match value {
            None => Err(arg + " needs a value"@),
            Some(w) => if arg == "--ocr-mode"@ {
                match ocr_mode(w.text) {
                    Ok(mode) => Ok((Conversion { ocr_mode: Some(mode), ..o }, true)),
                    Err(e) => Err(e),
                }
            } else if arg == "--ocr-scale"@ {
                match ocr_scale(w.text, w.scale) {
                    Ok(bits) => Ok((Conversion { ocr_scale: Some(bits), ..o }, true)),
                    Err(e) => Err(e),
                }
            } else if arg == "--encoding"@ {
                Ok((Conversion { encoding: Some(w.text), ..o }, true))
            } else {
                Ok((Conversion { page_break_placeholder: Some(w.text), ..o }, true))
            },
        }
    } else {
        Err("unknown conversion option "@ + arg)
    }
}

/// An optional word by its contents.
pub open spec fn word_view(w: Option<&Word>) -> Option<WordView> {
    match w {
        Some(w) => Some(w@),
        None => None,
    }
}

impl ConversionOptions {
    /// Take an option that the command line and the server's start share.
    /// `next` is the word that follows it; the result says whether the option
    /// took that word. A refused option changes nothing.
    pub fn parse_flag(&mut self, arg: &str, next: Option<&Word>) -> (r: Result<bool, String>)
        ensures
            match r {
                Ok(took) => flagged(old(self)@, arg@, word_view(next)) == Ok::<
                    (Conversion, bool),
                    Seq<char>,
                >((final(self)@, took)),
                Err(e) => final(self)@ == old(self)@ && flagged(old(self)@, arg@, word_view(next))
                    == Err::<(Conversion, bool), Seq<char>>(e@),
            },
    {
        if text::same(arg, "--skip-ocr") {
            self.skip_ocr = true;
            return Ok(false);
        }
        if text::same(arg, "--heading-hierarchy") {
            self.heading_hierarchy = true;
            return Ok(false);
        }
        let known = text::same(arg, "--ocr-mode") || text::same(arg, "--ocr-scale") || text::same(
            arg,
            "--encoding",
        ) || text::same(arg, "--page-break-placeholder");
        if !known {
            return Err(text::both("unknown conversion option ", arg));
        }
        match next {
            None => Err(text::both(arg, " needs a value")),
            Some(w) => {
                if text::same(arg, "--ocr-mode") {
                    match parse_ocr_mode(&w.text) {
                        Ok(mode) => {
                            self.ocr_mode = Some(mode);
                        },
                        Err(e) => return Err(e),
                    }
                } else if text::same(arg, "--ocr-scale") {
                    match parse_ocr_scale(&w.text, w.scale) {
                        Ok(bits) => {
                            self.ocr_scale = Some(bits);
                        },
                        Err(e) => return Err(e),
                    }
                } else if text::same(arg, "--encoding") {
                    self.encoding = Some(w.text.clone());
                } else {
                    self.page_break_placeholder = Some(w.text.clone());
                }
                Ok(true)
            },
        }
    }

    /// Settle how a converted document is written.
    pub fn finish_document(&self, document: &mut Document)
        ensures
            final(document)@ == (Contents {
                strict_markdown: self@.strict,
                page_break_placeholder: self@.page_break_placeholder,
                ..old(document)@
            }),
    {
        document.strict_markdown = self.strict;
        document.page_break_placeholder = text::opt_clone(&self.page_break_placeholder);
    }
}

/// The settings that a pipeline is built with.
#[derive(Debug, Clone, Copy, PartialEq, Eq, Structural)]
pub struct PipelineKey {
    pub no_table_former: bool,
    pub no_ocr: bool,
    pub skip_ocr: bool,
    pub no_text_panels: bool,
    pub picture_classes: bool,
    pub code: bool,
    pub formula: bool,
}

/// The settings of a pipeline that each request sets anew.
#[derive(Debug)]
pub struct PipelineSettings {
    pub pages: Option<(usize, usize)>,
    pub ocr_lang: Option<String>,
    pub force_full_page_ocr: bool,
    pub ocr_mode: Option<String>,
    pub ocr_scale: Option<u32>,
    pub heading_hierarchy: bool,
}

/// What a conversion is run through.
#[derive(Debug)]
pub enum Route {
    /// A converter made for this document alone.
    Converter,
    /// The warm pipeline, built anew with the key first where `build` says so.
    /// A pipeline that is to be replaced is dropped before.
    Pipeline { build: bool, key: PipelineKey, settings: PipelineSettings },
}

/// At most one pipeline, kept with the key that it was built with.
#[derive(Debug)]
pub struct WarmPipeline {
    pub slot: Option<PipelineKey>,
}

impl Default for WarmPipeline {
    fn default() -> (r: WarmPipeline)
        ensures
            r.slot is None,
    {
        WarmPipeline { slot: None }
    }
}

/// The key of the pipeline that some settings ask for.
pub open spec fn key_of(o: Conversion) -> PipelineKey {
    PipelineKey {
        no_table_former: o.no_table_former,
        no_ocr: o.no_ocr,
        skip_ocr: o.skip_ocr,
        no_text_panels: o.no_text_panels,
        picture_classes: o.enrich_picture_classes,
        code: o.enrich_code,
        formula: o.enrich_formula,
    }
}

/// What a request sets on the pipeline is what its settings hold, also where
/// they hold nothing.
pub open spec fn sets(s: PipelineSettings, o: Conversion) -> bool {
    &&& s.pages == o.pages
    &&& text::opt_view(s.ocr_lang) == o.ocr_lang
    &&& s.force_full_page_ocr == o.force_full_page_ocr
    &&& text::opt_view(s.ocr_mode) == o.ocr_mode
    &&& s.ocr_scale == o.ocr_scale
    &&& s.heading_hierarchy == o.heading_hierarchy
}

/// Documents that go through the pipeline.
pub open spec fn through_pipeline(format: InputFormat) -> bool {
    format == InputFormat::Pdf || format == InputFormat::Image
}

impl WarmPipeline {
    /// Choose what converts a document. Where a pipeline is to be built the
    /// slot is empty until [`WarmPipeline::built`] fills it.
    pub fn convert(&mut self, format: InputFormat, opts: &ConversionOptions) -> (r: Route)
        ensures
            match r {
                Route::Converter => !through_pipeline(format) && final(self).slot == old(self).slot,
                Route::Pipeline { build, key, settings } => through_pipeline(format) && key
                    == key_of(opts@) && sets(settings, opts@) && build == (old(self).slot
                    != Some(key)) && final(self).slot == (if build {
                    None
                } else {
                    old(self).slot
                }),
            },
    {
        if !(format == InputFormat::Pdf || format == InputFormat::Image) {
            return Route::Converter;
        }
        let key = PipelineKey {
            no_table_former: opts.no_table_former,
            no_ocr: opts.no_ocr,
            skip_ocr: opts.skip_ocr,
            no_text_panels: opts.no_text_panels,
            picture_classes: opts.enrich_picture_classes,
            code: opts.enrich_code,
            formula: opts.enrich_formula,
        };
        let build = match self.slot {
            Some(old_key) => old_key != key,
            None => true,
        };
        if build {
            self.slot = None;
        }
        let settings = PipelineSettings {
            pages: opts.pages,
            ocr_lang: text::opt_clone(&opts.ocr_lang),
            force_full_page_ocr: opts.force_full_page_ocr,
            ocr_mode: text::opt_clone(&opts.ocr_mode),
            ocr_scale: opts.ocr_scale,
            heading_hierarchy: opts.heading_hierarchy,
        };
        Route::Pipeline { build, key, settings }
    }

    /// A pipeline was built with a key.
    pub fn built(&mut self, key: PipelineKey)
        ensures
            final(self).slot == Some(key),
    {
        self.slot = Some(key);
    }
}

/// Two requests with the same settings are converted with pipelines of the
/// same key and the same settings, whatever ran before either.
pub proof fn law_no_request_leaves_a_trace(o: Conversion, a: PipelineSettings, b: PipelineSettings)
    requires
        sets(a, o),
        sets(b, o),
    ensures
        a.pages == b.pages,
        text::opt_view(a.ocr_lang) == text::opt_view(b.ocr_lang),
        a.force_full_page_ocr == b.force_full_page_ocr,
        text::opt_view(a.ocr_mode) == text::opt_view(b.ocr_mode),
        a.ocr_scale == b.ocr_scale,
        a.heading_hierarchy == b.heading_hierarchy,
{
}

} // verus!
