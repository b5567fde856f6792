//! What the options of a conversion mean.

use vstd::prelude::*;

use crate::conversion;
use crate::conversion::{Conversion, PipelineSettings, WordView};
use crate::input::InputFormat;
use crate::text;
use crate::text_laws;

verus! {

broadcast use vstd::string::group_string_axioms;

/// A text with no white space around it is trimmed already; and a text with
/// white space around it is trimmed to the same.
pub proof fn lemma_trimmed(s: Seq<char>, inner: Seq<char>)
    requires
        text_laws::is_trimmed(s, inner),
    ensures
        text::trim(s) == inner,
{
    text_laws::law_trimming(s);
    text_laws::law_trimmed_texts_are_equal(s, text::trim(s), inner);
}

/// Digits are trimmed already and hold no hyphen.
pub proof fn lemma_decimal(n: nat)
    ensures
        text::trim(text::decimal(n)) == text::decimal(n),
        text::lacks(text::decimal(n), '-'),
{
    text_laws::law_numbers_are_read_as_written(n);
    let d = text::decimal(n);
    assert(text::is_digit(d[0]) && text::is_digit(d[d.len() - 1]));
    assert(d.subrange(0, d.len() as int) =~= d);
    assert(text_laws::surrounded_at(d, d, 0));
    lemma_trimmed(d, d);
    assert forall|i: int| 0 <= i < d.len() implies d[i] != '-' by {
        assert(text::is_digit(d[i]));
    }
}

/// A range of pages is read as it is written, with white space around its
/// numbers or without; a single page is a range too. Page 0 and an inverted
/// range are refused.
pub proof fn law_page_ranges_are_read(
    first: usize,
    last: usize,
    front: Seq<char>,
    back: Seq<char>,
)
    requires
        text_laws::is_trimmed(front, text::decimal(first as nat)),
        text_laws::is_trimmed(back, text::decimal(last as nat)),
    ensures
        ({
            let s = front + seq!['-'] + back;
            &&& 1 <= first <= last ==> conversion::page_range(s) == Ok::<_, Seq<char>>((first, last))
            &&& first == 0 || last < first ==> conversion::page_range(s) is Err
        }),
        first >= 1 ==> conversion::page_range(front) == Ok::<_, Seq<char>>((first, first)),
        first == 0 ==> conversion::page_range(front) is Err,
{
    let s = front + seq!['-'] + back;
    text_laws::law_numbers_are_read_as_written(first as nat);
    text_laws::law_numbers_are_read_as_written(last as nat);
    lemma_decimal(first as nat);
    lemma_trimmed(front, text::decimal(first as nat));
    lemma_trimmed(back, text::decimal(last as nat));
    let d = text::decimal(first as nat);
    let at = choose|at: int| text_laws::surrounded_at(front, d, at);
    assert forall|k: int| 0 <= k < front.len() implies front[k] != '-' by {
        if at <= k < at + d.len() {
            assert(front.subrange(at, at + d.len())[k - at] == d[k - at]);
        } else {
            assert(text::is_white(front[k]));
        }
    }
    let n = front.len() as int;
    assert forall|k: int| 0 <= k < n implies s[k] != '-' by {
        assert(s[k] == front[k]);
    }
    text::lemma_index_of_is(s, '-', n);
    text::lemma_index_of_is(front, '-', n);
    assert(s.take(n) =~= front);
    assert(s.skip(n + 1) =~= back);
    assert(front.take(n) =~= front);
    assert(text::unsigned(d, usize::MAX as nat) == Some(first as nat));
    assert(text::unsigned(text::decimal(last as nat), usize::MAX as nat) == Some(last as nat));
}

/// What is accepted as a range begins at page 1 or later and does not end
/// before it begins.
pub proof fn law_page_ranges_are_in_order(s: Seq<char>)
    ensures
        conversion::page_range(s) matches Ok((first, last)) ==> 1 <= first <= last,
{
}

/// A mode of page OCR is named in any case, with white space around it or
/// without, and nothing but the four names is a mode.
pub proof fn law_ocr_modes(value: Seq<char>, name: Seq<char>)
    requires
        text_laws::is_trimmed(value, name),
    ensures
        ({
            let low = text::lowercase(name);
            let known = low == "default"@ || low == "full_page"@ || low == "layout_regions"@ || low
                == "pdf_aware_layout_regions"@;
            &&& known ==> conversion::ocr_mode(value) == Ok::<_, Seq<char>>(low)
            &&& !known ==> conversion::ocr_mode(value) is Err
        }),
{
    lemma_trimmed(value, name);
}

/// A scale is accepted if it is a positive number that is finite: the bits of
/// a single-precision number above those of zero and below those of infinity.
pub proof fn law_ocr_scales(value: Seq<char>, number: Option<u32>)
    ensures
        conversion::ocr_scale(value, number) matches Ok(bits) ==> number == Some(bits) && 0 < bits
            < 0x7f80_0000,
        number matches Some(bits) && 0 < bits && bits < 0x7f80_0000 ==> conversion::ocr_scale(
            value,
            number,
        ) is Ok,
        number is None ==> conversion::ocr_scale(value, number) is Err,
{
}

/// A language tag counts by its primary subtag, whatever region or script
/// follows it.
pub proof fn law_only_the_primary_subtag_counts(tag: Seq<char>, rest: Seq<char>)
    requires
        text::lacks(tag, '-'),
        text::lacks(tag, '_'),
    ensures
        conversion::primary(tag) == tag,
        conversion::primary(tag + seq!['-'] + rest) == tag,
        conversion::primary(tag + seq!['_'] + rest) == tag,
{
    let n = tag.len() as int;
    let a = tag + seq!['-'] + rest;
    let b = tag + seq!['_'] + rest;
    text::lemma_index_of_is(tag, '-', n);
    text::lemma_index_of_is(tag, '_', n);
    assert forall|k: int| 0 <= k < n implies a[k] != '-' && a[k] != '_' && b[k] != '-' && b[k]
        != '_' by {
        assert(a[k] == tag[k] && b[k] == tag[k]);
    }
    text::lemma_index_of_is(a, '-', n);
    text::lemma_index_of_is(b, '_', n);
    text::lemma_index_of(a, '_');
    text::lemma_index_of(b, '-');
    let i = text::index_of(a, '_');
    let j = text::index_of(b, '-');
    assert(i >= n) by {
        if i < n {
            assert(a[i] == '_');
        }
    }
    assert(j > n) by {
        if j < n {
            assert(b[j] == '-');
        } else if j == n {
            assert(b[n] == '_');
            assert(n < b.len());
        }
    }
    assert(a.take(n) =~= tag);
    assert(b.take(n) =~= tag);
    assert(tag.take(n) =~= tag);
}

/// A language is English or Chinese by its primary subtag; any other is
/// refused.
pub proof fn law_languages(value: Seq<char>)
    ensures
        ({
            let p = conversion::primary(
                conversion::bare_tag(text::lowercase(text::trim(value))),
            );
            let english = p == "en"@ || p == "eng"@ || p == "english"@;
            let chinese = p == "ch"@ || p == "zh"@ || p == "zho"@ || p == "chi"@ || p == "cmn"@ || p
                == "chinese"@;
            &&& english ==> conversion::ocr_lang(value) == Ok::<_, Seq<char>>("en"@)
            &&& chinese && !english ==> conversion::ocr_lang(value) == Ok::<_, Seq<char>>("ch"@)
            &&& !english && !chinese ==> conversion::ocr_lang(value) is Err
        }),
{
}

/// A registry before a tag does not count.
pub proof fn law_registries_do_not_count(tag: Seq<char>)
    requires
        text_laws::bare(tag),
        !text::starts_with(tag, "iso:"@),
    ensures
        conversion::bare_tag(tag) == tag,
        conversion::bare_tag("iso:"@ + tag) == tag,
{
    reveal_strlit("iso:");
    let s = "iso:"@ + tag;
    assert(s.subrange(0, 4) =~= "iso:"@);
    assert(text::starts_with(s, "iso:"@)) by {
        assert(s.take(4) =~= "iso:"@);
    }
    assert(s.skip(4) =~= tag);
    assert(tag.subrange(0, tag.len() as int) =~= tag);
    assert(text_laws::surrounded_at(tag, tag, 0));
    lemma_trimmed(tag, tag);
}

/// Each option sets what it names and leaves all else; the four with a value
/// take the word that follows them.
pub proof fn law_each_option_sets_one_thing(o: Conversion, value: WordView)
    ensures
        conversion::flagged(o, "--skip-ocr"@, Some(value)) == Ok::<_, Seq<char>>(
            (Conversion { skip_ocr: true, ..o }, false),
        ),
        conversion::flagged(o, "--heading-hierarchy"@, Some(value)) == Ok::<_, Seq<char>>(
            (Conversion { heading_hierarchy: true, ..o }, false),
        ),
        conversion::flagged(o, "--encoding"@, Some(value)) == Ok::<_, Seq<char>>(
            (Conversion { encoding: Some(value.text), ..o }, true),
        ),
        conversion::flagged(o, "--page-break-placeholder"@, Some(value)) == Ok::<_, Seq<char>>(
            (Conversion { page_break_placeholder: Some(value.text), ..o }, true),
        ),
        conversion::ocr_mode(value.text) matches Ok(m) ==> conversion::flagged(
            o,
            "--ocr-mode"@,
            Some(value),
        ) == Ok::<_, Seq<char>>((Conversion { ocr_mode: Some(m), ..o }, true)),
        conversion::ocr_scale(value.text, value.scale) matches Ok(b) ==> conversion::flagged(
            o,
            "--ocr-scale"@,
            Some(value),
        ) == Ok::<_, Seq<char>>((Conversion { ocr_scale: Some(b), ..o }, true)),
{
    reveal_strlit("--skip-ocr");
    reveal_strlit("--heading-hierarchy");
    reveal_strlit("--encoding");
    reveal_strlit("--page-break-placeholder");
    reveal_strlit("--ocr-mode");
    reveal_strlit("--ocr-scale");
    assert("--skip-ocr"@.len() == 10 && "--ocr-mode"@.len() == 10 && "--encoding"@.len() == 10);
    assert("--skip-ocr"@[2] == 's' && "--ocr-mode"@[2] == 'o' && "--encoding"@[2] == 'e');
    assert("--heading-hierarchy"@.len() == 19 && "--ocr-scale"@.len() == 11
        && "--page-break-placeholder"@.len() == 24);
}

/// An option without the value that it needs, and one that is none, are
/// refused.
pub proof fn law_options_that_are_refused(o: Conversion, arg: Seq<char>)
    ensures
        conversion::flagged(o, arg, None) is Ok <==> arg == "--skip-ocr"@ || arg
            == "--heading-hierarchy"@,
{
    reveal_strlit("--skip-ocr");
    reveal_strlit("--heading-hierarchy");
    reveal_strlit("--encoding");
    reveal_strlit("--page-break-placeholder");
    reveal_strlit("--ocr-mode");
    reveal_strlit("--ocr-scale");
}

/// Two requests share a pipeline exactly when they ask for the same parts of
/// one.
pub proof fn law_pipelines_are_shared(a: Conversion, b: Conversion)
    ensures
        conversion::key_of(a) == conversion::key_of(b) <==> {
            &&& a.no_table_former == b.no_table_former
            &&& a.no_ocr == b.no_ocr
            &&& a.skip_ocr == b.skip_ocr
            &&& a.no_text_panels == b.no_text_panels
            &&& a.enrich_picture_classes == b.enrich_picture_classes
            &&& a.enrich_code == b.enrich_code
            &&& a.enrich_formula == b.enrich_formula
        },
        conversion::key_of(a).no_ocr == a.no_ocr,
        conversion::key_of(a).skip_ocr == a.skip_ocr,
        conversion::key_of(a).no_table_former == a.no_table_former,
        conversion::key_of(a).no_text_panels == a.no_text_panels,
        conversion::key_of(a).picture_classes == a.enrich_picture_classes,
        conversion::key_of(a).code == a.enrich_code,
        conversion::key_of(a).formula == a.enrich_formula,
{
}

/// What a request sets on the pipeline is what it asks for.
pub proof fn law_requests_set_what_they_ask_for(s: PipelineSettings, o: Conversion)
    requires
        conversion::sets(s, o),
    ensures
        s.pages == o.pages,
        text::opt_view(s.ocr_lang) == o.ocr_lang,
        s.force_full_page_ocr == o.force_full_page_ocr,
        text::opt_view(s.ocr_mode) == o.ocr_mode,
        s.ocr_scale == o.ocr_scale,
        s.heading_hierarchy == o.heading_hierarchy,
{
}

/// Nothing but a PDF or an image goes through the pipeline.
pub proof fn law_what_goes_through_the_pipeline(format: InputFormat)
    ensures
        conversion::through_pipeline(format) <==> format is Pdf || format is Image,
{
}

} // verus!
