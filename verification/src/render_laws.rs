//! What a recognised text looks like in the document, whatever stands around
//! it.

use vstd::prelude::*;

use crate::document;
use crate::document::NodeView;
use crate::engine::Outcome;
use crate::postprocess;
use crate::postprocess::{OutputMode, PostOptions};
use crate::postprocess_laws;
use crate::text;
use crate::text_laws;

verus! {

broadcast use vstd::string::group_string_axioms;

/// One line stands for another, with something before it: as it was, or
/// without the carriage return at its end.
pub open spec fn line_after(now: Seq<char>, mark: Seq<char>, was: Seq<char>) -> bool {
    now == mark + was || (was.len() > 0 && was[was.len() - 1] == '\r' && now == mark + was.take(
        was.len() - 1,
    ))
}

/// A text is the blockquote of another: as many lines, each with the mark of
/// a quote before it, and the mark alone where the line is blank.
pub open spec fn quotes(body: Seq<char>, q: Seq<char>) -> bool {
    &&& text::lines(q).len() == text::lines(body).len()
    &&& forall|i: int|
        0 <= i < text::lines(body).len() ==> if text::blank(#[trigger] text::lines(body)[i]) {
            text::lines(q)[i] == seq!['>']
        } else {
            line_after(text::lines(q)[i], seq!['>', ' '], text::lines(body)[i])
        }
}

/// Three backticks.
pub open spec fn ticks() -> Seq<char> {
    seq!['`', '`', '`']
}

/// A text can stand for another inside a fence: it is that text where no three
/// backticks are in it; else it has as many lines, each as it was or, where
/// three backticks would start it, one space further to the right.
pub open spec fn fences(body: Seq<char>, f: Seq<char>) -> bool {
    if !text::occurs(body, ticks()) {
        f == body
    } else {
        &&& text::lines(f).len() == text::lines(body).len()
        &&& forall|i: int|
            0 <= i < text::lines(body).len() ==> {
                let l = #[trigger] text::lines(body)[i];
                if text::starts_with(text::trim_start(l), ticks()) {
                    line_after(text::lines(f)[i], seq![' '], l)
                } else {
                    line_after(text::lines(f)[i], seq![], l)
                }
            }
    }
}

/// What a fence shows of an outcome: the layout where there is one that is not
/// blank, without the white space behind it, else the text.
pub open spec fn laid_out(o: Outcome, body: Seq<char>) -> bool {
    match o.grid {
        Some(g) if !text::blank(g) => text_laws::is_end_trimmed(g, body),
        _ => text_laws::is_trimmed(o.text, body),
    }
}

/// Nodes show a recognised text in a mode.
pub open spec fn renders(o: Outcome, mode: OutputMode, parts: Seq<NodeView>) -> bool {
    match mode {
        OutputMode::Text => {
            &&& parts.len() == 1
            &&& parts[0] matches NodeView::Paragraph { text } && text_laws::is_trimmed(
                o.text,
                text,
            )
        },
        OutputMode::Markers => {
            &&& parts.len() == 3
            &&& parts[0] matches NodeView::Paragraph { text } && text
                == "<!-- ocr:begin engine="@ + o.engine + " -->"@
            &&& parts[1] matches NodeView::Paragraph { text } && text_laws::is_trimmed(
                o.text,
                text,
            )
            &&& parts[2] matches NodeView::Paragraph { text } && text == "<!-- ocr:end -->"@
        },
        OutputMode::Quote => {
            &&& parts.len() == 1
            &&& parts[0] matches NodeView::Paragraph { text } && exists|body: Seq<char>|
                #[trigger] text_laws::is_trimmed(o.text, body) && quotes(body, text)
        },
        OutputMode::Fence => {
            &&& parts.len() == 1
            &&& parts[0] matches NodeView::Code { text } && exists|body: Seq<char>|
                #[trigger] laid_out(o, body) && fences(body, text)
        },
        OutputMode::Placeholder => false,
    }
}

proof fn lemma_quoted(body: Seq<char>)
    ensures
        quotes(body, postprocess::quoted(body)),
{
    reveal_strlit(">");
    reveal_strlit("> ");
    assert(">"@ =~= seq!['>']);
    assert("> "@ =~= seq!['>', ' ']);
    let f = |l: Seq<char>| postprocess::quoted_line(l);
    let ls = text::lines(body);
    let parts = ls.map_values(f);
    let q = postprocess::quoted(body);
    postprocess_laws::lemma_lines_are_single(body);
    assert forall|k: int| 0 <= k < parts.len() implies postprocess_laws::one_line(
        #[trigger] parts[k],
    ) by {
        assert(postprocess_laws::one_line(ls[k]));
        assert(parts[k] == postprocess::quoted_line(ls[k]));
    }
    if parts.len() > 0 {
        assert(parts.last() == postprocess::quoted_line(ls.last()));
    }
    postprocess_laws::lemma_joined_count(parts);
    assert forall|i: int| 0 <= i < ls.len() implies if text::blank(#[trigger] ls[i]) {
        text::lines(q)[i] == seq!['>']
    } else {
        line_after(text::lines(q)[i], seq!['>', ' '], ls[i])
    } by {
        postprocess_laws::lemma_lines_of_join(parts, i);
        assert(parts[i] == postprocess::quoted_line(ls[i]));
        if !text::blank(ls[i]) {
            lemma_line_after(text::lines(q)[i], seq!['>', ' '], ls[i]);
        }
    }
}

proof fn lemma_line_after(now: Seq<char>, mark: Seq<char>, was: Seq<char>)
    requires
        now == mark + was || now == text::drop_cr(mark + was),
        mark.len() > 0 ==> mark.last() != '\r',
    ensures
        line_after(now, mark, was),
{
    let whole = mark + was;
    if was.len() > 0 {
        assert(whole.last() == was.last());
        assert(whole.drop_last() =~= mark + was.take(was.len() - 1));
    } else {
        assert(whole =~= mark);
    }
}

/// A blockquote has the lines of its text, each with the mark before it.
pub proof fn law_quotes_keep_every_line(body: Seq<char>)
    ensures
        quotes(body, postprocess::quoted(body)),
{
    lemma_quoted(body);
}

proof fn lemma_defused(body: Seq<char>)
    requires
        text::lines(body).len() > 0 ==> text::lines(body).last().len() > 0,
    ensures
        fences(body, postprocess::defused(body)),
{
    reveal_strlit("```");
    reveal_strlit(" ");
    assert("```"@ =~= ticks());
    assert(" "@ =~= seq![' ']);
    let ls = text::lines(body);
    let f = postprocess::defused(body);
    if text::occurs(body, ticks()) {
        let parts = ls.map_values(|l: Seq<char>| postprocess::defused_line(l));
        if ls.len() > 0 {
            postprocess_laws::law_defused_text_keeps_its_lines(body, 0);
        } else {
            postprocess_laws::lemma_joined_count(parts);
        }
        assert forall|i: int| 0 <= i < ls.len() implies ({
            let l = #[trigger] ls[i];
            if text::starts_with(text::trim_start(l), ticks()) {
                line_after(text::lines(f)[i], seq![' '], l)
            } else {
                line_after(text::lines(f)[i], seq![], l)
            }
        }) by {
            postprocess_laws::law_defused_text_keeps_its_lines(body, i);
            let l = ls[i];
            if text::starts_with(text::trim_start(l), ticks()) {
                lemma_line_after(text::lines(f)[i], seq![' '], l);
            } else {
                assert(Seq::<char>::empty() + l =~= l);
                lemma_line_after(text::lines(f)[i], seq![], l);
            }
        }
    }
}

/// The last line of a text that does not end in white space is not empty.
proof fn lemma_last_line(s: Seq<char>)
    requires
        s.len() > 0 ==> !text::is_white(s[s.len() - 1]),
    ensures
        text::lines(s).len() > 0 ==> text::lines(s).last().len() > 0,
    decreases s.len(),
{
    if s.len() > 0 {
        text::lemma_index_of(s, '\n');
        let i = text::index_of(s, '\n');
        if i < s.len() {
            let rest = s.skip(i + 1);
            assert(i < s.len() - 1);
            assert(rest[rest.len() - 1] == s[s.len() - 1]);
            lemma_last_line(rest);
            assert(rest.len() > 0);
            assert(text::lines(rest).len() > 0);
            assert(text::lines(s).last() == text::lines(rest).last());
        }
    }
}

/// A text that was read is shown whole, in the mode that was chosen: as a
/// paragraph, between its markers, as a quote, or as a code block that keeps
/// the layout. Only a text that is blank shows nothing.
pub proof fn law_recognised_texts_are_shown(o: Outcome, opts: PostOptions)
    requires
        !text::blank(o.text),
        opts.mode != OutputMode::Placeholder,
    ensures
        postprocess::spliced(Some(o), opts) matches Some(parts) && renders(o, opts.mode, parts),
{
    text_laws::law_trimming(o.text);
    let shown = text::trim(o.text);
    let parts = postprocess::spliced(Some(o), opts)->0;
    match opts.mode {
        OutputMode::Quote => {
            lemma_quoted(shown);
            assert(text_laws::is_trimmed(o.text, shown) && quotes(
                shown,
                postprocess::quoted(shown),
            ));
        },
        OutputMode::Fence => {
            let body = postprocess::fence_body(o);
            if let Some(g) = o.grid {
                text_laws::law_trimming_the_end(g);
            }
            assert(laid_out(o, body));
            assert(body.len() > 0 ==> !text::is_white(body[body.len() - 1]));
            lemma_last_line(body);
            lemma_defused(body);
            assert(laid_out(o, body) && fences(body, postprocess::defused(body)));
        },
        _ => {},
    }
}

/// An image without text shows nothing, and one that no engine could read
/// stays as it is; so does every picture in the mode without OCR.
pub proof fn law_nothing_is_made_up(o: Outcome, opts: PostOptions)
    ensures
        postprocess::spliced(None, opts) is None,
        text::blank(o.text) && opts.keep_picture ==> postprocess::spliced(Some(o), opts) is None,
        text::blank(o.text) && !opts.keep_picture ==> (postprocess::spliced(
            Some(o),
            opts,
        ) matches Some(parts) && parts.len() == 0),
        !text::blank(o.text) && opts.mode == OutputMode::Placeholder ==> postprocess::spliced(
            Some(o),
            opts,
        ) is None,
{
}

/// A picture's caption as a node: none where it is blank, a linked caption
/// where it has a link, else a paragraph.
pub open spec fn captioned(caption: Option<Seq<char>>, href: Option<Seq<char>>, nodes: Seq<NodeView>) -> bool {
    match (caption, href) {
        (Some(c), Some(h)) if !text::blank(c) => nodes == seq![
            NodeView::Caption { text: c, href: h },
        ],
        (Some(c), None) if !text::blank(c) => nodes == seq![NodeView::Paragraph { text: c }],
        _ => nodes.len() == 0,
    }
}

/// Nodes stand in the wrappers of a picture, and inside them stand `inner`.
pub open spec fn wrapped_like(n: NodeView, nodes: Seq<NodeView>, inner: Seq<NodeView>) -> bool {
    &&& nodes.len() == inner.len()
    &&& forall|i: int|
        0 <= i < nodes.len() ==> document::wraps(#[trigger] nodes[i]) == document::wraps(n)
            && document::inside(nodes[i]) == inner[i]
}

/// What stands in the place of a picture that was read: the picture where it
/// is shown itself, else its caption; then the nodes that show its text.
pub open spec fn stands_for(n: NodeView, o: Outcome, opts: PostOptions, r: Seq<NodeView>) -> bool {
    exists|heads: Seq<NodeView>, parts: Seq<NodeView>|
        #![trigger stands_with(n, o, opts, r, heads, parts)]
        stands_with(n, o, opts, r, heads, parts)
}

/// The same, with the caption's nodes and those of the text.
pub open spec fn stands_with(
    n: NodeView,
    o: Outcome,
    opts: PostOptions,
    r: Seq<NodeView>,
    heads: Seq<NodeView>,
    parts: Seq<NodeView>,
) -> bool {
    &&& if text::blank(o.text) {
        parts.len() == 0
    } else {
        renders(o, opts.mode, parts)
    }
    &&& if opts.keep_picture {
        &&& heads.len() == 0
        &&& r.len() == 1 + parts.len()
        &&& r[0] == n
        &&& wrapped_like(n, r.skip(1), parts)
    } else {
        &&& document::inside(n) matches NodeView::Picture { caption, caption_href, .. }
            && captioned(caption, caption_href, heads)
        &&& wrapped_like(n, r, heads + parts)
    }
}

proof fn lemma_wrapped_like(n: NodeView, inner: Seq<NodeView>)
    requires
        forall|i: int|
            0 <= i < inner.len() ==> (#[trigger] inner[i] is Paragraph || inner[i] is Caption
                || inner[i] is Code),
    ensures
        wrapped_like(n, postprocess::all_rewrapped(document::wraps(n), inner), inner),
{
    let ws = document::wraps(n);
    let r = postprocess::all_rewrapped(ws, inner);
    assert forall|i: int| 0 <= i < r.len() implies document::wraps(#[trigger] r[i]) == ws
        && document::inside(r[i]) == inner[i] by {
        document::law_peel_undoes_rewrap(ws, inner[i]);
        assert(ws + document::wraps(inner[i]) =~= ws);
    }
}

/// A picture that was read is replaced by its text: all that stands in its
/// place is the picture or its caption, and then the text, in the picture's
/// wrappers.
pub proof fn law_pictures_give_way_to_their_text(n: NodeView, o: Outcome, opts: PostOptions)
    requires
        document::inside(n) is Picture,
        opts.mode != OutputMode::Placeholder,
    ensures
        stands_for(n, o, opts, postprocess::replacement(n, Some(o), opts)),
        postprocess::replacement(n, None, opts) == seq![n],
{
    let r = postprocess::replacement(n, Some(o), opts);
    let blank = text::blank(o.text);
    if !blank {
        law_recognised_texts_are_shown(o, opts);
    }
    let parts = if blank {
        Seq::<NodeView>::empty()
    } else {
        postprocess::spliced(Some(o), opts)->0
    };
    if opts.keep_picture {
        let heads = Seq::<NodeView>::empty();
        lemma_wrapped_like(n, parts);
        if blank {
            assert(r.skip(1) =~= Seq::<NodeView>::empty());
        } else {
            assert(r.skip(1) =~= postprocess::all_rewrapped(document::wraps(n), parts));
        }
        assert(stands_with(n, o, opts, r, heads, parts));
    } else if let NodeView::Picture { caption, caption_href, .. } = document::inside(n) {
        let heads = postprocess::caption_nodes(caption, caption_href);
        lemma_wrapped_like(n, heads + parts);
        assert(stands_with(n, o, opts, r, heads, parts));
    }
}

} // verus!
