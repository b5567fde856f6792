//! What the answers of a PaddleOCR server mean, and what the requests hold.

use vstd::prelude::*;

use crate::base64;
use crate::json;
use crate::json::JsonView;
use crate::paddle;
use crate::paddle::{PaddleVerdict, Schema, SpanView};
use crate::remote;
use crate::remote::Reply;
use crate::text;
use crate::text_laws;
use crate::vlm;

verus! {

broadcast use vstd::string::group_string_axioms;

/// A value is a number that is written like this.
pub open spec fn reads(v: JsonView, x: Seq<char>) -> bool {
    v matches JsonView::Number { text, .. } && text == x
}

/// A value is a list that begins with two numbers.
pub open spec fn is_pair(v: JsonView, x: Seq<char>, y: Seq<char>) -> bool {
    v matches JsonView::Array(s) && s.len() >= 2 && reads(s[0], x) && reads(s[1], y)
}

/// A value is a list of pairs, which are these points: first the horizontal
/// number, then the vertical one.
pub open spec fn is_outline(v: JsonView, points: Seq<(Seq<char>, Seq<char>)>) -> bool {
    v matches JsonView::Array(s) && s.len() == points.len() && forall|k: int|
        0 <= k < s.len() ==> is_pair(#[trigger] s[k], points[k].0, points[k].1)
}

/// A value is a list that begins with four numbers: left, top, right and
/// bottom.
pub open spec fn is_frame(v: JsonView, sides: Seq<Seq<char>>) -> bool {
    v matches JsonView::Array(s) && s.len() >= 4 && sides.len() == 4 && forall|k: int|
        0 <= k < 4 ==> reads(#[trigger] s[k], sides[k])
}

/// A value is there and is a list of these points.
pub open spec fn outlined(v: Option<JsonView>, points: Seq<(Seq<char>, Seq<char>)>) -> bool {
    v matches Some(r) && is_outline(r, points)
}

/// A list is there, and its item at a position is a list of these points.
pub open spec fn outlined_at(
    v: Option<JsonView>,
    n: int,
    points: Seq<(Seq<char>, Seq<char>)>,
) -> bool {
    v matches Some(JsonView::Array(s)) && n < s.len() && is_outline(s[n], points)
}

/// A list is there, and its item at a position begins with these sides.
pub open spec fn framed_at(v: Option<JsonView>, n: int, sides: Seq<Seq<char>>) -> bool {
    v matches Some(JsonView::Array(s)) && n < s.len() && is_frame(s[n], sides)
}

proof fn lemma_corner(v: JsonView, x: Seq<char>, y: Seq<char>)
    ensures
        paddle::corner(v) == Some((x, y)) <==> is_pair(v, x, y),
{
}

/// A polygon is read exactly from a list of pairs, point by point and each
/// with the horizontal number first.
pub proof fn law_polygons(v: JsonView, points: Seq<(Seq<char>, Seq<char>)>)
    ensures
        paddle::polygon(v) == Some(points) <==> is_outline(v, points),
    decreases points.len(),
{
    if let JsonView::Array(s) = v {
        lemma_corners(s, points);
    }
}

proof fn lemma_corners(s: Seq<JsonView>, points: Seq<(Seq<char>, Seq<char>)>)
    ensures
        paddle::corners(s) == Some(points) <==> is_outline(JsonView::Array(s), points),
    decreases s.len(),
{
    if s.len() == 0 {
        if points.len() == 0 {
            assert(points =~= Seq::empty());
        }
    } else {
        let front = s.drop_last();
        if points.len() > 0 {
            lemma_corners(front, points.drop_last());
            lemma_corner(s.last(), points.last().0, points.last().1);
            if paddle::corners(s) == Some(points) {
                let f = paddle::corners(front)->Some_0;
                let c = paddle::corner(s.last())->Some_0;
                assert(points == f.push(c));
                assert(points.drop_last() =~= f);
                assert(points.last() == c);
                assert forall|k: int| 0 <= k < s.len() implies is_pair(
                    #[trigger] s[k],
                    points[k].0,
                    points[k].1,
                ) by {
                    if k < front.len() {
                        assert(is_pair(front[k], points.drop_last()[k].0, points.drop_last()[k].1));
                    }
                }
            }
            if is_outline(JsonView::Array(s), points) {
                assert forall|k: int| 0 <= k < front.len() implies is_pair(
                    #[trigger] front[k],
                    points.drop_last()[k].0,
                    points.drop_last()[k].1,
                ) by {
                    assert(is_pair(s[k], points[k].0, points[k].1));
                }
                assert(is_pair(s[s.len() - 1], points[s.len() - 1].0, points[s.len() - 1].1));
                assert(paddle::corner(s.last()) == Some(points.last()));
                assert(points.drop_last().push(points.last()) =~= points);
            }
        } else {
            if paddle::corners(s) == Some(points) {
                let f = paddle::corners(front)->Some_0;
                let c = paddle::corner(s.last())->Some_0;
                assert(points == f.push(c));
                assert(f.push(c).len() > 0);
            }
        }
    }
}

/// A rectangle is read exactly from a list that begins with its four sides.
pub proof fn law_rectangles(v: JsonView, sides: Seq<Seq<char>>)
    ensures
        paddle::rect(v) == Some(sides) <==> is_frame(v, sides),
{
    if is_frame(v, sides) {
        let s = v->Array_0;
        assert(reads(s[0], sides[0]) && reads(s[1], sides[1]) && reads(s[2], sides[2]) && reads(
            s[3],
            sides[3],
        ));
        assert(sides =~= seq![sides[0], sides[1], sides[2], sides[3]]);
    }
}

/// An entry of a PaddleHub answer: a text and the points around it.
pub open spec fn is_hub_entry(
    v: JsonView,
    t: Seq<char>,
    points: Seq<(Seq<char>, Seq<char>)>,
) -> bool {
    &&& json::member(v, "text"@) == Some(JsonView::Text(t))
    &&& json::member(v, "text_region"@) matches Some(region) && is_outline(region, points)
}

/// An entry adds its text to the lines. If the text is not blank it adds a
/// place too: the text without the white space around it and, where they are
/// given, the points. An entry without a text adds nothing.
pub proof fn law_hub_entries(s: Seq<JsonView>, v: JsonView)
    ensures
        json::member(v, "text"@) matches Some(JsonView::Text(t)) ==> paddle::hub_lines(s.push(v))
            == paddle::hub_lines(s).push(t),
        json::member(v, "text"@) matches Some(JsonView::Text(t)) ==> if text::blank(t) {
            paddle::hub_spans(s.push(v)) == paddle::hub_spans(s)
        } else {
            let all = paddle::hub_spans(s.push(v));
            let span = all.last();
            &&& all == paddle::hub_spans(s).push(span)
            &&& text_laws::is_trimmed(t, span.text)
            &&& span.rect is None
            &&& forall|points: Seq<(Seq<char>, Seq<char>)>|
                span.polygon == Some(points) <==> #[trigger] outlined(
                    json::member(v, "text_region"@),
                    points,
                )
        },
        !(json::member(v, "text"@) matches Some(JsonView::Text(t))) ==> paddle::hub_lines(s.push(v))
            == paddle::hub_lines(s) && paddle::hub_spans(s.push(v)) == paddle::hub_spans(s),
        paddle::hub_lines(Seq::<JsonView>::empty()).len() == 0,
        paddle::hub_spans(Seq::<JsonView>::empty()).len() == 0,
{
    assert(s.push(v).drop_last() =~= s);
    if let Some(JsonView::Text(t)) = json::member(v, "text"@) {
        text_laws::law_trimming(t);
        let region = vlm::index(v, "text_region"@);
        assert forall|points: Seq<(Seq<char>, Seq<char>)>|
            paddle::polygon(region) == Some(points) <==> #[trigger] outlined(
                json::member(v, "text_region"@),
                points,
            ) by {
            law_polygons(region, points);
        }
        if !text::blank(t) {
            let span = SpanView {
                text: text::trim(t),
                polygon: paddle::polygon(region),
                rect: None,
            };
            assert(paddle::hub_spans(s.push(v)) == paddle::hub_spans(s).push(span));
            assert(paddle::hub_spans(s.push(v)).last() == span);
        }
    }
}

proof fn lemma_hub(
    s: Seq<JsonView>,
    texts: Seq<Seq<char>>,
    points: Seq<Seq<(Seq<char>, Seq<char>)>>,
)
    requires
        texts.len() == s.len(),
        points.len() == s.len(),
        forall|i: int|
            0 <= i < s.len() ==> is_hub_entry(#[trigger] s[i], texts[i], points[i])
                && !text::blank(texts[i]),
    ensures
        paddle::hub_lines(s) == texts,
        paddle::hub_spans(s).len() == s.len(),
        forall|i: int|
            0 <= i < s.len() ==> text_laws::is_trimmed(
                texts[i],
                (#[trigger] paddle::hub_spans(s)[i]).text,
            ) && paddle::hub_spans(s)[i].polygon == Some(points[i]) && paddle::hub_spans(
                s,
            )[i].rect is None,
    decreases s.len(),
{
    if s.len() == 0 {
        assert(paddle::hub_lines(s) =~= texts);
    } else {
        let n = s.len() - 1;
        let front = s.drop_last();
        assert forall|i: int| 0 <= i < front.len() implies is_hub_entry(
            #[trigger] front[i],
            texts.drop_last()[i],
            points.drop_last()[i],
        ) && !text::blank(texts.drop_last()[i]) by {
            assert(is_hub_entry(s[i], texts[i], points[i]));
        }
        lemma_hub(front, texts.drop_last(), points.drop_last());
        assert(is_hub_entry(s[n], texts[n], points[n]));
        law_hub_entries(front, s[n]);
        assert(front.push(s[n]) =~= s);
        assert(texts.drop_last().push(texts[n]) =~= texts);
        let all = paddle::hub_spans(s);
        let region = json::member(s[n], "text_region"@)->Some_0;
        assert(outlined(json::member(s[n], "text_region"@), points[n]));
        assert(all[n].polygon == Some(points[n]));
        assert forall|i: int| 0 <= i < s.len() implies text_laws::is_trimmed(
            texts[i],
            (#[trigger] all[i]).text,
        ) && all[i].polygon == Some(points[i]) && all[i].rect is None by {
            if i < n {
                assert(all[i] == paddle::hub_spans(front)[i]);
            }
        }
    }
}

/// A PaddleHub answer is read as the server means it: its texts are the lines,
/// and each has the points around it, with the horizontal numbers first.
pub proof fn law_hub_answers_are_read(
    v: JsonView,
    results: Seq<JsonView>,
    s: Seq<JsonView>,
    texts: Seq<Seq<char>>,
    points: Seq<Seq<(Seq<char>, Seq<char>)>>,
)
    requires
        json::member(v, "results"@) == Some(JsonView::Array(results)),
        results.len() > 0,
        results[0] == JsonView::Array(s),
        texts.len() == s.len(),
        points.len() == s.len(),
        forall|i: int|
            0 <= i < s.len() ==> is_hub_entry(#[trigger] s[i], texts[i], points[i])
                && !text::blank(texts[i]),
    ensures
        paddle::understood(v) matches Some(r) && r.lines == texts && r.spans.len() == s.len()
            && forall|i: int|
            0 <= i < s.len() ==> text_laws::is_trimmed(texts[i], (#[trigger] r.spans[i]).text)
                && r.spans[i].polygon == Some(points[i]) && r.spans[i].rect is None,
{
    lemma_hub(s, texts, points);
    assert(paddle::hub_items(v) == JsonView::Array(s));
}

/// The texts among some values, in their order; what is no text is left out.
pub proof fn law_strings(a: Seq<JsonView>, b: Seq<JsonView>, v: JsonView)
    ensures
        paddle::strings(a + b) == paddle::strings(a) + paddle::strings(b),
        v matches JsonView::Text(t) ==> paddle::strings(seq![v]) == seq![t],
        v !is Text ==> paddle::strings(seq![v]).len() == 0,
    decreases b.len(),
{
    reveal_with_fuel(paddle::strings, 2);
    assert(seq![v].drop_last() =~= Seq::empty());
    if b.len() == 0 {
        assert(a + b =~= a);
        assert(paddle::strings(a) + paddle::strings(b) =~= paddle::strings(a));
    } else {
        law_strings(a, b.drop_last(), v);
        assert((a + b).drop_last() =~= a + b.drop_last());
        assert((a + b).last() == b.last());
        assert(paddle::strings(a + b) =~= paddle::strings(a) + paddle::strings(b));
    }
}

proof fn lemma_strings_all(s: Seq<JsonView>, texts: Seq<Seq<char>>)
    requires
        s.len() == texts.len(),
        forall|i: int| 0 <= i < s.len() ==> #[trigger] s[i] == JsonView::Text(texts[i]),
    ensures
        paddle::strings(s) == texts,
    decreases s.len(),
{
    if s.len() == 0 {
        assert(texts =~= Seq::empty());
    } else {
        assert forall|i: int| 0 <= i < s.drop_last().len() implies #[trigger] s.drop_last()[i]
            == JsonView::Text(texts.drop_last()[i]) by {
            assert(s[i] == JsonView::Text(texts[i]));
        }
        lemma_strings_all(s.drop_last(), texts.drop_last());
        assert(s[s.len() - 1] == JsonView::Text(texts[s.len() - 1]));
        assert(texts.drop_last().push(texts.last()) =~= texts);
    }
}

/// A PaddleX result: texts, and for each of them the points around it and its
/// frame at the same position.
pub open spec fn is_px_result(
    v: JsonView,
    texts: Seq<Seq<char>>,
    points: Seq<Seq<(Seq<char>, Seq<char>)>>,
    sides: Seq<Seq<Seq<char>>>,
) -> bool {
    let pruned = json::member(v, "prunedResult"@)->Some_0;
    &&& json::member(v, "prunedResult"@) is Some
    &&& json::member(pruned, "rec_texts"@) matches Some(JsonView::Array(s)) && s.len()
        == texts.len() && forall|i: int|
        0 <= i < s.len() ==> #[trigger] s[i] == JsonView::Text(texts[i])
    &&& json::member(pruned, "rec_polys"@) matches Some(JsonView::Array(s)) && s.len()
        == texts.len() && points.len() == texts.len() && forall|i: int|
        0 <= i < s.len() ==> is_outline(#[trigger] s[i], points[i])
    &&& json::member(pruned, "rec_boxes"@) matches Some(JsonView::Array(s)) && s.len()
        == texts.len() && sides.len() == texts.len() && forall|i: int|
        0 <= i < s.len() ==> is_frame(#[trigger] s[i], sides[i])
}

/// What is read of one PaddleX result: its texts, and for each of them that is
/// not blank a place, where the points and the frame are found at the position
/// of the text.
pub proof fn law_px_texts(pruned: JsonView, texts: Seq<Seq<char>>, t: Seq<char>)
    ensures
        text::blank(t) ==> paddle::result_spans(pruned, texts.push(t)) == paddle::result_spans(
            pruned,
            texts,
        ),
        !text::blank(t) ==> {
            let all = paddle::result_spans(pruned, texts.push(t));
            let span = all.last();
            let n = texts.len() as int;
            &&& all == paddle::result_spans(pruned, texts).push(span)
            &&& text_laws::is_trimmed(t, span.text)
            &&& forall|points: Seq<(Seq<char>, Seq<char>)>|
                span.polygon == Some(points) <==> #[trigger] outlined_at(
                    json::member(pruned, "rec_polys"@),
                    n,
                    points,
                )
            &&& forall|sides: Seq<Seq<char>>|
                span.rect == Some(sides) <==> #[trigger] framed_at(
                    json::member(pruned, "rec_boxes"@),
                    n,
                    sides,
                )
        },
        paddle::result_spans(pruned, Seq::<Seq<char>>::empty()).len() == 0,
{
    assert(texts.push(t).drop_last() =~= texts);
    if !text::blank(t) {
        text_laws::law_trimming(t);
        let n = texts.len() as int;
        let p = vlm::index_at(vlm::index(pruned, "rec_polys"@), n);
        let b = vlm::index_at(vlm::index(pruned, "rec_boxes"@), n);
        let span = SpanView {
            text: text::trim(t),
            polygon: paddle::polygon(p),
            rect: paddle::rect(b),
        };
        assert(paddle::result_spans(pruned, texts.push(t)) == paddle::result_spans(
            pruned,
            texts,
        ).push(span));
        assert(paddle::result_spans(pruned, texts.push(t)).last() == span);
        assert forall|points: Seq<(Seq<char>, Seq<char>)>|
            span.polygon == Some(points) <==> #[trigger] outlined_at(
                json::member(pruned, "rec_polys"@),
                n,
                points,
            ) by {
            law_polygons(p, points);
        }
        assert forall|sides: Seq<Seq<char>>|
            span.rect == Some(sides) <==> #[trigger] framed_at(
                json::member(pruned, "rec_boxes"@),
                n,
                sides,
            ) by {
            law_rectangles(b, sides);
        }
    }
}

proof fn lemma_result(
    pruned: JsonView,
    texts: Seq<Seq<char>>,
    polys: Seq<JsonView>,
    boxes: Seq<JsonView>,
    points: Seq<Seq<(Seq<char>, Seq<char>)>>,
    sides: Seq<Seq<Seq<char>>>,
    n: int,
)
    requires
        0 <= n <= texts.len(),
        json::member(pruned, "rec_polys"@) == Some(JsonView::Array(polys)),
        json::member(pruned, "rec_boxes"@) == Some(JsonView::Array(boxes)),
        polys.len() == texts.len(),
        boxes.len() == texts.len(),
        points.len() == texts.len(),
        sides.len() == texts.len(),
        forall|i: int| 0 <= i < texts.len() ==> !text::blank(#[trigger] texts[i]),
        forall|i: int| 0 <= i < polys.len() ==> is_outline(#[trigger] polys[i], points[i]),
        forall|i: int| 0 <= i < boxes.len() ==> is_frame(#[trigger] boxes[i], sides[i]),
    ensures
        ({
            let spans = paddle::result_spans(pruned, texts.take(n));
            &&& spans.len() == n
            &&& forall|i: int|
                0 <= i < n ==> text_laws::is_trimmed(texts[i], (#[trigger] spans[i]).text)
                    && spans[i].polygon == Some(points[i]) && spans[i].rect == Some(sides[i])
        }),
    decreases n,
{
    if n == 0 {
        assert(texts.take(0) =~= Seq::empty());
    } else {
        lemma_result(pruned, texts, polys, boxes, points, sides, n - 1);
        law_px_texts(pruned, texts.take(n - 1), texts[n - 1]);
        assert(texts.take(n - 1).push(texts[n - 1]) =~= texts.take(n));
        assert(is_outline(polys[n - 1], points[n - 1]));
        assert(is_frame(boxes[n - 1], sides[n - 1]));
        assert(outlined_at(json::member(pruned, "rec_polys"@), n - 1, points[n - 1]));
        assert(framed_at(json::member(pruned, "rec_boxes"@), n - 1, sides[n - 1]));
        let spans = paddle::result_spans(pruned, texts.take(n));
        let before = paddle::result_spans(pruned, texts.take(n - 1));
        assert(spans[n - 1].polygon == Some(points[n - 1]));
        assert(spans[n - 1].rect == Some(sides[n - 1]));
        assert forall|i: int| 0 <= i < n implies text_laws::is_trimmed(
            texts[i],
            (#[trigger] spans[i]).text,
        ) && spans[i].polygon == Some(points[i]) && spans[i].rect == Some(sides[i]) by {
            if i < n - 1 {
                assert(spans[i] == before[i]);
            }
        }
    }
}

/// A PaddleX answer is read as the server means it: its texts are the lines,
/// and each has the points around it, with the horizontal numbers first, and
/// the sides of its frame in their order.
pub proof fn law_px_answers_are_read(
    v: JsonView,
    result: JsonView,
    r: JsonView,
    texts: Seq<Seq<char>>,
    points: Seq<Seq<(Seq<char>, Seq<char>)>>,
    sides: Seq<Seq<Seq<char>>>,
)
    requires
        json::member(v, "results"@) is None,
        json::member(v, "result"@) == Some(result),
        json::member(result, "ocrResults"@) == Some(JsonView::Array(seq![r])),
        is_px_result(r, texts, points, sides),
        forall|i: int| 0 <= i < texts.len() ==> !text::blank(#[trigger] texts[i]),
    ensures
        paddle::understood(v) matches Some(got) && got.lines == texts && got.spans.len()
            == texts.len() && forall|i: int|
            0 <= i < texts.len() ==> text_laws::is_trimmed(
                texts[i],
                (#[trigger] got.spans[i]).text,
            ) && got.spans[i].polygon == Some(points[i]) && got.spans[i].rect == Some(sides[i]),
{
    let pruned = json::member(r, "prunedResult"@)->Some_0;
    let list = json::member(pruned, "rec_texts"@)->Some_0->Array_0;
    let polys = json::member(pruned, "rec_polys"@)->Some_0->Array_0;
    let boxes = json::member(pruned, "rec_boxes"@)->Some_0->Array_0;
    lemma_strings_all(list, texts);
    lemma_result(pruned, texts, polys, boxes, points, sides, texts.len() as int);
    assert(texts.take(texts.len() as int) =~= texts);
    assert(paddle::hub_items(v) is Null);
    assert(paddle::px_items(v) == JsonView::Array(seq![r]));
    law_px_results(seq![], seq![r]);
    reveal_with_fuel(paddle::px_lines, 2);
    reveal_with_fuel(paddle::px_spans, 2);
    assert(seq![r].drop_last() =~= Seq::empty());
    assert(paddle::result_lines(r) == texts);
    assert(paddle::px_lines(seq![r]) =~= texts);
    assert(paddle::px_spans(seq![r]) =~= paddle::result_spans(pruned, texts));
}

/// The results of a PaddleX answer follow each other.
pub proof fn law_px_results(a: Seq<JsonView>, b: Seq<JsonView>)
    ensures
        paddle::px_lines(a + b) == paddle::px_lines(a) + paddle::px_lines(b),
        paddle::px_spans(a + b) == paddle::px_spans(a) + paddle::px_spans(b),
    decreases b.len(),
{
    if b.len() == 0 {
        assert(a + b =~= a);
        assert(paddle::px_lines(a) + paddle::px_lines(b) =~= paddle::px_lines(a));
        assert(paddle::px_spans(a) + paddle::px_spans(b) =~= paddle::px_spans(a));
    } else {
        law_px_results(a, b.drop_last());
        assert((a + b).drop_last() =~= a + b.drop_last());
        assert((a + b).last() == b.last());
        assert(paddle::px_lines(a + b) =~= paddle::px_lines(a) + paddle::px_lines(b));
        assert(paddle::px_spans(a + b) =~= paddle::px_spans(a) + paddle::px_spans(b));
    }
}

/// In an answer of no known shape every text counts that stands under `text`
/// or in a list under `rec_texts`, however deep, in the order of the answer,
/// and no other. Such an answer has no places; with no text in it it is not
/// understood.
pub proof fn law_texts_anywhere_count(
    a: Seq<JsonView>,
    b: Seq<JsonView>,
    m: Seq<(Seq<char>, JsonView)>,
    n: Seq<(Seq<char>, JsonView)>,
    name: Seq<char>,
    v: JsonView,
)
    ensures
        paddle::scavenged(JsonView::Array(a + b)) == paddle::scavenged(JsonView::Array(a))
            + paddle::scavenged(JsonView::Array(b)),
        paddle::scavenged(JsonView::Array(seq![v])) == paddle::scavenged(v),
        paddle::scavenged(JsonView::Object(m + n)) == paddle::scavenged(JsonView::Object(m))
            + paddle::scavenged(JsonView::Object(n)),
        v matches JsonView::Text(t) ==> paddle::scavenged(JsonView::Object(seq![("text"@, v)]))
            == seq![t],
        v matches JsonView::Array(s) ==> paddle::scavenged(
            JsonView::Object(seq![("rec_texts"@, v)]),
        ) == paddle::strings(s),
        (name != "text"@ || v !is Text) && (name != "rec_texts"@ || v !is Array)
            ==> paddle::scavenged(JsonView::Object(seq![(name, v)])) == paddle::scavenged(v),
        v !is Array && v !is Object ==> paddle::scavenged(v).len() == 0,
        paddle::hub_items(v) !is Array && paddle::px_items(v) !is Array ==> match paddle::understood(
            v,
        ) {
            Some(r) => r.lines == paddle::scavenged(v) && r.lines.len() > 0 && r.spans.len() == 0,
            None => paddle::scavenged(v).len() == 0,
        },
    decreases b.len() + n.len(),
{
    reveal_strlit("text");
    reveal_strlit("rec_texts");
    assert("text"@.len() != "rec_texts"@.len());
    reveal_with_fuel(paddle::scavenged_items, 2);
    reveal_with_fuel(paddle::scavenged_members, 2);
    assert(seq![v].drop_last() =~= Seq::empty());
    assert(paddle::scavenged_items(seq![v]) =~= paddle::scavenged(v));
    lemma_single("text"@, v);
    lemma_single("rec_texts"@, v);
    lemma_single(name, v);
    lemma_items_add(a, b);
    lemma_members_add(m, n);
}

proof fn lemma_single(name: Seq<char>, v: JsonView)
    ensures
        paddle::scavenged_members(seq![(name, v)]) == if name == "text"@ && v is Text {
            seq![v->Text_0]
        } else if name == "rec_texts"@ && v is Array {
            paddle::strings(v->Array_0)
        } else {
            paddle::scavenged(v)
        },
{
    reveal_with_fuel(paddle::scavenged_members, 2);
    let m = seq![(name, v)];
    assert(m.drop_last() =~= Seq::empty());
    assert(m.last() == (name, v));
    let found = if name == "text"@ && v is Text {
        seq![v->Text_0]
    } else if name == "rec_texts"@ && v is Array {
        paddle::strings(v->Array_0)
    } else {
        paddle::scavenged(v)
    };
    assert(paddle::scavenged_members(m) =~= found);
}

proof fn lemma_items_add(a: Seq<JsonView>, b: Seq<JsonView>)
    ensures
        paddle::scavenged_items(a + b) == paddle::scavenged_items(a) + paddle::scavenged_items(b),
    decreases b.len(),
{
    if b.len() == 0 {
        assert(a + b =~= a);
        assert(paddle::scavenged_items(a) + paddle::scavenged_items(b) =~= paddle::scavenged_items(
            a,
        ));
    } else {
        lemma_items_add(a, b.drop_last());
        assert((a + b).drop_last() =~= a + b.drop_last());
        assert((a + b).last() == b.last());
        assert(paddle::scavenged_items(a + b) =~= paddle::scavenged_items(a)
            + paddle::scavenged_items(b));
    }
}

proof fn lemma_members_add(a: Seq<(Seq<char>, JsonView)>, b: Seq<(Seq<char>, JsonView)>)
    ensures
        paddle::scavenged_members(a + b) == paddle::scavenged_members(a)
            + paddle::scavenged_members(b),
    decreases b.len(),
{
    if b.len() == 0 {
        assert(a + b =~= a);
        assert(paddle::scavenged_members(a) + paddle::scavenged_members(b)
            =~= paddle::scavenged_members(a));
    } else {
        lemma_members_add(a, b.drop_last());
        assert((a + b).drop_last() =~= a + b.drop_last());
        assert((a + b).last() == b.last());
        assert(paddle::scavenged_members(a + b) =~= paddle::scavenged_members(a)
            + paddle::scavenged_members(b));
    }
}

/// A request holds the image in base64: in a list under `images`, or as a file
/// of the type that is an image.
pub proof fn law_payloads_hold_the_image(image: Seq<u8>, hub_status: u16)
    ensures
        ({
            let hub = paddle::payload_json(Schema::Hub, image);
            let px = paddle::payload_json(Schema::PaddleX { hub_status }, image);
            let encoded = JsonView::Text(base64::base64(image));
            &&& json::member(hub, "images"@) matches Some(JsonView::Array(s)) && s.len() == 1
                && s[0] == encoded
            &&& json::member(px, "file"@) == Some(encoded)
            &&& json::member(px, "fileType"@) matches Some(n) && json::unsigned(n) == Some(1u64)
        }),
{
    reveal_strlit("file");
    reveal_strlit("fileType");
    reveal_with_fuel(json::member_of, 3);
    let encoded = JsonView::Text(base64::base64(image));
    let m = seq![("file"@, encoded), ("fileType"@, json::number(1))];
    assert(m[0] == ("file"@, encoded));
    assert(m.skip(1)[0] == ("fileType"@, json::number(1)));
    assert("file"@.len() != "fileType"@.len());
    let l = seq![("images"@, JsonView::Array(seq![encoded]))];
    assert(l[0] == ("images"@, JsonView::Array(seq![encoded])));
}

/// A request in the first form that is rejected as malformed is followed by
/// one in the other form; one in the other form that is rejected in a way that
/// does not pass makes the endpoint unusable, whatever the number of attempts.
/// All else goes as for any remote engine.
pub proof fn law_forms_are_tried_in_order(
    endpoint: Seq<char>,
    attempt: u32,
    max_retries: u32,
    reply: Reply,
    hub_status: u16,
)
    ensures
        reply matches Reply::Status { code, .. } && (code == 400 || code == 422)
            ==> paddle::negotiated(endpoint, Schema::Hub, attempt, max_retries, reply) == (
        PaddleVerdict::Switch { schema: Schema::PaddleX { hub_status: reply->code } }),
        !(reply matches Reply::Status { code, .. } && (code == 400 || code == 422))
            ==> paddle::negotiated(endpoint, Schema::Hub, attempt, max_retries, reply)
            == PaddleVerdict::Same(remote::verdict(endpoint, attempt, max_retries, reply)),
        reply matches Reply::Status { code, .. } && code != 200 && code != 408 && code != 429 && (
        code < 500 || code > 599) ==> (paddle::negotiated(
            endpoint,
            Schema::PaddleX { hub_status },
            attempt,
            max_retries,
            reply,
        ) matches PaddleVerdict::Same(remote::Verdict::Engine { message }) && endpoint.len()
            <= message.len() && message.take(endpoint.len() as int) == endpoint),
        !(reply matches Reply::Status { code, .. } && code != 200 && code != 408 && code != 429 && (
        code < 500 || code > 599)) ==> paddle::negotiated(
            endpoint,
            Schema::PaddleX { hub_status },
            attempt,
            max_retries,
            reply,
        ) == PaddleVerdict::Same(remote::verdict(endpoint, attempt, max_retries, reply)),
{
    if let Reply::Status { code, body } = reply {
        let message = paddle::rejected(endpoint, hub_status, code, body@);
        assert(message.take(endpoint.len() as int) =~= endpoint);
    }
}

} // verus!
