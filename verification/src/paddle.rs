//! The requests to a PaddleOCR server, and the reading of its answers.
//!
//! Servers of two generations are in use, PaddleHub and PaddleX, and their
//! requests and answers differ. The PaddleHub request is sent first; only when
//! the server rejects it as malformed is the PaddleX request sent. Reading is
//! tolerant: the known shapes first, then every text that stands anywhere.

use vstd::prelude::*;

use crate::base64;
use crate::engine::OcrFailure;
use crate::json;
use crate::json::{Json, JsonView};
use crate::remote;
use crate::remote::Reply;
use crate::text;
use crate::vlm;

verus! {

broadcast use vstd::string::group_string_axioms;

/// A recognised line and what the answer says of its place: the corners of a
/// polygon and the sides of a rectangle, each number as it is written.
#[derive(Debug)]
pub struct PaddleSpan {
    pub text: String,
    pub polygon: Option<Vec<(String, String)>>,
    pub rect: Option<Vec<String>>,
}

/// The contents of a [`PaddleSpan`].
#[verifier::ext_equal]
pub struct SpanView {
    pub text: Seq<char>,
    pub polygon: Option<Seq<(Seq<char>, Seq<char>)>>,
    pub rect: Option<Seq<Seq<char>>>,
}

/// The corners of a polygon.
pub open spec fn corners_view(v: Seq<(String, String)>) -> Seq<(Seq<char>, Seq<char>)> {
    v.map_values(|p: (String, String)| (p.0@, p.1@))
}

impl View for PaddleSpan {
    type V = SpanView;

    open spec fn view(&self) -> SpanView {
        SpanView {
            text: self.text@,
            polygon: match self.polygon {
                Some(p) => Some(corners_view(p@)),
                None => None,
            },
            rect: match self.rect {
                Some(r) => Some(text::string_views(r@)),
                None => None,
            },
        }
    }
}

/// The contents of a list of spans.
pub open spec fn span_views(s: Seq<PaddleSpan>) -> Seq<SpanView> {
    s.map_values(|x: PaddleSpan| x@)
}

/// What a server recognised: the lines as one text, and the place of each line
/// that is not blank. An answer of no known shape has no places.
#[derive(Debug)]
pub struct PaddleText {
    pub text: String,
    pub spans: Vec<PaddleSpan>,
}

/// The lines and places that were recognised.
pub struct Recognised {
    pub lines: Seq<Seq<char>>,
    pub spans: Seq<SpanView>,
}

/// A corner: two numbers.
pub open spec fn corner(v: JsonView) -> Option<(Seq<char>, Seq<char>)> {
    match (json::written(vlm::index_at(v, 0)), json::written(vlm::index_at(v, 1))) {
        (Some(x), Some(y)) => Some((x, y)),
        _ => None,
    }
}

/// The corners of a polygon, if each is one.
pub open spec fn corners(s: Seq<JsonView>) -> Option<Seq<(Seq<char>, Seq<char>)>>
    decreases s.len(),
{
    if s.len() == 0 {
        Some(seq![])
    } else {
        match (corners(s.drop_last()), corner(s.last())) {
            (Some(front), Some(c)) => Some(front.push(c)),
            _ => None,
        }
    }
}

/// The polygon that a value is.
pub open spec fn polygon(v: JsonView) -> Option<Seq<(Seq<char>, Seq<char>)>> {
    match v {
        JsonView::Array(s) => corners(s),
        _ => None,
    }
}

/// The rectangle that a value is: its first four items are numbers.
pub open spec fn rect(v: JsonView) -> Option<Seq<Seq<char>>> {
    match (
        json::written(vlm::index_at(v, 0)),
        json::written(vlm::index_at(v, 1)),
        json::written(vlm::index_at(v, 2)),
        json::written(vlm::index_at(v, 3)),
    ) {
        (Some(l), Some(t), Some(r), Some(b)) => Some(seq![l, t, r, b]),
        _ => None,
    }
}

/// The strings among some values.
pub open spec fn strings(s: Seq<JsonView>) -> Seq<Seq<char>>
    decreases s.len(),
{
    if s.len() == 0 {
        seq![]
    } else {
        match json::string(s.last()) {
            Some(x) => strings(s.drop_last()).push(x),
            None => strings(s.drop_last()),
        }
    }
}

/// The items of a value that is an array.
pub open spec fn items(v: JsonView) -> Seq<JsonView> {
    match v {
        JsonView::Array(s) => s,
        _ => seq![],
    }
}

/// The lines of a PaddleHub answer.
pub open spec fn hub_lines(s: Seq<JsonView>) -> Seq<Seq<char>>
    decreases s.len(),
{
    if s.len() == 0 {
        seq![]
    } else {
        match json::string(vlm::index(s.last(), "text"@)) {
            Some(x) => hub_lines(s.drop_last()).push(x),
            None => hub_lines(s.drop_last()),
        }
    }
}

/// The places of a PaddleHub answer.
pub open spec fn hub_spans(s: Seq<JsonView>) -> Seq<SpanView>
    decreases s.len(),
{
    if s.len() == 0 {
        seq![]
    } else {
        let front = hub_spans(s.drop_last());
        match json::string(vlm::index(s.last(), "text"@)) {
            Some(x) => if text::blank(x) {
                front
            } else {
                front.push(
                    SpanView {
                        text: text::trim(x),
                        polygon: polygon(vlm::index(s.last(), "text_region"@)),
                        rect: None,
                    },
                )
            },
            None => front,
        }
    }
}

/// The places of the first lines of one PaddleX result.
pub open spec fn result_spans(pruned: JsonView, texts: Seq<Seq<char>>) -> Seq<SpanView>
    decreases texts.len(),
{
    if texts.len() == 0 {
        seq![]
    } else {
        let i = texts.len() - 1;
        let front = result_spans(pruned, texts.drop_last());
        if text::blank(texts.last()) {
            front
        } else {
            front.push(
                SpanView {
                    text: text::trim(texts.last()),
                    polygon: polygon(vlm::index_at(vlm::index(pruned, "rec_polys"@), i)),
                    rect: rect(vlm::index_at(vlm::index(pruned, "rec_boxes"@), i)),
                },
            )
        }
    }
}

/// The lines of one PaddleX result.
pub open spec fn result_lines(r: JsonView) -> Seq<Seq<char>> {
    strings(items(vlm::index(vlm::index(r, "prunedResult"@), "rec_texts"@)))
}

/// The lines of a PaddleX answer.
pub open spec fn px_lines(s: Seq<JsonView>) -> Seq<Seq<char>>
    decreases s.len(),
{
    if s.len() == 0 {
        seq![]
    } else {
        px_lines(s.drop_last()) + result_lines(s.last())
    }
}

/// The places of a PaddleX answer.
pub open spec fn px_spans(s: Seq<JsonView>) -> Seq<SpanView>
    decreases s.len(),
{
    if s.len() == 0 {
        seq![]
    } else {
        px_spans(s.drop_last()) + result_spans(
            vlm::index(s.last(), "prunedResult"@),
            result_lines(s.last()),
        )
    }
}

/// Every string under `text` and in an array under `rec_texts`, anywhere in a
/// value.
pub open spec fn scavenged(v: JsonView) -> Seq<Seq<char>>
    decreases v,
{
    match v {
        JsonView::Array(s) => scavenged_items(s),
        JsonView::Object(m) => scavenged_members(m),
        _ => seq![],
    }
}

pub open spec fn scavenged_items(s: Seq<JsonView>) -> Seq<Seq<char>>
    decreases s,
{
    if s.len() == 0 {
        seq![]
    } else {
        scavenged_items(s.drop_last()) + scavenged(s.last())
    }
}

pub open spec fn scavenged_members(m: Seq<(Seq<char>, JsonView)>) -> Seq<Seq<char>>
    decreases m,
{
    if m.len() == 0 {
        seq![]
    } else {
        scavenged_members(m.drop_last()) + if m.last().0 == "text"@ && m.last().1 is Text {
            seq![m.last().1->Text_0]
        } else if m.last().0 == "rec_texts"@ && m.last().1 is Array {
            strings(m.last().1->Array_0)
        } else {
            scavenged(m.last().1)
        }
    }
}

/// The list of a PaddleHub answer.
pub open spec fn hub_items(v: JsonView) -> JsonView {
    vlm::index_at(vlm::index(v, "results"@), 0)
}

/// The list of a PaddleX answer.
pub open spec fn px_items(v: JsonView) -> JsonView {
    vlm::index(vlm::index(v, "result"@), "ocrResults"@)
}

/// What an answer says, in the first of the known shapes that it has, or as
/// the texts that stand anywhere in it. An empty list is an image without
/// text.
pub open spec fn understood(v: JsonView) -> Option<Recognised> {
    if hub_items(v) is Array {
        Some(
            Recognised {
                lines: hub_lines(items(hub_items(v))),
                spans: hub_spans(items(hub_items(v))),
            },
        )
    } else if px_items(v) is Array {
        Some(
            Recognised {
                lines: px_lines(items(px_items(v))),
                spans: px_spans(items(px_items(v))),
            },
        )
    } else if scavenged(v).len() > 0 {
        Some(Recognised { lines: scavenged(v), spans: seq![] })
    } else {
        None
    }
}

/// The start of a text.
pub open spec fn start(s: Seq<char>, n: int) -> Seq<char> {
    s.take(
        if s.len() <= n {
            s.len() as int
        } else {
            n
        },
    )
}

fn start_of(s: &str, n: usize) -> (r: Vec<char>)
    ensures
        r@ == start(s@, n as int),
{
    let v = text::chars_of(s);
    let k: usize = if v.len() <= n {
        v.len()
    } else {
        n
    };
    let r = text::to_vec(vstd::slice::slice_subrange(v.as_slice(), 0, k));
    assert(r@ =~= v@.take(k as int));
    r
}

fn number_at(v: &Json, i: usize) -> (r: Option<String>)
    requires
        json::well_formed(*v),
    ensures
        text::opt_view(r) == json::written(vlm::index_at(v@, i as int)),
{
    match v.at(i) {
        Some(x) => x.number_text(),
        None => None,
    }
}

fn polygon_of(v: &Json) -> (r: Option<Vec<(String, String)>>)
    requires
        json::well_formed(*v),
    ensures
        match r {
            Some(p) => polygon(v@) == Some(corners_view(p@)),
            None => polygon(v@) is None,
        },
{
    let a = match v {
        Json::Array(a) => a,
        Json::Number(n) => {
            assert(json::value_view(*n) is Number);
            return None;
        },
        _ => return None,
    };
    let ghost s = json::list_view(a@);
    let mut out: Vec<(String, String)> = Vec::new();
    let mut i: usize = 0;
    assert(s.take(0) =~= Seq::empty());
    assert(corners_view(out@) =~= Seq::empty());
    while i < a.len()
        invariant
            i <= a@.len(),
            v@ == JsonView::Array(s),
            s == json::list_view(a@),
            json::all_well_formed(a@),
            corners(s.take(i as int)) == Some(corners_view(out@)),
        decreases a@.len() - i,
    {
        assert(json::well_formed(a@[i as int]));
        assert(s[i as int] == a@[i as int]@);
        proof {
            assert(s.take(i + 1).drop_last() =~= s.take(i as int));
            assert(s.take(i + 1).last() == s[i as int]);
        }
        match (number_at(&a[i], 0), number_at(&a[i], 1)) {
            (Some(x), Some(y)) => {
                let ghost before = corners_view(out@);
                let ghost c = (x@, y@);
                out.push((x, y));
                assert(corners_view(out@) =~= before.push(c));
            },
            _ => {
                proof {
                    lemma_corners_none(s, i + 1);
                }
                return None;
            },
        }
        i += 1;
    }
    assert(s.take(i as int) =~= s);
    Some(out)
}

/// Corners of which some are none are no polygon.
proof fn lemma_corners_none(s: Seq<JsonView>, i: int)
    requires
        0 <= i <= s.len(),
        corners(s.take(i)) is None,
    ensures
        corners(s) is None,
    decreases s.len(),
{
    if i < s.len() {
        assert(s.drop_last().take(i) =~= s.take(i));
        lemma_corners_none(s.drop_last(), i);
    } else {
        assert(s.take(i) =~= s);
    }
}

fn rect_of(v: &Json) -> (r: Option<Vec<String>>)
    requires
        json::well_formed(*v),
    ensures
        match r {
            Some(p) => rect(v@) == Some(text::string_views(p@)),
            None => rect(v@) is None,
        },
{
    match (number_at(v, 0), number_at(v, 1), number_at(v, 2), number_at(v, 3)) {
        (Some(l), Some(t), Some(r), Some(b)) => {
            let ghost want = seq![l@, t@, r@, b@];
            let mut out: Vec<String> = Vec::new();
            out.push(l);
            out.push(t);
            out.push(r);
            out.push(b);
            assert(text::string_views(out@) =~= want);
            Some(out)
        },
        _ => None,
    }
}

fn strings_of(a: &Vec<Json>) -> (r: Vec<Vec<char>>)
    requires
        json::all_well_formed(a@),
    ensures
        text::views(r@) == strings(json::list_view(a@)),
{
    let ghost s = json::list_view(a@);
    let mut out: Vec<Vec<char>> = Vec::new();
    let mut i: usize = 0;
    assert(s.take(0) =~= Seq::empty());
    assert(text::views(out@) =~= Seq::empty());
    while i < a.len()
        invariant
            i <= a@.len(),
            s == json::list_view(a@),
            json::all_well_formed(a@),
            text::views(out@) == strings(s.take(i as int)),
        decreases a@.len() - i,
    {
        assert(json::well_formed(a@[i as int]));
        proof {
            assert(s.take(i + 1).drop_last() =~= s.take(i as int));
            assert(s.take(i + 1).last() == a@[i as int]@);
        }
        if let Some(x) = a[i].as_str() {
            let ghost before = text::views(out@);
            out.push(text::chars_of(x));
            assert(text::views(out@) =~= before.push(x@));
        }
        i += 1;
    }
    assert(s.take(i as int) =~= s);
    out
}

fn append_all(out: &mut Vec<Vec<char>>, more: Vec<Vec<char>>)
    ensures
        text::views(final(out)@) == text::views(old(out)@) + text::views(more@),
{
    let mut more = more;
    let ghost a = out@;
    let ghost b = more@;
    out.append(&mut more);
    assert(text::views(out@) =~= text::views(a) + text::views(b));
}

fn read_hub(a: &Vec<Json>) -> (r: (Vec<Vec<char>>, Vec<PaddleSpan>))
    requires
        json::all_well_formed(a@),
    ensures
        text::views(r.0@) == hub_lines(json::list_view(a@)),
        span_views(r.1@) == hub_spans(json::list_view(a@)),
{
    let ghost s = json::list_view(a@);
    let mut lines: Vec<Vec<char>> = Vec::new();
    let mut spans: Vec<PaddleSpan> = Vec::new();
    let mut i: usize = 0;
    assert(s.take(0) =~= Seq::empty());
    assert(text::views(lines@) =~= Seq::empty());
    assert(span_views(spans@) =~= Seq::empty());
    while i < a.len()
        invariant
            i <= a@.len(),
            s == json::list_view(a@),
            json::all_well_formed(a@),
            text::views(lines@) == hub_lines(s.take(i as int)),
            span_views(spans@) == hub_spans(s.take(i as int)),
        decreases a@.len() - i,
    {
        assert(json::well_formed(a@[i as int]));
        proof {
            assert(s.take(i + 1).drop_last() =~= s.take(i as int));
            assert(s.take(i + 1).last() == a@[i as int]@);
        }
        let item = &a[i];
        let found = match item.get("text") {
            Some(t) => t.as_str(),
            None => None,
        };
        if let Some(x) = found {
            let ghost before = text::views(lines@);
            let chars = text::chars_of(x);
            if !text::is_blank(&chars) {
                let polygon = match item.get("text_region") {
                    Some(p) => polygon_of(p),
                    None => None,
                };
                let span = PaddleSpan {
                    text: text::string_of(text::trimmed(&chars)),
                    polygon,
                    rect: None,
                };
                let ghost was = span_views(spans@);
                spans.push(span);
                assert(span_views(spans@) =~= was.push(span@));
            }
            lines.push(chars);
            assert(text::views(lines@) =~= before.push(x@));
        }
        i += 1;
    }
    assert(s.take(i as int) =~= s);
    (lines, spans)
}

fn read_result(pruned: &Json, texts: &Vec<Vec<char>>, spans: &mut Vec<PaddleSpan>)
    requires
        json::well_formed(*pruned),
    ensures
        span_views(final(spans)@) == span_views(old(spans)@) + result_spans(
            pruned@,
            text::views(texts@),
        ),
{
    let ghost all = text::views(texts@);
    let ghost start = span_views(spans@);
    let mut i: usize = 0;
    assert(all.take(0) =~= Seq::empty());
    assert(start + Seq::<SpanView>::empty() =~= start);
    while i < texts.len()
        invariant
            i <= texts@.len(),
            all == text::views(texts@),
            json::well_formed(*pruned),
            span_views(spans@) == start + result_spans(pruned@, all.take(i as int)),
        decreases texts@.len() - i,
    {
        let ghost before = result_spans(pruned@, all.take(i as int));
        proof {
            assert(all.take(i + 1).drop_last() =~= all.take(i as int));
            assert(all.take(i + 1).last() == texts@[i as int]@);
        }
        if !text::is_blank(&texts[i]) {
            let polygon = match pruned.get("rec_polys") {
                Some(p) => match p.at(i) {
                    Some(x) => polygon_of(x),
                    None => None,
                },
                None => None,
            };
            let rect = match pruned.get("rec_boxes") {
                Some(p) => match p.at(i) {
                    Some(x) => rect_of(x),
                    None => None,
                },
                None => None,
            };
            let span = PaddleSpan {
                text: text::string_of(text::trimmed(&texts[i])),
                polygon,
                rect,
            };
            let ghost was = span_views(spans@);
            spans.push(span);
            assert(span_views(spans@) =~= was.push(span@));
            assert(start + before.push(span@) =~= (start + before).push(span@));
        }
        i += 1;
    }
    assert(all.take(i as int) =~= all);
}

fn read_px(a: &Vec<Json>) -> (r: (Vec<Vec<char>>, Vec<PaddleSpan>))
    requires
        json::all_well_formed(a@),
    ensures
        text::views(r.0@) == px_lines(json::list_view(a@)),
        span_views(r.1@) == px_spans(json::list_view(a@)),
{
    let ghost s = json::list_view(a@);
    let mut lines: Vec<Vec<char>> = Vec::new();
    let mut spans: Vec<PaddleSpan> = Vec::new();
    let mut i: usize = 0;
    assert(s.take(0) =~= Seq::empty());
    assert(text::views(lines@) =~= Seq::empty());
    assert(span_views(spans@) =~= Seq::empty());
    while i < a.len()
        invariant
            i <= a@.len(),
            s == json::list_view(a@),
            json::all_well_formed(a@),
            text::views(lines@) == px_lines(s.take(i as int)),
            span_views(spans@) == px_spans(s.take(i as int)),
        decreases a@.len() - i,
    {
        assert(json::well_formed(a@[i as int]));
        proof {
            assert(s.take(i + 1).drop_last() =~= s.take(i as int));
            assert(s.take(i + 1).last() == a@[i as int]@);
        }
        let ghost before_lines = text::views(lines@);
        let ghost before_spans = span_views(spans@);
        let mut texts: Vec<Vec<char>> = Vec::new();
        assert(text::views(texts@) =~= Seq::empty());
        if let Some(pruned) = a[i].get("prunedResult") {
            if let Some(list) = pruned.get("rec_texts") {
                match list {
                    Json::Array(t) => {
                        texts = strings_of(t);
                    },
                    Json::Number(n) => {
                        assert(json::value_view(*n) is Number);
                    },
                    _ => {},
                }
            }
            read_result(pruned, &texts, &mut spans);
        } else {
            assert(before_spans + Seq::<SpanView>::empty() =~= before_spans);
        }
        append_all(&mut lines, texts);
        i += 1;
    }
    assert(s.take(i as int) =~= s);
    (lines, spans)
}

fn scavenge(v: &Json) -> (r: Vec<Vec<char>>)
    requires
        json::well_formed(*v),
    ensures
        text::views(r@) == scavenged(v@),
    decreases v@, 0int,
{
    let mut out: Vec<Vec<char>> = Vec::new();
    assert(text::views(out@) =~= Seq::empty());
    match v {
        Json::Array(a) => {
            let ghost s = json::list_view(a@);
            let mut i: usize = 0;
            assert(s.take(0) =~= Seq::empty());
            while i < a.len()
                invariant
                    i <= a@.len(),
                    v@ == JsonView::Array(s),
                    s == json::list_view(a@),
                    json::all_well_formed(a@),
                    text::views(out@) == scavenged_items(s.take(i as int)),
                decreases a@.len() - i,
            {
                assert(json::well_formed(a@[i as int]));
                proof {
                    json::lemma_item_smaller(v@, s, i as int);
                    assert(s.take(i + 1).drop_last() =~= s.take(i as int));
                    assert(s.take(i + 1).last() == a@[i as int]@);
                }
                let more = scavenge(&a[i]);
                append_all(&mut out, more);
                i += 1;
            }
            assert(s.take(i as int) =~= s);
        },
        Json::Object(m) => {
            let ghost s = json::members_view(m@);
            let mut i: usize = 0;
            assert(s.take(0) =~= Seq::empty());
            while i < m.len()
                invariant
                    i <= m@.len(),
                    v@ == JsonView::Object(s),
                    s == json::members_view(m@),
                    json::members_well_formed(m@),
                    text::views(out@) == scavenged_members(s.take(i as int)),
                decreases m@.len() - i,
            {
                assert(json::well_formed(m@[i as int].1));
                proof {
                    json::lemma_member_smaller(v@, s, i as int);
                    assert(s.take(i + 1).drop_last() =~= s.take(i as int));
                    assert(s.take(i + 1).last() == (m@[i as int].0@, m@[i as int].1@));
                }
                let more = scavenge_member(&m[i].0, &m[i].1);
                append_all(&mut out, more);
                i += 1;
            }
            assert(s.take(i as int) =~= s);
        },
        Json::Number(n) => {
            assert(json::value_view(*n) is Number);
        },
        _ => {},
    }
    out
}

fn scavenge_member(name: &str, v: &Json) -> (r: Vec<Vec<char>>)
    requires
        json::well_formed(*v),
    ensures
        text::views(r@) == (if name@ == "text"@ && v@ is Text {
            seq![v@->Text_0]
        } else if name@ == "rec_texts"@ && v@ is Array {
            strings(v@->Array_0)
        } else {
            scavenged(v@)
        }),
    decreases v@, 1int,
{
    match v {
        Json::Text(s) => {
            let mut out: Vec<Vec<char>> = Vec::new();
            if text::same(name, "text") {
                out.push(text::chars_of(s));
                assert(text::views(out@) =~= seq![s@]);
            } else {
                assert(text::views(out@) =~= Seq::empty());
            }
            out
        },
        Json::Array(a) => {
            if text::same(name, "rec_texts") {
                strings_of(a)
            } else {
                scavenge(v)
            }
        },
        Json::Number(n) => {
            assert(json::value_view(*n) is Number);
            scavenge(v)
        },
        _ => scavenge(v),
    }
}

/// What an answer's JSON says, or that it says nothing.
pub fn read_answer(v: &Json) -> (r: Option<PaddleText>)
    requires
        json::well_formed(*v),
    ensures
        match understood(v@) {
            Some(want) => r matches Some(got) && got.text@ == text::join(want.lines, "\n"@)
                && span_views(got.spans@) == want.spans,
            None => r is None,
        },
{
    if let Some(results) = v.get("results") {
        if let Some(first) = results.at(0) {
            match first {
                Json::Array(a) => {
                    let (lines, spans) = read_hub(a);
                    let text = text::string_of(&text::joined(&lines, "\n"));
                    return Some(PaddleText { text, spans });
                },
                Json::Number(n) => {
                    assert(json::value_view(*n) is Number);
                },
                _ => {},
            }
        }
    }
    assert(!(hub_items(v@) is Array));
    if let Some(result) = v.get("result") {
        if let Some(list) = result.get("ocrResults") {
            match list {
                Json::Array(a) => {
                    let (lines, spans) = read_px(a);
                    let text = text::string_of(&text::joined(&lines, "\n"));
                    return Some(PaddleText { text, spans });
                },
                Json::Number(n) => {
                    assert(json::value_view(*n) is Number);
                },
                _ => {},
            }
        }
    }
    assert(!(px_items(v@) is Array));
    let lines = scavenge(v);
    assert(text::views(lines@).len() == lines@.len());
    if lines.len() == 0 {
        return None;
    }
    let spans: Vec<PaddleSpan> = Vec::new();
    assert(span_views(spans@) =~= Seq::empty());
    let text = text::string_of(&text::joined(&lines, "\n"));
    Some(PaddleText { text, spans })
}

/// Read an answer, or say why that cannot be done.
pub fn parse_paddle_response(body: &str) -> (r: Result<PaddleText, String>)
    ensures
        match json::json_parse(body@) {
            Ok(v) => match understood(v) {
                Some(want) => r matches Ok(got) && got.text@ == text::join(want.lines, "\n"@)
                    && span_views(got.spans@) == want.spans,
                None => r matches Err(e) && e@ == "unrecognized response shape: "@ + start(
                    body@,
                    200,
                ),
            },
            Err(m) => r matches Err(e) && e@ == "malformed JSON response: "@ + m,
        },
{
    match json::parse(body) {
        Ok(v) => match read_answer(&v) {
            Some(t) => Ok(t),
            None => {
                let mut e = text::chars_of("unrecognized response shape: ");
                text::append(&mut e, &start_of(body, 200));
                Err(text::string_of(&e))
            },
        },
        Err(m) => {
            let mut e = text::chars_of("malformed JSON response: ");
            text::append_str(&mut e, &m);
            Err(text::string_of(&e))
        },
    }
}

/// A text is laid out by place only where each of its lines has one, and
/// there is a line.
pub fn has_layout(placed: &[bool]) -> (r: bool)
    ensures
        r == (placed@.len() > 0 && forall|i: int| 0 <= i < placed@.len() ==> placed@[i]),
{
    let mut i: usize = 0;
    while i < placed.len()
        invariant
            i <= placed@.len(),
            forall|k: int| 0 <= k < i ==> placed@[k],
        decreases placed@.len() - i,
    {
        if !placed[i] {
            return false;
        }
        i += 1;
    }
    placed.len() > 0
}

/// Which request a server is sent.
#[derive(Debug, Clone, Copy, PartialEq, Eq, Structural)]
pub enum Schema {
    /// The PaddleHub request.
    Hub,
    /// The PaddleX request, after the PaddleHub request came back with this
    /// status.
    PaddleX { hub_status: u16 },
}

/// The request for an image.
pub open spec fn payload_json(schema: Schema, image: Seq<u8>) -> JsonView {
    match schema {
        Schema::Hub => vlm::one(
            "images"@,
            JsonView::Array(seq![JsonView::Text(base64::base64(image))]),
        ),
        Schema::PaddleX { .. } => vlm::two(
            "file"@,
            JsonView::Text(base64::base64(image)),
            "fileType"@,
            json::number(1),
        ),
    }
}

/// What is to be done after a reply.
#[derive(Debug)]
pub enum PaddleNext {
    /// This is the body of the answer.
    Done { body: String },
    /// The engine call has failed.
    Fail { failure: OcrFailure },
    /// Wait, then send the request again.
    Again { attempt: u32, delay_secs: u64 },
    /// Send the other request.
    Switch { schema: Schema },
}

/// The contents of a [`PaddleNext`].
pub enum PaddleVerdict {
    Same(remote::Verdict),
    Switch { schema: Schema },
}

impl View for PaddleNext {
    type V = PaddleVerdict;

    open spec fn view(&self) -> PaddleVerdict {
        match self {
            PaddleNext::Done { body } => PaddleVerdict::Same(
                remote::Verdict::Done { body: body@ },
            ),
            PaddleNext::Fail { failure } => PaddleVerdict::Same(
                match failure {
                    OcrFailure::Engine(m) => remote::Verdict::Engine { message: m@ },
                    OcrFailure::Image(m) => remote::Verdict::Image { message: m@ },
                    OcrFailure::Transient(m) => remote::Verdict::Transient { message: m@ },
                },
            ),
            PaddleNext::Again { attempt, delay_secs } => PaddleVerdict::Same(
                remote::Verdict::Again { attempt: *attempt, delay_secs: *delay_secs },
            ),
            PaddleNext::Switch { schema } => PaddleVerdict::Switch { schema: *schema },
        }
    }
}

/// The message when both requests were rejected.
pub open spec fn rejected(endpoint: Seq<char>, hub: u16, px: u16, body: Seq<char>) -> Seq<char> {
    endpoint + ": HTTP "@ + text::decimal(hub as nat) + " (hub shape) / HTTP "@ + text::decimal(
        px as nat,
    ) + " (paddlex shape): "@ + start(body, 200)
}

/// What follows from the reply to an attempt: as for any remote engine, but
/// the PaddleHub request that is rejected with 400 or 422 is followed by the
/// PaddleX request, and a rejection of that one too means that the endpoint is
/// not usable.
pub open spec fn negotiated(
    endpoint: Seq<char>,
    schema: Schema,
    attempt: u32,
    max_retries: u32,
    reply: Reply,
) -> PaddleVerdict {
    match (schema, reply) {
        (Schema::Hub, Reply::Status { code, .. }) if code == 400 || code == 422 => {
            PaddleVerdict::Switch { schema: Schema::PaddleX { hub_status: code } }
        },
        (Schema::PaddleX { hub_status }, Reply::Status { code, body }) if code != 200
            && !remote::transient(code) => {
            PaddleVerdict::Same(
                remote::Verdict::Engine { message: rejected(endpoint, hub_status, code, body@) },
            )
        },
        _ => PaddleVerdict::Same(remote::verdict(endpoint, attempt, max_retries, reply)),
    }
}

/// Decide what follows from the reply to an attempt; the first with a request
/// is number 0.
pub fn negotiate(
    endpoint: &str,
    schema: Schema,
    attempt: u32,
    max_retries: u32,
    reply: Reply,
) -> (r: PaddleNext)
    ensures
        r@ == negotiated(endpoint@, schema, attempt, max_retries, reply),
{
    if let Reply::Status { code, body } = &reply {
        let code: u16 = *code;
        match schema {
            Schema::Hub => {
                if code == 400 || code == 422 {
                    return PaddleNext::Switch { schema: Schema::PaddleX { hub_status: code } };
                }
            },
            Schema::PaddleX { hub_status } => {
                let passing = code == 408 || code == 429 || (500 <= code && code <= 599);
                if code != 200 && !passing {
                    let mut v = text::chars_of(endpoint);
                    text::append_str(&mut v, ": HTTP ");
                    text::append(&mut v, &text::decimal_of(hub_status as u64));
                    text::append_str(&mut v, " (hub shape) / HTTP ");
                    text::append(&mut v, &text::decimal_of(code as u64));
                    text::append_str(&mut v, " (paddlex shape): ");
                    text::append(&mut v, &start_of(body, 200));
                    return PaddleNext::Fail { failure: OcrFailure::Engine(text::string_of(&v)) };
                }
            },
        }
    }
    match remote::retry(endpoint, attempt, max_retries, reply) {
        remote::Next::Done { body } => PaddleNext::Done { body },
        remote::Next::Fail { failure } => PaddleNext::Fail { failure },
        remote::Next::Again { attempt, delay_secs } => PaddleNext::Again { attempt, delay_secs },
    }
}

/// The other request is sent only after the first came back as malformed: not
/// after a rejected login, a missing endpoint or any failure that may pass.
pub proof fn law_schema_changes_only_when_malformed(
    endpoint: Seq<char>,
    schema: Schema,
    attempt: u32,
    max_retries: u32,
    reply: Reply,
)
    requires
        negotiated(endpoint, schema, attempt, max_retries, reply) is Switch,
    ensures
        schema == Schema::Hub,
        reply matches Reply::Status { code, .. } && (code == 400 || code == 422),
        negotiated(endpoint, schema, attempt, max_retries, reply)->schema is PaddleX,
{
}

/// A PaddleOCR server.
#[derive(Debug)]
pub struct PaddleServer {
    pub endpoint: String,
    pub timeout_secs: u64,
    pub max_retries: u32,
}

impl PaddleServer {
    /// A server with the default retries.
    pub fn new(endpoint: String, timeout_secs: u64) -> (r: PaddleServer)
        ensures
            r.endpoint == endpoint,
            r.timeout_secs == timeout_secs,
            r.max_retries == 3,
    {
        PaddleServer { endpoint, timeout_secs, max_retries: 3 }
    }

    /// The server with other retries.
    pub fn request_options(self, max_retries: u32) -> (r: PaddleServer)
        ensures
            r.endpoint == self.endpoint,
            r.timeout_secs == self.timeout_secs,
            r.max_retries == max_retries,
    {
        PaddleServer { endpoint: self.endpoint, timeout_secs: self.timeout_secs, max_retries }
    }

    /// What decides the answers: the endpoint. Results carry a layout.
    pub fn cache_salt(&self) -> (r: String)
        ensures
            r@ == "grid|"@ + self.endpoint@,
    {
        let mut v = text::chars_of("grid|");
        text::append_str(&mut v, &self.endpoint);
        text::string_of(&v)
    }

    /// The request for an image.
    pub fn payload(schema: Schema, image: &[u8]) -> (r: String)
        ensures
            r@ == json::json_text(payload_json(schema, image@)),
    {
        let encoded = base64::encode(image);
        let mut m: Vec<(String, Json)> = Vec::new();
        match schema {
            Schema::Hub => {
                let mut list: Vec<Json> = Vec::new();
                list.push(Json::Text(encoded));
                assert(json::list_view(list@) =~= seq![JsonView::Text(base64::base64(image@))]);
                m.push(("images".to_owned(), Json::Array(list)));
                assert(json::all_well_formed(list@));
            },
            Schema::PaddleX { .. } => {
                m.push(("file".to_owned(), Json::Text(encoded)));
                m.push(("fileType".to_owned(), json::unsigned_number(1)));
                proof {
                    reveal_strlit("file");
                    reveal_strlit("fileType");
                    assert("file"@.len() != "fileType"@.len());
                }
            },
        }
        proof {
            assert(json::members_view(m@) =~= payload_json(schema, image@)->Object_0);
            assert(json::members_well_formed(m@));
        }
        json::print(Json::Object(m))
    }
}

} // verus!
