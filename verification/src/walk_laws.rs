//! Which pictures of a document are read, and where their texts go.

use vstd::prelude::*;

use crate::document;
use crate::document::{ContentLayer, NodeView, Wrap};
use crate::engine::Outcome;
use crate::postprocess;
use crate::postprocess::{OcrStats, OutputMode, OutputTarget, PostOptions, Tally, Verdict};
use crate::render_laws;
use crate::text;

verus! {

/// An output shows what a wrapper holds: DocLang shows everything, JSON also
/// notes, and Markdown and chunks the body alone.
pub open spec fn is_open(w: Wrap, target: OutputTarget) -> bool {
    match target {
        OutputTarget::DocLang => true,
        OutputTarget::Json => w is Located || (w matches Wrap::Furniture(layer) && layer
            == ContentLayer::Notes),
        _ => w is Located,
    }
}

/// The outermost wrapper with a place gives this one.
pub open spec fn is_placed(ws: Seq<Wrap>, at: [u16; 4]) -> bool {
    exists|i: int|
        0 <= i < ws.len() && #[trigger] ws[i] == Wrap::Located(at) && forall|j: int|
            0 <= j < i ==> !(#[trigger] ws[j] is Located)
}

/// A point stands in a region.
pub open spec fn holds(r: [u16; 4], x: int, y: int) -> bool {
    r[0] <= x < r[2] && r[1] <= y < r[3]
}

/// The place of a picture or a table is that of the outermost wrapper that has
/// one.
pub proof fn law_places(ws: Seq<Wrap>)
    ensures
        match postprocess::place(ws) {
            Some(at) => is_placed(ws, at),
            None => forall|i: int| 0 <= i < ws.len() ==> !(#[trigger] ws[i] is Located),
        },
    decreases ws.len(),
{
    if ws.len() > 0 {
        match ws[0] {
            Wrap::Located(at) => {
                assert(ws[0] == Wrap::Located(at));
            },
            _ => {
                let rest = ws.skip(1);
                law_places(rest);
                match postprocess::place(rest) {
                    Some(at) => {
                        let i = choose|i: int|
                            0 <= i < rest.len() && #[trigger] rest[i] == Wrap::Located(at)
                                && forall|j: int| 0 <= j < i ==> !(#[trigger] rest[j] is Located);
                        assert(ws[i + 1] == Wrap::Located(at));
                        assert forall|j: int| 0 <= j < i + 1 implies !(#[trigger] ws[j] is Located) by {
                            if j > 0 {
                                assert(rest[j - 1] == ws[j]);
                            }
                        }
                    },
                    None => {
                        assert forall|i: int| 0 <= i < ws.len() implies !(
                        #[trigger] ws[i] is Located) by {
                            if i > 0 {
                                assert(rest[i - 1] == ws[i]);
                            }
                        }
                    },
                }
            },
        }
    }
}

/// What two regions share is what stands in both: it is the same both ways,
/// all of a region that stands in the other, and nothing of two that stand
/// apart.
pub proof fn law_shared_areas(a: [u16; 4], b: [u16; 4])
    ensures
        postprocess::shared_area(a, b) == postprocess::shared_area(b, a),
        0 <= postprocess::shared_area(a, b) <= postprocess::area(b),
        a[0] <= b[0] && b[2] <= a[2] && a[1] <= b[1] && b[3] <= a[3]
            ==> postprocess::shared_area(a, b) == postprocess::area(b),
        (forall|x: int, y: int| holds(a, x, y) ==> !#[trigger] holds(b, x, y))
            ==> postprocess::shared_area(a, b) == 0,
        b[0] < b[2] && b[1] < b[3] ==> postprocess::area(b) == (b[2] - b[0]) * (b[3] - b[1]),
        b[0] >= b[2] || b[1] >= b[3] ==> postprocess::area(b) == 0,
{
    let l = postprocess::larger(a[0] as int, b[0] as int);
    let t = postprocess::larger(a[1] as int, b[1] as int);
    let w = postprocess::span(l, postprocess::smaller(a[2] as int, b[2] as int));
    let h = postprocess::span(t, postprocess::smaller(a[3] as int, b[3] as int));
    let bw = postprocess::span(b[0] as int, b[2] as int);
    let bh = postprocess::span(b[1] as int, b[3] as int);
    assert(0 <= w * h <= bw * bh) by (nonlinear_arith)
        requires
            0 <= w <= bw,
            0 <= h <= bh,
    ;
    if w > 0 && h > 0 {
        assert(holds(a, l, t));
        assert(holds(b, l, t));
    } else {
        assert(w * h == 0) by (nonlinear_arith)
            requires
                w == 0 || h == 0,
        ;
    }
    if bw == 0 || bh == 0 {
        assert(bw * bh == 0) by (nonlinear_arith)
            requires
                bw == 0 || bh == 0,
        ;
    }
}

/// A picture holds a table where at least four fifths of the table's area are
/// in it; a table without area is in no picture.
pub proof fn law_tables_in_pictures(picture: [u16; 4], table: [u16; 4])
    ensures
        postprocess::holds_table(picture, table) <==> postprocess::area(table) > 0 && 5
            * postprocess::shared_area(picture, table) >= 4 * postprocess::area(table),
{
}

/// A picture is to be read: it has an image file, the output shows it, no
/// table on its page stands in it, and it has enough pixels or no known size.
pub open spec fn to_read(
    n: NodeView,
    hidden: bool,
    page: usize,
    regions: Seq<(usize, [u16; 4])>,
    opts: PostOptions,
) -> bool {
    &&& document::inside(n) matches NodeView::Picture { image: Some(img), .. } && (img.width
        * img.height == 0 || img.width * img.height >= opts.min_pixels)
    &&& !hidden
    &&& forall|i: int|
        0 <= i < document::wraps(n).len() ==> is_open(#[trigger] document::wraps(n)[i], opts.target)
    &&& forall|at: [u16; 4], i: int|
        #[trigger] is_placed(document::wraps(n), at) && 0 <= i < regions.len() && (
        #[trigger] regions[i]).0 == page ==> !postprocess::holds_table(at, regions[i].1)
}

/// Exactly the pictures that are to be read are asked for, each with its own
/// image.
pub proof fn law_which_pictures_are_read(
    n: NodeView,
    hidden: bool,
    page: usize,
    regions: Seq<(usize, [u16; 4])>,
    opts: PostOptions,
)
    requires
        document::inside(n) is Picture,
    ensures
        to_read(n, hidden, page, regions, opts) ==> (document::inside(n) matches NodeView::Picture { image: Some(img), .. }
            && postprocess::node_requests(n, hidden, page, regions, opts) == seq![img]),
        !to_read(n, hidden, page, regions, opts) ==> postprocess::node_requests(
            n,
            hidden,
            page,
            regions,
            opts,
        ).len() == 0,
{
    let ws = document::wraps(n);
    law_places(ws);
    if let NodeView::Picture { image, .. } = document::inside(n) {
        let v = postprocess::verdict(image, ws, hidden, page, regions, opts);
        if let Some(img) = image {
            assert(0 <= img.width * img.height) by (nonlinear_arith)
                requires
                    0 <= img.width,
                    0 <= img.height,
            ;
            assert(postprocess::hides(ws, opts.target) <==> !(forall|i: int|
                0 <= i < ws.len() ==> is_open(#[trigger] ws[i], opts.target))) by {
                assert forall|i: int| 0 <= i < ws.len() implies is_open(#[trigger] ws[i], opts.target)
                    == postprocess::shows(opts.target, ws[i]) by {}
            }
            lemma_covers(ws, page, regions);
            assert((v == Verdict::Read) == to_read(n, hidden, page, regions, opts));
        }
    }
}

proof fn lemma_covers(ws: Seq<Wrap>, page: usize, regions: Seq<(usize, [u16; 4])>)
    ensures
        postprocess::covers_table(postprocess::place(ws), page, regions) <==> !(forall|
            at: [u16; 4],
            i: int,
        |
            #[trigger] is_placed(ws, at) && 0 <= i < regions.len() && (#[trigger] regions[i]).0
                == page ==> !postprocess::holds_table(at, regions[i].1)),
{
    law_places(ws);
    match postprocess::place(ws) {
        Some(at) => {
            assert forall|other: [u16; 4]| is_placed(ws, other) implies other == at by {
                let i = choose|i: int|
                    0 <= i < ws.len() && #[trigger] ws[i] == Wrap::Located(at) && forall|j: int|
                        0 <= j < i ==> !(#[trigger] ws[j] is Located);
                let k = choose|i: int|
                    0 <= i < ws.len() && #[trigger] ws[i] == Wrap::Located(other) && forall|j: int|
                        0 <= j < i ==> !(#[trigger] ws[j] is Located);
                assert(ws[i] is Located && ws[k] is Located);
                assert(i == k);
            }
            if postprocess::covers_table(Some(at), page, regions) {
                let i = choose|i: int|
                    0 <= i < regions.len() && (#[trigger] regions[i]).0 == page
                        && postprocess::holds_table(at, regions[i].1);
                assert(is_placed(ws, at) && regions[i].0 == page);
            }
        },
        None => {
            assert forall|at: [u16; 4]| !is_placed(ws, at) by {}
        },
    }
}

/// A picture that is read has its own outcome: the first of those that are
/// left. A text takes its place as [`render_laws::stands_for`] says; an image
/// that no engine could read, and a picture that is not read, stay.
pub proof fn law_pictures_have_their_own_outcome(
    n: NodeView,
    hidden: bool,
    page: usize,
    regions: Seq<(usize, [u16; 4])>,
    opts: PostOptions,
    outs: Seq<Option<Outcome>>,
)
    requires
        document::inside(n) is Picture,
        opts.mode != OutputMode::Placeholder,
        outs.len() > 0,
    ensures
        ({
            let r = postprocess::node_result(n, hidden, page, regions, opts, outs);
            if to_read(n, hidden, page, regions, opts) {
                match outs[0] {
                    Some(o) => render_laws::stands_for(n, o, opts, r),
                    None => r == seq![n],
                }
            } else {
                r == seq![n]
            }
        }),
{
    law_which_pictures_are_read(n, hidden, page, regions, opts);
    if let Some(o) = outs[0] {
        render_laws::law_pictures_give_way_to_their_text(n, o, opts);
    }
}

/// The pictures of a group are those of its children, hidden where a wrapper
/// of the group or its own layer is. The group stays around what they become.
pub proof fn law_groups_are_searched(
    n: NodeView,
    hidden: bool,
    page: usize,
    regions: Seq<(usize, [u16; 4])>,
    opts: PostOptions,
    outs: Seq<Option<Outcome>>,
)
    requires
        document::inside(n) is Group,
    ensures
        ({
            let kids = document::inside(n)->Group_children;
            let layer = document::inside(n)->Group_layer;
            let below = hidden || (layer is Some && opts.target != OutputTarget::Json
                && opts.target != OutputTarget::DocLang) || !(forall|i: int|
                0 <= i < document::wraps(n).len() ==> is_open(
                    #[trigger] document::wraps(n)[i],
                    opts.target,
                ));
            let r = postprocess::node_result(n, hidden, page, regions, opts, outs);
            &&& postprocess::node_requests(n, hidden, page, regions, opts)
                == postprocess::list_requests(kids, below, page, regions, opts)
            &&& postprocess::node_tally(n, hidden, page, regions, opts, outs)
                == postprocess::list_tally(kids, below, page, regions, opts, outs)
            &&& r.len() == 1
            &&& document::wraps(r[0]) == document::wraps(n)
            &&& document::inside(r[0]) matches NodeView::Group { key, layer: l, children }
                && key == document::inside(n)->Group_key && l == layer && children
                == postprocess::list_result(kids, below, page, regions, opts, outs)
        }),
{
    document::lemma_inside_weight(n);
    let ws = document::wraps(n);
    assert(postprocess::hides(ws, opts.target) <==> !(forall|i: int|
        0 <= i < ws.len() ==> is_open(#[trigger] ws[i], opts.target))) by {
        assert forall|i: int| 0 <= i < ws.len() implies is_open(#[trigger] ws[i], opts.target)
            == postprocess::shows(opts.target, ws[i]) by {}
    }
    let r = postprocess::node_result(n, hidden, page, regions, opts, outs);
    if let NodeView::Group { key, layer, children } = document::inside(n) {
        let below = hidden || postprocess::group_hides(ws, layer, opts.target);
        let whole = NodeView::Group {
            key,
            layer,
            children: postprocess::list_result(children, below, page, regions, opts, outs),
        };
        document::law_peel_undoes_rewrap(ws, whole);
        assert(ws + document::wraps(whole) =~= ws);
        assert(r[0] == document::rewrapped(ws, whole));
    }
}

/// The rich cells of a table are searched for DocLang alone, cell by cell, and
/// whatever hides the table does not hide them. For other outputs the table
/// stays as it is.
pub proof fn law_cells_are_searched(
    n: NodeView,
    hidden: bool,
    page: usize,
    regions: Seq<(usize, [u16; 4])>,
    opts: PostOptions,
    outs: Seq<Option<Outcome>>,
)
    requires
        document::inside(n) is Table,
    ensures
        ({
            let cells = document::inside(n)->cells;
            let r = postprocess::node_result(n, hidden, page, regions, opts, outs);
            if opts.target == OutputTarget::DocLang {
                &&& postprocess::node_requests(n, hidden, page, regions, opts)
                    == postprocess::cell_requests(cells, page, regions, opts)
                &&& r.len() == 1
                &&& document::wraps(r[0]) == document::wraps(n)
                &&& document::inside(r[0]) matches NodeView::Table { cells: c, .. } && c
                    == postprocess::cell_result(cells, page, regions, opts, outs)
            } else {
                &&& postprocess::node_requests(n, hidden, page, regions, opts).len() == 0
                &&& r == seq![n]
            }
        }),
{
    document::lemma_inside_weight(n);
    let ws = document::wraps(n);
    if let NodeView::Table { key, rows, location, cells } = document::inside(n) {
        let whole = NodeView::Table {
            key,
            rows,
            location,
            cells: postprocess::cell_result(cells, page, regions, opts, outs),
        };
        document::law_peel_undoes_rewrap(ws, whole);
        assert(ws + document::wraps(whole) =~= ws);
    }
}

/// Cells are worked on one after the other, each as a list of its own with the
/// outcomes for its images.
pub proof fn law_cells_take_turns(
    cell: Seq<NodeView>,
    rest: Seq<Seq<NodeView>>,
    page: usize,
    regions: Seq<(usize, [u16; 4])>,
    opts: PostOptions,
    outs: Seq<Option<Outcome>>,
)
    ensures
        ({
            let all = seq![cell] + rest;
            let used = postprocess::list_requests(cell, false, page, regions, opts);
            &&& postprocess::cell_requests(all, page, regions, opts) == used
                + postprocess::cell_requests(rest, page, regions, opts)
            &&& postprocess::cell_result(all, page, regions, opts, outs) == seq![
                postprocess::list_result(cell, false, page, regions, opts, outs),
            ] + postprocess::cell_result(rest, page, regions, opts, outs.skip(used.len() as int))
        }),
{
    let all = seq![cell] + rest;
    assert(all.skip(1) =~= rest);
    assert(all[0] == cell);
}

/// The page is the one that the last page mark before a node names, in lists
/// and in the groups that stand in them.
pub proof fn law_pages_follow_their_marks(a: Seq<NodeView>, n: NodeView, page: usize)
    ensures
        postprocess::list_page(Seq::<NodeView>::empty(), page) == page,
        postprocess::list_page(a.push(n), page) == match n {
            NodeView::PageInfo { page_no, .. } => page_no,
            _ => match document::inside(n) {
                NodeView::Group { children, .. } => postprocess::list_page(
                    children,
                    postprocess::list_page(a, page),
                ),
                _ => postprocess::list_page(a, page),
            },
        },
    decreases a.len(),
{
    document::lemma_inside_weight(n);
    if a.len() == 0 {
        let after = postprocess::node_page(n, page);
        assert(a.push(n).skip(1) =~= Seq::<NodeView>::empty());
        assert(a.push(n)[0] == n);
        assert(postprocess::list_page(Seq::<NodeView>::empty(), after) == after);
        assert(postprocess::list_page(a.push(n), page) == after);
        assert(postprocess::list_page(a, page) == page);
    } else {
        assert(a.push(n).skip(1) =~= a.skip(1).push(n));
        assert(a.push(n)[0] == a[0]);
        law_pages_follow_their_marks(a.skip(1), n, postprocess::node_page(a[0], page));
    }
}

/// A table counts against the pictures of its page where it has some text, a
/// place, and the output shows it. Its place is that of a wrapper, else its
/// own.
pub proof fn law_which_tables_count(
    a: Seq<NodeView>,
    n: NodeView,
    b: Seq<NodeView>,
    hidden: bool,
    page: usize,
    target: OutputTarget,
)
    requires
        document::inside(n) is Table,
    ensures
        ({
            let here = postprocess::list_page(a, page);
            let rows = document::inside(n)->rows;
            let shown = !hidden && (forall|i: int|
                0 <= i < document::wraps(n).len() ==> is_open(
                    #[trigger] document::wraps(n)[i],
                    target,
                )) && (exists|r: int, c: int|
                0 <= r < rows.len() && 0 <= c < rows[r].len() && !text::blank(
                    #[trigger] rows[r][c],
                ));
            let at = match postprocess::place(document::wraps(n)) {
                Some(l) => Some(l),
                None => document::inside(n)->Table_location,
            };
            postprocess::list_regions(a + seq![n] + b, hidden, page, target)
                == postprocess::list_regions(a, hidden, page, target) + (match at {
                Some(l) if shown => seq![(here, l)],
                _ => seq![],
            }) + postprocess::list_regions(b, hidden, here, target)
        }),
    decreases a.len(),
{
    let ws = document::wraps(n);
    document::lemma_inside_weight(n);
    assert(postprocess::hides(ws, target) <==> !(forall|i: int|
        0 <= i < ws.len() ==> is_open(#[trigger] ws[i], target))) by {
        assert forall|i: int| 0 <= i < ws.len() implies is_open(#[trigger] ws[i], target)
            == postprocess::shows(target, ws[i]) by {}
    }
    let all = a + seq![n] + b;
    if a.len() == 0 {
        assert(all.skip(1) =~= b);
        assert(all[0] == n);
        assert(postprocess::list_regions(a, hidden, page, target) =~= Seq::empty());
        assert(postprocess::node_page(n, page) == page);
        assert(postprocess::list_regions(all, hidden, page, target) =~= postprocess::list_regions(
            a,
            hidden,
            page,
            target,
        ) + postprocess::node_regions(n, hidden, page, target) + postprocess::list_regions(
            b,
            hidden,
            page,
            target,
        ));
    } else {
        document::lemma_inside_weight(a[0]);
        assert(all.skip(1) =~= a.skip(1) + seq![n] + b);
        assert(all[0] == a[0]);
        let next = postprocess::node_page(a[0], page);
        law_which_tables_count(a.skip(1), n, b, hidden, next, target);
        let here = postprocess::list_page(a, page);
        let head = postprocess::node_regions(a[0], hidden, page, target);
        let mid = postprocess::list_regions(a.skip(1), hidden, next, target);
        let own = postprocess::node_regions(n, hidden, here, target);
        let tail = postprocess::list_regions(b, hidden, here, target);
        assert(head + (mid + own + tail) =~= (head + mid) + own + tail);
    }
}

/// The tables of a group count as those of its children do, hidden where the
/// group is; no other node but a table counts.
pub proof fn law_tables_in_groups_count(
    n: NodeView,
    hidden: bool,
    page: usize,
    target: OutputTarget,
)
    ensures
        match document::inside(n) {
            NodeView::Group { layer, children, .. } => postprocess::node_regions(
                n,
                hidden,
                page,
                target,
            ) == postprocess::list_regions(
                children,
                hidden || (layer is Some && target != OutputTarget::Json && target
                    != OutputTarget::DocLang) || !(forall|i: int|
                    0 <= i < document::wraps(n).len() ==> is_open(
                        #[trigger] document::wraps(n)[i],
                        target,
                    )),
                page,
                target,
            ),
            NodeView::Table { .. } => true,
            _ => postprocess::node_regions(n, hidden, page, target).len() == 0,
        },
{
    let ws = document::wraps(n);
    document::lemma_inside_weight(n);
    assert(postprocess::hides(ws, target) <==> !(forall|i: int|
        0 <= i < ws.len() ==> is_open(#[trigger] ws[i], target))) by {
        assert forall|i: int| 0 <= i < ws.len() implies is_open(#[trigger] ws[i], target)
            == postprocess::shows(target, ws[i]) by {}
    }
}

/// A document starts on no page and with nothing hidden, and its own tables
/// count.
pub proof fn law_documents_start_afresh(
    nodes: Seq<NodeView>,
    opts: PostOptions,
    outs: Seq<Option<Outcome>>,
)
    ensures
        ({
            let regions = postprocess::list_regions(nodes, false, 0, opts.target);
            &&& postprocess::requests(nodes, opts) == postprocess::list_requests(
                nodes,
                false,
                0,
                regions,
                opts,
            )
            &&& postprocess::transformed(nodes, opts, outs) == postprocess::list_result(
                nodes,
                false,
                0,
                regions,
                opts,
                outs,
            )
            &&& postprocess::counted(nodes, opts, outs) == postprocess::list_tally(
                nodes,
                false,
                0,
                regions,
                opts,
                outs,
            )
        }),
{
}

/// What one picture adds to the counters, under the head that it belongs to.
pub proof fn law_pictures_are_counted_by_what_became_of_them(
    n: NodeView,
    hidden: bool,
    page: usize,
    regions: Seq<(usize, [u16; 4])>,
    opts: PostOptions,
    outs: Seq<Option<Outcome>>,
)
    requires
        document::inside(n) is Picture,
        outs.len() > 0,
    ensures
        ({
            let c = postprocess::node_tally(n, hidden, page, regions, opts, outs);
            let read = to_read(n, hidden, page, regions, opts);
            &&& c.pictures == 1
            &&& c.failed == 1 <==> read && outs[0] is None
            &&& c.empty == 1 <==> read && (outs[0] matches Some(o) && text::blank(o.text))
            &&& c.ocred == 1 <==> read && (outs[0] matches Some(o) && !text::blank(o.text))
            &&& c.cached == 1 <==> read && (outs[0] matches Some(o) && o.from_cache)
            &&& c.failed + c.empty + c.ocred + c.skipped_small + c.skipped_structured <= 1
            &&& c.cached <= 1
            &&& c.skipped_small == 1 ==> (document::inside(n) matches NodeView::Picture { image: Some(img), .. }
                && 0 < img.width * img.height < opts.min_pixels)
            &&& c.skipped_structured == 1 ==> postprocess::covers_table(
                postprocess::place(document::wraps(n)),
                page,
                regions,
            )
            &&& c.skipped_small + c.skipped_structured == 1 ==> !hidden
        }),
{
    law_which_pictures_are_read(n, hidden, page, regions, opts);
    if let NodeView::Picture { image, .. } = document::inside(n) {
        let v = postprocess::verdict(image, document::wraps(n), hidden, page, regions, opts);
        assert((v == Verdict::Read) == to_read(n, hidden, page, regions, opts)) by {
            if to_read(n, hidden, page, regions, opts) {
                assert(postprocess::node_requests(n, hidden, page, regions, opts).len() == 1);
            }
        }
    }
}

/// The counters of two lists add up, the second with the page that the first
/// leaves and the outcomes that it does not use.
pub proof fn law_counters_add_up_over_lists(
    a: Seq<NodeView>,
    b: Seq<NodeView>,
    hidden: bool,
    page: usize,
    regions: Seq<(usize, [u16; 4])>,
    opts: PostOptions,
    outs: Seq<Option<Outcome>>,
)
    requires
        postprocess::list_requests(a, hidden, page, regions, opts).len() <= outs.len(),
    ensures
        postprocess::list_tally(a + b, hidden, page, regions, opts, outs) == postprocess::plus(
            postprocess::list_tally(a, hidden, page, regions, opts, outs),
            postprocess::list_tally(
                b,
                hidden,
                postprocess::list_page(a, page),
                regions,
                opts,
                outs.skip(postprocess::list_requests(a, hidden, page, regions, opts).len() as int),
            ),
        ),
    decreases a.len(),
{
    if a.len() == 0 {
        assert(a + b =~= b);
        assert(outs.skip(0) =~= outs);
    } else {
        assert((a + b).skip(1) =~= a.skip(1) + b);
        assert((a + b)[0] == a[0]);
        let used = postprocess::node_requests(a[0], hidden, page, regions, opts).len() as int;
        let next = postprocess::node_page(a[0], page);
        let mine = postprocess::list_requests(a.skip(1), hidden, next, regions, opts).len();
        law_counters_add_up_over_lists(a.skip(1), b, hidden, next, regions, opts, outs.skip(used));
        assert(outs.skip(used).skip(mine as int) =~= outs.skip(used + mine));
    }
}

/// The report names each counter with its number.
pub proof fn law_the_report_names_the_counters(t: Tally)
    ensures
        OcrStats::line(t) == "docmill: "@ + text::decimal(t.pictures) + " picture(s), "@
            + text::decimal(t.ocred) + " ocr'd ("@ + text::decimal(t.cached) + " cached), "@
            + text::decimal(t.skipped_small) + " skipped (small), "@ + text::decimal(
            t.skipped_structured,
        ) + " skipped (structured table), "@ + text::decimal(t.empty) + " empty, "@
            + text::decimal(t.failed) + " failed"@,
{
}

/// Each output format is a target of its own; any other name is Markdown.
pub proof fn law_targets_have_names(format: Seq<char>)
    ensures
        OutputTarget::named("json"@) == OutputTarget::Json,
        OutputTarget::named("dclx"@) == OutputTarget::DocLang,
        OutputTarget::named("chunks"@) == OutputTarget::Chunks,
        format != "json"@ && format != "dclx"@ && format != "chunks"@ ==> OutputTarget::named(format)
            == OutputTarget::Markdown,
{
    reveal_strlit("json");
    reveal_strlit("dclx");
    reveal_strlit("chunks");
    assert("json"@.len() == 4 && "dclx"@.len() == 4 && "chunks"@.len() == 6);
    assert("json"@[0] != "dclx"@[0]);
}

} // verus!
