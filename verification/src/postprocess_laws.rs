//! What holds of the document transform as a whole.

use vstd::prelude::*;

use crate::document;
use crate::document::NodeView;
use crate::engine::Outcome;
use crate::postprocess;
use crate::postprocess::{OutputTarget, PostOptions, Tally, Verdict};
use crate::text;

verus! {

/// No picture is counted under two heads, and every image that was read is
/// counted under exactly one: its text was spliced in, it had none, or no
/// engine could read it.
pub proof fn law_counts_add_up(
    nodes: Seq<NodeView>,
    opts: PostOptions,
    outs: Seq<Option<Outcome>>,
)
    ensures
        postprocess::consistent(postprocess::counted(nodes, opts, outs)),
        ({
            let t = postprocess::counted(nodes, opts, outs);
            t.ocred + t.empty + t.failed == postprocess::requests(nodes, opts).len()
        }),
{
    lemma_list_counts(nodes, false, 0, postprocess::regions(nodes, opts), opts, outs);
}

pub open spec fn read_count(t: Tally) -> nat {
    t.ocred + t.empty + t.failed
}

proof fn lemma_list_counts(
    nodes: Seq<NodeView>,
    hidden: bool,
    page: usize,
    regions: Seq<(usize, [u16; 4])>,
    opts: PostOptions,
    outs: Seq<Option<Outcome>>,
)
    ensures
        postprocess::consistent(
            postprocess::list_tally(nodes, hidden, page, regions, opts, outs),
        ),
        read_count(postprocess::list_tally(nodes, hidden, page, regions, opts, outs))
            == postprocess::list_requests(nodes, hidden, page, regions, opts).len(),
    decreases document::weights(nodes), 1int,
{
    if nodes.len() > 0 {
        document::lemma_inside_weight(nodes[0]);
        let used = postprocess::node_requests(nodes[0], hidden, page, regions, opts).len() as int;
        lemma_node_counts(nodes[0], hidden, page, regions, opts, outs);
        lemma_list_counts(
            nodes.skip(1),
            hidden,
            postprocess::node_page(nodes[0], page),
            regions,
            opts,
            outs.skip(used),
        );
    }
}

proof fn lemma_cell_counts(
    cells: Seq<Seq<NodeView>>,
    page: usize,
    regions: Seq<(usize, [u16; 4])>,
    opts: PostOptions,
    outs: Seq<Option<Outcome>>,
)
    ensures
        postprocess::consistent(postprocess::cell_tally(cells, page, regions, opts, outs)),
        read_count(postprocess::cell_tally(cells, page, regions, opts, outs))
            == postprocess::cell_requests(cells, page, regions, opts).len(),
    decreases document::cell_weights(cells), 2int + cells.len(),
{
    if cells.len() > 0 {
        let used = postprocess::list_requests(cells[0], false, page, regions, opts).len() as int;
        lemma_list_counts(cells[0], false, page, regions, opts, outs);
        lemma_cell_counts(cells.skip(1), page, regions, opts, outs.skip(used));
    }
}

proof fn lemma_node_counts(
    n: NodeView,
    hidden: bool,
    page: usize,
    regions: Seq<(usize, [u16; 4])>,
    opts: PostOptions,
    outs: Seq<Option<Outcome>>,
)
    ensures
        postprocess::consistent(postprocess::node_tally(n, hidden, page, regions, opts, outs)),
        read_count(postprocess::node_tally(n, hidden, page, regions, opts, outs))
            == postprocess::node_requests(n, hidden, page, regions, opts).len(),
    decreases document::weight(n), 0int,
{
    document::lemma_inside_weight(n);
    match document::inside(n) {
        NodeView::Group { layer, children, .. } => lemma_list_counts(
            children,
            hidden || postprocess::group_hides(document::wraps(n), layer, opts.target),
            page,
            regions,
            opts,
            outs,
        ),
        NodeView::Table { cells, .. } => lemma_cell_counts(cells, page, regions, opts, outs),
        _ => {},
    }
}

/// OCR problems change nothing: where no engine could read any image, the
/// document stays as it was. So does a document without images to read.
pub proof fn law_failures_change_nothing(
    nodes: Seq<NodeView>,
    opts: PostOptions,
    outs: Seq<Option<Outcome>>,
)
    requires
        outs.len() == postprocess::requests(nodes, opts).len(),
        forall|i: int| 0 <= i < outs.len() ==> (#[trigger] outs[i]) is None,
    ensures
        postprocess::transformed(nodes, opts, outs) == nodes,
{
    lemma_list_unread(nodes, false, 0, postprocess::regions(nodes, opts), opts, outs);
}

/// The first `k` outcomes are failures.
pub open spec fn unread(outs: Seq<Option<Outcome>>, k: nat) -> bool {
    k <= outs.len() && forall|i: int| 0 <= i < k ==> (#[trigger] outs[i]) is None
}

proof fn lemma_list_unread(
    nodes: Seq<NodeView>,
    hidden: bool,
    page: usize,
    regions: Seq<(usize, [u16; 4])>,
    opts: PostOptions,
    outs: Seq<Option<Outcome>>,
)
    requires
        unread(outs, postprocess::list_requests(nodes, hidden, page, regions, opts).len()),
    ensures
        postprocess::list_result(nodes, hidden, page, regions, opts, outs) == nodes,
    decreases document::weights(nodes), 1int,
{
    if nodes.len() > 0 {
        document::lemma_inside_weight(nodes[0]);
        let used = postprocess::node_requests(nodes[0], hidden, page, regions, opts).len() as int;
        lemma_node_unread(nodes[0], hidden, page, regions, opts, outs);
        let rest = outs.skip(used);
        let k = postprocess::list_requests(
            nodes.skip(1),
            hidden,
            postprocess::node_page(nodes[0], page),
            regions,
            opts,
        ).len();
        assert forall|i: int| 0 <= i < k implies (#[trigger] rest[i]) is None by {
            assert(rest[i] == outs[i + used]);
        }
        lemma_list_unread(
            nodes.skip(1),
            hidden,
            postprocess::node_page(nodes[0], page),
            regions,
            opts,
            rest,
        );
        assert(seq![nodes[0]] + nodes.skip(1) == nodes);
    } else {
        assert(nodes =~= seq![]);
    }
}

proof fn lemma_cell_unread(
    cells: Seq<Seq<NodeView>>,
    page: usize,
    regions: Seq<(usize, [u16; 4])>,
    opts: PostOptions,
    outs: Seq<Option<Outcome>>,
)
    requires
        unread(outs, postprocess::cell_requests(cells, page, regions, opts).len()),
    ensures
        postprocess::cell_result(cells, page, regions, opts, outs) == cells,
    decreases document::cell_weights(cells), 2int + cells.len(),
{
    if cells.len() > 0 {
        let used = postprocess::list_requests(cells[0], false, page, regions, opts).len() as int;
        lemma_list_unread(cells[0], false, page, regions, opts, outs);
        let rest = outs.skip(used);
        let k = postprocess::cell_requests(cells.skip(1), page, regions, opts).len();
        assert forall|i: int| 0 <= i < k implies (#[trigger] rest[i]) is None by {
            assert(rest[i] == outs[i + used]);
        }
        lemma_cell_unread(cells.skip(1), page, regions, opts, rest);
        assert(seq![cells[0]] + cells.skip(1) == cells);
    } else {
        assert(cells =~= seq![]);
    }
}

proof fn lemma_node_unread(
    n: NodeView,
    hidden: bool,
    page: usize,
    regions: Seq<(usize, [u16; 4])>,
    opts: PostOptions,
    outs: Seq<Option<Outcome>>,
)
    requires
        unread(outs, postprocess::node_requests(n, hidden, page, regions, opts).len()),
    ensures
        postprocess::node_result(n, hidden, page, regions, opts, outs) == seq![n],
    decreases document::weight(n), 0int,
{
    document::lemma_inside_weight(n);
    document::law_rewrap_undoes_peel(n);
    match document::inside(n) {
        NodeView::Group { layer, children, .. } => lemma_list_unread(
            children,
            hidden || postprocess::group_hides(document::wraps(n), layer, opts.target),
            page,
            regions,
            opts,
            outs,
        ),
        NodeView::Table { cells, .. } => {
            if opts.reads_hidden() {
                lemma_cell_unread(cells, page, regions, opts, outs);
            }
        },
        NodeView::Picture { image, .. } => {
            if postprocess::verdict(image, document::wraps(n), hidden, page, regions, opts)
                == Verdict::Read {
                assert(outs[0] is None);
            }
        },
        _ => {},
    }
}

/// A wrapper or the layer of the node's own group hides it.
pub open spec fn hides_node(n: NodeView, target: OutputTarget) -> bool {
    postprocess::hides(document::wraps(n), target) || match document::inside(n) {
        NodeView::Group { layer, .. } => !postprocess::shows_group(target, layer),
        _ => false,
    }
}

/// Pictures on layers that the output does not show are left alone: a node
/// inside a hiding wrapper, and a group on a hidden layer of its own, ask for
/// no image and stay as they were.
pub proof fn law_hidden_pictures_are_left_alone(
    n: NodeView,
    hidden: bool,
    page: usize,
    regions: Seq<(usize, [u16; 4])>,
    opts: PostOptions,
    outs: Seq<Option<Outcome>>,
)
    requires
        !opts.reads_hidden(),
        hidden || hides_node(n, opts.target),
    ensures
        postprocess::node_requests(n, hidden, page, regions, opts).len() == 0,
        postprocess::node_result(n, hidden, page, regions, opts, outs) == seq![n],
{
    lemma_hidden_node(n, hidden, page, regions, opts);
    lemma_node_unread(n, hidden, page, regions, opts, outs);
}

proof fn lemma_hidden_list(
    nodes: Seq<NodeView>,
    page: usize,
    regions: Seq<(usize, [u16; 4])>,
    opts: PostOptions,
)
    requires
        !opts.reads_hidden(),
    ensures
        postprocess::list_requests(nodes, true, page, regions, opts).len() == 0,
    decreases document::weights(nodes), 1int,
{
    if nodes.len() > 0 {
        document::lemma_inside_weight(nodes[0]);
        lemma_hidden_node(nodes[0], true, page, regions, opts);
        lemma_hidden_list(
            nodes.skip(1),
            postprocess::node_page(nodes[0], page),
            regions,
            opts,
        );
    }
}

proof fn lemma_hidden_node(
    n: NodeView,
    hidden: bool,
    page: usize,
    regions: Seq<(usize, [u16; 4])>,
    opts: PostOptions,
)
    requires
        !opts.reads_hidden(),
        hidden || hides_node(n, opts.target),
    ensures
        postprocess::node_requests(n, hidden, page, regions, opts).len() == 0,
    decreases document::weight(n), 0int,
{
    document::lemma_inside_weight(n);
    match document::inside(n) {
        NodeView::Group { children, .. } => lemma_hidden_list(children, page, regions, opts),
        _ => {},
    }
}

/// What is spliced in for a picture has the picture's wrappers, and inside
/// them stands body text, a linked caption or a code block.
pub proof fn law_splices_inherit_wrappers(
    n: NodeView,
    outcome: Option<Outcome>,
    opts: PostOptions,
    i: int,
)
    requires
        document::inside(n) is Picture,
        0 <= i < postprocess::replacement(n, outcome, opts).len(),
    ensures
        ({
            let r = postprocess::replacement(n, outcome, opts)[i];
            r == n || (document::wraps(r) == document::wraps(n) && (document::inside(r) is Paragraph
                || document::inside(r) is Caption || document::inside(r) is Code))
        }),
{
    let ws = document::wraps(n);
    match postprocess::spliced(outcome, opts) {
        None => {},
        Some(parts) => {
            if opts.keep_picture {
                if i > 0 {
                    document::law_peel_undoes_rewrap(ws, parts[i - 1]);
                    assert(ws + document::wraps(parts[i - 1]) =~= ws);
                }
            } else if let NodeView::Picture { caption, caption_href, .. } = document::inside(n) {
                let all = postprocess::caption_nodes(caption, caption_href) + parts;
                document::law_peel_undoes_rewrap(ws, all[i]);
                assert(ws + document::wraps(all[i]) =~= ws);
            }
        },
    }
}

/// The transform works node by node: a document in two parts is transformed
/// part by part, the second with the page that the first leaves and the
/// outcomes that it does not use. So the order of the nodes is kept.
pub proof fn law_transform_is_local(
    a: Seq<NodeView>,
    b: Seq<NodeView>,
    hidden: bool,
    page: usize,
    regions: Seq<(usize, [u16; 4])>,
    opts: PostOptions,
    outs: Seq<Option<Outcome>>,
)
    ensures
        postprocess::list_requests(a + b, hidden, page, regions, opts)
            == postprocess::list_requests(a, hidden, page, regions, opts)
            + postprocess::list_requests(
            b,
            hidden,
            postprocess::list_page(a, page),
            regions,
            opts,
        ),
        postprocess::list_requests(a, hidden, page, regions, opts).len() <= outs.len()
            ==> postprocess::list_result(a + b, hidden, page, regions, opts, outs)
            == postprocess::list_result(a, hidden, page, regions, opts, outs)
            + postprocess::list_result(
            b,
            hidden,
            postprocess::list_page(a, page),
            regions,
            opts,
            outs.skip(postprocess::list_requests(a, hidden, page, regions, opts).len() as int),
        ),
    decreases a.len(),
{
    if a.len() == 0 {
        assert(a + b =~= b);
        assert(outs.skip(0) =~= outs);
        assert(postprocess::list_requests(a, hidden, page, regions, opts)
            + postprocess::list_requests(b, hidden, page, regions, opts)
            =~= postprocess::list_requests(b, hidden, page, regions, opts));
    } else {
        let used = postprocess::node_requests(a[0], hidden, page, regions, opts);
        let next = postprocess::node_page(a[0], page);
        assert((a + b).skip(1) =~= a.skip(1) + b);
        assert((a + b)[0] == a[0]);
        let k = used.len() as int;
        law_transform_is_local(a.skip(1), b, hidden, next, regions, opts, outs.skip(k));
        let mine = postprocess::list_requests(a.skip(1), hidden, next, regions, opts);
        if k + mine.len() <= outs.len() {
            assert(outs.skip(k).skip(mine.len() as int) =~= outs.skip(k + mine.len()));
        }
        let then = postprocess::list_requests(
            b,
            hidden,
            postprocess::list_page(a, page),
            regions,
            opts,
        );
        assert(used + (mine + then) =~= (used + mine) + then);
    }
}

/// Text without a line feed.
pub open spec fn one_line(s: Seq<char>) -> bool {
    forall|i: int| 0 <= i < s.len() ==> s[i] != '\n'
}

pub proof fn lemma_lines_are_single(s: Seq<char>)
    ensures
        forall|i: int| 0 <= i < text::lines(s).len() ==> one_line(#[trigger] text::lines(s)[i]),
    decreases s.len(),
{
    if s.len() > 0 {
        text::lemma_index_of(s, '\n');
        let i = text::index_of(s, '\n');
        if i < s.len() {
            lemma_lines_are_single(s.skip(i + 1));
            let first = text::drop_cr(s.take(i));
            assert(one_line(first));
            assert forall|k: int| 0 <= k < text::lines(s).len() implies one_line(
                #[trigger] text::lines(s)[k],
            ) by {
                if k > 0 {
                    assert(text::lines(s)[k] == text::lines(s.skip(i + 1))[k - 1]);
                }
            }
        }
    }
}

/// Each line of lines joined by line feeds begins as one of them does.
pub proof fn lemma_lines_of_join(parts: Seq<Seq<char>>, i: int)
    requires
        forall|k: int| 0 <= k < parts.len() ==> one_line(#[trigger] parts[k]),
        0 <= i < text::lines(text::join(parts, "\n"@)).len(),
    ensures
        i < parts.len(),
        ({
            let l = text::lines(text::join(parts, "\n"@))[i];
            l == parts[i] || l == text::drop_cr(parts[i])
        }),
    decreases parts.len(),
{
    reveal_strlit("\n");
    let s = text::join(parts, "\n"@);
    if parts.len() == 0 {
    } else if parts.len() == 1 {
        if s.len() > 0 {
            text::lemma_index_of_is(s, '\n', s.len() as int);
        }
    } else {
        text::lemma_join_front(parts, "\n"@);
        let rest = text::join(parts.skip(1), "\n"@);
        let n = parts[0].len() as int;
        assert(one_line(parts[0]));
        assert forall|k: int| 0 <= k < n implies s[k] != '\n' by {
            assert(s[k] == parts[0][k]);
        }
        assert(s[n] == '\n');
        text::lemma_index_of_is(s, '\n', n);
        assert(s.take(n) =~= parts[0]);
        assert(s.skip(n + 1) =~= rest);
        if i > 0 {
            assert forall|k: int| 0 <= k < parts.skip(1).len() implies one_line(
                #[trigger] parts.skip(1)[k],
            ) by {
                assert(parts.skip(1)[k] == parts[k + 1]);
            }
            assert(text::lines(s)[i] == text::lines(rest)[i - 1]);
            lemma_lines_of_join(parts.skip(1), i - 1);
        }
    }
}

/// Lines joined by line feeds are as many lines, where the last is not empty.
pub proof fn lemma_joined_count(parts: Seq<Seq<char>>)
    requires
        forall|k: int| 0 <= k < parts.len() ==> one_line(#[trigger] parts[k]),
        parts.len() > 0 ==> parts.last().len() > 0,
    ensures
        text::lines(text::join(parts, "\n"@)).len() == parts.len(),
    decreases parts.len(),
{
    reveal_strlit("\n");
    let s = text::join(parts, "\n"@);
    if parts.len() == 1 {
        assert(one_line(parts[0]));
        text::lemma_index_of_is(s, '\n', s.len() as int);
    } else if parts.len() > 1 {
        text::lemma_join_front(parts, "\n"@);
        let rest = parts.skip(1);
        let n = parts[0].len() as int;
        assert(one_line(parts[0]));
        assert forall|k: int| 0 <= k < n implies s[k] != '\n' by {
            assert(s[k] == parts[0][k]);
        }
        assert(s[n] == '\n');
        text::lemma_index_of_is(s, '\n', n);
        assert(s.skip(n + 1) =~= text::join(rest, "\n"@));
        assert forall|k: int| 0 <= k < rest.len() implies one_line(#[trigger] rest[k]) by {
            assert(rest[k] == parts[k + 1]);
        }
        lemma_joined_count(rest);
    }
}

/// What a text starts with past its white space occurs in it.
pub proof fn lemma_trimmed_occurs(s: Seq<char>, pat: Seq<char>)
    requires
        text::starts_with(text::trim_start(s), pat),
    ensures
        exists|at: int| #[trigger] text::occurs_at(s, pat, at),
    decreases s.len(),
{
    if s.len() > 0 && text::is_white(s[0]) {
        lemma_trimmed_occurs(s.skip(1), pat);
        let at = choose|at: int| #[trigger] text::occurs_at(s.skip(1), pat, at);
        assert(s.subrange(at + 1, at + 1 + pat.len()) =~= s.skip(1).subrange(at, at + pat.len()));
        assert(text::occurs_at(s, pat, at + 1));
    } else {
        assert(text::occurs_at(s, pat, 0));
    }
}

/// A text that was made safe for a fence has the lines that it had, each moved
/// one column to the right where it would end the fence, and without a
/// carriage return that a line kept before its line end.
pub proof fn law_defused_text_keeps_its_lines(body: Seq<char>, i: int)
    requires
        0 <= i < text::lines(body).len(),
        text::occurs(body, "```"@) ==> text::lines(body).last().len() > 0,
    ensures
        text::lines(postprocess::defused(body)).len() == text::lines(body).len(),
        ({
            let was = postprocess::defused_line(text::lines(body)[i]);
            let now = text::lines(postprocess::defused(body))[i];
            now == was || now == text::drop_cr(was)
        }),
{
    reveal_strlit("```");
    reveal_strlit(" ");
    let ls = text::lines(body);
    if text::occurs(body, "```"@) {
        let f = |l: Seq<char>| postprocess::defused_line(l);
        let parts = ls.map_values(f);
        lemma_lines_are_single(body);
        assert forall|k: int| 0 <= k < parts.len() implies one_line(#[trigger] parts[k]) by {
            assert(one_line(ls[k]));
            assert(parts[k] == postprocess::defused_line(ls[k]));
        }
        assert(parts.last() == postprocess::defused_line(ls.last()));
        lemma_joined_count(parts);
        lemma_lines_of_join(parts, i);
        assert(parts[i] == postprocess::defused_line(ls[i]));
    } else if text::starts_with(text::trim_start(ls[i]), "```"@) {
        let line = ls[i];
        lemma_line_within(body, i);
        let at = choose|at: int|
            0 <= at && at + line.len() <= body.len() && #[trigger] body.subrange(
                at,
                at + line.len(),
            ) == line;
        lemma_trimmed_occurs(line, "```"@);
        let k = choose|k: int| #[trigger] text::occurs_at(line, "```"@, k);
        assert(body.subrange(at + k, at + k + 3) =~= line.subrange(k, k + 3));
        assert(text::occurs_at(body, "```"@, at + k));
    }
}

/// No line of a text that was made safe for a fence starts with the three
/// backticks that would end the fence.
pub proof fn law_defused_lines_do_not_end_a_fence(body: Seq<char>, i: int)
    requires
        0 <= i < text::lines(postprocess::defused(body)).len(),
    ensures
        !text::starts_with(text::lines(postprocess::defused(body))[i], "```"@),
{
    reveal_strlit("```");
    reveal_strlit(" ");
    let out = postprocess::defused(body);
    let line = text::lines(out)[i];
    if text::occurs(body, "```"@) {
        let f = |l: Seq<char>| postprocess::defused_line(l);
        let ls = text::lines(body);
        let parts = ls.map_values(f);
        lemma_lines_are_single(body);
        assert forall|k: int| 0 <= k < parts.len() implies one_line(#[trigger] parts[k]) by {
            assert(one_line(ls[k]));
            assert(parts[k] == postprocess::defused_line(ls[k]));
        }
        lemma_lines_of_join(parts, i);
        let p = parts[i];
        assert(p == postprocess::defused_line(ls[i]));
        if text::starts_with(line, "```"@) {
            assert(line.subrange(0, 3) == "```"@);
            assert(line.len() >= 3);
            assert(line[0] == line.subrange(0, 3)[0]);
            assert(line[0] == '`');
            assert(p[0] == '`');
            if !text::starts_with(text::trim_start(ls[i]), "```"@) {
                assert(p == ls[i]);
                assert(text::trim_start(ls[i]) == ls[i]);
                assert(ls[i].subrange(0, 3) =~= line.subrange(0, 3));
            }
        }
    } else {
        if text::starts_with(line, "```"@) {
            lemma_line_within(body, i);
            let at = choose|at: int|
                0 <= at && at + line.len() <= body.len() && #[trigger] body.subrange(
                    at,
                    at + line.len(),
                ) == line;
            assert(body.subrange(at, at + 3) =~= line.subrange(0, 3));
            assert(text::occurs_at(body, "```"@, at));
        }
    }
}

/// A line stands in the text that it is a line of.
pub proof fn lemma_line_within(s: Seq<char>, i: int)
    requires
        0 <= i < text::lines(s).len(),
    ensures
        exists|at: int|
            0 <= at && at + text::lines(s)[i].len() <= s.len() && #[trigger] s.subrange(
                at,
                at + text::lines(s)[i].len(),
            ) == text::lines(s)[i],
    decreases s.len(),
{
    text::lemma_index_of(s, '\n');
    let n = text::index_of(s, '\n');
    let line = text::lines(s)[i];
    if n < s.len() {
        if i == 0 {
            assert(s.subrange(0int, 0int + line.len()) =~= line);
        } else {
            let rest = s.skip(n + 1);
            lemma_line_within(rest, i - 1);
            let at = choose|at: int|
                0 <= at && at + line.len() <= rest.len() && #[trigger] rest.subrange(
                    at,
                    at + line.len(),
                ) == line;
            assert(s.subrange(n + 1 + at, n + 1 + at + line.len()) =~= rest.subrange(
                at,
                at + line.len(),
            ));
        }
    } else {
        assert(s.subrange(0int, 0int + s.len()) =~= s);
    }
}

/// Every line of a blockquote starts with its mark.
pub proof fn law_quote_marks_every_line(body: Seq<char>, i: int)
    requires
        0 <= i < text::lines(postprocess::quoted(body)).len(),
    ensures
        text::starts_with(text::lines(postprocess::quoted(body))[i], ">"@),
{
    reveal_strlit(">");
    reveal_strlit("> ");
    let f = |l: Seq<char>| postprocess::quoted_line(l);
    let ls = text::lines(body);
    let parts = ls.map_values(f);
    lemma_lines_are_single(body);
    assert forall|k: int| 0 <= k < parts.len() implies one_line(#[trigger] parts[k]) by {
        assert(one_line(ls[k]));
        assert(parts[k] == postprocess::quoted_line(ls[k]));
    }
    lemma_lines_of_join(parts, i);
    let line = text::lines(postprocess::quoted(body))[i];
    assert(parts[i] == postprocess::quoted_line(ls[i]));
    assert(line.len() >= 1 && line[0] == '>');
    assert(line.subrange(0, 1) =~= ">"@);
}

/// A caption survives: where the picture goes, its caption stands first in its
/// place, in the picture's wrappers and with its link.
pub proof fn law_captions_survive(n: NodeView, outcome: Option<Outcome>, opts: PostOptions)
    requires
        (document::inside(n) matches NodeView::Picture { caption: Some(c), .. } && !text::blank(c)),
    ensures
        postprocess::replacement(n, outcome, opts).len() > 0,
        ({
            let first = postprocess::replacement(n, outcome, opts)[0];
            first == n || (document::wraps(first) == document::wraps(n) && match document::inside(
                n,
            ) {
                NodeView::Picture { caption: Some(c), caption_href: Some(h), .. } => {
                    document::inside(first) == (NodeView::Caption { text: c, href: h })
                },
                NodeView::Picture { caption: Some(c), caption_href: None, .. } => {
                    document::inside(first) == (NodeView::Paragraph { text: c })
                },
                _ => false,
            })
        }),
{
    let ws = document::wraps(n);
    if let NodeView::Picture { caption, caption_href, .. } = document::inside(n) {
        let head = postprocess::caption_nodes(caption, caption_href)[0];
        document::law_peel_undoes_rewrap(ws, head);
        assert(ws + document::wraps(head) =~= ws);
    }
}

/// A picture that is shown itself stays where it is, and its text follows it.
pub proof fn law_kept_pictures_stand_first(n: NodeView, outcome: Option<Outcome>, opts: PostOptions)
    requires
        document::inside(n) is Picture,
        opts.keep_picture,
    ensures
        postprocess::replacement(n, outcome, opts).len() > 0,
        postprocess::replacement(n, outcome, opts)[0] == n,
{
}

/// A picture without text goes, and only its caption stays; where the picture
/// itself is shown it stays as it is.
pub proof fn law_empty_results_drop_the_picture(n: NodeView, o: Outcome, opts: PostOptions)
    requires
        document::inside(n) is Picture,
        text::blank(o.text),
    ensures
        opts.keep_picture ==> postprocess::replacement(n, Some(o), opts) == seq![n],
        !opts.keep_picture ==> postprocess::replacement(n, Some(o), opts).len() <= 1,
        !opts.keep_picture ==> forall|i: int|
            0 <= i < postprocess::replacement(n, Some(o), opts).len() ==> !(document::inside(
                #[trigger] postprocess::replacement(n, Some(o), opts)[i],
            ) is Picture),
{
    let ws = document::wraps(n);
    if !opts.keep_picture {
        if let NodeView::Picture { caption, caption_href, .. } = document::inside(n) {
            let heads = postprocess::caption_nodes(caption, caption_href);
            assert(heads + Seq::<NodeView>::empty() =~= heads);
            if heads.len() > 0 {
                document::law_peel_undoes_rewrap(ws, heads[0]);
            }
        }
    }
}

/// A node without pictures asks for no image and stays as it is, in its place.
pub proof fn law_nodes_without_pictures_stay(
    n: NodeView,
    hidden: bool,
    page: usize,
    regions: Seq<(usize, [u16; 4])>,
    opts: PostOptions,
    outs: Seq<Option<Outcome>>,
)
    requires
        postprocess::node_pictures(n, opts) == 0,
    ensures
        postprocess::node_requests(n, hidden, page, regions, opts).len() == 0,
        postprocess::node_result(n, hidden, page, regions, opts, outs) == seq![n],
{
    lemma_node_counts(n, hidden, page, regions, opts, outs);
    postprocess::lemma_node_pictures(n, hidden, page, regions, opts, outs);
    lemma_node_unread(n, hidden, page, regions, opts, outs);
}

/// A document without pictures stays as it is.
pub proof fn law_documents_without_pictures_stay(
    nodes: Seq<NodeView>,
    opts: PostOptions,
    outs: Seq<Option<Outcome>>,
)
    requires
        postprocess::list_pictures(nodes, opts) == 0,
    ensures
        postprocess::requests(nodes, opts).len() == 0,
        postprocess::transformed(nodes, opts, outs) == nodes,
{
    let regions = postprocess::regions(nodes, opts);
    lemma_list_counts(nodes, false, 0, regions, opts, outs);
    postprocess::lemma_list_pictures(nodes, false, 0, regions, opts, outs);
    lemma_list_unread(nodes, false, 0, regions, opts, outs);
}

/// What stands in the place of a node differs from it in pictures alone: a
/// picture may go and leave its caption and its text, a group and a table keep
/// everything but the pictures in them, and any other node stays.
pub open spec fn repictured(n: NodeView, block: Seq<NodeView>, opts: PostOptions) -> bool
    decreases document::weight(n), 0int,
{
    proof {
        document::lemma_inside_weight(n);
    }
    match document::inside(n) {
        NodeView::Picture { .. } => forall|i: int|
            0 <= i < block.len() ==> in_place_of(#[trigger] block[i], n),
        NodeView::Group { key, layer, children } => {
            &&& block.len() == 1
            &&& document::wraps(block[0]) == document::wraps(n)
            &&& match document::inside(block[0]) {
                NodeView::Group { key: k, layer: l, children: kids } => k == key && l == layer
                    && repictured_list(children, kids, opts),
                _ => false,
            }
        },
        NodeView::Table { key, rows, location, cells } => {
            &&& block.len() == 1
            &&& document::wraps(block[0]) == document::wraps(n)
            &&& match document::inside(block[0]) {
                NodeView::Table { key: k, rows: r, location: l, cells: c } => k == key && r == rows
                    && l == location && (c == cells || (opts.reads_hidden() && repictured_cells(
                    cells,
                    c,
                    opts,
                ))),
                _ => false,
            }
        },
        _ => block == seq![n],
    }
}

/// The picture itself, or a caption or text in its wrappers.
pub open spec fn in_place_of(m: NodeView, n: NodeView) -> bool {
    m == n || (document::wraps(m) == document::wraps(n) && (document::inside(m) is Paragraph
        || document::inside(m) is Caption || document::inside(m) is Code))
}

/// The same of a list: what stands in the place of each node follows what
/// stands in the place of the node before it.
pub open spec fn repictured_list(
    nodes: Seq<NodeView>,
    out: Seq<NodeView>,
    opts: PostOptions,
) -> bool
    decreases document::weights(nodes), 1int,
{
    if nodes.len() == 0 {
        out.len() == 0
    } else {
        proof {
            document::lemma_inside_weight(nodes[0]);
        }
        exists|k: int|
            #![trigger out.take(k)]
            0 <= k <= out.len() && repictured(nodes[0], out.take(k), opts) && repictured_list(
                nodes.skip(1),
                out.skip(k),
                opts,
            )
    }
}

/// The same of the rich cells of a table.
pub open spec fn repictured_cells(
    cells: Seq<Seq<NodeView>>,
    out: Seq<Seq<NodeView>>,
    opts: PostOptions,
) -> bool
    decreases document::cell_weights(cells), 2int + cells.len(),
{
    if cells.len() == 0 {
        out.len() == 0
    } else {
        out.len() > 0 && repictured_list(cells[0], out[0], opts) && repictured_cells(
            cells.skip(1),
            out.skip(1),
            opts,
        )
    }
}

/// Apart from pictures and what is put in their place, every node is
/// unchanged, in the same group and in the same order.
pub proof fn law_only_pictures_change(
    nodes: Seq<NodeView>,
    opts: PostOptions,
    outs: Seq<Option<Outcome>>,
)
    ensures
        repictured_list(nodes, postprocess::transformed(nodes, opts, outs), opts),
{
    lemma_list_repictured(nodes, false, 0, postprocess::regions(nodes, opts), opts, outs);
}

proof fn lemma_list_repictured(
    nodes: Seq<NodeView>,
    hidden: bool,
    page: usize,
    regions: Seq<(usize, [u16; 4])>,
    opts: PostOptions,
    outs: Seq<Option<Outcome>>,
)
    ensures
        repictured_list(
            nodes,
            postprocess::list_result(nodes, hidden, page, regions, opts, outs),
            opts,
        ),
    decreases document::weights(nodes), 1int,
{
    if nodes.len() > 0 {
        document::lemma_inside_weight(nodes[0]);
        let used = postprocess::node_requests(nodes[0], hidden, page, regions, opts).len() as int;
        let next = postprocess::node_page(nodes[0], page);
        lemma_node_repictured(nodes[0], hidden, page, regions, opts, outs);
        lemma_list_repictured(nodes.skip(1), hidden, next, regions, opts, outs.skip(used));
        let head = postprocess::node_result(nodes[0], hidden, page, regions, opts, outs);
        let tail = postprocess::list_result(
            nodes.skip(1),
            hidden,
            next,
            regions,
            opts,
            outs.skip(used),
        );
        let out = postprocess::list_result(nodes, hidden, page, regions, opts, outs);
        assert(out =~= head + tail);
        assert(out.take(head.len() as int) =~= head);
        assert(out.skip(head.len() as int) =~= tail);
    }
}

proof fn lemma_cells_repictured(
    cells: Seq<Seq<NodeView>>,
    page: usize,
    regions: Seq<(usize, [u16; 4])>,
    opts: PostOptions,
    outs: Seq<Option<Outcome>>,
)
    ensures
        repictured_cells(
            cells,
            postprocess::cell_result(cells, page, regions, opts, outs),
            opts,
        ),
    decreases document::cell_weights(cells), 2int + cells.len(),
{
    if cells.len() > 0 {
        let used = postprocess::list_requests(cells[0], false, page, regions, opts).len() as int;
        lemma_list_repictured(cells[0], false, page, regions, opts, outs);
        lemma_cells_repictured(cells.skip(1), page, regions, opts, outs.skip(used));
        let out = postprocess::cell_result(cells, page, regions, opts, outs);
        assert(out.skip(1) =~= postprocess::cell_result(
            cells.skip(1),
            page,
            regions,
            opts,
            outs.skip(used),
        ));
    }
}

proof fn lemma_node_repictured(
    n: NodeView,
    hidden: bool,
    page: usize,
    regions: Seq<(usize, [u16; 4])>,
    opts: PostOptions,
    outs: Seq<Option<Outcome>>,
)
    ensures
        repictured(
            n,
            postprocess::node_result(n, hidden, page, regions, opts, outs),
            opts,
        ),
    decreases document::weight(n), 0int,
{
    document::lemma_inside_weight(n);
    document::law_rewrap_undoes_peel(n);
    let ws = document::wraps(n);
    let block = postprocess::node_result(n, hidden, page, regions, opts, outs);
    match document::inside(n) {
        NodeView::Picture { image, .. } => {
            if postprocess::verdict(image, ws, hidden, page, regions, opts) == Verdict::Read {
                assert forall|i: int| 0 <= i < block.len() implies in_place_of(
                    #[trigger] block[i],
                    n,
                ) by {
                    law_splices_inherit_wrappers(n, outs[0], opts, i);
                }
            }
        },
        NodeView::Group { key, layer, children } => {
            let below = hidden || postprocess::group_hides(ws, layer, opts.target);
            lemma_list_repictured(children, below, page, regions, opts, outs);
            let whole = NodeView::Group {
                key,
                layer,
                children: postprocess::list_result(children, below, page, regions, opts, outs),
            };
            document::law_peel_undoes_rewrap(ws, whole);
            assert(ws + document::wraps(whole) =~= ws);
        },
        NodeView::Table { key, rows, location, cells } => {
            if opts.reads_hidden() {
                lemma_cells_repictured(cells, page, regions, opts, outs);
                let whole = NodeView::Table {
                    key,
                    rows,
                    location,
                    cells: postprocess::cell_result(cells, page, regions, opts, outs),
                };
                document::law_peel_undoes_rewrap(ws, whole);
                assert(ws + document::wraps(whole) =~= ws);
            }
        },
        _ => {},
    }
}

} // verus!
