//! What the transform of an item tree is for: the recognised texts stand in
//! the tree, each at its picture's place, and everything else stays.

use vstd::prelude::*;

use crate::document::NodeView;
use crate::engine::Outcome;
use crate::postprocess;
use crate::postprocess::{OutputMode, PostOptions, Verdict};
use crate::render_laws;
use crate::text;
use crate::tree;
use crate::tree::{Item, Kind, Tree};

verus! {

/// An item shows a node: code as code and a paragraph as text, word for word.
pub open spec fn shows_part(item: Item, part: NodeView) -> bool {
    match part {
        NodeView::Code { text } => item.kind matches Kind::Code { text: t } && t == text,
        NodeView::Paragraph { text } => item.kind matches Kind::Text { text: t } && t == text,
        _ => false,
    }
}

/// How many characters an item's text has.
pub open spec fn text_len(item: Item) -> nat {
    match item.kind {
        Kind::Code { text } => text.len(),
        Kind::Text { text } => text.len(),
        _ => 0,
    }
}

/// Every item that replaces a picture carries exactly the text of its node. It
/// stands where the picture stood: under the same parent, on the same layer
/// and page, with the same comments and source, and its span covers its text.
pub proof fn law_new_items_carry_the_texts(
    t: Tree,
    id: usize,
    parts: Seq<NodeView>,
    keep: bool,
    j: int,
)
    requires
        id < t.items.len(),
        0 <= j < parts.len(),
        tree::is_part(parts[j]),
        t.items.len() + parts.len() <= usize::MAX,
    ensures
        ({
            let r = tree::replaced(t, id, parts, keep);
            let old = t.items[id as int];
            let item = r.items[t.items.len() + j];
            &&& r.items.len() == t.items.len() + parts.len()
            &&& shows_part(item, parts[j])
            &&& !item.deleted
            &&& item.parent == old.parent
            &&& item.children.len() == 0
            &&& item.layer == old.layer
            &&& item.comments == old.comments
            &&& item.source == old.source
            &&& item.prov is Some <==> old.prov is Some
            &&& old.prov matches Some(p) ==> item.prov->0.page_no == p.page_no
                && item.prov->0.bbox == p.bbox && item.prov->0.bottom_left == p.bottom_left
                && item.prov->0.charspan[0] == 0 && (text_len(item) <= usize::MAX
                ==> item.prov->0.charspan[1] == text_len(item))
        }),
{
}

/// The new items stand one after the other at the picture's place in its
/// parent's list, behind what stood under the picture where it goes, or behind
/// the picture where it stays. What stood before and after it stays there.
pub proof fn law_new_items_stand_at_the_picture(
    t: Tree,
    id: usize,
    parts: Seq<NodeView>,
    keep: bool,
    at: int,
)
    requires
        t.well_formed(),
        id < t.items.len(),
        t.items[id as int].parent != Some(id),
        t.has_place(t.items[id as int].parent),
        t.items.len() + parts.len() <= usize::MAX,
        0 <= at < t.under(t.items[id as int].parent).len(),
        t.under(t.items[id as int].parent)[at] == id,
    ensures
        ({
            let was = t.under(t.items[id as int].parent);
            let kids = t.items[id as int].children;
            let now = tree::replaced(t, id, parts, keep).under(t.items[id as int].parent);
            let first = if keep {
                at + 1
            } else {
                at + kids.len()
            };
            &&& now.len() == was.len() + parts.len() + if keep {
                0int
            } else {
                kids.len() - 1
            }
            &&& forall|k: int| 0 <= k < at ==> #[trigger] now[k] == was[k]
            &&& keep ==> now[at] == id
            &&& !keep ==> forall|k: int| 0 <= k < kids.len() ==> now[at + k] == #[trigger] kids[k]
            &&& forall|j: int| 0 <= j < parts.len() ==> #[trigger] now[first + j] == t.items.len() + j
            &&& forall|k: int|
                at < k < was.len() ==> #[trigger] was[k] == now[first + parts.len() + (k - at - 1)]
        }),
{
    reveal(Tree::well_formed);
    let parent = t.items[id as int].parent;
    let was = t.under(parent);
    let new = tree::inserted(t, id, parts, keep);
    assert(was.no_duplicates());
    assert(was.contains(id));
    let i = was.index_of(id);
    assert(was[i] == id && 0 <= i < was.len());
    assert(i == at);
    tree::lemma_under_replaced(t, id, parts, keep, parent);
    let now = tree::replaced(t, id, parts, keep).under(parent);
    assert(now == tree::placed(was, id, new, keep));
    let kids = t.items[id as int].children;
    let first = if keep {
        at + 1
    } else {
        at + kids.len()
    };
    assert(new.len() == parts.len() + if keep {
        0int
    } else {
        kids.len() as int
    });
    assert forall|j: int| 0 <= j < parts.len() implies #[trigger] now[first + j] == t.items.len()
        + j by {
        let c = if keep {
            0int
        } else {
            kids.len() as int
        };
        assert(new[c + j] == (t.items.len() + j) as usize);
    }
    if !keep {
        assert forall|k: int| 0 <= k < kids.len() implies now[at + k] == #[trigger] kids[k] by {
            assert(new[k] == kids[k]);
        }
    }
    assert forall|k: int| at < k < was.len() implies #[trigger] was[k] == now[first + parts.len()
        + (k - at - 1)] by {}
}

/// Replacing one picture touches nothing else: every other item keeps what it
/// is and all that belongs to it, no other item goes, and an item gets another
/// parent only by moving up from under a picture that went.
pub proof fn law_other_items_stay(
    t: Tree,
    id: usize,
    parts: Seq<NodeView>,
    keep: bool,
    i: int,
)
    requires
        id < t.items.len(),
        0 <= i < t.items.len(),
    ensures
        ({
            let r = tree::replaced(t, id, parts, keep);
            let (was, now) = (t.items[i], r.items[i]);
            &&& now.kind == was.kind
            &&& now.layer == was.layer
            &&& now.prov == was.prov
            &&& now.comments == was.comments
            &&& now.source == was.source
            &&& i != id || keep ==> now.deleted == was.deleted
            &&& i == id && !keep ==> now.deleted
            &&& now.parent != was.parent ==> !keep && now.parent == t.items[id as int].parent
                && t.items[id as int].children.contains(i as usize)
            &&& !keep && t.items[id as int].children.contains(i as usize) ==> now.parent
                == t.items[id as int].parent
            &&& t.items[id as int].parent != Some(i as usize) && i != id ==> now.children
                == was.children
            &&& t.items[id as int].parent != Some(i as usize) && keep ==> now.children
                == was.children
            &&& t.items[id as int].parent is Some ==> r.body == t.body
        }),
{
}

/// Items from `base` on show a recognised text in a mode, and none of them is
/// deleted.
pub open spec fn shown_at(
    items: Seq<Item>,
    base: int,
    parts: Seq<NodeView>,
    o: Outcome,
    mode: OutputMode,
) -> bool {
    &&& render_laws::renders(o, mode, parts)
    &&& 0 <= base
    &&& base + parts.len() <= items.len()
    &&& forall|j: int|
        0 <= j < parts.len() ==> shows_part(items[base + j], #[trigger] parts[j])
            && !items[base + j].deleted
}

/// A recognised text stands somewhere among the items from `from` on.
pub open spec fn is_shown(items: Seq<Item>, from: int, o: Outcome, mode: OutputMode) -> bool {
    exists|base: int, parts: Seq<NodeView>|
        from <= base && #[trigger] shown_at(items, base, parts, o, mode)
}

/// New items stay through the replacements that follow.
proof fn lemma_shown_stays(
    t: Tree,
    ids: Seq<usize>,
    now: Tree,
    covers: Seq<(usize, usize)>,
    opts: PostOptions,
    outs: Seq<Option<Outcome>>,
    i: int,
)
    requires
        t.items.len() <= i < now.items.len(),
        forall|k: int| 0 <= k < ids.len() ==> (#[trigger] ids[k]) < t.items.len(),
    ensures
        ({
            let r = tree::result_of(t, ids, now, covers, opts, outs);
            &&& i < r.items.len()
            &&& r.items[i].kind == now.items[i].kind
            &&& r.items[i].deleted == now.items[i].deleted
        }),
    decreases ids.len(),
{
    if ids.len() > 0 {
        assert(ids[0] < t.items.len());
        let rest = ids.skip(1);
        assert forall|k: int| 0 <= k < rest.len() implies (#[trigger] rest[k]) < t.items.len() by {
            assert(rest[k] == ids[k + 1]);
        }
        if tree::tree_verdict(t, ids[0], covers, opts) == Verdict::Read {
            let next = match postprocess::spliced(outs[0], opts) {
                Some(parts) => tree::replaced(now, ids[0], parts, opts.keep_picture),
                None => now,
            };
            lemma_shown_stays(t, rest, next, covers, opts, outs.skip(1), i);
        } else {
            lemma_shown_stays(t, rest, now, covers, opts, outs, i);
        }
    }
}

proof fn lemma_every_text(
    t: Tree,
    ids: Seq<usize>,
    now: Tree,
    covers: Seq<(usize, usize)>,
    opts: PostOptions,
    outs: Seq<Option<Outcome>>,
    k: int,
)
    requires
        t.items.len() <= now.items.len(),
        opts.mode != OutputMode::Placeholder,
        forall|m: int| 0 <= m < ids.len() ==> (#[trigger] ids[m]) < t.items.len(),
        outs.len() == tree::requests_of(t, ids, covers, opts).len(),
        0 <= k < outs.len(),
        outs[k] matches Some(o) && !text::blank(o.text),
    ensures
        is_shown(
            tree::result_of(t, ids, now, covers, opts, outs).items,
            t.items.len() as int,
            outs[k]->0,
            opts.mode,
        ),
    decreases ids.len(),
{
    assert(ids.len() > 0);
    assert(ids[0] < t.items.len());
    let rest = ids.skip(1);
    assert forall|m: int| 0 <= m < rest.len() implies (#[trigger] rest[m]) < t.items.len() by {
        assert(rest[m] == ids[m + 1]);
    }
    let o = outs[k]->0;
    if tree::tree_verdict(t, ids[0], covers, opts) == Verdict::Read {
        let next = match postprocess::spliced(outs[0], opts) {
            Some(parts) => tree::replaced(now, ids[0], parts, opts.keep_picture),
            None => now,
        };
        if k == 0 {
            render_laws::law_recognised_texts_are_shown(o, opts);
            let parts = postprocess::spliced(Some(o), opts)->0;
            let base = now.items.len() as int;
            let r = tree::result_of(t, ids, now, covers, opts, outs);
            assert forall|j: int| 0 <= j < parts.len() implies shows_part(
                r.items[base + j],
                #[trigger] parts[j],
            ) && !r.items[base + j].deleted by {
                lemma_shown_stays(t, rest, next, covers, opts, outs.skip(1), base + j);
                assert(next.items[base + j] == tree::fresh(now.items[ids[0] as int], parts[j]));
            }
            if parts.len() > 0 {
                lemma_shown_stays(
                    t,
                    rest,
                    next,
                    covers,
                    opts,
                    outs.skip(1),
                    base + parts.len() - 1,
                );
            }
            assert(shown_at(r.items, base, parts, o, opts.mode));
        } else {
            assert(outs.skip(1)[k - 1] == outs[k]);
            lemma_every_text(t, rest, next, covers, opts, outs.skip(1), k - 1);
        }
    } else {
        lemma_every_text(t, rest, now, covers, opts, outs, k);
    }
}

/// Every text that was read stands in the tree after the transform, whole and
/// in the mode that was chosen.
pub proof fn law_every_text_stands_in_the_tree(
    t: Tree,
    covers: Seq<(usize, usize)>,
    opts: PostOptions,
    outs: Seq<Option<Outcome>>,
    k: int,
)
    requires
        t.well_formed(),
        opts.mode != OutputMode::Placeholder,
        outs.len() == tree::tree_requests(t, covers, opts).len(),
        0 <= k < outs.len(),
        outs[k] matches Some(o) && !text::blank(o.text),
    ensures
        is_shown(
            tree::tree_transformed(t, covers, opts, outs).items,
            t.items.len() as int,
            outs[k]->0,
            opts.mode,
        ),
{
    tree::lemma_pictures(t);
    let ids = tree::pictures(t);
    assert forall|m: int| 0 <= m < ids.len() implies (#[trigger] ids[m]) < t.items.len() by {}
    lemma_every_text(t, ids, t, covers, opts, outs, k);
}

/// Pictures are worked on one after the other: a first list of them with the
/// outcomes for its own images, then a second with those that follow.
pub proof fn law_outcomes_go_to_their_pictures(
    t: Tree,
    a: Seq<usize>,
    b: Seq<usize>,
    now: Tree,
    covers: Seq<(usize, usize)>,
    opts: PostOptions,
    outs: Seq<Option<Outcome>>,
)
    requires
        tree::requests_of(t, a, covers, opts).len() <= outs.len(),
    ensures
        ({
            let used = tree::requests_of(t, a, covers, opts).len() as int;
            let mid = tree::result_of(t, a, now, covers, opts, outs);
            &&& tree::result_of(t, a + b, now, covers, opts, outs) == tree::result_of(
                t,
                b,
                mid,
                covers,
                opts,
                outs.skip(used),
            )
            &&& tree::tally_of(t, a + b, covers, opts, outs) == postprocess::plus(
                tree::tally_of(t, a, covers, opts, outs),
                tree::tally_of(t, b, covers, opts, outs.skip(used)),
            )
        }),
    decreases a.len(),
{
    if a.len() > 0 {
        let rest = a.skip(1);
        assert((a + b).skip(1) =~= rest + b);
        assert((a + b)[0] == a[0]);
        if tree::tree_verdict(t, a[0], covers, opts) == Verdict::Read {
            let next = match postprocess::spliced(outs[0], opts) {
                Some(parts) => tree::replaced(now, a[0], parts, opts.keep_picture),
                None => now,
            };
            law_outcomes_go_to_their_pictures(t, rest, b, next, covers, opts, outs.skip(1));
            let n = tree::requests_of(t, rest, covers, opts).len() as int;
            assert(outs.skip(1).skip(n) =~= outs.skip(n + 1));
        } else {
            law_outcomes_go_to_their_pictures(t, rest, b, now, covers, opts, outs);
        }
    } else {
        assert(a + b =~= b);
        assert(outs.skip(0) =~= outs);
    }
}

/// One picture by itself: where it is not read the tree stays; where it is,
/// its own outcome decides. A text takes its place, an image without text
/// leaves nothing, and one that no engine could read stays.
pub proof fn law_one_picture(
    t: Tree,
    id: usize,
    now: Tree,
    covers: Seq<(usize, usize)>,
    opts: PostOptions,
    outcome: Option<Outcome>,
)
    requires
        opts.mode != OutputMode::Placeholder,
    ensures
        ({
            let r = tree::result_of(t, seq![id], now, covers, opts, seq![outcome]);
            if tree::tree_verdict(t, id, covers, opts) != Verdict::Read {
                r == now
            } else {
                match outcome {
                    None => r == now,
                    Some(o) => if text::blank(o.text) {
                        r == if opts.keep_picture {
                            now
                        } else {
                            tree::replaced(now, id, seq![], false)
                        }
                    } else {
                        exists|parts: Seq<NodeView>|
                            #[trigger] render_laws::renders(o, opts.mode, parts) && r
                                == tree::replaced(now, id, parts, opts.keep_picture)
                    },
                }
            }
        }),
{
    reveal_with_fuel(tree::result_of, 2);
    assert(seq![id].skip(1) =~= Seq::<usize>::empty());
    assert(seq![id][0] == id);
    assert(seq![outcome][0] == outcome);
    if let Some(o) = outcome {
        if !text::blank(o.text) {
            render_laws::law_recognised_texts_are_shown(o, opts);
        }
    }
}

/// What one picture of a tree adds to the counters.
pub proof fn law_one_picture_is_counted(
    t: Tree,
    id: usize,
    covers: Seq<(usize, usize)>,
    opts: PostOptions,
    outcome: Option<Outcome>,
)
    ensures
        ({
            let c = tree::tally_of(t, seq![id], covers, opts, seq![outcome]);
            let v = tree::tree_verdict(t, id, covers, opts);
            &&& c.pictures == 1
            &&& c.skipped_small == 1 <==> v == Verdict::Small
            &&& c.skipped_structured == 1 <==> v == Verdict::Structured
            &&& c.failed == 1 <==> v == Verdict::Read && outcome is None
            &&& c.empty == 1 <==> v == Verdict::Read && (outcome matches Some(o) && text::blank(
                o.text,
            ))
            &&& c.ocred == 1 <==> v == Verdict::Read && (outcome matches Some(o) && !text::blank(
                o.text,
            ))
            &&& c.cached == 1 <==> v == Verdict::Read && (outcome matches Some(o) && o.from_cache)
            &&& c.skipped_small <= 1 && c.skipped_structured <= 1 && c.failed <= 1 && c.empty <= 1
                && c.ocred <= 1 && c.cached <= 1
        }),
{
    reveal_with_fuel(tree::tally_of, 2);
    assert(seq![id].skip(1) =~= Seq::<usize>::empty());
    assert(seq![id][0] == id);
    assert(seq![outcome][0] == outcome);
}

/// Some item comes before another in a list.
pub open spec fn precedes(s: Seq<usize>, a: usize, b: usize) -> bool {
    exists|i: int, j: int| 0 <= i < j < s.len() && #[trigger] s[i] == a && #[trigger] s[j] == b
}

/// What is visited from some items on: each of them in the opposite order, and
/// behind an item those under it.
spec fn visit_ready(t: Tree, pending: Seq<usize>, seen: Seq<bool>) -> bool {
    &&& seen.len() == t.items.len()
    &&& pending.no_duplicates()
    &&& forall|k: int|
        0 <= k < pending.len() ==> (#[trigger] pending[k]) < t.items.len()
            && !seen[pending[k] as int] && !t.items[pending[k] as int].deleted
            && tree::parent_seen(t.items, pending[k], seen)
    &&& forall|i: usize|
        i < t.items.len() && #[trigger] seen[i as int] ==> tree::parent_seen(t.items, i, seen)
}

/// An order is complete and keeps lists in order from some items on.
spec fn visits_well(t: Tree, pending: Seq<usize>, v: Seq<usize>) -> bool {
    &&& pending.len() > 0 ==> v.len() > 0 && v[0] == pending.last()
    &&& forall|k: int| 0 <= k < pending.len() ==> v.contains(#[trigger] pending[k])
    &&& forall|a: int, b: int|
        0 <= a < b < pending.len() ==> precedes(v, #[trigger] pending[b], #[trigger] pending[a])
    &&& forall|i: int| 0 <= i < v.len() ==> keeps_children(t, v, #[trigger] v[i])
    &&& forall|i: int|
        0 <= i < v.len() && t.items[(#[trigger] v[i]) as int].children.len() > 0 ==> i + 1 < v.len()
            && v[i + 1] == t.items[v[i] as int].children[0]
}

/// The items under one are all there, in order.
pub open spec fn keeps_children(t: Tree, v: Seq<usize>, id: usize) -> bool {
    let kids = t.items[id as int].children;
    &&& forall|k: int| 0 <= k < kids.len() ==> v.contains(#[trigger] kids[k])
    &&& forall|a: int, b: int|
        0 <= a < b < kids.len() ==> precedes(v, #[trigger] kids[a], #[trigger] kids[b])
}

proof fn lemma_behind(x: usize, v: Seq<usize>, a: usize, b: usize)
    ensures
        precedes(v, a, b) ==> precedes(seq![x] + v, a, b),
        v.contains(b) ==> precedes(seq![x] + v, x, b),
        v.contains(b) ==> (seq![x] + v).contains(b),
{
    let w = seq![x] + v;
    if precedes(v, a, b) {
        let (i, j) = choose|i: int, j: int|
            0 <= i < j < v.len() && #[trigger] v[i] == a && #[trigger] v[j] == b;
        assert(w[i + 1] == a && w[j + 1] == b);
    }
    if v.contains(b) {
        let j = choose|j: int| 0 <= j < v.len() && v[j] == b;
        assert(w[0] == x && w[j + 1] == b);
    }
}

proof fn lemma_visits_well(t: Tree, pending: Seq<usize>, seen: Seq<bool>)
    requires
        t.well_formed(),
        visit_ready(t, pending, seen),
    ensures
        visits_well(t, pending, tree::visits(t.items, pending, seen)),
    decreases tree::unseen(seen), pending.len(),
{
    reveal(Tree::well_formed);
    let v = tree::visits(t.items, pending, seen);
    if pending.len() > 0 {
        let id = pending.last();
        let rest = pending.drop_last();
        let kids = t.items[id as int].children;
        let back = kids.reverse();
        let next = rest + back;
        let marked = seen.update(id as int, true);
        tree::lemma_unseen_update(seen, id as int);
        assert(pending[pending.len() - 1] == id);
        assert(t.has_place(Some(id)));
        assert(t.under(Some(id)) == kids);
        assert forall|j: int| 0 <= j < kids.len() implies (#[trigger] kids[j]) < t.items.len()
            && t.items[kids[j] as int].parent == Some(id) && !t.items[kids[j] as int].deleted
            && !seen[kids[j] as int] && kids[j] != id by {
            assert(t.under(Some(id))[j] == kids[j]);
            if seen[kids[j] as int] {
                assert(tree::parent_seen(t.items, kids[j], seen));
            }
            if kids[j] == id {
                assert(tree::parent_seen(t.items, id, seen));
            }
        }
        assert forall|j: int| 0 <= j < back.len() implies #[trigger] back[j] == kids[kids.len() - 1
            - j] by {}
        assert forall|k: int| 0 <= k < next.len() implies (#[trigger] next[k]) < t.items.len()
            && !marked[next[k] as int] && !t.items[next[k] as int].deleted && tree::parent_seen(
            t.items,
            next[k],
            marked,
        ) by {
            if k < rest.len() {
                assert(next[k] == pending[k]);
                assert(pending[k] != pending[pending.len() - 1]);
            } else {
                assert(next[k] == back[k - rest.len()]);
                assert(next[k] == kids[kids.len() - 1 - (k - rest.len())]);
            }
        }
        assert(next.no_duplicates()) by {
            assert(kids.no_duplicates());
            assert forall|a: int, b: int|
                0 <= a < next.len() && 0 <= b < next.len() && a != b implies next[a] != next[b] by {
                let n = rest.len() as int;
                if a < n && b < n {
                    assert(next[a] == pending[a] && next[b] == pending[b]);
                } else if a >= n && b >= n {
                    assert(next[a] == kids[kids.len() - 1 - (a - n)]);
                    assert(next[b] == kids[kids.len() - 1 - (b - n)]);
                } else {
                    let (x, y) = if a < n {
                        (a, b)
                    } else {
                        (b, a)
                    };
                    assert(next[x] == pending[x]);
                    assert(next[y] == kids[kids.len() - 1 - (y - n)]);
                    assert(tree::parent_seen(t.items, pending[x], seen));
                }
            }
        }
        assert forall|i: usize| i < t.items.len() && #[trigger] marked[i as int] implies
            tree::parent_seen(t.items, i, marked) by {
            if i != id {
                assert(seen[i as int]);
                assert(tree::parent_seen(t.items, i, seen));
            } else {
                assert(tree::parent_seen(t.items, id, seen));
            }
        }
        lemma_visits_well(t, next, marked);
        let w = tree::visits(t.items, next, marked);
        assert(v == seq![id] + w);
        assert forall|k: int| 0 <= k < pending.len() implies v.contains(#[trigger] pending[k]) by {
            if k < rest.len() {
                assert(next[k] == pending[k]);
                lemma_behind(id, w, id, pending[k]);
            } else {
                assert(v[0] == id);
            }
        }
        assert forall|a: int, b: int| 0 <= a < b < pending.len() implies precedes(
            v,
            #[trigger] pending[b],
            #[trigger] pending[a],
        ) by {
            assert(next[a] == pending[a]);
            if b < rest.len() {
                assert(next[b] == pending[b]);
                assert(precedes(w, next[b], next[a]));
                lemma_behind(id, w, pending[b], pending[a]);
            } else {
                assert(w.contains(next[a]));
                lemma_behind(id, w, id, pending[a]);
            }
        }
        assert(keeps_children(t, v, id)) by {
            let n = rest.len() as int;
            assert forall|k: int| 0 <= k < kids.len() implies v.contains(#[trigger] kids[k]) by {
                assert(next[n + kids.len() - 1 - k] == kids[k]);
                lemma_behind(id, w, id, kids[k]);
            }
            assert forall|a: int, b: int| 0 <= a < b < kids.len() implies precedes(
                v,
                #[trigger] kids[a],
                #[trigger] kids[b],
            ) by {
                assert(next[n + kids.len() - 1 - a] == kids[a]);
                assert(next[n + kids.len() - 1 - b] == kids[b]);
                assert(precedes(w, kids[a], kids[b]));
                lemma_behind(id, w, kids[a], kids[b]);
            }
        }
        assert forall|i: int| 0 <= i < v.len() implies keeps_children(t, v, #[trigger] v[i]) by {
            if i > 0 {
                assert(v[i] == w[i - 1]);
                assert(keeps_children(t, w, w[i - 1]));
                let below = t.items[v[i] as int].children;
                assert forall|k: int| 0 <= k < below.len() implies v.contains(
                    #[trigger] below[k],
                ) by {
                    assert(w.contains(below[k]));
                    lemma_behind(id, w, id, below[k]);
                }
                assert forall|a: int, b: int| 0 <= a < b < below.len() implies precedes(
                    v,
                    #[trigger] below[a],
                    #[trigger] below[b],
                ) by {
                    assert(precedes(w, below[a], below[b]));
                    lemma_behind(id, w, below[a], below[b]);
                }
            }
        }
        assert forall|i: int|
            0 <= i < v.len() && t.items[(#[trigger] v[i]) as int].children.len() > 0 implies i + 1
            < v.len() && v[i + 1] == t.items[v[i] as int].children[0] by {
            if i == 0 {
                assert(next.last() == kids[0]) by {
                    assert(next[next.len() - 1] == back[back.len() - 1]);
                }
                assert(w[0] == kids[0]);
                assert(v[1] == w[0]);
            } else {
                assert(v[i] == w[i - 1]);
                assert(v[i + 1] == w[i]);
            }
        }
    }
}

/// Reading order is that of the page: it names all items at the top and all
/// items under one that it names, each list in its order, and an item is
/// followed at once by the first item under it.
pub proof fn law_reading_order_is_complete(t: Tree)
    requires
        t.well_formed(),
    ensures
        ({
            let v = tree::reading_order(t);
            &&& forall|k: int| 0 <= k < t.body.len() ==> v.contains(#[trigger] t.body[k])
            &&& forall|a: int, b: int|
                0 <= a < b < t.body.len() ==> precedes(v, #[trigger] t.body[a], #[trigger] t.body[b])
            &&& forall|i: int| 0 <= i < v.len() ==> keeps_children(t, v, #[trigger] v[i])
            &&& forall|i: int|
                0 <= i < v.len() && t.items[(#[trigger] v[i]) as int].children.len() > 0 ==> i + 1
                    < v.len() && v[i + 1] == t.items[v[i] as int].children[0]
            &&& t.body.len() > 0 ==> v.len() > 0 && v[0] == t.body[0]
        }),
{
    reveal(Tree::well_formed);
    let seen = Seq::new(t.items.len(), |i: int| false);
    let pending = t.body.reverse();
    let v = tree::reading_order(t);
    let n = t.body.len();
    assert(t.has_place(None));
    assert(t.under(None) == t.body);
    assert(t.body.no_duplicates());
    assert forall|k: int| 0 <= k < pending.len() implies (#[trigger] pending[k]) < t.items.len()
        && !seen[pending[k] as int] && !t.items[pending[k] as int].deleted && tree::parent_seen(
        t.items,
        pending[k],
        seen,
    ) by {
        assert(pending[k] == t.under(None)[n - 1 - k]);
    }
    assert(pending.no_duplicates()) by {
        assert forall|a: int, b: int|
            0 <= a < pending.len() && 0 <= b < pending.len() && a != b implies pending[a]
            != pending[b] by {
            assert(pending[a] == t.body[n - 1 - a] && pending[b] == t.body[n - 1 - b]);
        }
    }
    lemma_visits_well(t, pending, seen);
    assert forall|k: int| 0 <= k < n implies v.contains(#[trigger] t.body[k]) by {
        assert(pending[n - 1 - k] == t.body[k]);
    }
    assert forall|a: int, b: int| 0 <= a < b < n implies precedes(
        v,
        #[trigger] t.body[a],
        #[trigger] t.body[b],
    ) by {
        assert(pending[n - 1 - a] == t.body[a] && pending[n - 1 - b] == t.body[b]);
        assert(precedes(v, pending[n - 1 - a], pending[n - 1 - b]));
    }
    if n > 0 {
        assert(pending.last() == t.body[0]);
    }
}

/// The pictures of a tree are those that reading order names, in its order.
pub proof fn law_pictures_are_found(t: Tree, id: usize)
    requires
        t.well_formed(),
    ensures
        tree::pictures(t).contains(id) <==> tree::reading_order(t).contains(id)
            && t.items[id as int].kind is Picture,
        tree::pictures(t).len() <= tree::reading_order(t).len(),
{
    let order = tree::reading_order(t);
    let pred = |i: usize| t.items[i as int].kind is Picture;
    lemma_filtered(order, pred, id);
}

proof fn lemma_filtered(s: Seq<usize>, pred: spec_fn(usize) -> bool, x: usize)
    ensures
        s.filter(pred).contains(x) <==> s.contains(x) && pred(x),
        s.filter(pred).len() <= s.len(),
    decreases s.len(),
{
    reveal(Seq::filter);
    if s.len() > 0 {
        let front = s.drop_last();
        lemma_filtered(front, pred, x);
        let f = s.filter(pred);
        let g = front.filter(pred);
        assert(s.contains(x) <==> front.contains(x) || s.last() == x) by {
            if s.contains(x) {
                let j = choose|j: int| 0 <= j < s.len() && s[j] == x;
                if j < front.len() {
                    assert(front[j] == x);
                }
            }
            if front.contains(x) {
                let j = choose|j: int| 0 <= j < front.len() && front[j] == x;
                assert(s[j] == x);
            }
            if s.last() == x {
                assert(s[s.len() - 1] == x);
            }
        }
        if pred(s.last()) {
            assert(f == g.push(s.last()));
            assert(f.contains(x) <==> g.contains(x) || s.last() == x) by {
                if f.contains(x) {
                    let j = choose|j: int| 0 <= j < f.len() && f[j] == x;
                    if j < g.len() {
                        assert(g[j] == x);
                    }
                }
                if g.contains(x) {
                    let j = choose|j: int| 0 <= j < g.len() && g[j] == x;
                    assert(f[j] == x);
                }
                assert(f[g.len() as int] == s.last());
            }
        } else {
            assert(f == g);
        }
    }
}

/// Which pictures of a tree are read: those that have an image file, that hold
/// no table which the tree has with some text on the same page, and that have
/// enough pixels or an unknown size.
pub proof fn law_which_tree_pictures_are_read(
    t: Tree,
    id: usize,
    covers: Seq<(usize, usize)>,
    opts: PostOptions,
)
    requires
        id < t.items.len(),
    ensures
        tree::tree_verdict(t, id, covers, opts) == Verdict::Read <==> {
            &&& t.items[id as int].kind matches Kind::Picture { image: Some(img), .. }
                && (img.width * img.height == 0 || img.width * img.height >= opts.min_pixels)
            &&& forall|k: int| !#[trigger] tree::covered_by(t, id, k, covers)
        },
        forall|k: int| #[trigger] tree::covered_by(t, id, k, covers) ==> {
            &&& covers.contains((id, k as usize))
            &&& !t.items[k].deleted
            &&& t.items[k].prov->0.page_no == t.items[id as int].prov->0.page_no
            &&& t.items[k].prov->0.bottom_left == t.items[id as int].prov->0.bottom_left
            &&& t.items[k].kind matches Kind::Table { rows, .. } && exists|r: int, c: int|
                0 <= r < rows.len() && 0 <= c < rows[r].len() && !text::blank(
                    #[trigger] rows[r][c],
                )
        },
{
    if let Kind::Picture { image: Some(img), .. } = t.items[id as int].kind {
        assert(0 <= img.width * img.height) by (nonlinear_arith)
            requires
                0 <= img.width,
                0 <= img.height,
        ;
    }
}

/// A table with some text on the page of a picture that covers it keeps the
/// picture from being read.
pub proof fn law_tables_are_not_read_twice(
    t: Tree,
    id: usize,
    table: usize,
    covers: Seq<(usize, usize)>,
    opts: PostOptions,
    r: int,
    c: int,
)
    requires
        id < t.items.len(),
        table < t.items.len(),
        covers.contains((id, table)),
        !t.items[table as int].deleted,
        t.items[id as int].prov is Some,
        t.items[table as int].prov is Some,
        t.items[table as int].prov->0.page_no == t.items[id as int].prov->0.page_no,
        t.items[table as int].prov->0.bottom_left == t.items[id as int].prov->0.bottom_left,
        (t.items[table as int].kind matches Kind::Table { rows, .. } && 0 <= r < rows.len() && 0
            <= c < rows[r].len() && !text::blank(rows[r][c])),
    ensures
        tree::tree_verdict(t, id, covers, opts) != Verdict::Read,
        tree::tree_verdict(t, id, covers, opts) != Verdict::Small,
{
    assert(tree::covered_by(t, id, table as int, covers));
}

/// The images of two lists of pictures are asked for one list after the other,
/// and a picture by itself is asked for only where it is to be read.
pub proof fn law_images_are_asked_for_in_order(
    t: Tree,
    a: Seq<usize>,
    b: Seq<usize>,
    id: usize,
    covers: Seq<(usize, usize)>,
    opts: PostOptions,
)
    ensures
        tree::requests_of(t, a + b, covers, opts) == tree::requests_of(t, a, covers, opts)
            + tree::requests_of(t, b, covers, opts),
        tree::tree_verdict(t, id, covers, opts) == Verdict::Read ==> (t.items[id as int].kind matches Kind::Picture { image: Some(img), .. }
            && tree::requests_of(t, seq![id], covers, opts) == seq![img]),
        tree::tree_verdict(t, id, covers, opts) != Verdict::Read ==> tree::requests_of(
            t,
            seq![id],
            covers,
            opts,
        ).len() == 0,
    decreases a.len(),
{
    if a.len() > 0 {
        assert((a + b).skip(1) =~= a.skip(1) + b);
        law_images_are_asked_for_in_order(t, a.skip(1), b, id, covers, opts);
        assert((a + b)[0] == a[0]);
        let rest = tree::requests_of(t, a.skip(1), covers, opts);
        let more = tree::requests_of(t, b, covers, opts);
        if tree::tree_verdict(t, a[0], covers, opts) == Verdict::Read {
            let head = seq![t.items[a[0] as int].kind->Picture_image->0];
            assert(head + (rest + more) =~= (head + rest) + more);
        }
    } else {
        assert(a + b =~= b);
        assert(tree::requests_of(t, a, covers, opts) + tree::requests_of(t, b, covers, opts)
            =~= tree::requests_of(t, b, covers, opts));
    }
    assert(seq![id].skip(1) =~= Seq::<usize>::empty());
    assert(tree::requests_of(t, seq![id].skip(1), covers, opts).len() == 0);
    if tree::tree_verdict(t, id, covers, opts) == Verdict::Read {
        let img = t.items[id as int].kind->Picture_image->0;
        assert(tree::requests_of(t, seq![id], covers, opts) =~= seq![img]);
    }
}

} // verus!
