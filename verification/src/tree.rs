//! Picture OCR on a document's item tree, the representation that JSON output
//! shows when a document has it.
//!
//! Items stand in an arena and keep their numbers: an item that goes stays in
//! the arena, marked as deleted, and new items are added at the end. The tree
//! lists every item that is not deleted once, under its parent.

use vstd::prelude::*;

use crate::document;
use crate::document::{ContentLayer, Image, Node, NodeView, PictureImage};
use crate::engine::{OcrOutcome, Outcome};
use crate::postprocess;
use crate::postprocess::{OcrStats, PostOptions, Tally, Verdict};
use crate::text;

verus! {

/// Where an item stands on its page. `bbox` holds the bits of the box's four
/// coordinates, which are the caller's to compare.
#[derive(Debug, Clone, Copy, PartialEq, Eq)]
pub struct TreeProv {
    pub page_no: usize,
    pub bbox: [u64; 4],
    pub bottom_left: bool,
    pub charspan: [usize; 2],
}

/// What an item is. `key` names what the caller keeps of the item besides.
#[derive(Debug, PartialEq, Eq)]
pub enum TreeKind {
    /// Plain text.
    Text { text: String },
    /// A code block.
    Code { text: String },
    /// A table with its text cells.
    Table { key: u64, rows: Vec<Vec<String>> },
    /// A picture with its image file.
    Picture { key: u64, image: Option<PictureImage> },
    /// Any other item.
    Other { key: u64 },
}

/// The contents of a [`TreeKind`].
pub enum Kind {
    Text { text: Seq<char> },
    Code { text: Seq<char> },
    Table { key: u64, rows: Seq<Seq<Seq<char>>> },
    Picture { key: u64, image: Option<Image> },
    Other { key: u64 },
}

impl View for TreeKind {
    type V = Kind;

    open spec fn view(&self) -> Kind {
        match self {
            TreeKind::Text { text } => Kind::Text { text: text@ },
            TreeKind::Code { text } => Kind::Code { text: text@ },
            TreeKind::Table { key, rows } => Kind::Table {
                key: *key,
                rows: document::rows_view(rows@),
            },
            TreeKind::Picture { key, image } => Kind::Picture {
                key: *key,
                image: postprocess::image_view(*image),
            },
            TreeKind::Other { key } => Kind::Other { key: *key },
        }
    }
}

/// An item of the tree. `source` names where the caller took it from.
#[derive(Debug, PartialEq, Eq)]
pub struct TreeItem {
    pub parent: Option<usize>,
    pub children: Vec<usize>,
    pub layer: Option<ContentLayer>,
    pub kind: TreeKind,
    pub prov: Option<TreeProv>,
    pub comments: Vec<usize>,
    pub source: Option<u64>,
    pub deleted: bool,
}

/// The contents of a [`TreeItem`].
pub struct Item {
    pub parent: Option<usize>,
    pub children: Seq<usize>,
    pub layer: Option<ContentLayer>,
    pub kind: Kind,
    pub prov: Option<TreeProv>,
    pub comments: Seq<usize>,
    pub source: Option<u64>,
    pub deleted: bool,
}

impl View for TreeItem {
    type V = Item;

    open spec fn view(&self) -> Item {
        Item {
            parent: self.parent,
            children: self.children@,
            layer: self.layer,
            kind: self.kind@,
            prov: self.prov,
            comments: self.comments@,
            source: self.source,
            deleted: self.deleted,
        }
    }
}

/// A tree of items: all items, and those at the top.
#[derive(Debug, PartialEq, Eq)]
pub struct ItemTree {
    pub items: Vec<TreeItem>,
    pub body: Vec<usize>,
}

/// The contents of an [`ItemTree`].
#[verifier::ext_equal]
pub struct Tree {
    pub items: Seq<Item>,
    pub body: Seq<usize>,
}

impl View for ItemTree {
    type V = Tree;

    open spec fn view(&self) -> Tree {
        Tree { items: self.items@.map_values(|i: TreeItem| i@), body: self.body@ }
    }
}

impl Tree {
    /// The list that stands under an item, or at the top.
    pub open spec fn under(self, parent: Option<usize>) -> Seq<usize> {
        match parent {
            None => self.body,
            Some(p) => self.items[p as int].children,
        }
    }

    /// An item of the tree, or the top.
    pub open spec fn has_place(self, parent: Option<usize>) -> bool {
        match parent {
            None => true,
            Some(p) => p < self.items.len(),
        }
    }

    /// Every list names items that are not deleted and have that list's owner
    /// as their parent, none of them twice; and every item that is not deleted
    /// is named in its parent's list.
    #[verifier::opaque]
    pub open spec fn well_formed(self) -> bool {
        &&& forall|p: Option<usize>| #[trigger]
            self.has_place(p) ==> self.under(p).no_duplicates()
        &&& forall|p: Option<usize>, k: int|
            #![trigger self.under(p)[k]]
            self.has_place(p) && 0 <= k < self.under(p).len() ==> self.under(p)[k]
                < self.items.len() && self.items[self.under(p)[k] as int].parent == p
                && !self.items[self.under(p)[k] as int].deleted
        &&& forall|i: int|
            0 <= i < self.items.len() && !(#[trigger] self.items[i]).deleted ==> self.has_place(
                self.items[i].parent,
            ) && self.under(self.items[i].parent).contains(i as usize)
    }
}

/// A list names items that are not deleted and have its owner as their parent,
/// none of them twice.
pub open spec fn list_ok(t: Tree, owner: Option<usize>) -> bool {
    &&& t.under(owner).no_duplicates()
    &&& forall|k: int|
        0 <= k < t.under(owner).len() ==> (#[trigger] t.under(owner)[k]) < t.items.len()
            && t.items[t.under(owner)[k] as int].parent == owner && !t.items[t.under(
            owner,
        )[k] as int].deleted
}

/// The list of an owner was looked at: the top, and items below some number.
spec fn looked_at(owner: Option<usize>, below: int) -> bool {
    match owner {
        None => true,
        Some(q) => q < below,
    }
}

impl ItemTree {
    /// Look at one list; `seen` has the items that the lists before it name.
    fn check_list(&self, owner: Option<usize>, list: &Vec<usize>, seen: &mut Vec<bool>) -> (r: bool)
        requires
            self@.has_place(owner),
            list@ == self@.under(owner),
            old(seen)@.len() == self.items@.len(),
            forall|i: int|
                0 <= i < self.items@.len() && #[trigger] old(seen)@[i] ==> self.items@[i].parent
                    != owner,
        ensures
            r == list_ok(self@, owner),
            final(seen)@.len() == old(seen)@.len(),
            r ==> forall|i: int|
                0 <= i < self.items@.len() ==> #[trigger] final(seen)@[i] == (old(seen)@[i]
                    || list@.contains(i as usize)),
    {
        let ghost before = seen@;
        let mut k: usize = 0;
        while k < list.len()
            invariant
                k <= list@.len(),
                list@ == self@.under(owner),
                before == old(seen)@,
                before.len() == self.items@.len(),
                seen@.len() == before.len(),
                forall|i: int|
                    0 <= i < self.items@.len() && #[trigger] before[i] ==> self.items@[i].parent
                        != owner,
                forall|j: int|
                    0 <= j < k ==> (#[trigger] list@[j]) < self.items@.len()
                        && self.items@[list@[j] as int].parent == owner
                        && !self.items@[list@[j] as int].deleted,
                forall|j: int, m: int| 0 <= j < m < k ==> list@[j] != list@[m],
                forall|i: int|
                    0 <= i < self.items@.len() ==> #[trigger] seen@[i] == (before[i]
                        || list@.take(k as int).contains(i as usize)),
            decreases list@.len() - k,
        {
            let id: usize = list[k];
            assert(self@.under(owner)[k as int] == id);
            if id >= self.items.len() {
                return false;
            }
            let item = &self.items[id];
            assert(self@.items[id as int] == item@);
            let same = match (item.parent, owner) {
                (None, None) => true,
                (Some(a), Some(b)) => a == b,
                _ => false,
            };
            if !same || item.deleted {
                return false;
            }
            if seen[id] {
                proof {
                    assert(seen@[id as int]);
                    let j = choose|j: int|
                        0 <= j < list@.take(k as int).len() && list@.take(k as int)[j] == id;
                    assert(list@.take(k as int).contains(id));
                    assert(self@.under(owner)[j] == self@.under(owner)[k as int]);
                }
                return false;
            }
            let ghost was = seen@;
            seen.set(id, true);
            proof {
                let now = list@.take(k as int);
                let next = list@.take(k + 1);
                assert(next == now.push(id));
                assert forall|i: int| 0 <= i < self.items@.len() implies #[trigger] seen@[i] == (
                before[i] || next.contains(i as usize)) by {
                    assert(was[i] == (before[i] || now.contains(i as usize)));
                    if i == id {
                        assert(next[k as int] == id);
                    } else if now.contains(i as usize) {
                        let j = choose|j: int| 0 <= j < now.len() && now[j] == i as usize;
                        assert(next[j] == i as usize);
                    } else if next.contains(i as usize) {
                        let j = choose|j: int| 0 <= j < next.len() && next[j] == i as usize;
                        assert(now[j] == i as usize);
                    }
                }
                assert forall|j: int| 0 <= j < k implies list@[j] != id by {
                    if list@[j] == id {
                        assert(now[j] == id);
                        assert(now.contains(id));
                    }
                }
            }
            k += 1;
        }
        assert(list@.take(k as int) == list@);
        assert forall|j: int| 0 <= j < self@.under(owner).len() implies (#[trigger] self@.under(
            owner,
        )[j]) < self@.items.len() && self@.items[self@.under(owner)[j] as int].parent == owner
            && !self@.items[self@.under(owner)[j] as int].deleted by {
            assert(list@[j] < self.items@.len());
            assert(self@.items[list@[j] as int] == self.items@[list@[j] as int]@);
        }
        true
    }

    /// Whether the tree is what it should be.
    pub fn is_well_formed(&self) -> (r: bool)
        ensures
            r == self@.well_formed(),
    {
        proof {
            reveal(Tree::well_formed);
        }
        let ghost t = self@;
        let n: usize = self.items.len();
        let mut seen: Vec<bool> = Vec::new();
        for i in 0..n
            invariant
                seen@.len() == i,
                forall|k: int| 0 <= k < i ==> !#[trigger] seen@[k],
        {
            seen.push(false);
        }
        if !self.check_list(None, &self.body, &mut seen) {
            assert(t.has_place(None) && !list_ok(t, None));
            return false;
        }
        let mut j: usize = 0;
        proof {
            assert forall|i: int| 0 <= i < n implies #[trigger] seen@[i] == (looked_at(
                t.items[i].parent,
                0,
            ) && t.under(t.items[i].parent).contains(i as usize)) by {
                lemma_in_list(t, None, i);
            }
        }
        while j < n
            invariant
                t == self@,
                n == self.items@.len(),
                j <= n,
                seen@.len() == n,
                forall|p: Option<usize>|
                    looked_at(p, j as int) ==> #[trigger] list_ok(t, p),
                forall|i: int|
                    0 <= i < n ==> #[trigger] seen@[i] == (looked_at(t.items[i].parent, j as int)
                        && t.under(t.items[i].parent).contains(i as usize)),
            decreases n - j,
        {
            assert(self@.items[j as int] == self.items@[j as int]@);
            let ghost was = seen@;
            assert forall|i: int| 0 <= i < n && #[trigger] seen@[i] implies self.items@[i].parent
                != Some(j) by {
                assert(t.items[i] == self.items@[i]@);
            }
            if !self.check_list(Some(j), &self.items[j].children, &mut seen) {
                proof {
                    reveal(Tree::well_formed);
                    assert(t.has_place(Some(j)) && !list_ok(t, Some(j)));
                }
                return false;
            }
            proof {
                assert forall|i: int| 0 <= i < n implies #[trigger] seen@[i] == (looked_at(
                    t.items[i].parent,
                    j + 1,
                ) && t.under(t.items[i].parent).contains(i as usize)) by {
                    lemma_in_list(t, Some(j), i);
                    assert(was[i] == (looked_at(t.items[i].parent, j as int) && t.under(
                        t.items[i].parent,
                    ).contains(i as usize)));
                }
                assert forall|p: Option<usize>| looked_at(p, j + 1) implies #[trigger] list_ok(
                    t,
                    p,
                ) by {
                    if p != Some(j) {
                        assert(looked_at(p, j as int));
                    }
                }
            }
            j += 1;
        }
        let mut i: usize = 0;
        while i < n
            invariant
                t == self@,
                n == self.items@.len(),
                i <= n,
                seen@.len() == n,
                forall|k: int|
                    0 <= k < n ==> #[trigger] seen@[k] == (looked_at(t.items[k].parent, n as int)
                        && t.under(t.items[k].parent).contains(k as usize)),
                forall|k: int|
                    0 <= k < i && !(#[trigger] t.items[k]).deleted ==> t.has_place(
                        t.items[k].parent,
                    ) && t.under(t.items[k].parent).contains(k as usize),
            decreases n - i,
        {
            assert(t.items[i as int] == self.items@[i as int]@);
            assert(looked_at(t.items[i as int].parent, n as int) == t.has_place(
                t.items[i as int].parent,
            ));
            if !self.items[i].deleted && !seen[i] {
                proof {
                    reveal(Tree::well_formed);
                }
                return false;
            }
            i += 1;
        }
        proof {
            assert forall|p: Option<usize>| #[trigger] t.has_place(p) implies t.under(
                p,
            ).no_duplicates() by {
                assert(looked_at(p, n as int));
                assert(list_ok(t, p));
            }
            assert forall|p: Option<usize>, k: int|
                #![trigger t.under(p)[k]]
                t.has_place(p) && 0 <= k < t.under(p).len() implies t.under(p)[k] < t.items.len()
                && t.items[t.under(p)[k] as int].parent == p && !t.items[t.under(
                p,
            )[k] as int].deleted by {
                assert(looked_at(p, n as int));
                assert(list_ok(t, p));
            }
        }
        true
    }
}

/// An item that a list names has the list's owner as its parent.
proof fn lemma_in_list(t: Tree, owner: Option<usize>, i: int)
    requires
        list_ok(t, owner),
        0 <= i < t.items.len(),
        t.items.len() <= usize::MAX,
    ensures
        t.under(owner).contains(i as usize) ==> t.items[i].parent == owner,
{
    if t.under(owner).contains(i as usize) {
        let k = choose|k: int| 0 <= k < t.under(owner).len() && t.under(owner)[k] == i as usize;
        assert(t.items[t.under(owner)[k] as int].parent == owner);
    }
}

impl ItemTree {
    /// A tree without items.
    pub fn new() -> (r: ItemTree)
        ensures
            r@.items.len() == 0,
            r@.body.len() == 0,
            r@.well_formed(),
    {
        reveal(Tree::well_formed);
        ItemTree { items: Vec::new(), body: Vec::new() }
    }
}

/// How many items have not been seen.
pub open spec fn unseen(seen: Seq<bool>) -> nat
    decreases seen.len(),
{
    if seen.len() == 0 {
        0
    } else {
        unseen(seen.drop_last()) + if seen.last() {
            0nat
        } else {
            1nat
        }
    }
}

pub proof fn lemma_unseen_update(seen: Seq<bool>, i: int)
    requires
        0 <= i < seen.len(),
        !seen[i],
    ensures
        unseen(seen.update(i, true)) + 1 == unseen(seen),
    decreases seen.len(),
{
    if i == seen.len() - 1 {
        assert(seen.update(i, true).drop_last() =~= seen.drop_last());
    } else {
        lemma_unseen_update(seen.drop_last(), i);
        assert(seen.update(i, true).drop_last() =~= seen.drop_last().update(i, true));
    }
}

/// The items below those that are pending, in reading order: the last pending
/// item, what stands under it, then the rest. Each item comes once.
pub open spec fn visits(items: Seq<Item>, pending: Seq<usize>, seen: Seq<bool>) -> Seq<usize>
    decreases unseen(seen), pending.len(),
{
    if pending.len() == 0 {
        seq![]
    } else {
        let id = pending.last();
        if id >= seen.len() || id >= items.len() || seen[id as int] || items[id as int].deleted {
            visits(items, pending.drop_last(), seen)
        } else {
            proof {
                lemma_unseen_update(seen, id as int);
            }
            seq![id] + visits(
                items,
                pending.drop_last() + items[id as int].children.reverse(),
                seen.update(id as int, true),
            )
        }
    }
}

/// All items of a tree in reading order.
pub open spec fn reading_order(t: Tree) -> Seq<usize> {
    visits(t.items, t.body.reverse(), Seq::new(t.items.len(), |i: int| false))
}

/// The order in which the items of a tree are read.
pub fn order_of(tree: &ItemTree) -> (r: Vec<usize>)
    ensures
        r@ == reading_order(tree@),
{
    let n: usize = tree.items.len();
    let mut seen: Vec<bool> = Vec::new();
    let mut i: usize = 0;
    while i < n
        invariant
            i <= n,
            seen@ == Seq::new(i as nat, |k: int| false),
        decreases n - i,
    {
        seen.push(false);
        i += 1;
        assert(seen@ =~= Seq::new(i as nat, |k: int| false));
    }
    let mut pending: Vec<usize> = Vec::new();
    push_reversed(&mut pending, &tree.body);
    let mut out: Vec<usize> = Vec::new();
    proof {
        assert(pending@ =~= tree@.body.reverse());
        assert(out@ + visits(tree@.items, pending@, seen@) =~= reading_order(tree@));
    }
    while pending.len() > 0
        invariant
            n == tree.items@.len(),
            seen@.len() == n,
            out@ + visits(tree@.items, pending@, seen@) == reading_order(tree@),
        decreases unseen(seen@), pending@.len(),
    {
        let ghost before = pending@;
        let ghost had = seen@;
        let id: usize = pending.pop().unwrap();
        assert(pending@ =~= before.drop_last());
        if id >= n || seen[id] || tree.items[id].deleted {
            continue ;
        }
        assert(tree@.items[id as int] == tree.items@[id as int]@);
        seen.set(id, true);
        push_reversed(&mut pending, &tree.items[id].children);
        proof {
            lemma_unseen_update(had, id as int);
            assert(seen@ == had.update(id as int, true));
            let rest = visits(tree@.items, pending@, seen@);
            assert(out@ + (seq![id] + rest) =~= out@.push(id) + rest);
        }
        out.push(id);
    }
    assert(out@ + Seq::<usize>::empty() =~= out@);
    out
}

fn push_reversed(out: &mut Vec<usize>, v: &Vec<usize>)
    ensures
        final(out)@ == old(out)@ + v@.reverse(),
{
    let mut i: usize = v.len();
    while i > 0
        invariant
            i <= v@.len(),
            out@ == old(out)@ + v@.reverse().take(v@.len() - i),
        decreases i,
    {
        i -= 1;
        out.push(v[i]);
        assert(v@.reverse().take(v@.len() - i) =~= v@.reverse().take(v@.len() - i - 1).push(
            v@[i as int],
        ));
    }
    assert(v@.reverse().take(v@.len() as int) =~= v@.reverse());
}

/// A table with text that stands on the picture's page, in comparable
/// coordinates, and whose box the picture's box covers.
pub open spec fn covered_by(t: Tree, id: usize, table: int, covers: Seq<(usize, usize)>) -> bool {
    &&& 0 <= table < t.items.len()
    &&& !t.items[table].deleted
    &&& t.items[table].kind matches Kind::Table { rows, .. } && postprocess::filled(rows)
    &&& t.items[id as int].prov is Some
    &&& t.items[table].prov is Some
    &&& t.items[table].prov->0.page_no == t.items[id as int].prov->0.page_no
    &&& t.items[table].prov->0.bottom_left == t.items[id as int].prov->0.bottom_left
    &&& covers.contains((id, table as usize))
}

/// What is to become of a picture item. JSON shows every layer of the tree,
/// so none is left out.
pub open spec fn tree_verdict(
    t: Tree,
    id: usize,
    covers: Seq<(usize, usize)>,
    opts: PostOptions,
) -> Verdict {
    match t.items[id as int].kind {
        Kind::Picture { image, .. } => match image {
            None => Verdict::Leave,
            Some(img) => if exists|table: int| #[trigger] covered_by(t, id, table, covers) {
                Verdict::Structured
            } else if postprocess::too_small(img.width, img.height, opts) {
                Verdict::Small
            } else {
                Verdict::Read
            },
        },
        _ => Verdict::Leave,
    }
}

fn is_listed(covers: &[(usize, usize)], a: usize, b: usize) -> (r: bool)
    ensures
        r == covers@.contains((a, b)),
{
    let mut i: usize = 0;
    while i < covers.len()
        invariant
            i <= covers@.len(),
            forall|k: int| 0 <= k < i ==> covers@[k] != (a, b),
        decreases covers@.len() - i,
    {
        let pair = covers[i];
        if pair.0 == a && pair.1 == b {
            assert(covers@[i as int] == (a, b));
            return true;
        }
        i += 1;
    }
    false
}

fn is_covered_by(tree: &ItemTree, id: usize, table: usize, covers: &[(usize, usize)]) -> (r: bool)
    requires
        id < tree.items@.len(),
        table < tree.items@.len(),
    ensures
        r == covered_by(tree@, id, table as int, covers@),
{
    assert(tree@.items[table as int] == tree.items@[table as int]@);
    assert(tree@.items[id as int] == tree.items@[id as int]@);
    let t = &tree.items[table];
    if t.deleted {
        return false;
    }
    match &t.kind {
        TreeKind::Table { rows, .. } => {
            if !postprocess::is_filled(rows) {
                return false;
            }
        },
        _ => return false,
    }
    match (&tree.items[id].prov, &t.prov) {
        (Some(p), Some(q)) => q.page_no == p.page_no && q.bottom_left == p.bottom_left
            && is_listed(covers, id, table),
        _ => false,
    }
}

fn tree_verdict_of(tree: &ItemTree, id: usize, covers: &[(usize, usize)], opts: &PostOptions) -> (r:
    Verdict)
    requires
        id < tree.items@.len(),
    ensures
        r == tree_verdict(tree@, id, covers@, *opts),
{
    assert(tree@.items[id as int] == tree.items@[id as int]@);
    match &tree.items[id].kind {
        TreeKind::Picture { image, .. } => match image {
            None => Verdict::Leave,
            Some(img) => {
                let mut i: usize = 0;
                while i < tree.items.len()
                    invariant
                        i <= tree.items@.len(),
                        id < tree.items@.len(),
                        tree@.items[id as int].kind == tree.items@[id as int].kind@,
                        tree.items@[id as int].kind == (TreeKind::Picture {
                            key: tree.items@[id as int].kind->Picture_key,
                            image: Some(*img),
                        }),
                        forall|k: int| 0 <= k < i ==> !#[trigger] covered_by(
                            tree@,
                            id,
                            k,
                            covers@,
                        ),
                    decreases tree.items@.len() - i,
                {
                    if is_covered_by(tree, id, i, covers) {
                        return Verdict::Structured;
                    }
                    i += 1;
                }
                if postprocess::is_too_small(img.width, img.height, opts) {
                    Verdict::Small
                } else {
                    Verdict::Read
                }
            },
        },
        _ => Verdict::Leave,
    }
}


/// What a node that OCR produced is as an item.
pub open spec fn part_kind(part: NodeView) -> Kind {
    match part {
        NodeView::Code { text } => Kind::Code { text },
        NodeView::Paragraph { text } => Kind::Text { text },
        _ => Kind::Text { text: seq![] },
    }
}

/// How many characters a node that OCR produced has.
pub open spec fn part_len(part: NodeView) -> nat {
    match part {
        NodeView::Code { text } => text.len(),
        NodeView::Paragraph { text } => text.len(),
        _ => 0,
    }
}

/// OCR produces body text and code only.
pub open spec fn is_part(n: NodeView) -> bool {
    n is Code || n is Paragraph
}

/// The item for a node that OCR produced: the picture's parent, layer, place,
/// comments and source, and a span over all of its own text.
pub open spec fn fresh(picture: Item, part: NodeView) -> Item {
    Item {
        parent: picture.parent,
        children: seq![],
        layer: picture.layer,
        kind: part_kind(part),
        prov: match picture.prov {
            Some(p) => Some(TreeProv { charspan: [0usize, part_len(part) as usize], ..p }),
            None => None,
        },
        comments: picture.comments,
        source: picture.source,
        deleted: false,
    }
}

/// The items that move up when a picture goes: those under it.
pub open spec fn moved(t: Tree, id: usize, keep: bool) -> Seq<usize> {
    if keep {
        seq![]
    } else {
        t.items[id as int].children
    }
}

/// The items that stand at the picture's place, or after it: those that were
/// under it, then the new ones.
pub open spec fn inserted(t: Tree, id: usize, parts: Seq<NodeView>, keep: bool) -> Seq<usize> {
    moved(t, id, keep) + Seq::new(parts.len(), |j: int| (t.items.len() + j) as usize)
}

/// A list with items put in the place of one of its items, or after it.
pub open spec fn placed(list: Seq<usize>, id: usize, new: Seq<usize>, keep: bool) -> Seq<usize> {
    let at = list.index_of(id);
    list.take(if keep {
        at + 1
    } else {
        at
    }) + new + list.skip(at + 1)
}

/// A tree after OCR read one of its pictures: the new items stand in the
/// picture's place, after what stood under it, or after the picture.
pub open spec fn replaced(t: Tree, id: usize, parts: Seq<NodeView>, keep: bool) -> Tree {
    let parent = t.items[id as int].parent;
    let list = placed(t.under(parent), id, inserted(t, id, parts, keep), keep);
    Tree {
        items: Seq::new(
            t.items.len() + parts.len(),
            |i: int|
                if i < t.items.len() {
                    Item {
                        parent: if moved(t, id, keep).contains(i as usize) {
                            parent
                        } else {
                            t.items[i].parent
                        },
                        children: if parent == Some(i as usize) {
                            list
                        } else if i == id && !keep {
                            seq![]
                        } else {
                            t.items[i].children
                        },
                        deleted: t.items[i].deleted || (i == id && !keep),
                        ..t.items[i]
                    }
                } else {
                    fresh(t.items[id as int], parts[i - t.items.len()])
                },
        ),
        body: if parent is None {
            list
        } else {
            t.body
        },
    }
}

fn copy_of(v: &Vec<usize>) -> (r: Vec<usize>)
    ensures
        r@ == v@,
{
    let mut r: Vec<usize> = Vec::new();
    let mut i: usize = 0;
    while i < v.len()
        invariant
            i <= v@.len(),
            r@ == v@.take(i as int),
        decreases v@.len() - i,
    {
        r.push(v[i]);
        i += 1;
        assert(v@.take(i as int) =~= v@.take(i - 1).push(v@[i - 1]));
    }
    assert(v@.take(i as int) =~= v@);
    r
}

fn list_with(list: &Vec<usize>, id: usize, new: &Vec<usize>, keep: bool) -> (r: Vec<usize>)
    requires
        list@.contains(id),
        list@.no_duplicates(),
    ensures
        r@ == placed(list@, id, new@, keep),
{
    let mut r: Vec<usize> = Vec::new();
    let mut i: usize = 0;
    let ghost at = list@.index_of(id);
    while i < list.len()
        invariant
            i <= list@.len(),
            list@.contains(id),
            list@.no_duplicates(),
            at == list@.index_of(id),
            0 <= at < list@.len(),
            list@[at] == id,
            r@ == (if i <= at {
                list@.take(i as int)
            } else {
                list@.take(if keep {
                    at + 1
                } else {
                    at
                }) + new@ + list@.subrange(at + 1, i as int)
            }),
        decreases list@.len() - i,
    {
        let c: usize = list[i];
        if c == id {
            assert(i == at);
            if keep {
                r.push(c);
            }
            assert(r@ =~= list@.take(if keep {
                at + 1
            } else {
                at
            }));
            let mut k: usize = 0;
            let ghost front = r@;
            while k < new.len()
                invariant
                    k <= new@.len(),
                    r@ == front + new@.take(k as int),
                decreases new@.len() - k,
            {
                r.push(new[k]);
                k += 1;
                assert(new@.take(k as int) =~= new@.take(k - 1).push(new@[k - 1]));
            }
            assert(new@.take(k as int) =~= new@);
            assert(list@.subrange(at + 1, i + 1) =~= Seq::<usize>::empty());
            assert(r@ =~= front + new@ + Seq::<usize>::empty());
        } else {
            r.push(c);
            proof {
                if i < at {
                    assert(list@.take(i + 1) =~= list@.take(i as int).push(c));
                } else {
                    assert(list@.subrange(at + 1, i + 1) =~= list@.subrange(at + 1, i as int).push(
                        c,
                    ));
                }
            }
        }
        i += 1;
    }
    assert(list@.subrange(at + 1, i as int) =~= list@.skip(at + 1));
    r
}

impl ItemTree {
    fn set_parents(&mut self, ids: &Vec<usize>, parent: Option<usize>)
        requires
            forall|k: int| 0 <= k < ids@.len() ==> #[trigger] ids@[k] < old(self).items@.len(),
        ensures
            final(self)@.body == old(self)@.body,
            final(self)@.items == Seq::new(
                old(self)@.items.len(),
                |i: int|
                    Item {
                        parent: if ids@.contains(i as usize) {
                            parent
                        } else {
                            old(self)@.items[i].parent
                        },
                        ..old(self)@.items[i]
                    },
            ),
    {
        let mut k: usize = 0;
        let ghost was = self@;
        let n: usize = self.items.len();
        assert(was.items.len() == n);
        assert(ids@.take(0) =~= Seq::<usize>::empty());
        while k < ids.len()
            invariant
                k <= ids@.len(),
                was == old(self)@,
                self@.body == was.body,
                self@.items.len() == was.items.len(),
                was.items.len() == n,
                forall|j: int| 0 <= j < ids@.len() ==> #[trigger] ids@[j] < was.items.len(),
                forall|i: int|
                    0 <= i < was.items.len() ==> (#[trigger] self@.items[i]) == (Item {
                        parent: if ids@.take(k as int).contains(i as usize) {
                            parent
                        } else {
                            was.items[i].parent
                        },
                        ..was.items[i]
                    }),
            decreases ids@.len() - k,
        {
            let c: usize = ids[k];
            let ghost before = self@;
            let ghost vec = self.items@;
            assert(c < self.items@.len());
            self.items[c].parent = parent;
            proof {
                let now = ids@.take(k + 1);
                let then = ids@.take(k as int);
                assert(now =~= then.push(c));
                assert forall|i: int| 0 <= i < was.items.len() implies (#[trigger] self@.items[i])
                    == (Item {
                    parent: if now.contains(i as usize) {
                        parent
                    } else {
                        was.items[i].parent
                    },
                    ..was.items[i]
                }) by {
                    assert(before.items[i] == vec[i]@);
                    if i == c {
                        assert(now[k as int] == c);
                        assert(now.contains(c));
                    } else {
                        assert(self.items@[i] == vec[i]);
                        assert(then.contains(i as usize) == now.contains(i as usize)) by {
                            if now.contains(i as usize) {
                                let j = choose|j: int| 0 <= j < now.len() && now[j] == i as usize;
                                assert(then[j] == i as usize);
                            }
                            if then.contains(i as usize) {
                                let j = choose|j: int| 0 <= j < then.len() && then[j] == i as usize;
                                assert(now[j] == i as usize);
                            }
                        }
                    }
                }
            }
            k += 1;
        }
        assert(ids@.take(k as int) =~= ids@);
        assert(self@.items =~= Seq::new(
            was.items.len(),
            |i: int|
                Item {
                    parent: if ids@.contains(i as usize) {
                        parent
                    } else {
                        was.items[i].parent
                    },
                    ..was.items[i]
                },
        ));
    }

    /// Put what OCR produced in a picture's place, or after the picture.
    pub fn replace(&mut self, id: usize, parts: Vec<Node>, keep: bool)
        requires
            old(self)@.well_formed(),
            id < old(self)@.items.len(),
            !old(self)@.items[id as int].deleted,
            old(self)@.items[id as int].parent != Some(id),
            forall|k: int|
                0 <= k < parts@.len() ==> is_part(#[trigger] document::nodes_view(parts@)[k]),
        ensures
            final(self)@ == replaced(old(self)@, id, document::nodes_view(parts@), keep),
    {
        reveal(Tree::well_formed);
        let ghost was = self@;
        let ghost shown = document::nodes_view(parts@);
        let ghost all = parts@;
        assert(was.items[id as int] == self.items@[id as int]@);
        let parent = self.items[id].parent;
        let layer = self.items[id].layer;
        let prov = self.items[id].prov;
        let source = self.items[id].source;
        let comments = copy_of(&self.items[id].comments);
        let n: usize = self.items.len();
        let mut new: Vec<usize> = if keep {
            Vec::new()
        } else {
            copy_of(&self.items[id].children)
        };
        assert(was.has_place(parent));
        assert(was.under(parent).no_duplicates());
        assert(new@ =~= moved(was, id, keep));
        assert(was.has_place(Some(id)));
        assert forall|k: int| 0 <= k < new@.len() implies #[trigger] new@[k] < n by {
            assert(was.under(Some(id))[k] == new@[k]);
        }
        self.set_parents(&new, parent);
        let ghost step = self@;
        assert(self@.items.len() == self.items@.len());
        if !keep {
            let ghost vec = self.items@;
            self.items[id].children = Vec::new();
            self.items[id].deleted = true;
            proof {
                assert forall|i: int| 0 <= i < n && i != id implies #[trigger] self@.items[i]
                    == step.items[i] by {
                    assert(self.items@[i] == vec[i]);
                }
                assert(step.items[id as int] == vec[id as int]@);
                assert(self@.items[id as int] == (Item {
                    children: seq![],
                    deleted: true,
                    ..step.items[id as int]
                }));
            }
        }
        let ghost cleared = self@;
        proof {
            assert(cleared.items.len() == n);
            assert(cleared.body == was.body);
            assert forall|i: int| 0 <= i < n implies (#[trigger] cleared.items[i]) == (Item {
                parent: if moved(was, id, keep).contains(i as usize) {
                    parent
                } else {
                    was.items[i].parent
                },
                children: if i == id && !keep {
                    seq![]
                } else {
                    was.items[i].children
                },
                deleted: was.items[i].deleted || (i == id && !keep),
                ..was.items[i]
            }) by {}
        }
        for part in it: parts
            invariant
                it.seq() == all,
                all == parts@,
                shown == document::nodes_view(all),
                forall|k: int| 0 <= k < shown.len() ==> is_part(#[trigger] shown[k]),
                n == was.items.len(),
                id < n,
                cleared.items.len() == n,
                self@.body == cleared.body,
                self@.items.len() == n + it.index(),
                forall|i: int| 0 <= i < n ==> (#[trigger] self@.items[i]) == cleared.items[i],
                forall|i: int|
                    n <= i < n + it.index() ==> (#[trigger] self@.items[i]) == fresh(
                        was.items[id as int],
                        shown[i - n],
                    ),
                new@ == moved(was, id, keep) + Seq::new(
                    it.index() as nat,
                    |j: int| (n + j) as usize,
                ),
                parent == was.items[id as int].parent,
                layer == was.items[id as int].layer,
                prov == was.items[id as int].prov,
                source == was.items[id as int].source,
                comments@ == was.items[id as int].comments,
        {
            let ghost i = it.index();
            let ghost vec = self.items@;
            let ghost before = self@;
            let ghost p = part@;
            assert(p == shown[i]);
            assert(is_part(shown[i]));
            let (kind, len): (TreeKind, usize) = match part {
                Node::Code { text } => {
                    let len: usize = text::chars_of(&text).len();
                    (TreeKind::Code { text }, len)
                },
                Node::Paragraph { text } => {
                    let len: usize = text::chars_of(&text).len();
                    (TreeKind::Text { text }, len)
                },
                _ => {
                    assert(false);
                    (TreeKind::Other { key: 0 }, 0)
                },
            };
            let at: Option<TreeProv> = match prov {
                Some(q) => Some(
                    TreeProv {
                        page_no: q.page_no,
                        bbox: q.bbox,
                        bottom_left: q.bottom_left,
                        charspan: [0, len],
                    },
                ),
                None => None,
            };
            let fresh_id: usize = self.items.len();
            let item = TreeItem {
                parent,
                children: Vec::new(),
                layer,
                kind,
                prov: at,
                comments: copy_of(&comments),
                source,
                deleted: false,
            };
            proof {
                assert(item@.children =~= Seq::<usize>::empty());
                if let Some(q) = prov {
                    let want: [usize; 2] = [0usize, part_len(p) as usize];
                    assert(at->0.charspan@ =~= want@);
                    assert(at->0.charspan =~= want);
                }
                assert(item@ == fresh(was.items[id as int], p));
            }
            self.items.push(item);
            proof {
                assert forall|j: int| 0 <= j < n + i implies #[trigger] self@.items[j]
                    == before.items[j] by {
                    assert(self.items@[j] == vec[j]);
                }
                assert(self@.items[n + i] == item@);
            }
            new.push(fresh_id);
            assert(new@ =~= moved(was, id, keep) + Seq::new(
                (i + 1) as nat,
                |j: int| (n + j) as usize,
            ));
        }
        proof {
            assert(new@ == inserted(was, id, shown, keep));
            assert(was.under(parent).contains(id));
        }
        let ghost grown = self@;
        match parent {
            None => {
                let list = list_with(&self.body, id, &new, keep);
                self.body = list;
                assert(self@.items =~= grown.items);
            },
            Some(p) => {
                let ghost vec = self.items@;
                assert(grown.items[p as int] == vec[p as int]@);
                let list = list_with(&self.items[p].children, id, &new, keep);
                self.items[p].children = list;
                proof {
                    assert forall|i: int| 0 <= i < grown.items.len() && i != p implies
                        #[trigger] self@.items[i] == grown.items[i] by {
                        assert(self.items@[i] == vec[i]);
                    }
                    assert(self@.items[p as int] == (Item {
                        children: list@,
                        ..grown.items[p as int]
                    }));
                }
            },
        }
        proof {
            let want = replaced(was, id, shown, keep);
            assert(self@.items.len() == want.items.len());
            assert forall|i: int| 0 <= i < want.items.len() implies #[trigger] self@.items[i]
                == want.items[i] by {}
            assert(self@.items =~= want.items);
            assert(self@.body =~= want.body);
            assert(self@ =~= want);
        }
    }
}


/// Putting what OCR produced into a well-formed tree leaves it well formed:
/// every item that is not deleted is listed once, under its parent. So the
/// items that stood under a picture survive it.
pub proof fn law_replacing_keeps_the_tree_well_formed(
    t: Tree,
    id: usize,
    parts: Seq<NodeView>,
    keep: bool,
)
    requires
        t.well_formed(),
        id < t.items.len(),
        !t.items[id as int].deleted,
        t.items[id as int].parent != Some(id),
        t.items.len() + parts.len() <= usize::MAX,
    ensures
        replaced(t, id, parts, keep).well_formed(),
{
    lemma_lists_stay_unique(t, id, parts, keep);
    lemma_lists_name_children(t, id, parts, keep);
    lemma_children_are_listed(t, id, parts, keep);
    reveal(Tree::well_formed);
}

/// The lists of a well-formed tree that a replacement reads: the one that
/// names the picture, and the one under it.
proof fn lemma_lists_around(
    t: Tree,
    id: usize,
    parts: Seq<NodeView>,
    keep: bool,
)
    requires
        t.well_formed(),
        id < t.items.len(),
        !t.items[id as int].deleted,
        t.items[id as int].parent != Some(id),
        t.items.len() + parts.len() <= usize::MAX,
    ensures
        ({
            let parent = t.items[id as int].parent;
            let old_list = t.under(parent);
            let up = moved(t, id, keep);
            &&& t.has_place(parent)
            &&& t.has_place(Some(id))
            &&& old_list.contains(id)
            &&& old_list.no_duplicates()
            &&& forall|k: int|
                0 <= k < up.len() ==> (#[trigger] up[k]) < t.items.len()
                    && t.items[up[k] as int].parent == Some(id)
                    && !t.items[up[k] as int].deleted && up[k] != id
            &&& forall|k: int|
                0 <= k < old_list.len() ==> (#[trigger] old_list[k]) < t.items.len()
                    && t.items[old_list[k] as int].parent == parent
                    && !t.items[old_list[k] as int].deleted
        }),
{
    reveal(Tree::well_formed);
    let parent = t.items[id as int].parent;
    let up = moved(t, id, keep);
    let old_list = t.under(parent);
    assert(t.has_place(Some(id)));
    assert forall|k: int| 0 <= k < up.len() implies (#[trigger] up[k]) < t.items.len()
        && t.items[up[k] as int].parent == Some(id) && !t.items[up[k] as int].deleted && up[k]
        != id by {
        assert(t.under(Some(id))[k] == up[k]);
    }
    assert forall|k: int| 0 <= k < old_list.len() implies (#[trigger] old_list[k]) < t.items.len()
        && t.items[old_list[k] as int].parent == parent && !t.items[old_list[k] as int].deleted by {
        assert(t.under(parent)[k] == old_list[k]);
    }
}

/// The list that named the picture names children of the same item afterwards.
proof fn lemma_list_names_children(
    t: Tree,
    id: usize,
    parts: Seq<NodeView>,
    keep: bool,
)
    requires
        t.well_formed(),
        id < t.items.len(),
        !t.items[id as int].deleted,
        t.items[id as int].parent != Some(id),
        t.items.len() + parts.len() <= usize::MAX,
    ensures
        ({
            let r = replaced(t, id, parts, keep);
            let parent = t.items[id as int].parent;
            let list = placed(t.under(parent), id, inserted(t, id, parts, keep), keep);
            forall|k: int|
                0 <= k < list.len() ==> (#[trigger] list[k]) < r.items.len()
                    && r.items[list[k] as int].parent == parent && !r.items[list[k] as int].deleted
        }),
{
    lemma_lists_around(t, id, parts, keep);
    let r = replaced(t, id, parts, keep);
    let n = t.items.len();
    let parent = t.items[id as int].parent;
    let old_list = t.under(parent);
    let up = moved(t, id, keep);
    let new = inserted(t, id, parts, keep);
    let list = placed(old_list, id, new, keep);
    let at = old_list.index_of(id);
    assert(0 <= at < old_list.len() && old_list[at] == id);
    let front = if keep {
        at + 1
    } else {
        at
    };
    assert forall|k: int| 0 <= k < list.len() implies (#[trigger] list[k]) < r.items.len()
        && r.items[list[k] as int].parent == parent && !r.items[list[k] as int].deleted by {
        lemma_placed_at(old_list, id, new, keep, k);
        if k < front {
            assert(list[k] == old_list[k]);
            assert(!up.contains(list[k]));
            if !keep {
                assert(old_list[k] != id);
            }
        } else if k < front + new.len() {
            let j = k - front;
            assert(list[k] == new[j]);
            if j < up.len() {
                assert(new[j] == up[j]);
                assert(up.contains(up[j]));
            } else {
                assert(new[j] == (n + (j - up.len())) as usize);
            }
        } else {
            let j = k - front - new.len() + at + 1;
            assert(list[k] == old_list[j]);
            assert(!up.contains(list[k]));
            assert(old_list[j] != id);
        }
    }
}

/// No list names an item twice afterwards.
proof fn lemma_lists_stay_unique(
    t: Tree,
    id: usize,
    parts: Seq<NodeView>,
    keep: bool,
)
    requires
        t.well_formed(),
        id < t.items.len(),
        !t.items[id as int].deleted,
        t.items[id as int].parent != Some(id),
        t.items.len() + parts.len() <= usize::MAX,
    ensures
        forall|p: Option<usize>| #[trigger]
            replaced(t, id, parts, keep).has_place(p) ==> replaced(t, id, parts, keep).under(
                p,
            ).no_duplicates(),
{
    lemma_lists_around(t, id, parts, keep);
    let r = replaced(t, id, parts, keep);
    let old_list = t.under(t.items[id as int].parent);
    let new = inserted(t, id, parts, keep);
    let list = placed(old_list, id, new, keep);
    assert(list.no_duplicates()) by {
        assert forall|a: int, b: int|
            0 <= a < list.len() && 0 <= b < list.len() && a != b implies list[a] != list[b] by {
            lemma_placed_at(old_list, id, new, keep, a);
            lemma_placed_at(old_list, id, new, keep, b);
            lemma_inserted_at(t, id, parts, keep);
        }
    }
    assert forall|p: Option<usize>| #[trigger] r.has_place(p) implies r.under(
        p,
    ).no_duplicates() by {
        lemma_under_replaced(t, id, parts, keep, p);
        if t.has_place(p) {
            reveal(Tree::well_formed);
            assert(t.under(p).no_duplicates());
        }
    }
}

/// Every list names children of its owner afterwards.
proof fn lemma_lists_name_children(
    t: Tree,
    id: usize,
    parts: Seq<NodeView>,
    keep: bool,
)
    requires
        t.well_formed(),
        id < t.items.len(),
        !t.items[id as int].deleted,
        t.items[id as int].parent != Some(id),
        t.items.len() + parts.len() <= usize::MAX,
    ensures
        ({
            let r = replaced(t, id, parts, keep);
            forall|p: Option<usize>, k: int|
                #![trigger r.under(p)[k]]
                r.has_place(p) && 0 <= k < r.under(p).len() ==> r.under(p)[k] < r.items.len()
                    && r.items[r.under(p)[k] as int].parent == p && !r.items[r.under(
                    p,
                )[k] as int].deleted
        }),
{
    lemma_lists_around(t, id, parts, keep);
    lemma_list_names_children(t, id, parts, keep);
    let r = replaced(t, id, parts, keep);
    let parent = t.items[id as int].parent;
    let up = moved(t, id, keep);
    let list = placed(t.under(parent), id, inserted(t, id, parts, keep), keep);
    assert forall|p: Option<usize>, k: int|
        #![trigger r.under(p)[k]]
        r.has_place(p) && 0 <= k < r.under(p).len() implies r.under(p)[k] < r.items.len()
        && r.items[r.under(p)[k] as int].parent == p && !r.items[r.under(
        p,
    )[k] as int].deleted by {
        lemma_under_replaced(t, id, parts, keep, p);
        if p == parent {
            assert(r.under(p)[k] == list[k]);
        } else {
            assert(t.has_place(p));
            let c = t.under(p)[k];
            assert(r.under(p)[k] == c);
            assert(c < t.items.len() && t.items[c as int].parent == p
                && !t.items[c as int].deleted) by {
                reveal(Tree::well_formed);
            }
            if up.contains(c) {
                let j = choose|j: int| 0 <= j < up.len() && up[j] == c;
                assert(t.items[up[j] as int].parent == Some(id));
            }
        }
    }
}

/// Every item that is not deleted is in its parent's list afterwards.
proof fn lemma_children_are_listed(
    t: Tree,
    id: usize,
    parts: Seq<NodeView>,
    keep: bool,
)
    requires
        t.well_formed(),
        id < t.items.len(),
        !t.items[id as int].deleted,
        t.items[id as int].parent != Some(id),
        t.items.len() + parts.len() <= usize::MAX,
    ensures
        ({
            let r = replaced(t, id, parts, keep);
            forall|i: int|
                0 <= i < r.items.len() && !(#[trigger] r.items[i]).deleted ==> r.has_place(
                    r.items[i].parent,
                ) && r.under(r.items[i].parent).contains(i as usize)
        }),
{
    let r = replaced(t, id, parts, keep);
    assert forall|i: int|
        0 <= i < r.items.len() && !(#[trigger] r.items[i]).deleted implies r.has_place(
        r.items[i].parent,
    ) && r.under(r.items[i].parent).contains(i as usize) by {
        lemma_child_is_listed(t, id, parts, keep, i);
    }
}

proof fn lemma_child_is_listed(
    t: Tree,
    id: usize,
    parts: Seq<NodeView>,
    keep: bool,
    i: int,
)
    requires
        t.well_formed(),
        id < t.items.len(),
        !t.items[id as int].deleted,
        t.items[id as int].parent != Some(id),
        t.items.len() + parts.len() <= usize::MAX,
        0 <= i < replaced(t, id, parts, keep).items.len(),
        !replaced(t, id, parts, keep).items[i].deleted,
    ensures
        ({
            let r = replaced(t, id, parts, keep);
            r.has_place(r.items[i].parent) && r.under(r.items[i].parent).contains(i as usize)
        }),
{
    lemma_lists_around(t, id, parts, keep);
    let r = replaced(t, id, parts, keep);
    let n = t.items.len();
    let parent = t.items[id as int].parent;
    let old_list = t.under(parent);
    let up = moved(t, id, keep);
    let new = inserted(t, id, parts, keep);
    let list = placed(old_list, id, new, keep);
    let at = old_list.index_of(id);
    assert(0 <= at < old_list.len() && old_list[at] == id);
    let front = if keep {
        at + 1
    } else {
        at
    };
    let p = r.items[i].parent;
    if i >= n || up.contains(i as usize) {
        let j = if i >= n {
            up.len() + (i - n)
        } else {
            choose|j: int| 0 <= j < up.len() && up[j] == i as usize
        };
        assert(new[j] == i as usize);
        assert(list[front + j] == i as usize);
        lemma_under_replaced(t, id, parts, keep, parent);
    } else {
        assert(t.has_place(p) && t.under(p).contains(i as usize)) by {
            reveal(Tree::well_formed);
            assert(!t.items[i].deleted);
        }
        let k = choose|k: int| 0 <= k < t.under(p).len() && t.under(p)[k] == i as usize;
        lemma_under_replaced(t, id, parts, keep, p);
        if p == parent {
            if k < at {
                assert(list[k] == old_list[k]);
            } else if k == at {
                assert(keep);
                assert(list[at] == id);
            } else {
                assert(list[k - at - 1 + front + new.len()] == old_list[k]);
            }
        } else {
            if p == Some(id) && !keep {
                assert(up[k] == i as usize);
                assert(up.contains(i as usize));
            }
            assert(r.under(p)[k] == i as usize);
        }
    }
}

pub proof fn lemma_placed_at(list: Seq<usize>, id: usize, new: Seq<usize>, keep: bool, k: int)
    requires
        list.contains(id),
        0 <= k < placed(list, id, new, keep).len(),
    ensures
        ({
            let at = list.index_of(id);
            let front = if keep {
                at + 1
            } else {
                at
            };
            placed(list, id, new, keep)[k] == if k < front {
                list[k]
            } else if k < front + new.len() {
                new[k - front]
            } else {
                list[k - front - new.len() + at + 1]
            }
        }),
        0 <= list.index_of(id) < list.len(),
        placed(list, id, new, keep).len() == list.len() + new.len() - if keep {
            0int
        } else {
            1int
        },
{
}

/// What is inserted is under the picture or new, and nothing comes twice.
proof fn lemma_inserted_at(t: Tree, id: usize, parts: Seq<NodeView>, keep: bool)
    requires
        t.well_formed(),
        id < t.items.len(),
        t.items.len() + parts.len() <= usize::MAX,
        t.items[id as int].parent != Some(id),
        t.has_place(t.items[id as int].parent),
    ensures
        forall|a: int, b: int|
            0 <= a < inserted(t, id, parts, keep).len() && 0 <= b < inserted(
                t,
                id,
                parts,
                keep,
            ).len() && a != b ==> inserted(t, id, parts, keep)[a] != inserted(
                t,
                id,
                parts,
                keep,
            )[b],
        forall|a: int, k: int|
            0 <= a < inserted(t, id, parts, keep).len() && 0 <= k < t.under(
                t.items[id as int].parent,
            ).len() ==> inserted(t, id, parts, keep)[a] != t.under(
                t.items[id as int].parent,
            )[k],
{
    reveal(Tree::well_formed);
    let new = inserted(t, id, parts, keep);
    let up = moved(t, id, keep);
    let parent = t.items[id as int].parent;
    assert(t.has_place(Some(id)));
    assert(t.under(Some(id)).no_duplicates());
    assert forall|k: int| 0 <= k < up.len() implies #[trigger] up[k] < t.items.len()
        && t.items[up[k] as int].parent == Some(id) by {
        assert(t.under(Some(id))[k] == up[k]);
    }
    assert forall|a: int| 0 <= a < new.len() implies #[trigger] new[a] == if a < up.len() {
        up[a]
    } else {
        (t.items.len() + (a - up.len())) as usize
    } by {}
    assert forall|a: int, k: int|
        0 <= a < new.len() && 0 <= k < t.under(parent).len() implies new[a] != t.under(
        parent,
    )[k] by {
        assert(t.items[t.under(parent)[k] as int].parent == parent);
    }
}

/// The lists of a tree after a picture was read.
pub proof fn lemma_under_replaced(
    t: Tree,
    id: usize,
    parts: Seq<NodeView>,
    keep: bool,
    p: Option<usize>,
)
    requires
        id < t.items.len(),
        t.items[id as int].parent != Some(id),
        t.items.len() + parts.len() <= usize::MAX,
    ensures
        ({
            let r = replaced(t, id, parts, keep);
            let parent = t.items[id as int].parent;
            &&& p == parent && t.has_place(p) ==> r.under(p) == placed(
                t.under(parent),
                id,
                inserted(t, id, parts, keep),
                keep,
            )
            &&& p != parent && t.has_place(p) ==> r.under(p) == if p == Some(id) && !keep {
                seq![]
            } else {
                t.under(p)
            }
            &&& !t.has_place(p) && r.has_place(p) ==> r.under(p) == Seq::<usize>::empty()
            &&& t.has_place(p) ==> r.has_place(p)
        }),
{
}


/// An item's parent is the top or was seen.
pub open spec fn parent_seen(items: Seq<Item>, id: usize, seen: Seq<bool>) -> bool {
    match items[id as int].parent {
        None => true,
        Some(p) => p < seen.len() && seen[p as int],
    }
}

/// An item's parent is the top, was seen, or stands among some items.
pub open spec fn parent_before(
    items: Seq<Item>,
    id: usize,
    seen: Seq<bool>,
    before: Seq<usize>,
) -> bool {
    parent_seen(items, id, seen) || (items[id as int].parent is Some && before.contains(
        items[id as int].parent->0,
    ))
}

pub proof fn lemma_visits(t: Tree, pending: Seq<usize>, seen: Seq<bool>)
    requires
        t.well_formed(),
        seen.len() == t.items.len(),
        forall|k: int|
            0 <= k < pending.len() ==> (#[trigger] pending[k]) < t.items.len() && parent_seen(
                t.items,
                pending[k],
                seen,
            ),
    ensures
        visits(t.items, pending, seen).no_duplicates(),
        forall|k: int|
            #![trigger visits(t.items, pending, seen)[k]]
            0 <= k < visits(t.items, pending, seen).len() ==> {
                let id = visits(t.items, pending, seen)[k];
                &&& id < t.items.len()
                &&& !seen[id as int]
                &&& !t.items[id as int].deleted
                &&& parent_before(
                    t.items,
                    id,
                    seen,
                    visits(t.items, pending, seen).take(k),
                )
            },
    decreases unseen(seen), pending.len(),
{
    reveal(Tree::well_formed);
    if pending.len() > 0 {
        let id = pending.last();
        let rest = pending.drop_last();
        if seen[id as int] || t.items[id as int].deleted {
            lemma_visits(t, rest, seen);
        } else {
            lemma_unseen_update(seen, id as int);
            let kids = t.items[id as int].children.reverse();
            let next = rest + kids;
            let marked = seen.update(id as int, true);
            assert(t.has_place(Some(id)));
            assert forall|k: int| 0 <= k < next.len() implies (#[trigger] next[k]) < t.items.len()
                && parent_seen(t.items, next[k], marked) by {
                if k < rest.len() {
                    assert(next[k] == pending[k]);
                } else {
                    let j = kids.len() - 1 - (k - rest.len());
                    assert(next[k] == t.under(Some(id))[j]);
                }
            }
            lemma_visits(t, next, marked);
            let tail = visits(t.items, next, marked);
            let all = visits(t.items, pending, seen);
            assert(all =~= seq![id] + tail);
            assert forall|k: int| #![trigger all[k]] 0 <= k < all.len() implies {
                &&& all[k] < t.items.len()
                &&& !seen[all[k] as int]
                &&& !t.items[all[k] as int].deleted
                &&& parent_before(t.items, all[k], seen, all.take(k))
            } by {
                if k > 0 {
                    let c = tail[k - 1];
                    assert(all[k] == c);
                    assert(!marked[c as int]);
                    assert(parent_before(t.items, c, marked, tail.take(k - 1)));
                    if t.items[c as int].parent is Some && !parent_seen(t.items, c, seen) {
                        let p = t.items[c as int].parent->0;
                        if p == id {
                            assert(all.take(k)[0] == p);
                        } else {
                            let early = tail.take(k - 1);
                            assert(early.contains(p));
                            let j = choose|j: int| 0 <= j < early.len() && early[j] == p;
                            assert(all.take(k)[j + 1] == p);
                        }
                    }
                }
            }
            assert forall|a: int, b: int|
                0 <= a < all.len() && 0 <= b < all.len() && a != b implies all[a] != all[b] by {
                if a == 0 {
                    assert(all[b] == tail[b - 1]);
                } else if b == 0 {
                    assert(all[a] == tail[a - 1]);
                } else {
                    assert(all[a] == tail[a - 1]);
                    assert(all[b] == tail[b - 1]);
                }
            }
        }
    }
}

/// Reading order names items of the tree that are not deleted, none of them
/// twice, and each after its parent.
pub proof fn law_reading_order(t: Tree)
    requires
        t.well_formed(),
    ensures
        reading_order(t).no_duplicates(),
        forall|k: int|
            #![trigger reading_order(t)[k]]
            0 <= k < reading_order(t).len() ==> reading_order(t)[k] < t.items.len()
                && !t.items[reading_order(t)[k] as int].deleted,
        follows_parents(t, reading_order(t)),
{
    reveal(Tree::well_formed);
    let seen = Seq::new(t.items.len(), |i: int| false);
    let pending = t.body.reverse();
    assert(t.has_place(None));
    assert forall|k: int| 0 <= k < pending.len() implies (#[trigger] pending[k]) < t.items.len()
        && parent_seen(t.items, pending[k], seen) by {
        assert(pending[k] == t.under(None)[pending.len() - 1 - k]);
    }
    lemma_visits(t, pending, seen);
    let order = reading_order(t);
    assert forall|k: int|
        0 <= k < order.len() && !t.items[(#[trigger] order[k]) as int].deleted implies match t.items[order[k] as int].parent {
        None => true,
        Some(p) => exists|j: int| 0 <= j < k && order[j] == p,
    } by {
        assert(parent_before(t.items, order[k], seen, order.take(k)));
        if let Some(p) = t.items[order[k] as int].parent {
            let early = order.take(k);
            assert(early.contains(p));
            let j = choose|j: int| 0 <= j < early.len() && early[j] == p;
            assert(order[j] == p);
        }
    }
}

/// Each of these items that is not deleted comes after its parent.
pub open spec fn follows_parents(t: Tree, order: Seq<usize>) -> bool {
    forall|k: int|
        0 <= k < order.len() && !t.items[(#[trigger] order[k]) as int].deleted
            ==> match t.items[order[k] as int].parent {
            None => true,
            Some(p) => exists|j: int| 0 <= j < k && order[j] == p,
        }
}

proof fn lemma_replaced_follows(
    t: Tree,
    order: Seq<usize>,
    id: usize,
    parts: Seq<NodeView>,
    keep: bool,
)
    requires
        t.well_formed(),
        order.no_duplicates(),
        follows_parents(t, order),
        order.contains(id),
        id < t.items.len(),
        !t.items[id as int].deleted,
        forall|k: int| 0 <= k < order.len() ==> (#[trigger] order[k]) < t.items.len(),
    ensures
        follows_parents(replaced(t, id, parts, keep), order),
        t.items[id as int].parent != Some(id),
{
    reveal(Tree::well_formed);
    let r = replaced(t, id, parts, keep);
    let up = moved(t, id, keep);
    let m = choose|m: int| 0 <= m < order.len() && order[m] == id;
    assert(!t.items[order[m] as int].deleted);
    assert(t.has_place(Some(id)));
    assert forall|k: int|
        0 <= k < order.len() && !r.items[(#[trigger] order[k]) as int].deleted implies match r.items[order[k] as int].parent {
        None => true,
        Some(p) => exists|j: int| 0 <= j < k && order[j] == p,
    } by {
        let c = order[k];
        assert(!t.items[c as int].deleted);
        if up.contains(c) {
            let j = choose|j: int| 0 <= j < up.len() && up[j] == c;
            assert(t.under(Some(id))[j] == c);
            assert(t.items[c as int].parent == Some(id));
            let at = choose|j: int| 0 <= j < k && order[j] == id;
            assert(at == m);
            if let Some(p) = t.items[id as int].parent {
                let q = choose|j: int| 0 <= j < m && order[j] == p;
                assert(0 <= q < k && order[q] == p);
            }
        }
    }
}

/// The pictures of a tree in reading order.
pub open spec fn pictures(t: Tree) -> Seq<usize> {
    reading_order(t).filter(|i: usize| t.items[i as int].kind is Picture)
}

/// The images to read among some pictures, in order.
pub open spec fn requests_of(
    t: Tree,
    ids: Seq<usize>,
    covers: Seq<(usize, usize)>,
    opts: PostOptions,
) -> Seq<Image>
    decreases ids.len(),
{
    if ids.len() == 0 {
        seq![]
    } else {
        let rest = requests_of(t, ids.skip(1), covers, opts);
        if tree_verdict(t, ids[0], covers, opts) == Verdict::Read {
            seq![t.items[ids[0] as int].kind->Picture_image->0] + rest
        } else {
            rest
        }
    }
}

/// The images to read in a tree, in reading order.
pub open spec fn tree_requests(t: Tree, covers: Seq<(usize, usize)>, opts: PostOptions) -> Seq<
    Image,
> {
    requests_of(t, pictures(t), covers, opts)
}

/// A tree `now` after some pictures of the tree `t` were read.
pub open spec fn result_of(
    t: Tree,
    ids: Seq<usize>,
    now: Tree,
    covers: Seq<(usize, usize)>,
    opts: PostOptions,
    outs: Seq<Option<Outcome>>,
) -> Tree
    decreases ids.len(),
{
    if ids.len() == 0 {
        now
    } else if tree_verdict(t, ids[0], covers, opts) == Verdict::Read {
        let next = match postprocess::spliced(outs[0], opts) {
            Some(parts) => replaced(now, ids[0], parts, opts.keep_picture),
            None => now,
        };
        result_of(t, ids.skip(1), next, covers, opts, outs.skip(1))
    } else {
        result_of(t, ids.skip(1), now, covers, opts, outs)
    }
}

/// A tree after the transform.
pub open spec fn tree_transformed(
    t: Tree,
    covers: Seq<(usize, usize)>,
    opts: PostOptions,
    outs: Seq<Option<Outcome>>,
) -> Tree {
    result_of(t, pictures(t), t, covers, opts, outs)
}

/// What some pictures add to the counters.
pub open spec fn tally_of(
    t: Tree,
    ids: Seq<usize>,
    covers: Seq<(usize, usize)>,
    opts: PostOptions,
    outs: Seq<Option<Outcome>>,
) -> Tally
    decreases ids.len(),
{
    if ids.len() == 0 {
        postprocess::nothing()
    } else {
        let v = tree_verdict(t, ids[0], covers, opts);
        postprocess::plus(
            postprocess::picture_tally(v, outs[0]),
            tally_of(
                t,
                ids.skip(1),
                covers,
                opts,
                if v == Verdict::Read {
                    outs.skip(1)
                } else {
                    outs
                },
            ),
        )
    }
}

/// What the transform of a tree counts.
pub open spec fn tree_counted(
    t: Tree,
    covers: Seq<(usize, usize)>,
    opts: PostOptions,
    outs: Seq<Option<Outcome>>,
) -> Tally {
    tally_of(t, pictures(t), covers, opts, outs)
}

fn pictures_of(tree: &ItemTree) -> (r: Vec<usize>)
    requires
        tree@.well_formed(),
    ensures
        r@ == pictures(tree@),
{
    let order = order_of(tree);
    let mut out: Vec<usize> = Vec::new();
    let mut k: usize = 0;
    let ghost pred = |i: usize| tree@.items[i as int].kind is Picture;
    proof {
        law_reading_order(tree@);
        reveal(Seq::filter);
        assert(order@.take(0).filter(pred) =~= Seq::<usize>::empty());
    }
    while k < order.len()
        invariant
            k <= order@.len(),
            order@ == reading_order(tree@),
            pred == (|i: usize| tree@.items[i as int].kind is Picture),
            forall|j: int| 0 <= j < order@.len() ==> (#[trigger] order@[j]) < tree.items@.len(),
            out@ == order@.take(k as int).filter(pred),
        decreases order@.len() - k,
    {
        let id: usize = order[k];
        assert(id < tree.items@.len());
        assert(tree@.items[id as int] == tree.items@[id as int]@);
        proof {
            reveal(Seq::filter);
            assert(order@.take(k + 1).drop_last() =~= order@.take(k as int));
            assert(order@.take(k + 1).last() == id);
        }
        match &tree.items[id].kind {
            TreeKind::Picture { .. } => {
                assert(pred(id));
                out.push(id);
            },
            _ => {
                assert(!pred(id));
            },
        }
        k += 1;
    }
    assert(order@.take(k as int) =~= order@);
    out
}

/// List the images to read in a tree, in reading order. `covers` pairs
/// pictures with tables: those where at least four fifths of the table's box
/// lie inside the picture's box.
pub fn tree_pictures_to_read<'a>(
    tree: &'a ItemTree,
    covers: &[(usize, usize)],
    opts: &PostOptions,
) -> (r: Vec<&'a PictureImage>)
    requires
        tree@.well_formed(),
    ensures
        postprocess::image_views(r@) == tree_requests(tree@, covers@, *opts),
{
    let ids = pictures_of(tree);
    let mut out: Vec<&'a PictureImage> = Vec::new();
    let mut k: usize = 0;
    proof {
        lemma_pictures(tree@);
        assert(ids@.skip(0) =~= ids@);
        assert(postprocess::image_views(out@) + tree_requests(tree@, covers@, *opts)
            =~= tree_requests(tree@, covers@, *opts));
    }
    while k < ids.len()
        invariant
            k <= ids@.len(),
            ids@ == pictures(tree@),
            forall|j: int| 0 <= j < ids@.len() ==> (#[trigger] ids@[j]) < tree.items@.len(),
            postprocess::image_views(out@) + requests_of(
                tree@,
                ids@.skip(k as int),
                covers@,
                *opts,
            ) == tree_requests(tree@, covers@, *opts),
        decreases ids@.len() - k,
    {
        let id: usize = ids[k];
        let ghost before = postprocess::image_views(out@);
        let ghost rest = requests_of(tree@, ids@.skip(k + 1), covers@, *opts);
        assert(ids@.skip(k as int).skip(1) =~= ids@.skip(k + 1));
        assert(ids@.skip(k as int)[0] == id);
        assert(id < tree.items@.len());
        assert(tree@.items[id as int] == tree.items@[id as int]@);
        if tree_verdict_of(tree, id, covers, opts) == Verdict::Read {
            if let TreeKind::Picture { image: Some(img), .. } = &tree.items[id].kind {
                let img: &'a PictureImage = img;
                out.push(img);
                assert(postprocess::image_views(out@) =~= before.push(img@));
                assert(before + (seq![img@] + rest) =~= before.push(img@) + rest);
            }
        }
        k += 1;
    }
    assert(postprocess::image_views(out@) + Seq::<Image>::empty() =~= postprocess::image_views(
        out@,
    ));
    out
}

/// The pictures of a tree are items that are not deleted, none of them twice.
pub proof fn lemma_pictures(t: Tree)
    requires
        t.well_formed(),
    ensures
        pictures(t).no_duplicates(),
        forall|k: int|
            #![trigger pictures(t)[k]]
            0 <= k < pictures(t).len() ==> pictures(t)[k] < t.items.len()
                && !t.items[pictures(t)[k] as int].deleted && t.items[pictures(
                t,
            )[k] as int].kind is Picture && reading_order(t).contains(pictures(t)[k]),
{
    law_reading_order(t);
    let pred = |i: usize| t.items[i as int].kind is Picture;
    lemma_filter(reading_order(t), pred);
    assert forall|k: int| #![trigger pictures(t)[k]] 0 <= k < pictures(t).len() implies pictures(
        t,
    )[k] < t.items.len() && !t.items[pictures(t)[k] as int].deleted && t.items[pictures(
        t,
    )[k] as int].kind is Picture && reading_order(t).contains(pictures(t)[k]) by {
        let c = pictures(t)[k];
        assert(pred(c));
        assert(reading_order(t).contains(c));
        let j = choose|j: int| 0 <= j < reading_order(t).len() && reading_order(t)[j] == c;
        assert(reading_order(t)[j] < t.items.len());
    }
}

/// Filtering keeps what passes, and adds nothing.
proof fn lemma_filter(s: Seq<usize>, pred: spec_fn(usize) -> bool)
    requires
        s.no_duplicates(),
    ensures
        s.filter(pred).no_duplicates(),
        forall|k: int|
            #![trigger s.filter(pred)[k]]
            0 <= k < s.filter(pred).len() ==> pred(s.filter(pred)[k]) && s.contains(
                s.filter(pred)[k],
            ),
    decreases s.len(),
{
    reveal(Seq::filter);
    if s.len() > 0 {
        let front = s.drop_last();
        lemma_filter(front, pred);
        let f = s.filter(pred);
        let g = front.filter(pred);
        assert forall|k: int| #![trigger f[k]] 0 <= k < f.len() implies pred(f[k]) && s.contains(
            f[k],
        ) by {
            if k < g.len() {
                assert(f[k] == g[k]);
                assert(front.contains(g[k]));
                let j = choose|j: int| 0 <= j < front.len() && front[j] == g[k];
                assert(s[j] == g[k]);
            } else {
                assert(f[k] == s.last());
                assert(s[s.len() - 1] == f[k]);
            }
        }
        assert forall|a: int, b: int|
            0 <= a < f.len() && 0 <= b < f.len() && a != b implies f[a] != f[b] by {
            if a < g.len() && b < g.len() {
                assert(f[a] == g[a] && f[b] == g[b]);
            } else {
                let c = if a < g.len() {
                    a
                } else {
                    b
                };
                assert(front.contains(g[c]));
                let j = choose|j: int| 0 <= j < front.len() && front[j] == g[c];
                assert(s[j] == g[c]);
                assert(s[s.len() - 1] == s.last());
            }
        }
    }
}


/// Rewrite a tree with one outcome for each image to read. `covers` pairs
/// pictures with tables: those where at least four fifths of the table's box
/// lie inside the picture's box.
pub fn apply_tree(
    tree: &mut ItemTree,
    covers: &[(usize, usize)],
    opts: &PostOptions,
    outcomes: &[Option<OcrOutcome>],
) -> (stats: OcrStats)
    requires
        old(tree)@.well_formed(),
        outcomes@.len() == tree_requests(old(tree)@, covers@, *opts).len(),
    ensures
        final(tree)@ == tree_transformed(
            old(tree)@,
            covers@,
            *opts,
            postprocess::outcome_views(outcomes@),
        ),
        final(tree)@.well_formed(),
        stats@ == tree_counted(
            old(tree)@,
            covers@,
            *opts,
            postprocess::outcome_views(outcomes@),
        ),
{
    let ghost t = tree@;
    let ghost outs = postprocess::outcome_views(outcomes@);
    let ids = pictures_of(tree);
    proof {
        lemma_pictures(t);
        law_reading_order(t);
    }
    let verdicts = verdicts_of(tree, &ids, covers, opts);
    let mut stats = OcrStats::default();
    let mut used: usize = 0;
    let mut k: usize = 0;
    proof {
        assert(ids@.skip(0) =~= ids@);
        assert(outs.skip(0) =~= outs);
        let total = tree_counted(t, covers@, *opts, outs);
        assert(postprocess::plus(stats@, total) == total);
    }
    while k < ids.len()
        invariant
            k <= ids@.len(),
            used <= outcomes@.len(),
            t == old(tree)@,
            outs == postprocess::outcome_views(outcomes@),
            ids@ == pictures(t),
            t.well_formed(),
            tree@.well_formed(),
            tree@.items.len() >= t.items.len(),
            ids@.no_duplicates(),
            reading_order(t).no_duplicates(),
            follows_parents(tree@, reading_order(t)),
            forall|j: int|
                #![trigger reading_order(t)[j]]
                0 <= j < reading_order(t).len() ==> reading_order(t)[j] < t.items.len(),
            forall|j: int|
                #![trigger ids@[j]]
                0 <= j < ids@.len() ==> ids@[j] < t.items.len() && reading_order(t).contains(
                    ids@[j],
                ),
            forall|j: int|
                #![trigger ids@[j]]
                k <= j < ids@.len() ==> !tree@.items[ids@[j] as int].deleted,
            verdicts@.len() == ids@.len(),
            forall|j: int|
                0 <= j < ids@.len() ==> #[trigger] verdicts@[j] == tree_verdict(
                    t,
                    ids@[j],
                    covers@,
                    *opts,
                ),
            used + requests_of(t, ids@.skip(k as int), covers@, *opts).len() == outcomes@.len(),
            result_of(t, ids@.skip(k as int), tree@, covers@, *opts, outs.skip(used as int))
                == tree_transformed(t, covers@, *opts, outs),
            postprocess::plus(
                stats@,
                tally_of(t, ids@.skip(k as int), covers@, *opts, outs.skip(used as int)),
            ) == tree_counted(t, covers@, *opts, outs),
            postprocess::consistent(stats@),
            stats@.pictures == k,
        decreases ids@.len() - k,
    {
        let id: usize = ids[k];
        let ghost now = tree@;
        let ghost ahead = outs.skip(used as int);
        proof {
            assert(ids@.skip(k as int).skip(1) =~= ids@.skip(k + 1));
            assert(ids@.skip(k as int)[0] == id);
            assert(verdicts@[k as int] == tree_verdict(t, id, covers@, *opts));
            assert(!now.items[ids@[k as int] as int].deleted);
        }
        stats.pictures = stats.pictures + 1;
        match verdicts[k] {
            Verdict::Leave => {},
            Verdict::Structured => {
                stats.skipped_structured = stats.skipped_structured + 1;
            },
            Verdict::Small => {
                stats.skipped_small = stats.skipped_small + 1;
            },
            Verdict::Read => {
                proof {
                    assert(ahead[0] == outs[used as int]);
                    assert(outs[used as int] == postprocess::outcome_view(
                        outcomes@[used as int],
                    ));
                    assert(ahead.skip(1) =~= outs.skip(used + 1));
                }
                let parts = postprocess::ocr_parts(&outcomes[used], opts, &mut stats);
                used = used + 1;
                if let Some(parts) = parts {
                    assert(Some(document::nodes_view(parts@)) == postprocess::spliced(
                        ahead[0],
                        *opts,
                    ));
                    replace_visited(tree, id, parts, opts.keep_picture, Ghost(reading_order(t)));
                    proof {
                        assert forall|j: int|
                            #![trigger ids@[j]]
                            k + 1 <= j < ids@.len() implies !tree@.items[ids@[j] as int].deleted by {
                            assert(!now.items[ids@[j] as int].deleted);
                            assert(ids@[j] != ids@[k as int]);
                        }
                    }
                }
            },
        }
        k += 1;
    }
    proof {
        assert(ids@.skip(k as int).len() == 0);
        assert(postprocess::plus(stats@, postprocess::nothing()) == stats@);
    }
    stats
}

/// Put what OCR produced in the place of a picture that reading order comes to.
fn replace_visited(
    tree: &mut ItemTree,
    id: usize,
    parts: Vec<Node>,
    keep: bool,
    Ghost(order): Ghost<Seq<usize>>,
)
    requires
        old(tree)@.well_formed(),
        id < old(tree)@.items.len(),
        !old(tree)@.items[id as int].deleted,
        order.contains(id),
        order.no_duplicates(),
        follows_parents(old(tree)@, order),
        forall|k: int| 0 <= k < order.len() ==> (#[trigger] order[k]) < old(tree)@.items.len(),
        exists|o: Option<Outcome>, opts: PostOptions|
            #[trigger] postprocess::spliced(o, opts) == Some(document::nodes_view(parts@)),
    ensures
        final(tree)@ == replaced(old(tree)@, id, document::nodes_view(parts@), keep),
        final(tree)@.well_formed(),
        follows_parents(final(tree)@, order),
        old(tree)@.items.len() <= final(tree)@.items.len(),
        forall|i: int|
            0 <= i < old(tree)@.items.len() && i != id ==> (#[trigger] final(tree)@.items[i]).deleted
                == old(tree)@.items[i].deleted,
{
    let ghost now = tree@;
    let ghost shown = document::nodes_view(parts@);
    proof {
        lemma_replaced_follows(now, order, id, shown, keep);
        assert forall|j: int| 0 <= j < shown.len() implies is_part(#[trigger] shown[j]) by {}
    }
    tree.replace(id, parts, keep);
    let len: usize = tree.items.len();
    proof {
        assert(tree@.items.len() == len);
        law_replacing_keeps_the_tree_well_formed(now, id, shown, keep);
    }
}

fn verdicts_of(
    tree: &ItemTree,
    ids: &Vec<usize>,
    covers: &[(usize, usize)],
    opts: &PostOptions,
) -> (r: Vec<Verdict>)
    requires
        forall|j: int| 0 <= j < ids@.len() ==> (#[trigger] ids@[j]) < tree@.items.len(),
    ensures
        r@.len() == ids@.len(),
        forall|j: int|
            0 <= j < ids@.len() ==> #[trigger] r@[j] == tree_verdict(
                tree@,
                ids@[j],
                covers@,
                *opts,
            ),
{
    let mut r: Vec<Verdict> = Vec::new();
    let mut k: usize = 0;
    while k < ids.len()
        invariant
            k <= ids@.len(),
            r@.len() == k,
            forall|j: int| 0 <= j < ids@.len() ==> (#[trigger] ids@[j]) < tree@.items.len(),
            forall|j: int|
                0 <= j < k ==> #[trigger] r@[j] == tree_verdict(tree@, ids@[j], covers@, *opts),
        decreases ids@.len() - k,
    {
        assert(ids@[k as int] < tree@.items.len());
        let v = tree_verdict_of(tree, ids[k], covers, opts);
        r.push(v);
        k += 1;
    }
    r
}

/// The items of a tree keep what they are, their layer, place, comments and
/// source, and only a picture that was to go is deleted. So captions, links
/// and all other items survive.
pub proof fn law_items_survive(
    t: Tree,
    covers: Seq<(usize, usize)>,
    opts: PostOptions,
    outs: Seq<Option<Outcome>>,
    i: int,
)
    requires
        t.well_formed(),
        0 <= i < t.items.len(),
    ensures
        ({
            let r = tree_transformed(t, covers, opts, outs);
            &&& t.items.len() <= r.items.len()
            &&& r.items[i].kind == t.items[i].kind
            &&& r.items[i].layer == t.items[i].layer
            &&& r.items[i].prov == t.items[i].prov
            &&& r.items[i].comments == t.items[i].comments
            &&& r.items[i].source == t.items[i].source
            &&& r.items[i].deleted ==> t.items[i].deleted || (t.items[i].kind is Picture
                && !opts.keep_picture)
        }),
{
    lemma_pictures(t);
    lemma_survives(t, pictures(t), t, covers, opts, outs, i);
}

pub proof fn lemma_survives(
    t: Tree,
    ids: Seq<usize>,
    now: Tree,
    covers: Seq<(usize, usize)>,
    opts: PostOptions,
    outs: Seq<Option<Outcome>>,
    i: int,
)
    requires
        0 <= i < t.items.len() <= now.items.len(),
        forall|k: int|
            #![trigger ids[k]]
            0 <= k < ids.len() ==> ids[k] < t.items.len() && t.items[ids[k] as int].kind is Picture,
    ensures
        ({
            let r = result_of(t, ids, now, covers, opts, outs);
            &&& now.items.len() <= r.items.len()
            &&& r.items[i].kind == now.items[i].kind
            &&& r.items[i].layer == now.items[i].layer
            &&& r.items[i].prov == now.items[i].prov
            &&& r.items[i].comments == now.items[i].comments
            &&& r.items[i].source == now.items[i].source
            &&& r.items[i].deleted ==> now.items[i].deleted || (t.items[i].kind is Picture
                && !opts.keep_picture)
        }),
    decreases ids.len(),
{
    if ids.len() > 0 {
        assert(ids[0] < t.items.len());
        assert forall|k: int| #![trigger ids.skip(1)[k]] 0 <= k < ids.skip(1).len() implies ids.skip(
            1,
        )[k] < t.items.len() && t.items[ids.skip(1)[k] as int].kind is Picture by {
            assert(ids.skip(1)[k] == ids[k + 1]);
        }
        if tree_verdict(t, ids[0], covers, opts) == Verdict::Read {
            let next = match postprocess::spliced(outs[0], opts) {
                Some(parts) => replaced(now, ids[0], parts, opts.keep_picture),
                None => now,
            };
            lemma_survives(t, ids.skip(1), next, covers, opts, outs.skip(1), i);
        } else {
            lemma_survives(t, ids.skip(1), now, covers, opts, outs, i);
        }
    }
}

/// Where no engine could read any image, the tree stays as it was.
pub proof fn law_failures_leave_the_tree(
    t: Tree,
    covers: Seq<(usize, usize)>,
    opts: PostOptions,
    outs: Seq<Option<Outcome>>,
)
    requires
        outs.len() == tree_requests(t, covers, opts).len(),
        forall|i: int| 0 <= i < outs.len() ==> (#[trigger] outs[i]) is None,
    ensures
        tree_transformed(t, covers, opts, outs) == t,
{
    lemma_unread(t, pictures(t), t, covers, opts, outs);
}

proof fn lemma_unread(
    t: Tree,
    ids: Seq<usize>,
    now: Tree,
    covers: Seq<(usize, usize)>,
    opts: PostOptions,
    outs: Seq<Option<Outcome>>,
)
    requires
        outs.len() == requests_of(t, ids, covers, opts).len(),
        forall|i: int| 0 <= i < outs.len() ==> (#[trigger] outs[i]) is None,
    ensures
        result_of(t, ids, now, covers, opts, outs) == now,
    decreases ids.len(),
{
    if ids.len() > 0 {
        if tree_verdict(t, ids[0], covers, opts) == Verdict::Read {
            assert(outs[0] is None);
            assert forall|i: int| 0 <= i < outs.skip(1).len() implies (#[trigger] outs.skip(
                1,
            )[i]) is None by {
                assert(outs.skip(1)[i] == outs[i + 1]);
            }
            lemma_unread(t, ids.skip(1), now, covers, opts, outs.skip(1));
        } else {
            lemma_unread(t, ids.skip(1), now, covers, opts, outs);
        }
    }
}

/// No picture of a tree is counted under two heads, and every image that was
/// read is counted under exactly one.
pub proof fn law_tree_counts_add_up(
    t: Tree,
    covers: Seq<(usize, usize)>,
    opts: PostOptions,
    outs: Seq<Option<Outcome>>,
)
    ensures
        ({
            let c = tree_counted(t, covers, opts, outs);
            &&& postprocess::consistent(c)
            &&& c.pictures == pictures(t).len()
            &&& c.ocred + c.empty + c.failed == tree_requests(t, covers, opts).len()
        }),
{
    lemma_tally(t, pictures(t), covers, opts, outs);
}

proof fn lemma_tally(
    t: Tree,
    ids: Seq<usize>,
    covers: Seq<(usize, usize)>,
    opts: PostOptions,
    outs: Seq<Option<Outcome>>,
)
    ensures
        ({
            let c = tally_of(t, ids, covers, opts, outs);
            &&& postprocess::consistent(c)
            &&& c.pictures == ids.len()
            &&& c.ocred + c.empty + c.failed == requests_of(t, ids, covers, opts).len()
        }),
    decreases ids.len(),
{
    if ids.len() > 0 {
        let v = tree_verdict(t, ids[0], covers, opts);
        lemma_tally(
            t,
            ids.skip(1),
            covers,
            opts,
            if v == Verdict::Read {
                outs.skip(1)
            } else {
                outs
            },
        );
    }
}

} // verus!
