//! The order of paths: component by component, as directories list them.

use vstd::prelude::*;
use vstd::relations::{sorted_by, total_ordering};

use crate::paths;
use crate::text;

verus! {

/// One of two sequences comes first: at the first place where they differ it
/// has the smaller item, or it ends.
pub open spec fn lex<T>(lt: spec_fn(T, T) -> bool, a: Seq<T>, b: Seq<T>) -> bool
    decreases a.len(),
{
    if b.len() == 0 {
        false
    } else if a.len() == 0 {
        true
    } else if a[0] == b[0] {
        lex(lt, a.skip(1), b.skip(1))
    } else {
        lt(a[0], b[0])
    }
}

/// Of two items that differ one comes first, and what comes first of what
/// comes first comes first.
pub open spec fn strict<T>(lt: spec_fn(T, T) -> bool) -> bool {
    &&& forall|x: T| !#[trigger] lt(x, x)
    &&& forall|x: T, y: T, z: T| #[trigger] lt(x, y) && #[trigger] lt(y, z) ==> lt(x, z)
    &&& forall|x: T, y: T| x == y || #[trigger] lt(x, y) || lt(y, x)
}

proof fn lemma_lex_irreflexive<T>(lt: spec_fn(T, T) -> bool, a: Seq<T>)
    ensures
        !lex(lt, a, a),
    decreases a.len(),
{
    if a.len() > 0 {
        lemma_lex_irreflexive(lt, a.skip(1));
    }
}

proof fn lemma_lex_connected<T>(lt: spec_fn(T, T) -> bool, a: Seq<T>, b: Seq<T>)
    requires
        strict(lt),
    ensures
        a == b || lex(lt, a, b) || lex(lt, b, a),
    decreases a.len(),
{
    if a.len() > 0 && b.len() > 0 {
        if a[0] == b[0] {
            lemma_lex_connected(lt, a.skip(1), b.skip(1));
            if a.skip(1) == b.skip(1) {
                assert(a =~= seq![a[0]] + a.skip(1));
                assert(b =~= seq![b[0]] + b.skip(1));
            }
        } else {
            assert(lt(a[0], b[0]) || lt(b[0], a[0]));
        }
    } else if a.len() == 0 && b.len() == 0 {
        assert(a =~= b);
    }
}

proof fn lemma_lex_transitive<T>(lt: spec_fn(T, T) -> bool, a: Seq<T>, b: Seq<T>, c: Seq<T>)
    requires
        strict(lt),
        lex(lt, a, b),
        lex(lt, b, c),
    ensures
        lex(lt, a, c),
    decreases a.len(),
{
    if a.len() > 0 {
        if a[0] == b[0] && b[0] == c[0] {
            lemma_lex_transitive(lt, a.skip(1), b.skip(1), c.skip(1));
        } else if a[0] != b[0] && b[0] != c[0] {
            assert(lt(a[0], b[0]) && lt(b[0], c[0]));
            assert(lt(a[0], c[0]));
        }
    }
}

/// Characters by their codes.
pub open spec fn char_lt() -> spec_fn(char, char) -> bool {
    |a: char, b: char| a < b
}

proof fn lemma_char_lt()
    ensures
        strict(char_lt()),
{
}

/// The root comes before `.`, that before `..`, and that before names.
pub open spec fn rank(c: Seq<char>) -> int {
    if c == seq!['/'] {
        0
    } else if c == seq!['.'] {
        1
    } else if c == seq!['.', '.'] {
        2
    } else {
        3
    }
}

/// Components by their ranks, and names by their characters.
pub open spec fn component_lt() -> spec_fn(Seq<char>, Seq<char>) -> bool {
    |a: Seq<char>, b: Seq<char>|
        rank(a) < rank(b) || (rank(a) == rank(b) && lex(char_lt(), a, b))
}

proof fn lemma_component_lt()
    ensures
        strict(component_lt()),
{
    lemma_char_lt();
    let lt = component_lt();
    assert forall|x: Seq<char>| !#[trigger] lt(x, x) by {
        lemma_lex_irreflexive(char_lt(), x);
    }
    assert forall|x: Seq<char>, y: Seq<char>, z: Seq<char>| #[trigger]
        lt(x, y) && #[trigger] lt(y, z) implies lt(x, z) by {
        if rank(x) == rank(y) && rank(y) == rank(z) {
            lemma_lex_transitive(char_lt(), x, y, z);
        }
    }
    assert forall|x: Seq<char>, y: Seq<char>| x == y || #[trigger] lt(x, y) || lt(y, x) by {
        lemma_lex_connected(char_lt(), x, y);
    }
}

/// One of two paths comes first: by its components, and of two spellings of
/// one path by the text.
pub open spec fn path_lt(a: Seq<char>, b: Seq<char>) -> bool {
    let (x, y) = (paths::components(a), paths::components(b));
    lex(component_lt(), x, y) || (x == y && lex(char_lt(), a, b))
}

/// The order of paths.
pub open spec fn path_leq() -> spec_fn(Seq<char>, Seq<char>) -> bool {
    |a: Seq<char>, b: Seq<char>| a == b || path_lt(a, b)
}

/// Any two paths have an order.
pub proof fn law_paths_are_ordered()
    ensures
        total_ordering(path_leq()),
{
    lemma_char_lt();
    lemma_component_lt();
    let leq = path_leq();
    assert forall|a: Seq<char>, b: Seq<char>| #[trigger] leq(a, b) && #[trigger] leq(b, a) implies a
        == b by {
        if a != b {
            lemma_path_transitive(a, b, a);
            lemma_lex_irreflexive(component_lt(), paths::components(a));
            lemma_lex_irreflexive(char_lt(), a);
        }
    }
    assert forall|a: Seq<char>, b: Seq<char>, c: Seq<char>| #[trigger]
        leq(a, b) && #[trigger] leq(b, c) implies leq(a, c) by {
        if a != b && b != c {
            lemma_path_transitive(a, b, c);
        }
    }
    assert forall|a: Seq<char>, b: Seq<char>| #[trigger] leq(a, b) || leq(b, a) by {
        lemma_lex_connected(component_lt(), paths::components(a), paths::components(b));
        lemma_lex_connected(char_lt(), a, b);
    }
}

proof fn lemma_path_transitive(a: Seq<char>, b: Seq<char>, c: Seq<char>)
    requires
        path_lt(a, b),
        path_lt(b, c),
    ensures
        path_lt(a, c),
{
    lemma_char_lt();
    lemma_component_lt();
    let (x, y, z) = (paths::components(a), paths::components(b), paths::components(c));
    if lex(component_lt(), x, y) && lex(component_lt(), y, z) {
        lemma_lex_transitive(component_lt(), x, y, z);
    } else if x == y && y == z && lex(char_lt(), a, b) && lex(char_lt(), b, c) {
        lemma_lex_transitive(char_lt(), a, b, c);
    }
}

fn chars_before(a: &[char], b: &[char]) -> (r: bool)
    ensures
        r == lex(char_lt(), a@, b@),
{
    let mut i: usize = 0;
    assert(a@.skip(0) == a@ && b@.skip(0) == b@);
    while i < a.len() && i < b.len()
        invariant
            i <= a@.len(),
            i <= b@.len(),
            lex(char_lt(), a@, b@) == lex(char_lt(), a@.skip(i as int), b@.skip(i as int)),
        decreases a@.len() - i,
    {
        if a[i] != b[i] {
            return a[i] < b[i];
        }
        assert(a@.skip(i as int).skip(1) == a@.skip(i + 1));
        assert(b@.skip(i as int).skip(1) == b@.skip(i + 1));
        i += 1;
    }
    i < b.len()
}

fn rank_of(c: &[char]) -> (r: u8)
    ensures
        r == rank(c@),
{
    if c.len() == 1 && c[0] == '/' {
        assert(c@ =~= seq!['/']);
        0
    } else if c.len() == 1 && c[0] == '.' {
        assert(c@ =~= seq!['.']);
        1
    } else if c.len() == 2 && c[0] == '.' && c[1] == '.' {
        assert(c@ =~= seq!['.', '.']);
        2
    } else {
        3
    }
}

fn component_before(a: &[char], b: &[char]) -> (r: bool)
    ensures
        r == component_lt()(a@, b@),
{
    let x: u8 = rank_of(a);
    let y: u8 = rank_of(b);
    x < y || (x == y && chars_before(a, b))
}

/// A path with its components.
struct Keyed {
    text: Vec<char>,
    parts: Vec<Vec<char>>,
}

spec fn keyed(k: Keyed, path: Seq<char>) -> bool {
    k.text@ == path && text::views(k.parts@) == paths::components(path)
}

/// Whether a path comes before another, by their components first.
fn path_before(a: &Keyed, b: &Keyed) -> (r: bool)
    requires
        keyed(*a, a.text@),
        keyed(*b, b.text@),
    ensures
        r == path_lt(a.text@, b.text@),
{
    let ghost x = text::views(a.parts@);
    let ghost y = text::views(b.parts@);
    let mut i: usize = 0;
    assert(x.skip(0) == x && y.skip(0) == y);
    proof {
        lemma_lex_irreflexive(component_lt(), x);
    }
    while i < a.parts.len() && i < b.parts.len()
        invariant
            i <= x.len(),
            i <= y.len(),
            x == text::views(a.parts@),
            y == text::views(b.parts@),
            x == paths::components(a.text@),
            y == paths::components(b.text@),
            x.take(i as int) == y.take(i as int),
            lex(component_lt(), x, y) == lex(component_lt(), x.skip(i as int), y.skip(i as int)),
        decreases x.len() - i,
    {
        let p = &a.parts[i];
        let q = &b.parts[i];
        assert(x.skip(i as int)[0] == p@ && y.skip(i as int)[0] == q@);
        let same = p.len() == q.len() && text::is_at(p, q, 0);
        assert(same == (p@ == q@)) by {
            assert(p@.subrange(0, p@.len() as int) == p@);
        }
        if !same {
            assert(x[i as int] != y[i as int]);
            return component_before(p, q);
        }
        assert(x.skip(i as int).skip(1) == x.skip(i + 1));
        assert(y.skip(i as int).skip(1) == y.skip(i + 1));
        assert(x.take(i + 1) == x.take(i as int).push(x[i as int]));
        assert(y.take(i + 1) == y.take(i as int).push(y[i as int]));
        i += 1;
    }
    if i < b.parts.len() {
        assert(x.len() < y.len());
        return true;
    }
    if i < a.parts.len() {
        return false;
    }
    assert(x.take(i as int) == x && y.take(i as int) == y);
    chars_before(&a.text, &b.text)
}

/// The paths of some of a list.
spec fn chosen(keys: Seq<Keyed>, at: Seq<usize>) -> Seq<Seq<char>> {
    at.map_values(|i: usize| keys[i as int].text@)
}

/// Where a path goes among some that are in order: behind all that do not come
/// after it.
fn place(keys: &Vec<Keyed>, at: &Vec<usize>, x: usize) -> (p: usize)
    requires
        x < keys@.len(),
        forall|i: int| 0 <= i < at@.len() ==> (#[trigger] at@[i]) < keys@.len(),
        forall|i: int| 0 <= i < keys@.len() ==> keyed(#[trigger] keys@[i], keys@[i].text@),
        sorted_by(chosen(keys@, at@), path_leq()),
    ensures
        p <= at@.len(),
        forall|i: int|
            0 <= i < p ==> path_leq()(#[trigger] chosen(keys@, at@)[i], keys@[x as int].text@),
        forall|i: int|
            p <= i < at@.len() ==> path_leq()(
                keys@[x as int].text@,
                #[trigger] chosen(keys@, at@)[i],
            ),
{
    let ghost all = chosen(keys@, at@);
    let ghost mine = keys@[x as int].text@;
    let mut lo: usize = 0;
    let mut hi: usize = at.len();
    proof {
        law_paths_are_ordered();
    }
    while lo < hi
        invariant
            lo <= hi <= at@.len(),
            all == chosen(keys@, at@),
            mine == keys@[x as int].text@,
            x < keys@.len(),
            forall|i: int| 0 <= i < at@.len() ==> (#[trigger] at@[i]) < keys@.len(),
            forall|i: int| 0 <= i < keys@.len() ==> keyed(#[trigger] keys@[i], keys@[i].text@),
            sorted_by(all, path_leq()),
            total_ordering(path_leq()),
            forall|i: int| 0 <= i < lo ==> path_leq()(#[trigger] all[i], mine),
            forall|i: int| hi <= i < at@.len() ==> path_leq()(mine, #[trigger] all[i]),
        decreases hi - lo,
    {
        let mid: usize = lo + (hi - lo) / 2;
        let other: usize = at[mid];
        assert(all[mid as int] == keys@[other as int].text@);
        assert(keyed(keys@[other as int], keys@[other as int].text@));
        assert(keyed(keys@[x as int], keys@[x as int].text@));
        if path_before(&keys[x], &keys[other]) {
            assert forall|i: int| mid <= i < at@.len() implies path_leq()(
                mine,
                #[trigger] all[i],
            ) by {
                if i > mid {
                    assert(path_leq()(all[mid as int], all[i]));
                    assert(path_leq()(mine, all[mid as int]));
                }
            }
            hi = mid;
        } else {
            assert(path_leq()(mine, all[mid as int]) || path_leq()(all[mid as int], mine));
            assert(path_leq()(all[mid as int], mine));
            assert forall|i: int| 0 <= i < mid + 1 implies path_leq()(#[trigger] all[i], mine) by {
                if i < mid {
                    assert(path_leq()(all[i], all[mid as int]));
                }
            }
            lo = mid + 1;
        }
    }
    lo
}

/// Paths in order.
pub open spec fn sorted(files: Seq<Seq<char>>) -> Seq<Seq<char>> {
    files.sort_by(path_leq())
}

/// Sort paths.
pub fn sort_paths(files: &Vec<String>) -> (r: Vec<String>)
    ensures
        text::string_views(r@) == sorted(text::string_views(files@)),
{
    let ghost all = text::string_views(files@);
    let mut keys: Vec<Keyed> = Vec::new();
    for i in 0..files.len()
        invariant
            all == text::string_views(files@),
            keys@.len() == i,
            forall|k: int| 0 <= k < i ==> keyed(#[trigger] keys@[k], all[k]),
    {
        let parts = paths::components_of(&files[i]);
        keys.push(Keyed { text: text::chars_of(&files[i]), parts });
    }
    proof {
        law_paths_are_ordered();
        assert(all.take(0) =~= Seq::empty());
    }
    let mut at: Vec<usize> = Vec::new();
    assert(chosen(keys@, at@) =~= Seq::empty());
    let mut n: usize = 0;
    while n < files.len()
        invariant
            n <= files@.len(),
            all == text::string_views(files@),
            keys@.len() == files@.len(),
            forall|k: int| 0 <= k < keys@.len() ==> keyed(#[trigger] keys@[k], all[k]),
            forall|i: int| 0 <= i < at@.len() ==> (#[trigger] at@[i]) < keys@.len(),
            sorted_by(chosen(keys@, at@), path_leq()),
            chosen(keys@, at@).to_multiset() == all.take(n as int).to_multiset(),
        decreases files@.len() - n,
    {
        let ghost before = chosen(keys@, at@);
        let ghost mine = all[n as int];
        assert(keyed(keys@[n as int], mine));
        assert forall|i: int| 0 <= i < keys@.len() implies keyed(
            #[trigger] keys@[i],
            keys@[i].text@,
        ) by {
            assert(keyed(keys@[i], all[i]));
        }
        let p = place(&keys, &at, n);
        at.insert(p, n);
        proof {
            let after = chosen(keys@, at@);
            assert(after =~= before.insert(p as int, mine));
            vstd::seq_lib::to_multiset_insert(before, p as int, mine);
            assert(all.take(n + 1) =~= all.take(n as int).push(mine));
            vstd::seq_lib::to_multiset_build(all.take(n as int), mine);
            let leq = path_leq();
            assert forall|i: int, j: int| 0 <= i < j < after.len() implies #[trigger] leq(
                after[i],
                after[j],
            ) by {
                if i < p && j < p {
                    assert(after[i] == before[i] && after[j] == before[j]);
                    assert(leq(before[i], before[j]));
                } else if i < p && j == p {
                    assert(leq(before[i], mine));
                } else if i < p {
                    assert(after[j] == before[j - 1]);
                    assert(leq(before[i], before[j - 1]));
                } else if i == p {
                    assert(leq(mine, before[j - 1]));
                } else {
                    assert(leq(before[i - 1], before[j - 1]));
                }
            }
        }
        n += 1;
    }
    proof {
        assert(all.take(n as int) =~= all);
        law_paths_are_ordered();
        all.lemma_sort_by_ensures(path_leq());
        vstd::seq_lib::lemma_sorted_unique(chosen(keys@, at@), sorted(all), path_leq());
    }
    let mut r: Vec<String> = Vec::new();
    for i in 0..at.len()
        invariant
            keys@.len() == files@.len(),
            all == text::string_views(files@),
            forall|k: int| 0 <= k < keys@.len() ==> keyed(#[trigger] keys@[k], all[k]),
            forall|k: int| 0 <= k < at@.len() ==> (#[trigger] at@[k]) < keys@.len(),
            text::string_views(r@) == chosen(keys@, at@).take(i as int),
    {
        let k: usize = at[i];
        assert(keyed(keys@[k as int], all[k as int]));
        assert(chosen(keys@, at@).take(i + 1) =~= chosen(keys@, at@).take(i as int).push(
            all[k as int],
        ));
        let ghost so_far = text::string_views(r@);
        r.push(files[k].clone());
        assert(text::string_views(r@) =~= so_far.push(all[k as int]));
    }
    assert(chosen(keys@, at@).take(at@.len() as int) =~= chosen(keys@, at@));
    r
}

/// Sorting puts paths in order and loses none.
pub proof fn law_sorted_paths_ascend(files: Seq<Seq<char>>)
    ensures
        sorted_by(sorted(files), path_leq()),
        sorted(files).to_multiset() == files.to_multiset(),
        sorted(files).len() == files.len(),
{
    law_paths_are_ordered();
    files.lemma_sort_by_ensures(path_leq());
    vstd::seq_lib::to_multiset_len(files);
    vstd::seq_lib::to_multiset_len(sorted(files));
}

} // verus!
