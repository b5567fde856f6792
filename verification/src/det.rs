//! Text detection on a probability map: which pixels belong together, which
//! groups are kept, how far their boxes grow, and the order in which boxes are
//! read. Probabilities are the caller's; pixels come as marks.

use vstd::prelude::*;

use crate::order;
use crate::tree;

verus! {

/// A box on the map: left, top, right, bottom; right and bottom lie outside.
pub type DetBox = (u32, u32, u32, u32);

/// A group of marked pixels and the smallest box around them.
#[derive(Debug)]
pub struct Component {
    pub pixels: Vec<usize>,
    pub l: usize,
    pub t: usize,
    pub r: usize,
    pub b: usize,
}

/// Two pixels of a map touch along a side.
pub open spec fn adjacent(w: int, i: int, j: int) -> bool {
    ||| i / w == j / w && (i % w + 1 == j % w || j % w + 1 == i % w)
    ||| i % w == j % w && (i / w + 1 == j / w || j / w + 1 == i / w)
}

/// A walk over marked pixels, each touching the one before.
pub open spec fn is_path(marks: Seq<bool>, w: int, path: Seq<int>) -> bool {
    &&& path.len() > 0
    &&& forall|k: int|
        0 <= k < path.len() ==> 0 <= #[trigger] path[k] < marks.len() && marks[path[k]]
    &&& forall|k: int|
        #![trigger path[k]]
        0 <= k < path.len() - 1 ==> adjacent(w, path[k], path[k + 1])
}

/// A walk over marked pixels leads from one to the other.
pub open spec fn connected(marks: Seq<bool>, w: int, i: int, j: int) -> bool {
    exists|path: Seq<int>| #[trigger]
        is_path(marks, w, path) && path[0] == i && path.last() == j
}

/// The group holds what is connected to its first pixel, each pixel once, and
/// its box is the smallest around them.
pub open spec fn is_component(marks: Seq<bool>, w: int, c: Component) -> bool {
    let s = c.pixels@;
    &&& s.len() > 0
    &&& s.no_duplicates()
    &&& forall|k: int| 0 <= k < s.len() ==> (#[trigger] s[k]) < marks.len()
    &&& forall|j: usize| #[trigger] s.contains(j) <==> connected(marks, w, s[0] as int, j as int)
    &&& bounds(w, s, c.l as int, c.t as int, c.r as int, c.b as int)
}

/// The smallest box around some pixels.
pub open spec fn bounds(w: int, s: Seq<usize>, l: int, t: int, r: int, b: int) -> bool {
    &&& forall|k: int|
        0 <= k < s.len() ==> l <= (#[trigger] s[k]) as int % w < r && t <= s[k] as int / w < b
    &&& exists|k: int| 0 <= k < s.len() && (#[trigger] s[k]) as int % w == l
    &&& exists|k: int| 0 <= k < s.len() && (#[trigger] s[k]) as int / w == t
    &&& exists|k: int| 0 <= k < s.len() && (#[trigger] s[k]) as int % w == r - 1
    &&& exists|k: int| 0 <= k < s.len() && (#[trigger] s[k]) as int / w == b - 1
}

proof fn lemma_coords(w: int, h: int, i: int)
    requires
        w > 0,
        h >= 0,
        0 <= i < w * h,
    ensures
        0 <= i % w < w,
        0 <= i / w < h,
        i == w * (i / w) + i % w,
        i % w > 0 ==> (i - 1) / w == i / w && (i - 1) % w == i % w - 1,
        i % w + 1 < w ==> (i + 1) / w == i / w && (i + 1) % w == i % w + 1 && i + 1 < w * h,
        i / w > 0 ==> i - w >= 0 && (i - w) / w == i / w - 1 && (i - w) % w == i % w,
        i / w + 1 < h ==> i + w < w * h && (i + w) / w == i / w + 1 && (i + w) % w == i % w,
{
    let x = i % w;
    let y = i / w;
    vstd::arithmetic::div_mod::lemma_fundamental_div_mod(i, w);
    vstd::arithmetic::div_mod::lemma_mod_bound(i, w);
    assert(0 <= y < h) by (nonlinear_arith)
        requires
            i == w * y + x,
            0 <= x < w,
            0 <= i < w * h,
            w > 0,
    ;
    assert(w * (y - 1) + x == i - w && w * (y + 1) + x == i + w) by (nonlinear_arith)
        requires
            i == w * y + x,
    ;
    if x > 0 {
        vstd::arithmetic::div_mod::lemma_fundamental_div_mod_converse(i - 1, w, y, x - 1);
    }
    if x + 1 < w {
        vstd::arithmetic::div_mod::lemma_fundamental_div_mod_converse(i + 1, w, y, x + 1);
        assert(i + 1 < w * h) by (nonlinear_arith)
            requires
                i == w * y + x,
                x + 1 < w,
                y < h,
                w > 0,
        ;
    }
    if y > 0 {
        vstd::arithmetic::div_mod::lemma_fundamental_div_mod_converse(i - w, w, y - 1, x);
        assert(i - w >= 0) by (nonlinear_arith)
            requires
                i == w * y + x,
                x >= 0,
                y > 0,
                w > 0,
        ;
    }
    if y + 1 < h {
        vstd::arithmetic::div_mod::lemma_fundamental_div_mod_converse(i + w, w, y + 1, x);
        assert(i + w < w * h) by (nonlinear_arith)
            requires
                i == w * y + x,
                x < w,
                y + 1 < h,
                w > 0,
        ;
    }
}

/// The pixels that touch one are the four around it, as far as they lie on
/// the map.
proof fn lemma_adjacent(w: int, h: int, i: int, j: int)
    requires
        w > 0,
        h >= 0,
        0 <= i < w * h,
        0 <= j < w * h,
        adjacent(w, i, j),
    ensures
        (j == i - 1 && i % w > 0) || (j == i + 1 && i % w + 1 < w) || (j == i - w && i / w > 0) || (
        j == i + w && i / w + 1 < h),
{
    lemma_coords(w, h, i);
    lemma_coords(w, h, j);
    let y = i / w;
    let v = j / w;
    if i / w == j / w {
    } else {
        assert(w * (y + 1) == w * y + w && w * (y - 1) == w * y - w) by (nonlinear_arith);
    }
}

proof fn lemma_connect(marks: Seq<bool>, w: int, start: int, i: int, j: int)
    requires
        connected(marks, w, start, i),
        adjacent(w, i, j),
        0 <= j < marks.len(),
        marks[j],
    ensures
        connected(marks, w, start, j),
{
    let path = choose|path: Seq<int>| #[trigger]
        is_path(marks, w, path) && path[0] == start && path.last() == i;
    let longer = path.push(j);
    assert forall|k: int| #![trigger longer[k]] 0 <= k < longer.len() - 1 implies adjacent(
        w,
        longer[k],
        longer[k + 1],
    ) by {
        assert(longer[k] == path[k]);
        if k < path.len() - 1 {
            assert(longer[k + 1] == path[k + 1]);
        }
    }
    assert(is_path(marks, w, longer));
}

/// Marked pixels that touch a pixel of the set belong to it.
pub open spec fn closed_set(marks: Seq<bool>, w: int, set: Seq<bool>) -> bool {
    forall|i: int, j: int|
        0 <= i < marks.len() && 0 <= j < marks.len() && #[trigger] set[i] && #[trigger] marks[j]
            && adjacent(w, i, j) ==> set[j]
}

proof fn lemma_path_within(marks: Seq<bool>, w: int, set: Seq<bool>, path: Seq<int>, k: int)
    requires
        is_path(marks, w, path),
        closed_set(marks, w, set),
        set[path[0]],
        0 <= k < path.len(),
    ensures
        set[path[k]],
    decreases k,
{
    if k > 0 {
        lemma_path_within(marks, w, set, path, k - 1);
        assert(marks[path[k]]);
        assert(0 <= path[k - 1] < marks.len());
        assert(adjacent(w, path[k - 1], path[k - 1 + 1]));
    }
}

/// A flood under way: `base` was seen before, `seen` is now; the pixels are
/// done and those on the stack are not.
pub open spec fn flooding(
    marks: Seq<bool>,
    w: int,
    start: int,
    base: Seq<bool>,
    seen: Seq<bool>,
    pixels: Seq<usize>,
    stack: Seq<usize>,
) -> bool {
    &&& seen.len() == marks.len()
    &&& pixels.no_duplicates()
    &&& stack.no_duplicates()
    &&& forall|k: int, m: int|
        0 <= k < pixels.len() && 0 <= m < stack.len() ==> #[trigger] pixels[k]
            != #[trigger] stack[m]
    &&& forall|k: int|
        0 <= k < pixels.len() ==> (#[trigger] pixels[k]) < marks.len() && seen[pixels[k] as int]
            && !base[pixels[k] as int] && connected(marks, w, start, pixels[k] as int)
    &&& forall|k: int|
        0 <= k < stack.len() ==> (#[trigger] stack[k]) < marks.len() && seen[stack[k] as int]
            && !base[stack[k] as int] && connected(marks, w, start, stack[k] as int)
    &&& forall|i: int|
        0 <= i < marks.len() ==> (#[trigger] seen[i] <==> base[i] || pixels.contains(i as usize)
            || stack.contains(i as usize))
}

/// All marked pixels that touch a pixel were seen.
pub open spec fn surrounded(marks: Seq<bool>, w: int, seen: Seq<bool>, i: int) -> bool {
    forall|j: int| 0 <= j < marks.len() && #[trigger] marks[j] && adjacent(w, i, j) ==> seen[j]
}

/// Look at a pixel that touches one of the flood, and put it on the stack if
/// it is marked and new.
fn look(
    marks: &[bool],
    w: usize,
    Ghost(start): Ghost<int>,
    Ghost(base): Ghost<Seq<bool>>,
    seen: &mut Vec<bool>,
    Ghost(pixels): Ghost<Seq<usize>>,
    stack: &mut Vec<usize>,
    Ghost(i): Ghost<int>,
    j: usize,
)
    requires
        flooding(marks@, w as int, start, base, old(seen)@, pixels, old(stack)@),
        base.len() == marks@.len(),
        j < marks@.len(),
        adjacent(w as int, i, j as int),
        connected(marks@, w as int, start, i),
        closed_set(marks@, w as int, base),
        0 <= i < marks@.len(),
        !base[i],
        marks@[i],
    ensures
        flooding(marks@, w as int, start, base, final(seen)@, pixels, final(stack)@),
        marks@[j as int] ==> final(seen)@[j as int],
        forall|k: int| 0 <= k < marks@.len() && old(seen)@[k] ==> #[trigger] final(seen)@[k],
        2 * tree::unseen(final(seen)@) + final(stack)@.len() <= 2 * tree::unseen(old(seen)@)
            + old(stack)@.len(),
{
    if marks[j] && !seen[j] {
        let ghost was = seen@;
        let ghost held = stack@;
        proof {
            tree::lemma_unseen_update(seen@, j as int);
            lemma_connect(marks@, w as int, start, i, j as int);
            assert(!pixels.contains(j));
            assert(!stack@.contains(j));
            assert(!base[j as int]);
        }
        seen.set(j, true);
        stack.push(j);
        proof {
            assert(seen@ == was.update(j as int, true));
            assert forall|k: int| 0 <= k < marks@.len() implies (#[trigger] seen@[k] <==> base[k]
                || pixels.contains(k as usize) || stack@.contains(k as usize)) by {
                if k == j {
                    assert(stack@[held.len() as int] == j);
                } else {
                    assert(seen@[k] == was[k]);
                    if held.contains(k as usize) {
                        let m = choose|m: int| 0 <= m < held.len() && held[m] == k as usize;
                        assert(stack@[m] == k as usize);
                    }
                    if stack@.contains(k as usize) {
                        let m = choose|m: int| 0 <= m < stack@.len() && stack@[m] == k as usize;
                        assert(m < held.len());
                        assert(held[m] == k as usize);
                    }
                }
            }
            assert forall|k: int| 0 <= k < stack@.len() implies (#[trigger] stack@[k])
                < marks@.len() && seen@[stack@[k] as int] && !base[stack@[k] as int] && connected(
                marks@,
                w as int,
                start,
                stack@[k] as int,
            ) by {
                if k < held.len() {
                    assert(stack@[k] == held[k]);
                }
            }
            assert forall|a: int, b: int|
                0 <= a < stack@.len() && 0 <= b < stack@.len() && a != b implies stack@[a]
                != stack@[b] by {
                if a < held.len() {
                    assert(held.contains(held[a]));
                }
                if b < held.len() {
                    assert(held.contains(held[b]));
                }
            }
            assert forall|a: int, b: int|
                0 <= a < pixels.len() && 0 <= b < stack@.len() implies #[trigger] pixels[a]
                != #[trigger] stack@[b] by {
                assert(pixels.contains(pixels[a]));
                if b < held.len() {
                    assert(stack@[b] == held[b]);
                }
            }
        }
    }
}

/// Gather what is connected to a marked pixel that was not seen.
fn flood(marks: &[bool], w: usize, h: usize, start: usize, seen: &mut Vec<bool>) -> (c: Component)
    requires
        w > 0,
        marks@.len() == w * h,
        old(seen)@.len() == marks@.len(),
        start < marks@.len(),
        marks@[start as int],
        !old(seen)@[start as int],
        closed_set(marks@, w as int, old(seen)@),
        forall|i: int| 0 <= i < marks@.len() && #[trigger] old(seen)@[i] ==> marks@[i],
    ensures
        is_component(marks@, w as int, c),
        c.pixels@[0] == start,
        final(seen)@.len() == marks@.len(),
        closed_set(marks@, w as int, final(seen)@),
        forall|i: int| 0 <= i < marks@.len() && #[trigger] final(seen)@[i] ==> marks@[i],
        forall|i: int|
            0 <= i < marks@.len() ==> (#[trigger] final(seen)@[i] <==> old(seen)@[i]
                || c.pixels@.contains(i as usize)),
        forall|k: int| 0 <= k < c.pixels@.len() ==> !old(seen)@[#[trigger] c.pixels@[k] as int],
        c.r <= w,
        c.b <= h,
{
    let ghost base = seen@;
    let ghost wi = w as int;
    let ghost first = start as int;
    let n: usize = marks.len();
    let mut pixels: Vec<usize> = Vec::new();
    let mut stack: Vec<usize> = Vec::new();
    let mut l: usize = w;
    let mut t: usize = h;
    let mut r: usize = 0;
    let mut b: usize = 0;
    proof {
        tree::lemma_unseen_update(seen@, first);
        assert(is_path(marks@, wi, seq![first]));
        assert(seq![first].last() == first);
        assert(connected(marks@, wi, first, first));
    }
    seen.set(start, true);
    stack.push(start);
    proof {
        assert forall|i: int| 0 <= i < marks@.len() implies (#[trigger] seen@[i] <==> base[i]
            || pixels@.contains(i as usize) || stack@.contains(i as usize)) by {
            if i == start {
                assert(stack@[0] == start);
            } else if stack@.contains(i as usize) {
                let m = choose|m: int| 0 <= m < stack@.len() && stack@[m] == i as usize;
                assert(m == 0);
            }
        }
        assert(flooding(marks@, wi, first, base, seen@, pixels@, stack@));
    }
    while stack.len() > 0
        invariant
            w > 0,
            n == marks@.len(),
            n == w * h,
            wi == w as int,
            first == start as int,
            base.len() == n,
            closed_set(marks@, wi, base),
            forall|i: int| 0 <= i < n && #[trigger] base[i] ==> marks@[i],
            flooding(marks@, wi, first, base, seen@, pixels@, stack@),
            connected(marks@, wi, first, first),
            forall|k: int|
                0 <= k < pixels@.len() ==> surrounded(
                    marks@,
                    wi,
                    seen@,
                    (#[trigger] pixels@[k]) as int,
                ),
            pixels@.len() == 0 ==> stack@ == seq![start],
            pixels@.len() > 0 ==> pixels@[0] == start && bounds(
                wi,
                pixels@,
                l as int,
                t as int,
                r as int,
                b as int,
            ),
            pixels@.len() == 0 ==> l == w && t == h && r == 0 && b == 0,
            r <= w,
            b <= h,
        decreases 2 * tree::unseen(seen@) + stack@.len(),
    {
        let ghost held = stack@;
        let ghost done = pixels@;
        let ghost was = seen@;
        let i: usize = stack.pop().unwrap();
        assert(stack@ =~= held.drop_last());
        assert(held[held.len() - 1] == i);
        let x: usize = i % w;
        let y: usize = i / w;
        proof {
            lemma_coords(wi, h as int, i as int);
            let path = choose|path: Seq<int>| #[trigger]
                is_path(marks@, wi, path) && path[0] == first && path.last() == i as int;
            assert(marks@[path[path.len() - 1]]);
            assert(marks@[i as int]);
        }
        let ghost (l0, t0, r0, b0) = (l as int, t as int, r as int, b as int);
        if x < l {
            l = x;
        }
        if x + 1 > r {
            r = x + 1;
        }
        if y < t {
            t = y;
        }
        if y + 1 > b {
            b = y + 1;
        }
        pixels.push(i);
        proof {
            lemma_flooding_moves(marks@, wi, first, base, was, done, held, i);
            lemma_bounds_grow(
                wi,
                h as int,
                done,
                i,
                l0,
                t0,
                r0,
                b0,
                l as int,
                t as int,
                r as int,
                b as int,
            );
            if done.len() > 0 {
                assert(pixels@[0] == done[0]);
            }
        }
        let ghost now = pixels@;
        if x > 0 {
            look(
                marks,
                w,
                Ghost(first),
                Ghost(base),
                seen,
                Ghost(now),
                &mut stack,
                Ghost(i as int),
                i - 1,
            );
        }
        let ghost s1 = seen@;
        if x + 1 < w {
            look(
                marks,
                w,
                Ghost(first),
                Ghost(base),
                seen,
                Ghost(now),
                &mut stack,
                Ghost(i as int),
                i + 1,
            );
        }
        let ghost s2 = seen@;
        if y > 0 {
            look(
                marks,
                w,
                Ghost(first),
                Ghost(base),
                seen,
                Ghost(now),
                &mut stack,
                Ghost(i as int),
                i - w,
            );
        }
        let ghost s3 = seen@;
        if y + 1 < h {
            look(
                marks,
                w,
                Ghost(first),
                Ghost(base),
                seen,
                Ghost(now),
                &mut stack,
                Ghost(i as int),
                i + w,
            );
        }
        proof {
            assert forall|k: int| 0 <= k < n && was[k] implies #[trigger] seen@[k] by {
                assert(s1[k]);
                assert(s2[k]);
                assert(s3[k]);
            }
            assert forall|k: int| 0 <= k < pixels@.len() implies surrounded(
                marks@,
                wi,
                seen@,
                (#[trigger] pixels@[k]) as int,
            ) by {
                if k < done.len() {
                    assert(pixels@[k] == done[k]);
                    assert(surrounded(marks@, wi, was, done[k] as int));
                } else {
                    assert forall|j: int|
                        0 <= j < marks@.len() && #[trigger] marks@[j] && adjacent(
                            wi,
                            i as int,
                            j,
                        ) implies seen@[j] by {
                        lemma_adjacent(wi, h as int, i as int, j);
                        if j == i - 1 && x > 0 {
                            assert(s1[j]);
                            assert(s2[j]);
                            assert(s3[j]);
                        } else if j == i + 1 && x + 1 < w {
                            assert(s2[j]);
                            assert(s3[j]);
                        } else if j == i - w && y > 0 {
                            assert(s3[j]);
                        }
                    }
                }
            }
        }
    }
    proof {
        assert(pixels@.len() > 0);
        lemma_flooded(marks@, wi, first, base, seen@, pixels@);
    }
    Component { pixels, l, t, r, b }
}

/// A pixel moves from the stack to those that are done.
proof fn lemma_flooding_moves(
    marks: Seq<bool>,
    w: int,
    start: int,
    base: Seq<bool>,
    seen: Seq<bool>,
    pixels: Seq<usize>,
    stack: Seq<usize>,
    i: usize,
)
    requires
        flooding(marks, w, start, base, seen, pixels, stack),
        stack.len() > 0,
        stack.last() == i,
    ensures
        flooding(marks, w, start, base, seen, pixels.push(i), stack.drop_last()),
{
    let p = pixels.push(i);
    let s = stack.drop_last();
    let n = stack.len() - 1;
    assert(stack[n] == i);
    assert forall|k: int| 0 <= k < p.len() implies (#[trigger] p[k]) < marks.len()
        && seen[p[k] as int] && !base[p[k] as int] && connected(marks, w, start, p[k] as int) by {
        if k < pixels.len() {
            assert(p[k] == pixels[k]);
        } else {
            assert(p[k] == stack[n]);
        }
    }
    assert forall|k: int| 0 <= k < s.len() implies (#[trigger] s[k]) < marks.len()
        && seen[s[k] as int] && !base[s[k] as int] && connected(marks, w, start, s[k] as int) by {
        assert(s[k] == stack[k]);
    }
    assert forall|a: int, b: int| 0 <= a < p.len() && 0 <= b < p.len() && a != b implies p[a]
        != p[b] by {
        if a < pixels.len() {
            assert(p[a] == pixels[a]);
            assert(pixels[a] != stack[n]);
        }
        if b < pixels.len() {
            assert(p[b] == pixels[b]);
            assert(pixels[b] != stack[n]);
        }
    }
    assert forall|a: int, b: int| 0 <= a < s.len() && 0 <= b < s.len() && a != b implies s[a]
        != s[b] by {
        assert(stack[a] != stack[b]);
    }
    assert forall|k: int, m: int| 0 <= k < p.len() && 0 <= m < s.len() implies #[trigger] p[k]
        != #[trigger] s[m] by {
        assert(s[m] == stack[m]);
        if k < pixels.len() {
            assert(p[k] == pixels[k]);
        } else {
            assert(stack[n] != stack[m]);
        }
    }
    assert forall|k: int| 0 <= k < marks.len() implies (#[trigger] seen[k] <==> base[k]
        || p.contains(k as usize) || s.contains(k as usize)) by {
        let q = k as usize;
        if pixels.contains(q) {
            let m = choose|m: int| 0 <= m < pixels.len() && pixels[m] == q;
            assert(p[m] == q);
        }
        if stack.contains(q) {
            let m = choose|m: int| 0 <= m < stack.len() && stack[m] == q;
            if m < n {
                assert(s[m] == q);
            } else {
                assert(p[pixels.len() as int] == q);
            }
        }
        if p.contains(q) {
            let m = choose|m: int| 0 <= m < p.len() && p[m] == q;
            if m < pixels.len() {
                assert(pixels[m] == q);
            } else {
                assert(stack[n] == q);
            }
        }
        if s.contains(q) {
            let m = choose|m: int| 0 <= m < s.len() && s[m] == q;
            assert(stack[m] == q);
        }
    }
}

/// The box around pixels grows with another pixel.
proof fn lemma_bounds_grow(
    w: int,
    h: int,
    s: Seq<usize>,
    i: usize,
    l0: int,
    t0: int,
    r0: int,
    b0: int,
    l: int,
    t: int,
    r: int,
    b: int,
)
    requires
        w > 0,
        0 <= i as int % w < w,
        0 <= i as int / w < h,
        s.len() > 0 ==> bounds(w, s, l0, t0, r0, b0),
        s.len() == 0 ==> l0 == w && t0 == h && r0 == 0 && b0 == 0,
        l == if (i as int % w) < l0 {
            i as int % w
        } else {
            l0
        },
        r == if i as int % w + 1 > r0 {
            i as int % w + 1
        } else {
            r0
        },
        t == if (i as int / w) < t0 {
            i as int / w
        } else {
            t0
        },
        b == if i as int / w + 1 > b0 {
            i as int / w + 1
        } else {
            b0
        },
    ensures
        bounds(w, s.push(i), l, t, r, b),
{
    let p = s.push(i);
    let n = s.len() as int;
    assert(p[n] == i);
    assert forall|k: int| 0 <= k < p.len() implies l <= (#[trigger] p[k]) as int % w < r && t
        <= p[k] as int / w < b by {
        if k < n {
            assert(p[k] == s[k]);
        }
    }
    if s.len() > 0 {
        let a = choose|k: int| 0 <= k < s.len() && (#[trigger] s[k]) as int % w == l0;
        let c = choose|k: int| 0 <= k < s.len() && (#[trigger] s[k]) as int / w == t0;
        let d = choose|k: int| 0 <= k < s.len() && (#[trigger] s[k]) as int % w == r0 - 1;
        let e = choose|k: int| 0 <= k < s.len() && (#[trigger] s[k]) as int / w == b0 - 1;
        assert(p[a] == s[a] && p[c] == s[c] && p[d] == s[d] && p[e] == s[e]);
        assert(p[if l == l0 {
            a
        } else {
            n
        }] as int % w == l);
        assert(p[if t == t0 {
            c
        } else {
            n
        }] as int / w == t);
        assert(p[if r == r0 {
            d
        } else {
            n
        }] as int % w == r - 1);
        assert(p[if b == b0 {
            e
        } else {
            n
        }] as int / w == b - 1);
    } else {
        assert(p[n] as int % w == l);
        assert(p[n] as int / w == t);
        assert(p[n] as int % w == r - 1);
        assert(p[n] as int / w == b - 1);
    }
}

/// When the stack is empty, the flood has gathered all that is connected.
proof fn lemma_flooded(
    marks: Seq<bool>,
    w: int,
    start: int,
    base: Seq<bool>,
    seen: Seq<bool>,
    pixels: Seq<usize>,
)
    requires
        marks.len() <= usize::MAX,
        flooding(marks, w, start, base, seen, pixels, Seq::empty()),
        base.len() == marks.len(),
        closed_set(marks, w, base),
        forall|i: int| 0 <= i < marks.len() && #[trigger] base[i] ==> marks[i],
        forall|k: int|
            0 <= k < pixels.len() ==> surrounded(marks, w, seen, (#[trigger] pixels[k]) as int),
        pixels.len() > 0,
        pixels[0] == start,
    ensures
        closed_set(marks, w, seen),
        forall|i: int| 0 <= i < marks.len() && #[trigger] seen[i] ==> marks[i],
        forall|j: usize| #[trigger]
            pixels.contains(j) <==> connected(marks, w, start, j as int),
        forall|i: int|
            0 <= i < marks.len() ==> (#[trigger] seen[i] <==> base[i] || pixels.contains(
                i as usize,
            )),
{
    let empty = Seq::<usize>::empty();
    assert forall|i: int| 0 <= i < marks.len() implies (#[trigger] seen[i] <==> base[i]
        || pixels.contains(i as usize)) by {
        assert(!empty.contains(i as usize));
    }
    assert forall|k: int| 0 <= k < pixels.len() implies marks[(#[trigger] pixels[k]) as int] by {
        let path = choose|path: Seq<int>| #[trigger]
            is_path(marks, w, path) && path[0] == start && path.last() == pixels[k] as int;
        assert(marks[path[path.len() - 1]]);
    }
    assert forall|i: int| 0 <= i < marks.len() && #[trigger] seen[i] implies marks[i] by {
        if !base[i] {
            let k = choose|k: int| 0 <= k < pixels.len() && pixels[k] == i as usize;
            assert(marks[pixels[k] as int]);
        }
    }
    assert forall|i: int, j: int|
        0 <= i < marks.len() && 0 <= j < marks.len() && #[trigger] seen[i] && #[trigger] marks[j]
            && adjacent(w, i, j) implies seen[j] by {
        if base[i] {
            assert(base[j]);
        } else {
            let k = choose|k: int| 0 <= k < pixels.len() && pixels[k] == i as usize;
            assert(surrounded(marks, w, seen, pixels[k] as int));
        }
    }
    // The pixels of this flood alone are a closed set too.
    let mine = Seq::new(marks.len(), |i: int| pixels.contains(i as usize));
    assert(closed_set(marks, w, mine)) by {
        assert forall|i: int, j: int|
            0 <= i < marks.len() && 0 <= j < marks.len() && #[trigger] mine[i]
                && #[trigger] marks[j] && adjacent(w, i, j) implies mine[j] by {
            let k = choose|k: int| 0 <= k < pixels.len() && pixels[k] == i as usize;
            assert(!base[pixels[k] as int]);
            assert(seen[i]);
            assert(seen[j]);
            if base[j] {
                assert(adjacent(w, j, i));
                assert(marks[i]);
                assert(base[i]);
            }
        }
    }
    assert forall|j: usize| #[trigger] pixels.contains(j) <==> connected(
        marks,
        w,
        start,
        j as int,
    ) by {
        if pixels.contains(j) {
            let k = choose|k: int| 0 <= k < pixels.len() && pixels[k] == j;
            assert(connected(marks, w, start, pixels[k] as int));
        }
        if connected(marks, w, start, j as int) {
            let path = choose|path: Seq<int>| #[trigger]
                is_path(marks, w, path) && path[0] == start && path.last() == j as int;
            assert(pixels.contains(pixels[0]));
            assert(0 <= path[0] < marks.len());
            assert(mine[path[0]]);
            lemma_path_within(marks, w, mine, path, path.len() - 1);
            assert(0 <= path[path.len() - 1] < marks.len());
            assert(mine[j as int]);
        }
    }
}

/// The groups of a map: each is a group, in the order of their first pixels,
/// and every marked pixel belongs to one.
pub open spec fn all_components(marks: Seq<bool>, w: int, cs: Seq<Component>) -> bool {
    &&& forall|k: int| 0 <= k < cs.len() ==> is_component(marks, w, #[trigger] cs[k])
    &&& forall|a: int, b: int|
        0 <= a < b < cs.len() ==> (#[trigger] cs[a]).pixels@[0] < (#[trigger] cs[b]).pixels@[0]
    &&& forall|k: int, m: int|
        #![trigger cs[k].pixels@[m]]
        0 <= k < cs.len() && 0 <= m < cs[k].pixels@.len() ==> cs[k].pixels@[0]
            <= cs[k].pixels@[m]
    &&& forall|i: usize|
        i < marks.len() && #[trigger] marks[i as int] ==> exists|k: int|
            0 <= k < cs.len() && (#[trigger] cs[k]).pixels@.contains(i)
}

/// Find the groups of connected marked pixels of a map `w` wide and `h` high.
pub fn components(marks: &[bool], w: usize, h: usize) -> (cs: Vec<Component>)
    requires
        marks@.len() == w * h,
    ensures
        all_components(marks@, w as int, cs@),
        forall|k: int| 0 <= k < cs@.len() ==> (#[trigger] cs@[k]).r <= w && cs@[k].b <= h,
{
    let n: usize = marks.len();
    let mut out: Vec<Component> = Vec::new();
    if w == 0 {
        assert(n == 0) by (nonlinear_arith)
            requires
                n == w * h,
                w == 0,
        ;
        return out;
    }
    let mut seen: Vec<bool> = Vec::new();
    let mut i: usize = 0;
    while i < n
        invariant
            i <= n,
            seen@.len() == i,
            forall|k: int| 0 <= k < i ==> !#[trigger] seen@[k],
        decreases n - i,
    {
        seen.push(false);
        i += 1;
    }
    let mut start: usize = 0;
    while start < n
        invariant
            start <= n,
            n == marks@.len(),
            n == w * h,
            w > 0,
            seen@.len() == n,
            closed_set(marks@, w as int, seen@),
            forall|k: int| 0 <= k < n && #[trigger] seen@[k] ==> marks@[k],
            forall|k: int| 0 <= k < start && #[trigger] marks@[k] ==> seen@[k],
            forall|k: int|
                0 <= k < out@.len() ==> is_component(marks@, w as int, #[trigger] out@[k])
                    && out@[k].pixels@[0] < start && out@[k].r <= w && out@[k].b <= h,
            forall|a: int, b: int|
                0 <= a < b < out@.len() ==> (#[trigger] out@[a]).pixels@[0] < (
                #[trigger] out@[b]).pixels@[0],
            forall|k: int, m: int|
                #![trigger out@[k].pixels@[m]]
                0 <= k < out@.len() && 0 <= m < out@[k].pixels@.len() ==> out@[k].pixels@[0]
                    <= out@[k].pixels@[m],
            forall|i: usize|
                i < n && #[trigger] seen@[i as int] ==> exists|k: int|
                    0 <= k < out@.len() && (#[trigger] out@[k]).pixels@.contains(i),
        decreases n - start,
    {
        if marks[start] && !seen[start] {
            let ghost before = out@;
            let ghost was = seen@;
            let c = flood(marks, w, h, start, &mut seen);
            proof {
                assert forall|m: int| 0 <= m < c.pixels@.len() implies start
                    <= #[trigger] c.pixels@[m] by {
                    let p = c.pixels@[m];
                    assert(!was[p as int]);
                    assert(c.pixels@.contains(p));
                    assert(seen@[p as int]);
                    assert(marks@[p as int]);
                }
            }
            out.push(c);
            proof {
                assert(out@ =~= before.push(c));
                assert forall|i: usize| i < n && #[trigger] seen@[i as int] implies exists|k: int|
                    0 <= k < out@.len() && (#[trigger] out@[k]).pixels@.contains(i) by {
                    if was[i as int] {
                        let k = choose|k: int|
                            0 <= k < before.len() && (#[trigger] before[k]).pixels@.contains(i);
                        assert(out@[k].pixels@.contains(i));
                    } else {
                        assert(out@[before.len() as int].pixels@.contains(i));
                    }
                }
                assert(c.pixels@.contains(start)) by {
                    assert(c.pixels@[0] == start);
                }
                assert(seen@[start as int]);
            }
        }
        start += 1;
    }
    out
}

/// Groups have no pixel in common: a pixel belongs to one group alone.
pub proof fn law_groups_are_apart(marks: Seq<bool>, w: int, cs: Seq<Component>, a: int, b: int, i: usize)
    requires
        all_components(marks, w, cs),
        0 <= a < cs.len(),
        0 <= b < cs.len(),
        cs[a].pixels@.contains(i),
        cs[b].pixels@.contains(i),
    ensures
        a == b,
{
    let s = cs[a].pixels@[0];
    let t = cs[b].pixels@[0];
    assert(is_component(marks, w, cs[a]));
    assert(is_component(marks, w, cs[b]));
    assert(connected(marks, w, s as int, i as int));
    assert(connected(marks, w, t as int, i as int));
    lemma_connected_symmetric(marks, w, t as int, i as int);
    lemma_connected_transitive(marks, w, s as int, i as int, t as int);
    assert(cs[a].pixels@.contains(t));
    lemma_connected_symmetric(marks, w, s as int, i as int);
    lemma_connected_transitive(marks, w, t as int, i as int, s as int);
    assert(cs[b].pixels@.contains(s));
    let m = choose|m: int| 0 <= m < cs[a].pixels@.len() && cs[a].pixels@[m] == t;
    assert(cs[a].pixels@[0] <= cs[a].pixels@[m]);
    let k = choose|k: int| 0 <= k < cs[b].pixels@.len() && cs[b].pixels@[k] == s;
    assert(cs[b].pixels@[0] <= cs[b].pixels@[k]);
    if a < b {
        assert(cs[a].pixels@[0] < cs[b].pixels@[0]);
    } else if b < a {
        assert(cs[b].pixels@[0] < cs[a].pixels@[0]);
    }
}

proof fn lemma_connected_symmetric(marks: Seq<bool>, w: int, i: int, j: int)
    requires
        connected(marks, w, i, j),
    ensures
        connected(marks, w, j, i),
{
    let path = choose|path: Seq<int>| #[trigger]
        is_path(marks, w, path) && path[0] == i && path.last() == j;
    let back = path.reverse();
    assert forall|k: int| 0 <= k < back.len() implies 0 <= #[trigger] back[k] < marks.len()
        && marks[back[k]] by {
        assert(back[k] == path[path.len() - 1 - k]);
    }
    assert forall|k: int| #![trigger back[k]] 0 <= k < back.len() - 1 implies adjacent(
        w,
        back[k],
        back[k + 1],
    ) by {
        let m = path.len() - 2 - k;
        assert(back[k] == path[m + 1]);
        assert(back[k + 1] == path[m]);
        assert(adjacent(w, path[m], path[m + 1]));
    }
    assert(is_path(marks, w, back));
}

proof fn lemma_connected_transitive(marks: Seq<bool>, w: int, i: int, j: int, k: int)
    requires
        connected(marks, w, i, j),
        connected(marks, w, j, k),
    ensures
        connected(marks, w, i, k),
{
    let p = choose|path: Seq<int>| #[trigger]
        is_path(marks, w, path) && path[0] == i && path.last() == j;
    let q = choose|path: Seq<int>| #[trigger]
        is_path(marks, w, path) && path[0] == j && path.last() == k;
    let r = p.drop_last() + q;
    let n = p.len() - 1;
    assert forall|m: int| 0 <= m < r.len() implies 0 <= #[trigger] r[m] < marks.len()
        && marks[r[m]] by {
        if m < n {
            assert(r[m] == p[m]);
        } else {
            assert(r[m] == q[m - n]);
        }
    }
    assert forall|m: int| #![trigger r[m]] 0 <= m < r.len() - 1 implies adjacent(
        w,
        r[m],
        r[m + 1],
    ) by {
        if m < n {
            assert(r[m] == p[m]);
            assert(adjacent(w, p[m], p[m + 1]));
            if m + 1 < n {
                assert(r[m + 1] == p[m + 1]);
            } else {
                assert(r[m + 1] == q[0]);
            }
        } else {
            assert(r[m] == q[m - n]);
            assert(r[m + 1] == q[m - n + 1]);
            assert(adjacent(w, q[m - n], q[m - n + 1]));
        }
    }
    assert(is_path(marks, w, r));
    if n > 0 {
        assert(r[0] == p[0]);
    } else {
        assert(r[0] == q[0]);
        assert(p[0] == p.last());
    }
}


/// How far a box grows on each side: its area times three halves over its
/// perimeter, rounded to the nearest, halves up.
pub open spec fn growth(bw: int, bh: int) -> int {
    if bw + bh == 0 {
        0
    } else {
        (6 * bw * bh + 4 * (bw + bh)) / (8 * (bw + bh))
    }
}

/// A box that has grown, cut off at the edges of a map.
pub open spec fn grown(bx: DetBox, w: u32, h: u32) -> DetBox {
    let d = growth(bx.2 - bx.0, bx.3 - bx.1);
    (
        if bx.0 > d {
            (bx.0 - d) as u32
        } else {
            0
        },
        if bx.1 > d {
            (bx.1 - d) as u32
        } else {
            0
        },
        if bx.2 + d < w {
            (bx.2 + d) as u32
        } else {
            w
        },
        if bx.3 + d < h {
            (bx.3 + d) as u32
        } else {
            h
        },
    )
}

/// Let a box grow. Up to this area the growth is exact in single precision.
pub fn unclip(bx: DetBox, w: u32, h: u32) -> (r: DetBox)
    requires
        bx.0 <= bx.2,
        bx.1 <= bx.3,
        3 * (bx.2 - bx.0) * (bx.3 - bx.1) < 0x100_0000,
    ensures
        r == grown(bx, w, h),
{
    let bw: u64 = (bx.2 - bx.0) as u64;
    let bh: u64 = (bx.3 - bx.1) as u64;
    assert(6 * bw * bh == 2 * (3 * bw * bh)) by (nonlinear_arith);
    assert(0 <= 6 * bw * bh) by (nonlinear_arith);
    assert(0 <= 6 * bw) by (nonlinear_arith);
    let d: u64 = if bw + bh == 0 {
        0
    } else {
        (6 * bw * bh + 4 * (bw + bh)) / (8 * (bw + bh))
    };
    proof {
        assert(d <= 0x1000_0000_0000) by {
            if bw + bh > 0 {
                let p: int = 6 * bw * bh + 4 * (bw + bh);
                let q: int = 8 * (bw + bh);
                assert(p / q <= p) by (nonlinear_arith)
                    requires
                        p >= 0,
                        q >= 1,
                ;
            }
        }
    }
    let l: u64 = bx.0 as u64;
    let t: u64 = bx.1 as u64;
    let r: u64 = bx.2 as u64 + d;
    let b: u64 = bx.3 as u64 + d;
    (
        if l > d {
            (l - d) as u32
        } else {
            0
        },
        if t > d {
            (t - d) as u32
        } else {
            0
        },
        if r < w as u64 {
            r as u32
        } else {
            w
        },
        if b < h as u64 {
            b as u32
        } else {
            h
        },
    )
}

/// A group is kept: it has ten pixels and is three wide and high, and its
/// pixels are probable enough.
pub open spec fn kept(c: Component, strong: bool) -> bool {
    c.pixels@.len() >= 10 && c.r - c.l >= 3 && c.b - c.t >= 3 && strong
}

/// The boxes of the groups that are kept, grown, in their order.
pub open spec fn boxes(cs: Seq<Component>, strong: Seq<bool>, w: u32, h: u32) -> Seq<DetBox>
    decreases cs.len(),
{
    if cs.len() == 0 {
        seq![]
    } else {
        let front = boxes(cs.drop_last(), strong, w, h);
        let c = cs.last();
        if kept(c, strong[cs.len() - 1]) {
            front.push(grown((c.l as u32, c.t as u32, c.r as u32, c.b as u32), w, h))
        } else {
            front
        }
    }
}

/// The boxes of the groups of a map that are kept. `strong` says of each group
/// whether the mean of its pixels is high enough.
pub fn det_boxes(cs: &Vec<Component>, strong: &[bool], w: u32, h: u32) -> (r: Vec<DetBox>)
    requires
        strong@.len() == cs@.len(),
        3 * w * h < 0x100_0000,
        forall|k: int|
            0 <= k < cs@.len() ==> (#[trigger] cs@[k]).l <= cs@[k].r <= w && cs@[k].t <= cs@[k].b
                <= h,
    ensures
        r@ == boxes(cs@, strong@, w, h),
{
    let mut out: Vec<DetBox> = Vec::new();
    let mut k: usize = 0;
    assert(cs@.take(0) =~= Seq::empty());
    while k < cs.len()
        invariant
            k <= cs@.len(),
            strong@.len() == cs@.len(),
            3 * w * h < 0x100_0000,
            forall|k: int|
                0 <= k < cs@.len() ==> (#[trigger] cs@[k]).l <= cs@[k].r <= w && cs@[k].t
                    <= cs@[k].b <= h,
            out@ == boxes(cs@.take(k as int), strong@, w, h),
        decreases cs@.len() - k,
    {
        let c = &cs[k];
        proof {
            assert(cs@.take(k + 1).drop_last() =~= cs@.take(k as int));
            assert(cs@.take(k + 1).last() == *c);
            assert(c.l <= c.r <= w && c.t <= c.b <= h);
        }
        if c.pixels.len() >= 10 && c.r - c.l >= 3 && c.b - c.t >= 3 && strong[k] {
            assert(3 * (c.r - c.l) * (c.b - c.t) <= 3 * w * h) by (nonlinear_arith)
                requires
                    0 <= c.r - c.l <= w,
                    0 <= c.b - c.t <= h,
            ;
            out.push(unclip((c.l as u32, c.t as u32, c.r as u32, c.b as u32), w, h));
        }
        k += 1;
    }
    assert(cs@.take(k as int) =~= cs@);
    out
}

/// Twice the height of a box's centre.
pub open spec fn middle(b: DetBox) -> int {
    b.1 + b.3
}

/// The centre of a box lies within half the height of a row's first box from
/// that box's centre.
pub open spec fn in_row(head: DetBox, b: DetBox) -> bool {
    let d = middle(b) - middle(head);
    -(head.3 - head.1) < d < head.3 - head.1
}

/// The heights by which boxes are sorted.
pub open spec fn down_keys(bs: Seq<DetBox>) -> Seq<i64> {
    bs.map_values(|b: DetBox| (middle(b) / 2) as i64)
}

/// The left edges of boxes.
pub open spec fn across_keys(bs: Seq<DetBox>) -> Seq<i64> {
    bs.map_values(|b: DetBox| b.0 as i64)
}

/// All positions of a list.
pub open spec fn positions(n: nat) -> Seq<usize> {
    Seq::new(n, |i: int| i as usize)
}

/// The positions of boxes in reading order: from top to bottom, in rows, and
/// in each row from left to right.
pub open spec fn box_order(bs: Seq<DetBox>) -> Seq<usize> {
    order::reading(
        positions(bs.len()),
        down_keys(bs),
        across_keys(bs),
        |a: usize, b: usize| in_row(bs[a as int], bs[b as int]),
    )
}

/// Put boxes into reading order. Up to these heights the centres are exact in
/// single precision.
pub fn order_boxes(bs: &mut Vec<DetBox>)
    requires
        forall|i: int| 0 <= i < old(bs)@.len() ==> middle(#[trigger] old(bs)@[i]) <= 0x100_0000,
    ensures
        final(bs)@ == box_order(old(bs)@).map_values(|i: usize| old(bs)@[i as int]),
        final(bs)@.to_multiset() == old(bs)@.to_multiset(),
{
    let ghost all = bs@;
    let n: usize = bs.len();
    let mut ids: Vec<usize> = Vec::new();
    let mut down: Vec<i64> = Vec::new();
    let mut across: Vec<i64> = Vec::new();
    let mut i: usize = 0;
    while i < n
        invariant
            i <= n,
            n == bs@.len(),
            bs@ == all,
            forall|k: int| 0 <= k < n ==> middle(#[trigger] all[k]) <= 0x100_0000,
            ids@ == positions(i as nat),
            down@.len() == i,
            across@.len() == i,
            forall|k: int| 0 <= k < i ==> #[trigger] down@[k] == (middle(all[k]) / 2) as i64,
            forall|k: int| 0 <= k < i ==> #[trigger] across@[k] == all[k].0 as i64,
        decreases n - i,
    {
        let b = bs[i];
        assert(middle(all[i as int]) <= 0x100_0000);
        ids.push(i);
        down.push(((b.1 + b.3) / 2) as i64);
        across.push(b.0 as i64);
        i += 1;
        assert(ids@ =~= positions(i as nat));
    }
    proof {
        assert(down@ =~= down_keys(all));
        assert(across@ =~= across_keys(all));
    }
    let ghost near = |a: usize, b: usize| in_row(all[a as int], all[b as int]);
    let sorted = order::order_by(&ids, &down);
    let mut rows = order::Rows::new();
    let mut k: usize = 0;
    assert(sorted@.take(0) =~= Seq::empty());
    assert(rows.rows@.len() == 0) by {
        assert(order::rows_view(rows.rows@).len() == rows.rows@.len());
    }
    while k < sorted.len()
        invariant
            k <= sorted@.len(),
            n == all.len(),
            bs@ == all,
            forall|k: int| 0 <= k < n ==> middle(#[trigger] all[k]) <= 0x100_0000,
            forall|k: int| 0 <= k < sorted@.len() ==> (#[trigger] sorted@[k]) < n,
            near == (|a: usize, b: usize| in_row(all[a as int], all[b as int])),
            rows.valid(),
            order::rows_view(rows.rows@) == order::rows(sorted@.take(k as int), near),
            forall|i: int, m: int|
                #![trigger rows.rows@[i]@[m]]
                0 <= i < rows.rows@.len() && 0 <= m < rows.rows@[i]@.len() ==> rows.rows@[i]@[m]
                    < n,
        decreases sorted@.len() - k,
    {
        let x: usize = sorted[k];
        let ghost was = rows.rows@;
        let ghost before = order::rows_view(rows.rows@);
        let b = bs[x];
        assert(middle(all[x as int]) <= 0x100_0000);
        let close = match rows.head() {
            Some(head) => {
                proof {
                    let last = rows.rows@.len() - 1;
                    assert(rows.rows@[last]@.len() > 0);
                    assert(rows.rows@[last]@[0] == head);
                }
                let a = bs[head];
                assert(middle(all[head as int]) <= 0x100_0000);
                let d: i64 = (b.1 + b.3) as i64 - (a.1 + a.3) as i64;
                let half: i64 = a.3 as i64 - a.1 as i64;
                -half < d && d < half
            },
            None => false,
        };
        rows.push(x, close);
        proof {
            assert(sorted@.take(k + 1).drop_last() =~= sorted@.take(k as int));
            assert(sorted@.take(k + 1).last() == x);
            let constant = |a: usize, b: usize| close;
            assert(order::with_item(before, x, constant) == order::with_item(before, x, near));
            lemma_rows_in_range(was, rows.rows@, x, n as int, constant);
        }
        k += 1;
    }
    assert(sorted@.take(k as int) =~= sorted@);
    let order = order::order_rows(&rows.rows, &across);
    proof {
        assert(order@ == box_order(all));
        order::law_reading_keeps_all(positions(n as nat), down_keys(all), across_keys(all), near);
        lemma_order_range(order@, n as nat);
    }
    let mut out: Vec<DetBox> = Vec::new();
    let mut m: usize = 0;
    let ghost f = |i: usize| all[i as int];
    while m < order.len()
        invariant
            m <= order@.len(),
            bs@ == all,
            n == all.len(),
            f == (|i: usize| all[i as int]),
            forall|k: int| 0 <= k < order@.len() ==> (#[trigger] order@[k]) < n,
            out@ == order@.take(m as int).map_values(f),
        decreases order@.len() - m,
    {
        out.push(bs[order[m]]);
        m += 1;
        assert(order@.take(m as int).map_values(f) =~= order@.take(m - 1).map_values(f).push(
            f(order@[m - 1]),
        ));
    }
    assert(order@.take(m as int) =~= order@);
    proof {
        lemma_map_multiset(order@, positions(n as nat), all);
        assert(positions(n as nat).map_values(f) =~= all);
    }
    *bs = out;
}

/// A reordering of the positions holds positions.
proof fn lemma_order_range(s: Seq<usize>, n: nat)
    requires
        n <= usize::MAX,
        s.to_multiset() == positions(n).to_multiset(),
    ensures
        forall|k: int| 0 <= k < s.len() ==> (#[trigger] s[k]) < n,
{
    broadcast use vstd::seq_lib::group_to_multiset_ensures;

    assert forall|k: int| 0 <= k < s.len() implies (#[trigger] s[k]) < n by {
        assert(s.contains(s[k]));
        assert(s.to_multiset().count(s[k]) > 0);
        assert(positions(n).contains(s[k]));
        let i = choose|i: int| 0 <= i < positions(n).len() && positions(n)[i] == s[k];
        assert(positions(n)[i] == i as usize);
    }
}

proof fn lemma_rows_in_range(
    was: Seq<Vec<usize>>,
    now: Seq<Vec<usize>>,
    x: usize,
    n: int,
    near: spec_fn(usize, usize) -> bool,
)
    requires
        x < n,
        order::rows_view(now) == order::with_item(order::rows_view(was), x, near),
        forall|i: int, m: int|
            #![trigger was[i]@[m]]
            0 <= i < was.len() && 0 <= m < was[i]@.len() ==> was[i]@[m] < n,
    ensures
        forall|i: int, m: int|
            #![trigger now[i]@[m]]
            0 <= i < now.len() && 0 <= m < now[i]@.len() ==> now[i]@[m] < n,
{
    let a = order::rows_view(was);
    let b = order::rows_view(now);
    assert(b.len() == now.len());
    assert forall|i: int, m: int|
        #![trigger now[i]@[m]]
        0 <= i < now.len() && 0 <= m < now[i]@.len() implies now[i]@[m] < n by {
        assert(b[i] == now[i]@);
        if i < was.len() {
            assert(a[i] == was[i]@);
            if m < was[i]@.len() {
                assert(was[i]@[m] < n);
            }
        }
    }
}

/// Mapping keeps what two lists with the same items have in common.
proof fn lemma_map_multiset(s: Seq<usize>, t: Seq<usize>, all: Seq<DetBox>)
    requires
        s.to_multiset() == t.to_multiset(),
    ensures
        s.map_values(|i: usize| all[i as int]).to_multiset() == t.map_values(
            |i: usize| all[i as int],
        ).to_multiset(),
    decreases s.len(),
{
    broadcast use vstd::seq_lib::group_to_multiset_ensures;

    let f = |i: usize| all[i as int];
    assert(s.to_multiset().len() == s.len());
    assert(t.to_multiset().len() == t.len());
    if s.len() > 0 {
        let x = s.last();
        let front = s.drop_last();
        assert(s =~= front.push(x));
        assert(s.contains(x)) by {
            assert(s[s.len() - 1] == x);
        }
        assert(t.to_multiset().count(x) > 0);
        assert(t.contains(x));
        let k = choose|k: int| 0 <= k < t.len() && t[k] == x;
        let rest = t.remove(k);
        assert(rest.to_multiset() =~= t.to_multiset().remove(x)) by {
            assert(t =~= rest.take(k).push(x) + rest.skip(k));
            order::lemma_insert_multiset(rest, k, x);
        }
        assert(front.to_multiset() =~= s.to_multiset().remove(x));
        lemma_map_multiset(front, rest, all);
        assert(s.map_values(f) =~= front.map_values(f).push(f(x)));
        let mr = rest.map_values(f);
        assert(t.map_values(f) =~= mr.take(k).push(f(x)) + mr.skip(k));
        lemma_insert_boxes(mr, k, f(x));
        assert(s.map_values(f).to_multiset() =~= t.map_values(f).to_multiset());
    } else {
        assert(s.map_values(f) =~= t.map_values(f));
    }
}

proof fn lemma_insert_boxes(f: Seq<DetBox>, k: int, x: DetBox)
    requires
        0 <= k <= f.len(),
    ensures
        (f.take(k).push(x) + f.skip(k)).to_multiset() == f.to_multiset().insert(x),
{
    broadcast use vstd::seq_lib::group_to_multiset_ensures;

    let a = f.take(k);
    let b = f.skip(k);
    vstd::seq_lib::lemma_multiset_commutative(a.push(x), b);
    vstd::seq_lib::lemma_multiset_commutative(a, b);
    assert(a + b =~= f);
    assert((a.push(x) + b).to_multiset() =~= f.to_multiset().insert(x));
}

} // verus!
