//! Canonical JSON: in every object the members are in the order of their
//! names, so that two values which differ in that order alone are written
//! alike.

use vstd::prelude::*;

use crate::json;
use crate::json::{Json, JsonView};
use crate::text;

verus! {

/// One text comes before another in the order of their characters.
pub open spec fn before(a: Seq<char>, b: Seq<char>) -> bool
    decreases a.len(),
{
    if b.len() == 0 {
        false
    } else if a.len() == 0 {
        true
    } else if a[0] != b[0] {
        a[0] < b[0]
    } else {
        before(a.skip(1), b.skip(1))
    }
}

/// A member put into members that are in order.
pub open spec fn inserted(s: Seq<(Seq<char>, JsonView)>, p: (Seq<char>, JsonView)) -> Seq<
    (Seq<char>, JsonView),
>
    decreases s.len(),
{
    if s.len() > 0 && before(p.0, s.last().0) {
        inserted(s.drop_last(), p).push(s.last())
    } else {
        s.push(p)
    }
}

/// Members in the order of their names.
pub open spec fn sorted(s: Seq<(Seq<char>, JsonView)>) -> Seq<(Seq<char>, JsonView)>
    decreases s.len(),
{
    if s.len() == 0 {
        seq![]
    } else {
        inserted(sorted(s.drop_last()), s.last())
    }
}

/// Values, each in canonical form.
pub open spec fn canonical_list(s: Seq<JsonView>) -> Seq<JsonView>
    decreases s,
{
    Seq::new(
        s.len(),
        |i: int|
            if 0 <= i < s.len() {
                canonical(s[i])
            } else {
                arbitrary()
            },
    )
}

/// Members with their values in canonical form, in the same order.
pub open spec fn canonical_members(s: Seq<(Seq<char>, JsonView)>) -> Seq<(Seq<char>, JsonView)>
    decreases s,
{
    Seq::new(
        s.len(),
        |i: int|
            if 0 <= i < s.len() {
                (s[i].0, canonical(s[i].1))
            } else {
                arbitrary()
            },
    )
}

/// A value in canonical form.
pub open spec fn canonical(v: JsonView) -> JsonView
    decreases v,
{
    match v {
        JsonView::Array(s) => JsonView::Array(canonical_list(s)),
        JsonView::Object(m) => JsonView::Object(sorted(canonical_members(m))),
        _ => v,
    }
}

/// In strictly rising order of the names.
pub open spec fn rising(s: Seq<(Seq<char>, JsonView)>) -> bool {
    forall|i: int, j: int|
        0 <= i < j < s.len() ==> before((#[trigger] s[i]).0, (#[trigger] s[j]).0)
}

pub proof fn lemma_before_irreflexive(a: Seq<char>)
    ensures
        !before(a, a),
    decreases a.len(),
{
    if a.len() > 0 {
        lemma_before_irreflexive(a.skip(1));
    }
}

pub proof fn lemma_before_transitive(a: Seq<char>, b: Seq<char>, c: Seq<char>)
    requires
        before(a, b),
        before(b, c),
    ensures
        before(a, c),
    decreases a.len(),
{
    if a.len() > 0 && b.len() > 0 && c.len() > 0 && a[0] == b[0] && b[0] == c[0] {
        lemma_before_transitive(a.skip(1), b.skip(1), c.skip(1));
    }
}

proof fn lemma_before_total(a: Seq<char>, b: Seq<char>)
    ensures
        a == b || before(a, b) || before(b, a),
    decreases a.len(),
{
    if a.len() > 0 && b.len() > 0 && a[0] == b[0] {
        lemma_before_total(a.skip(1), b.skip(1));
        if a.skip(1) == b.skip(1) {
            assert(a =~= seq![a[0]] + a.skip(1));
            assert(b =~= seq![b[0]] + b.skip(1));
        }
    } else if a.len() == 0 && b.len() == 0 {
        assert(a =~= b);
    }
}

proof fn lemma_inserted(s: Seq<(Seq<char>, JsonView)>, p: (Seq<char>, JsonView))
    requires
        rising(s),
        forall|i: int| 0 <= i < s.len() ==> (#[trigger] s[i]).0 != p.0,
    ensures
        rising(inserted(s, p)),
        inserted(s, p).to_multiset() == s.to_multiset().insert(p),
        inserted(s, p).len() == s.len() + 1,
        forall|i: int|
            0 <= i < inserted(s, p).len() ==> (#[trigger] inserted(s, p)[i]) == p || s.contains(
                inserted(s, p)[i],
            ),
    decreases s.len(),
{
    broadcast use vstd::seq_lib::group_to_multiset_ensures;

    if s.len() > 0 && before(p.0, s.last().0) {
        let front = s.drop_last();
        lemma_inserted(front, p);
        let f = inserted(front, p);
        let r = inserted(s, p);
        assert(r =~= f.push(s.last()));
        assert forall|i: int, j: int| 0 <= i < j < r.len() implies before(
            (#[trigger] r[i]).0,
            (#[trigger] r[j]).0,
        ) by {
            if j < f.len() {
                assert(r[i] == f[i] && r[j] == f[j]);
            } else {
                assert(r[i] == f[i]);
                if f[i] != p {
                    let k = choose|k: int| 0 <= k < front.len() && front[k] == f[i];
                    assert(s[k] == f[i]);
                    assert(before(s[k].0, s[s.len() - 1].0));
                }
            }
        }
        assert forall|i: int| 0 <= i < r.len() implies (#[trigger] r[i]) == p || s.contains(
            r[i],
        ) by {
            if i < f.len() {
                assert(r[i] == f[i]);
                if f[i] != p {
                    let k = choose|k: int| 0 <= k < front.len() && front[k] == f[i];
                    assert(s[k] == f[i]);
                }
            } else {
                assert(s[s.len() - 1] == r[i]);
            }
        }
        assert(s =~= front.push(s.last()));
        assert(r.to_multiset() =~= s.to_multiset().insert(p));
    } else {
        let r = s.push(p);
        assert forall|i: int, j: int| 0 <= i < j < r.len() implies before(
            (#[trigger] r[i]).0,
            (#[trigger] r[j]).0,
        ) by {
            if j == s.len() {
                lemma_before_total(p.0, s.last().0);
                assert(s[s.len() - 1] == s.last());
                if i < s.len() - 1 {
                    assert(before(s[i].0, s[s.len() - 1].0));
                    lemma_before_transitive(s[i].0, s.last().0, p.0);
                }
            }
        }
        assert forall|i: int| 0 <= i < r.len() implies (#[trigger] r[i]) == p || s.contains(
            r[i],
        ) by {
            if i < s.len() {
                assert(s[i] == r[i]);
            }
        }
    }
}

/// Sorting keeps the members and puts them in strictly rising order.
pub proof fn lemma_sorted(s: Seq<(Seq<char>, JsonView)>)
    requires
        json::distinct(s),
    ensures
        rising(sorted(s)),
        sorted(s).to_multiset() == s.to_multiset(),
        sorted(s).len() == s.len(),
        forall|i: int|
            0 <= i < sorted(s).len() ==> s.contains(#[trigger] sorted(s)[i]),
    decreases s.len(),
{
    broadcast use vstd::seq_lib::group_to_multiset_ensures;

    if s.len() > 0 {
        let front = s.drop_last();
        let p = s.last();
        assert forall|i: int, j: int|
            0 <= i < front.len() && 0 <= j < front.len() && i != j implies (#[trigger] front[i]).0
            != (#[trigger] front[j]).0 by {
            assert(s[i].0 != s[j].0);
        }
        lemma_sorted(front);
        let f = sorted(front);
        assert forall|i: int| 0 <= i < f.len() implies (#[trigger] f[i]).0 != p.0 by {
            assert(front.contains(f[i]));
            let k = choose|k: int| 0 <= k < front.len() && front[k] == f[i];
            assert(s[k].0 != s[s.len() - 1].0);
        }
        lemma_inserted(f, p);
        assert(s =~= front.push(p));
        assert(sorted(s).to_multiset() =~= s.to_multiset());
        assert forall|i: int| 0 <= i < sorted(s).len() implies s.contains(
            #[trigger] sorted(s)[i],
        ) by {
            let x = inserted(f, p)[i];
            if x == p {
                assert(s[s.len() - 1] == x);
            } else {
                let k = choose|k: int| 0 <= k < f.len() && f[k] == x;
                assert(front.contains(f[k]));
                let m = choose|m: int| 0 <= m < front.len() && front[m] == x;
                assert(s[m] == x);
            }
        }
    } else {
        assert(sorted(s) =~= s);
    }
}

/// Two lists hold the same members.
pub open spec fn same_members(
    a: Seq<(Seq<char>, JsonView)>,
    b: Seq<(Seq<char>, JsonView)>,
) -> bool {
    forall|x: (Seq<char>, JsonView)| #[trigger] a.contains(x) <==> b.contains(x)
}

/// Two lists in strictly rising order that hold the same members are equal.
proof fn lemma_rising_unique(a: Seq<(Seq<char>, JsonView)>, b: Seq<(Seq<char>, JsonView)>)
    requires
        rising(a),
        rising(b),
        same_members(a, b),
    ensures
        a == b,
    decreases a.len(),
{
    if a.len() == 0 {
        if b.len() > 0 {
            assert(b.contains(b[0]));
            assert(a.contains(b[0]));
        }
        assert(a =~= b);
    } else {
        assert(a.contains(a[0]));
        assert(b.contains(a[0]));
        assert(b.len() > 0);
        let x = a.last();
        let y = b.last();
        assert(a[a.len() - 1] == x && b[b.len() - 1] == y);
        assert(a.contains(x) && b.contains(y));
        assert(b.contains(x));
        assert(a.contains(y));
        let i = choose|i: int| 0 <= i < b.len() && b[i] == x;
        let j = choose|j: int| 0 <= j < a.len() && a[j] == y;
        if i < b.len() - 1 && j < a.len() - 1 {
            assert(before(b[i].0, b[b.len() - 1].0));
            assert(before(a[j].0, a[a.len() - 1].0));
            lemma_before_transitive(x.0, y.0, x.0);
            lemma_before_irreflexive(x.0);
        }
        assert(x == y);
        let fa = a.drop_last();
        let fb = b.drop_last();
        assert forall|i: int, j: int| 0 <= i < j < fa.len() implies before(
            (#[trigger] fa[i]).0,
            (#[trigger] fa[j]).0,
        ) by {
            assert(before(a[i].0, a[j].0));
        }
        assert forall|i: int, j: int| 0 <= i < j < fb.len() implies before(
            (#[trigger] fb[i]).0,
            (#[trigger] fb[j]).0,
        ) by {
            assert(before(b[i].0, b[j].0));
        }
        assert forall|z: (Seq<char>, JsonView)| #[trigger] fa.contains(z) <==> fb.contains(z) by {
            lemma_before_irreflexive(z.0);
            if fa.contains(z) {
                let k = choose|k: int| 0 <= k < fa.len() && fa[k] == z;
                assert(a[k] == z);
                assert(before(a[k].0, a[a.len() - 1].0));
                assert(a.contains(z));
                assert(b.contains(z));
                let m = choose|m: int| 0 <= m < b.len() && b[m] == z;
                assert(m < b.len() - 1);
                assert(fb[m] == z);
            }
            if fb.contains(z) {
                let k = choose|k: int| 0 <= k < fb.len() && fb[k] == z;
                assert(b[k] == z);
                assert(before(b[k].0, b[b.len() - 1].0));
                assert(b.contains(z));
                assert(a.contains(z));
                let m = choose|m: int| 0 <= m < a.len() && a[m] == z;
                assert(m < a.len() - 1);
                assert(fa[m] == z);
            }
        }
        lemma_rising_unique(fa, fb);
        assert(a =~= fa.push(x));
        assert(b =~= fb.push(y));
    }
}

/// The order of an object's members does not matter: two objects with the
/// same members, up to what canonical form makes equal inside them, have the
/// same canonical form.
pub proof fn law_member_order_is_immaterial(
    a: Seq<(Seq<char>, JsonView)>,
    b: Seq<(Seq<char>, JsonView)>,
)
    requires
        json::distinct(a),
        json::distinct(b),
        same_members(canonical_members(a), canonical_members(b)),
    ensures
        canonical(JsonView::Object(a)) == canonical(JsonView::Object(b)),
{
    let x = canonical_members(a);
    let y = canonical_members(b);
    lemma_canonical_distinct(a);
    lemma_canonical_distinct(b);
    lemma_sorted(x);
    lemma_sorted(y);
    assert forall|z: (Seq<char>, JsonView)| #[trigger] sorted(x).contains(z) <==> sorted(
        y,
    ).contains(z) by {
        lemma_sorted_contains(x, z);
        lemma_sorted_contains(y, z);
        assert(x.contains(z) <==> y.contains(z));
    }
    lemma_rising_unique(sorted(x), sorted(y));
}

pub proof fn lemma_canonical_distinct(a: Seq<(Seq<char>, JsonView)>)
    requires
        json::distinct(a),
    ensures
        json::distinct(canonical_members(a)),
{
    let x = canonical_members(a);
    assert forall|i: int, j: int| 0 <= i < x.len() && 0 <= j < x.len() && i != j implies (
    #[trigger] x[i]).0 != (#[trigger] x[j]).0 by {
        assert(a[i].0 != a[j].0);
    }
}

proof fn lemma_sorted_contains(s: Seq<(Seq<char>, JsonView)>, x: (Seq<char>, JsonView))
    requires
        json::distinct(s),
    ensures
        sorted(s).contains(x) <==> s.contains(x),
{
    broadcast use vstd::seq_lib::group_to_multiset_ensures;

    lemma_sorted(s);
    assert(sorted(s).contains(x) <==> sorted(s).to_multiset().count(x) > 0);
    assert(s.contains(x) <==> s.to_multiset().count(x) > 0);
}

/// Canonical form of merged members: merge the canonical forms.
proof fn lemma_canonical_with_member(
    m: Seq<(Seq<char>, JsonView)>,
    name: Seq<char>,
    v: JsonView,
)
    ensures
        canonical_members(json::with_member(m, name, v)) == json::with_member(
            canonical_members(m),
            name,
            canonical(v),
        ),
    decreases m.len(),
{
    let w = json::with_member(m, name, v);
    let c = canonical_members(m);
    if m.len() == 0 {
        assert(canonical_members(w) =~= seq![(name, canonical(v))]);
    } else {
        assert(c.skip(1) =~= canonical_members(m.skip(1)));
        assert(c[0] == (m[0].0, canonical(m[0].1)));
        if m[0].0 == name {
            assert(canonical_members(w) =~= seq![(name, canonical(v))] + canonical_members(
                m.skip(1),
            ));
        } else {
            lemma_canonical_with_member(m.skip(1), name, v);
            assert(canonical_members(w) =~= seq![c[0]] + canonical_members(
                json::with_member(m.skip(1), name, v),
            ));
        }
    }
}

proof fn lemma_canonical_merged(
    m: Seq<(Seq<char>, JsonView)>,
    extra: Seq<(Seq<char>, JsonView)>,
)
    ensures
        canonical_members(json::merged(m, extra)) == json::merged(
            canonical_members(m),
            canonical_members(extra),
        ),
    decreases extra.len(),
{
    if extra.len() > 0 {
        let front = extra.drop_last();
        lemma_canonical_merged(m, front);
        lemma_canonical_with_member(json::merged(m, front), extra.last().0, extra.last().1);
        let c = canonical_members(extra);
        assert(c.drop_last() =~= canonical_members(front));
        assert(c.last() == (extra.last().0, canonical(extra.last().1)));
    } else {
        assert(canonical_members(extra) =~= Seq::empty());
    }
}

/// The order in which members are merged into an object does not matter.
pub proof fn law_merge_order_is_immaterial(
    m: Seq<(Seq<char>, JsonView)>,
    a: Seq<(Seq<char>, JsonView)>,
    b: Seq<(Seq<char>, JsonView)>,
)
    requires
        json::distinct(m),
        json::distinct(a),
        json::distinct(b),
        same_members(canonical_members(a), canonical_members(b)),
    ensures
        canonical(JsonView::Object(json::merged(m, a))) == canonical(
            JsonView::Object(json::merged(m, b)),
        ),
{
    lemma_canonical_merged(m, a);
    lemma_canonical_merged(m, b);
    let cm = canonical_members(m);
    let ca = canonical_members(a);
    let cb = canonical_members(b);
    lemma_canonical_distinct(m);
    lemma_canonical_distinct(a);
    lemma_canonical_distinct(b);
    json::lemma_merged(cm, ca);
    json::lemma_merged(cm, cb);
    json::lemma_merged(m, a);
    json::lemma_merged(m, b);
    assert forall|x: (Seq<char>, JsonView)| #[trigger]
        json::merged(cm, ca).contains(x) <==> json::merged(cm, cb).contains(x) by {
        assert(ca.contains(x) <==> cb.contains(x));
        assert(json::names(ca, x.0) <==> json::names(cb, x.0)) by {
            if json::names(ca, x.0) {
                let i = choose|i: int| 0 <= i < ca.len() && (#[trigger] ca[i]).0 == x.0;
                assert(ca.contains(ca[i]));
                assert(cb.contains(ca[i]));
                let j = choose|j: int| 0 <= j < cb.len() && cb[j] == ca[i];
                assert(cb[j].0 == x.0);
            }
            if json::names(cb, x.0) {
                let i = choose|i: int| 0 <= i < cb.len() && (#[trigger] cb[i]).0 == x.0;
                assert(cb.contains(cb[i]));
                assert(ca.contains(cb[i]));
                let j = choose|j: int| 0 <= j < ca.len() && ca[j] == cb[i];
                assert(ca[j].0 == x.0);
            }
        }
    }
    law_member_order_is_immaterial(json::merged(m, a), json::merged(m, b));
}

fn comes_before(a: &str, b: &str) -> (r: bool)
    ensures
        r == before(a@, b@),
{
    let x = text::chars_of(a);
    let y = text::chars_of(b);
    let mut i: usize = 0;
    assert(x@.skip(0) =~= x@);
    assert(y@.skip(0) =~= y@);
    while i < x.len() && i < y.len() && x[i] == y[i]
        invariant
            x@ == a@,
            y@ == b@,
            i <= x@.len(),
            i <= y@.len(),
            before(a@, b@) == before(x@.skip(i as int), y@.skip(i as int)),
        decreases x@.len() - i,
    {
        assert(x@.skip(i as int).skip(1) =~= x@.skip(i + 1));
        assert(y@.skip(i as int).skip(1) =~= y@.skip(i + 1));
        i += 1;
    }
    if i == y.len() {
        false
    } else if i == x.len() {
        true
    } else {
        x[i] < y[i]
    }
}

/// Put a member into members that are in order.
fn insert_member(out: &mut Vec<(String, Json)>, p: (String, Json))
    ensures
        json::members_view(final(out)@) == inserted(
            json::members_view(old(out)@),
            (p.0@, p.1@),
        ),
        final(out)@.len() == old(out)@.len() + 1,
        forall|i: int|
            0 <= i < final(out)@.len() ==> (#[trigger] final(out)@[i]) == p || old(out)@.contains(
                final(out)@[i],
            ),
{
    let ghost all = json::members_view(out@);
    let ghost was = out@;
    let ghost q = (p.0@, p.1@);
    let n: usize = out.len();
    let mut k: usize = n;
    assert(all.take(n as int) =~= all);
    assert(all.skip(n as int) =~= Seq::empty());
    assert(inserted(all, q) =~= inserted(all.take(k as int), q) + all.skip(k as int));
    while k > 0 && comes_before(&p.0, &out[k - 1].0)
        invariant
            k <= n,
            n == out@.len(),
            q == (p.0@, p.1@),
            out@ == was,
            all == json::members_view(was),
            inserted(all, q) == inserted(all.take(k as int), q) + all.skip(k as int),
        decreases k,
    {
        proof {
            let t = all.take(k as int);
            assert(t.last() == all[k - 1]);
            assert(t.drop_last() =~= all.take(k - 1));
            assert(all.skip(k - 1) =~= seq![all[k - 1]] + all.skip(k as int));
            assert(inserted(all.take(k - 1), q).push(all[k - 1]) + all.skip(k as int) =~= inserted(
                all.take(k - 1),
                q,
            ) + all.skip(k - 1));
        }
        k -= 1;
    }
    proof {
        if k > 0 {
            assert(all.take(k as int).last() == all[k - 1]);
        }
        assert(inserted(all.take(k as int), q) == all.take(k as int).push(q));
    }
    out.insert(k, p);
    proof {
        assert(json::members_view(out@) =~= all.take(k as int).push(q) + all.skip(k as int));
        assert forall|i: int| 0 <= i < out@.len() implies (#[trigger] out@[i]) == p
            || was.contains(out@[i]) by {
            if i < k {
                assert(was[i] == out@[i]);
            } else if i > k {
                assert(was[i - 1] == out@[i]);
            }
        }
    }
}

/// Put a value into canonical form.
pub fn canonical_of(j: Json) -> (r: Json)
    requires
        json::well_formed(j),
    ensures
        r@ == canonical(j@),
        json::well_formed(r),
    decreases j@,
{
    match j {
        Json::Array(a) => {
            let ghost all = a@;
            let mut out: Vec<Json> = Vec::new();
            for x in it: a
                invariant
                    it.seq() == all,
                    all == a@,
                    j == Json::Array(a),
                    json::all_well_formed(all),
                    out@.len() == it.index(),
                    forall|i: int|
                        0 <= i < it.index() ==> (#[trigger] out@[i])@ == canonical(all[i]@)
                            && json::well_formed(out@[i]),
            {
                assert(json::well_formed(all[it.index()]));
                proof {
                    json::lemma_item_smaller(j@, json::list_view(all), it.index());
                }
                let c = canonical_of(x);
                out.push(c);
            }
            assert(json::list_view(out@) =~= canonical_list(json::list_view(all)));
            Json::Array(out)
        },
        Json::Object(m) => {
            let ghost all = m@;
            let ghost views = json::members_view(all);
            let ghost goal = canonical_members(views);
            let mut out: Vec<(String, Json)> = Vec::new();
            assert(json::members_view(out@) =~= sorted(goal.take(0)));
            for p in it: m
                invariant
                    it.seq() == all,
                    all == m@,
                    j == Json::Object(m),
                    views == json::members_view(all),
                    goal == canonical_members(views),
                    json::members_well_formed(all),
                    json::members_view(out@) == sorted(goal.take(it.index())),
                    json::members_well_formed(out@),
            {
                assert(json::well_formed(all[it.index()].1));
                proof {
                    json::lemma_member_smaller(j@, views, it.index());
                    let i = it.index();
                    assert(goal.take(i + 1).drop_last() =~= goal.take(i));
                    assert(goal.take(i + 1).last() == (p.0@, canonical(p.1@)));
                }
                let c = canonical_of(p.1);
                let ghost was = out@;
                let ghost q = (p.0, c);
                insert_member(&mut out, (p.0, c));
                proof {
                    assert forall|i: int| 0 <= i < out@.len() implies json::well_formed(
                        (#[trigger] out@[i]).1,
                    ) by {
                        if out@[i] != q {
                            let k = choose|k: int| 0 <= k < was.len() && was[k] == out@[i];
                            assert(json::well_formed(was[k].1));
                        }
                    }
                }
            }
            proof {
                assert(goal.take(all.len() as int) =~= goal);
                assert forall|i: int, k: int|
                    0 <= i < goal.len() && 0 <= k < goal.len() && i != k implies (
                #[trigger] goal[i]).0 != (#[trigger] goal[k]).0 by {
                    assert(views[i].0 != views[k].0);
                }
                lemma_sorted(goal);
                lemma_rising_distinct(sorted(goal));
            }
            Json::Object(out)
        },
        other => other,
    }
}

proof fn lemma_rising_distinct(s: Seq<(Seq<char>, JsonView)>)
    requires
        rising(s),
    ensures
        json::distinct(s),
{
    assert forall|i: int, j: int| 0 <= i < s.len() && 0 <= j < s.len() && i != j implies (
    #[trigger] s[i]).0 != (#[trigger] s[j]).0 by {
        lemma_before_irreflexive(s[i].0);
        if i < j {
            assert(before(s[i].0, s[j].0));
        } else {
            assert(before(s[j].0, s[i].0));
        }
    }
}

/// Write a value as canonical JSON.
pub fn canonical_json(j: Json) -> (r: String)
    requires
        json::well_formed(j),
    ensures
        r@ == json::json_text(canonical(j@)),
        json::reads_back(r@, canonical(j@)),
        json::tells(r@, canonical(j@)),
{
    json::print(canonical_of(j))
}

} // verus!
