//! How JSON values are read and put together.

use vstd::prelude::*;

use crate::canonical;
use crate::json;
use crate::json::{Json, JsonView};

verus! {

/// An object in which a member has this name and this value.
pub open spec fn has(v: JsonView, name: Seq<char>, x: JsonView) -> bool {
    v matches JsonView::Object(m) && m.contains((name, x))
}

/// A member is found by its name, and nothing else is.
pub proof fn law_members_are_found(m: Seq<(Seq<char>, JsonView)>, name: Seq<char>)
    requires
        json::distinct(m),
    ensures
        json::member(JsonView::Object(m), name) matches Some(x) ==> has(
            JsonView::Object(m),
            name,
            x,
        ),
        json::member(JsonView::Object(m), name) is None <==> forall|i: int|
            0 <= i < m.len() ==> (#[trigger] m[i]).0 != name,
        forall|x: JsonView| #[trigger]
            has(JsonView::Object(m), name, x) ==> json::member(JsonView::Object(m), name) == Some(
                x,
            ),
    decreases m.len(),
{
    let o = JsonView::Object(m);
    if m.len() > 0 {
        let rest = m.skip(1);
        assert forall|i: int, j: int|
            0 <= i < rest.len() && 0 <= j < rest.len() && i != j implies (#[trigger] rest[i]).0 != (
        #[trigger] rest[j]).0 by {
            assert(m[i + 1].0 != m[j + 1].0);
        }
        law_members_are_found(rest, name);
        let r = JsonView::Object(rest);
        if m[0].0 == name {
            assert(m[0] == (name, m[0].1));
            assert(m.contains((name, m[0].1)));
            assert forall|x: JsonView| #[trigger] has(o, name, x) implies json::member(o, name)
                == Some(x) by {
                let k = choose|k: int| 0 <= k < m.len() && m[k] == (name, x);
                assert(m[k] == (name, x));
                if k != 0 {
                    assert(m[k].0 != m[0].0);
                }
            }
        } else {
            assert(json::member(o, name) == json::member(r, name));
            if let Some(x) = json::member(r, name) {
                assert(has(r, name, x));
                let k = choose|k: int| 0 <= k < rest.len() && rest[k] == (name, x);
                assert(m[k + 1] == (name, x));
            } else {
                assert forall|i: int| 0 <= i < m.len() implies (#[trigger] m[i]).0 != name by {
                    if i > 0 {
                        assert(rest[i - 1] == m[i]);
                    }
                }
            }
            if forall|i: int| 0 <= i < m.len() ==> (#[trigger] m[i]).0 != name {
                assert forall|i: int| 0 <= i < rest.len() implies (#[trigger] rest[i]).0 != name by {
                    assert(m[i + 1] == rest[i]);
                }
            }
            assert forall|x: JsonView| #[trigger] has(o, name, x) implies json::member(o, name)
                == Some(x) by {
                let k = choose|k: int| 0 <= k < m.len() && m[k] == (name, x);
                assert(m[k] == (name, x));
                assert(k != 0);
                assert(rest[k - 1] == (name, x));
                assert(has(r, name, x));
            }
        }
    }
}

/// An item is found at its position; no value but an object has members, and
/// none but an array has items.
pub proof fn law_items_are_found(v: JsonView, i: int, name: Seq<char>)
    ensures
        v matches JsonView::Array(s) ==> (0 <= i < s.len() ==> json::item(v, i) == Some(s[i])) && (
        !(0 <= i < s.len()) ==> json::item(v, i) is None),
        v !is Array ==> json::item(v, i) is None,
        v !is Object ==> json::member(v, name) is None,
{
}

/// A value is of one kind: read as another it is nothing.
pub proof fn law_values_are_of_one_kind(s: Seq<char>, n: u64, v: JsonView)
    ensures
        json::string(JsonView::Text(s)) == Some(s),
        v !is Text ==> json::string(v) is None,
        json::unsigned(json::number(n)) == Some(n),
        v !is Number ==> json::unsigned(v) is None && json::written(v) is None,
        json::number(n) is Number,
{
}

/// The contents of a value are those of its parts, in their order.
pub proof fn law_contents(j: Json, i: int)
    ensures
        j matches Json::Text(s) ==> j@ == JsonView::Text(s@),
        j matches Json::Bool(b) ==> j@ == JsonView::Bool(b),
        j is Null ==> j@ is Null,
        j matches Json::Array(a) ==> (j@ matches JsonView::Array(s) && s.len() == a@.len() && (0
            <= i < s.len() ==> s[i] == a@[i]@)),
        j matches Json::Object(a) ==> (j@ matches JsonView::Object(m) && m.len() == a@.len() && (0
            <= i < m.len() ==> m[i] == (a@[i].0@, a@[i].1@))),
{
}

/// Setting a member leaves each other member where it is; a new one comes
/// last.
pub proof fn law_setting_a_member(m: Seq<(Seq<char>, JsonView)>, name: Seq<char>, v: JsonView)
    requires
        json::distinct(m),
    ensures
        ({
            let w = json::with_member(m, name, v);
            &&& forall|i: int|
                0 <= i < m.len() ==> (#[trigger] w[i]) == if m[i].0 == name {
                    (name, v)
                } else {
                    m[i]
                }
            &&& if exists|i: int| 0 <= i < m.len() && (#[trigger] m[i]).0 == name {
                w.len() == m.len()
            } else {
                w == m.push((name, v))
            }
        }),
    decreases m.len(),
{
    let w = json::with_member(m, name, v);
    if m.len() == 0 {
        assert(w =~= m.push((name, v)));
    } else {
        let rest = m.skip(1);
        assert forall|i: int, j: int|
            0 <= i < rest.len() && 0 <= j < rest.len() && i != j implies (#[trigger] rest[i]).0 != (
        #[trigger] rest[j]).0 by {
            assert(m[i + 1].0 != m[j + 1].0);
        }
        if m[0].0 == name {
            assert forall|i: int| 0 <= i < m.len() implies (#[trigger] w[i]) == if m[i].0 == name {
                (name, v)
            } else {
                m[i]
            } by {
                if i > 0 {
                    assert(m[i].0 != m[0].0);
                }
            }
            assert(w.len() == m.len());
        } else {
            law_setting_a_member(rest, name, v);
            let r = json::with_member(rest, name, v);
            assert(w == seq![m[0]] + r);
            assert forall|i: int| 0 <= i < m.len() implies (#[trigger] w[i]) == if m[i].0 == name {
                (name, v)
            } else {
                m[i]
            } by {
                if i > 0 {
                    assert(w[i] == r[i - 1]);
                    assert(m[i] == rest[i - 1]);
                }
            }
            if exists|i: int| 0 <= i < m.len() && (#[trigger] m[i]).0 == name {
                let i = choose|i: int| 0 <= i < m.len() && (#[trigger] m[i]).0 == name;
                assert(rest[i - 1].0 == name);
                assert(r.len() == rest.len());
            } else {
                assert forall|i: int| 0 <= i < rest.len() implies (#[trigger] rest[i]).0 != name by {
                    assert(m[i + 1] == rest[i]);
                }
                assert(r == rest.push((name, v)));
                assert(w =~= m.push((name, v)));
            }
        }
    }
}

/// Merging sets every member that is given and leaves all others.
pub proof fn law_merging(
    m: Seq<(Seq<char>, JsonView)>,
    extra: Seq<(Seq<char>, JsonView)>,
    name: Seq<char>,
)
    requires
        json::distinct(m),
        json::distinct(extra),
    ensures
        ({
            let before = json::member(JsonView::Object(m), name);
            let given = json::member(JsonView::Object(extra), name);
            let after = json::member(JsonView::Object(json::merged(m, extra)), name);
            &&& given is Some ==> after == given
            &&& given is None ==> after == before
        }),
        json::distinct(json::merged(m, extra)),
{
    let w = json::merged(m, extra);
    json::lemma_merged(m, extra);
    law_members_are_found(m, name);
    law_members_are_found(extra, name);
    law_members_are_found(w, name);
    let before = json::member(JsonView::Object(m), name);
    let given = json::member(JsonView::Object(extra), name);
    let after = json::member(JsonView::Object(w), name);
    if let Some(x) = given {
        assert(has(JsonView::Object(extra), name, x));
        assert(w.contains((name, x)));
        assert(has(JsonView::Object(w), name, x));
    } else {
        assert(!json::names(extra, name));
        if let Some(x) = before {
            assert(has(JsonView::Object(m), name, x));
            assert(w.contains((name, x)));
            assert(has(JsonView::Object(w), name, x));
        } else if let Some(x) = after {
            assert(has(JsonView::Object(w), name, x));
            assert(w.contains((name, x)));
            if extra.contains((name, x)) {
                let k = choose|k: int| 0 <= k < extra.len() && extra[k] == (name, x);
                assert(extra[k].0 == name);
            }
            assert(m.contains((name, x)));
            assert(has(JsonView::Object(m), name, x));
        }
    }
}

/// The canonical form of a value says what the value says: scalars stay, items
/// keep their positions, members their names; and the names of an object
/// rise.
pub proof fn law_canonical_values_are_equal(v: JsonView, i: int, name: Seq<char>)
    requires
        v matches JsonView::Object(m) ==> json::distinct(m),
    ensures
        v !is Array && v !is Object ==> canonical::canonical(v) == v,
        v matches JsonView::Array(s) ==> (canonical::canonical(v) matches JsonView::Array(t)
            && t.len() == s.len() && (0 <= i < s.len() ==> t[i] == canonical::canonical(s[i]))),
        v matches JsonView::Object(m) ==> (canonical::canonical(v) matches JsonView::Object(c)
            && canonical::rising(c) && c.len() == m.len() && (json::member(v, name) is None
            ==> json::member(canonical::canonical(v), name) is None) && (json::member(
            v,
            name,
        ) matches Some(x) ==> json::member(canonical::canonical(v), name) == Some(
            canonical::canonical(x),
        ))),
{
    if let JsonView::Object(m) = v {
        let t = canonical::canonical_members(m);
        assert forall|a: int, b: int| 0 <= a < t.len() && 0 <= b < t.len() && a != b implies (
        #[trigger] t[a]).0 != (#[trigger] t[b]).0 by {
            assert(m[a].0 != m[b].0);
        }
        canonical::lemma_sorted(t);
        let c = canonical::sorted(t);
        assert(json::distinct(c)) by {
            assert forall|a: int, b: int|
                0 <= a < c.len() && 0 <= b < c.len() && a != b implies (#[trigger] c[a]).0 != (
            #[trigger] c[b]).0 by {
                canonical::lemma_before_irreflexive(c[a].0);
                if a < b {
                    assert(canonical::before(c[a].0, c[b].0));
                } else {
                    assert(canonical::before(c[b].0, c[a].0));
                }
            }
        }
        law_members_are_found(m, name);
        law_members_are_found(c, name);
        broadcast use vstd::seq_lib::group_to_multiset_ensures;

        if let Some(x) = json::member(v, name) {
            assert(has(v, name, x));
            let k = choose|k: int| 0 <= k < m.len() && m[k] == (name, x);
            assert(t[k] == (name, canonical::canonical(x)));
            assert(t.to_multiset().count(t[k]) > 0);
            assert(c.contains((name, canonical::canonical(x))));
            assert(has(JsonView::Object(c), name, canonical::canonical(x)));
        } else {
            assert forall|k: int| 0 <= k < c.len() implies (#[trigger] c[k]).0 != name by {
                assert(c.to_multiset().count(c[k]) > 0);
                assert(t.contains(c[k]));
                let l = choose|l: int| 0 <= l < t.len() && t[l] == c[k];
                assert(m[l].0 != name);
            }
        }
    }
}

/// Names are ordered by the first character in which they differ; a name comes
/// before those that it begins.
pub proof fn law_names_are_ordered(p: Seq<char>, a: Seq<char>, b: Seq<char>)
    ensures
        canonical::before(p + a, p + b) <==> canonical::before(a, b),
        canonical::before(p, p + a) <==> a.len() > 0,
        a.len() > 0 && b.len() > 0 && a[0] < b[0] ==> canonical::before(a, b),
        !(canonical::before(a, b) && canonical::before(b, a)),
        !canonical::before(p + a, p),
    decreases p.len(),
{
    let none = Seq::<char>::empty();
    if p.len() == 0 {
        assert(p + a =~= a);
        assert(p + b =~= b);
    } else {
        let q = p.skip(1);
        law_names_are_ordered(q, a, b);
        assert((p + a).skip(1) =~= q + a);
        assert((p + b).skip(1) =~= q + b);
        assert((p + a)[0] == p[0] && (p + b)[0] == p[0]);
    }
    if canonical::before(a, b) && canonical::before(b, a) {
        canonical::lemma_before_transitive(a, b, a);
        canonical::lemma_before_irreflexive(a);
    }
}

} // verus!
