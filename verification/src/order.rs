//! Sorting by key, in which what has equal keys keeps its order.

use vstd::prelude::*;

verus! {

/// An item put behind those of sorted items whose key is not larger.
pub open spec fn placed(s: Seq<usize>, keys: Seq<i64>, x: usize) -> Seq<usize>
    decreases s.len(),
{
    if s.len() > 0 && keys[x as int] < keys[s.last() as int] {
        placed(s.drop_last(), keys, x).push(s.last())
    } else {
        s.push(x)
    }
}

/// Items sorted by key; those with equal keys keep their order.
pub open spec fn ordered(s: Seq<usize>, keys: Seq<i64>) -> Seq<usize>
    decreases s.len(),
{
    if s.len() == 0 {
        seq![]
    } else {
        placed(ordered(s.drop_last(), keys), keys, s.last())
    }
}

/// Sort items by key; those with equal keys keep their order.
pub fn order_by(s: &Vec<usize>, keys: &Vec<i64>) -> (r: Vec<usize>)
    requires
        forall|i: int| 0 <= i < s@.len() ==> (#[trigger] s@[i]) < keys@.len(),
    ensures
        r@ == ordered(s@, keys@),
        forall|i: int| 0 <= i < r@.len() ==> (#[trigger] r@[i]) < keys@.len(),
        r@.len() == s@.len(),
{
    let mut out: Vec<usize> = Vec::new();
    let mut n: usize = 0;
    assert(s@.take(0) =~= Seq::empty());
    while n < s.len()
        invariant
            n <= s@.len(),
            out@.len() == n,
            forall|i: int| 0 <= i < s@.len() ==> (#[trigger] s@[i]) < keys@.len(),
            forall|i: int| 0 <= i < out@.len() ==> (#[trigger] out@[i]) < keys@.len(),
            out@ == ordered(s@.take(n as int), keys@),
        decreases s@.len() - n,
    {
        let x: usize = s[n];
        let ghost all = out@;
        let mut k: usize = n;
        proof {
            assert(s@.take(n + 1).drop_last() =~= s@.take(n as int));
            assert(s@.take(n + 1).last() == x);
            assert(all.take(n as int) =~= all);
            assert(placed(all, keys@, x) =~= placed(all.take(k as int), keys@, x) + all.skip(
                k as int,
            ));
        }
        while k > 0 && keys[x] < keys[out[k - 1]]
            invariant
                k <= n,
                n == out@.len(),
                out@ == all,
                x < keys@.len(),
                forall|i: int| 0 <= i < out@.len() ==> (#[trigger] out@[i]) < keys@.len(),
                placed(all, keys@, x) == placed(all.take(k as int), keys@, x) + all.skip(k as int),
            decreases k,
        {
            proof {
                let t = all.take(k as int);
                assert(t.last() == all[k - 1]);
                assert(t.drop_last() =~= all.take(k - 1));
                assert(placed(all.take(k - 1), keys@, x).push(all[k - 1]) + all.skip(k as int)
                    =~= placed(all.take(k - 1), keys@, x) + all.skip(k - 1));
            }
            k -= 1;
        }
        proof {
            if k > 0 {
                assert(all.take(k as int).last() == all[k - 1]);
            }
            assert(placed(all.take(k as int), keys@, x) == all.take(k as int).push(x));
        }
        out.insert(k, x);
        assert(out@ =~= all.take(k as int).push(x) + all.skip(k as int));
        n += 1;
    }
    assert(s@.take(n as int) =~= s@);
    out
}

/// How an item was put into sorted items: some stay before it, and those
/// after it have larger keys.
proof fn lemma_placed(s: Seq<usize>, keys: Seq<i64>, x: usize) -> (k: int)
    ensures
        0 <= k <= s.len(),
        placed(s, keys, x) == s.take(k).push(x) + s.skip(k),
        forall|i: int| k <= i < s.len() ==> keys[x as int] < keys[#[trigger] s[i] as int],
        k > 0 ==> keys[s[k - 1] as int] <= keys[x as int],
    decreases s.len(),
{
    if s.len() > 0 && keys[x as int] < keys[s.last() as int] {
        let front = s.drop_last();
        let k = lemma_placed(front, keys, x);
        assert(front.take(k) =~= s.take(k));
        assert((front.take(k).push(x) + front.skip(k)).push(s.last()) =~= s.take(k).push(x)
            + s.skip(k));
        assert forall|i: int| k <= i < s.len() implies keys[x as int] < keys[#[trigger] s[i] as int] by {
            if i < front.len() {
                assert(front[i] == s[i]);
            }
        }
        if k > 0 {
            assert(front[k - 1] == s[k - 1]);
        }
        k
    } else {
        assert(s.take(s.len() as int) =~= s);
        assert(s.push(x) + s.skip(s.len() as int) =~= s.push(x));
        s.len() as int
    }
}

/// In the order of the keys.
pub open spec fn in_order(s: Seq<usize>, keys: Seq<i64>) -> bool {
    forall|i: int, j: int|
        0 <= i < j < s.len() ==> keys[#[trigger] s[i] as int] <= keys[#[trigger] s[j] as int]
}

/// Sorting keeps all items and puts them in the order of their keys.
pub proof fn law_ordering_sorts(s: Seq<usize>, keys: Seq<i64>)
    ensures
        in_order(ordered(s, keys), keys),
        ordered(s, keys).to_multiset() == s.to_multiset(),
    decreases s.len(),
{
    broadcast use vstd::seq_lib::group_to_multiset_ensures;

    if s.len() > 0 {
        let front = s.drop_last();
        let x = s.last();
        law_ordering_sorts(front, keys);
        let f = ordered(front, keys);
        let k = lemma_placed(f, keys, x);
        let r = ordered(s, keys);
        assert(r == f.take(k).push(x) + f.skip(k));
        assert(r =~= f.insert(k, x));
        assert forall|i: int, j: int| 0 <= i < j < r.len() implies keys[#[trigger] r[i] as int]
            <= keys[#[trigger] r[j] as int] by {
            let a = if i < k {
                i
            } else {
                i - 1
            };
            let b = if j < k {
                j
            } else {
                j - 1
            };
            if i != k {
                assert(r[i] == f[a]);
            }
            if j != k {
                assert(r[j] == f[b]);
            }
            if j == k {
                assert(i <= k - 1);
                if i < k - 1 {
                    assert(keys[f[i] as int] <= keys[f[k - 1] as int]);
                }
            } else if i != k {
                assert(keys[f[a] as int] <= keys[f[b] as int]);
            }
        }
        assert(s =~= front.push(x));
        lemma_insert_multiset(f, k, x);
        assert(r.to_multiset() =~= s.to_multiset());
    } else {
        assert(ordered(s, keys) =~= s);
    }
}

pub proof fn lemma_insert_multiset(f: Seq<usize>, k: int, x: usize)
    requires
        0 <= k <= f.len(),
    ensures
        (f.take(k).push(x) + f.skip(k)).to_multiset() == f.to_multiset().insert(x),
{
    broadcast use vstd::seq_lib::group_to_multiset_ensures;

    let a = f.take(k);
    let b = f.skip(k);
    vstd::seq_lib::lemma_multiset_commutative(a.push(x), b);
    vstd::seq_lib::lemma_multiset_commutative(a, b);
    assert(a + b =~= f);
    assert((a.push(x) + b).to_multiset() =~= f.to_multiset().insert(x));
}

/// Items with equal keys keep their order.
pub proof fn law_ordering_is_stable(s: Seq<usize>, keys: Seq<i64>, i: int, j: int)
    requires
        s.no_duplicates(),
        0 <= i < j < ordered(s, keys).len(),
        keys[ordered(s, keys)[i] as int] == keys[ordered(s, keys)[j] as int],
    ensures
        s.contains(ordered(s, keys)[i]),
        s.contains(ordered(s, keys)[j]),
        s.index_of(ordered(s, keys)[i]) < s.index_of(ordered(s, keys)[j]),
    decreases s.len(),
{
    if s.len() > 0 {
        let front = s.drop_last();
        let x = s.last();
        let f = ordered(front, keys);
        let k = lemma_placed(f, keys, x);
        let r = ordered(s, keys);
        let n = s.len() - 1;
        assert(s[n] == x);
        assert(front.no_duplicates());
        assert forall|m: int| 0 <= m < f.len() implies front.contains(#[trigger] f[m]) by {
            lemma_ordered_contains(front, keys, m);
        }
        let a = if i < k {
            i
        } else {
            i - 1
        };
        let b = if j < k {
            j
        } else {
            j - 1
        };
        if i == k {
            assert(r[j] == f[b]);
            assert(keys[x as int] < keys[f[b] as int]);
        } else if j == k {
            assert(r[i] == f[a]);
            assert(front.contains(f[a]));
            lemma_index_in_front(s, f[a]);
            lemma_index_is(s, n);
        } else {
            assert(r[i] == f[a] && r[j] == f[b]);
            law_ordering_is_stable(front, keys, a, b);
            assert(front.contains(f[a]) && front.contains(f[b]));
            lemma_index_in_front(s, f[a]);
            lemma_index_in_front(s, f[b]);
        }
    }
}

proof fn lemma_ordered_contains(s: Seq<usize>, keys: Seq<i64>, m: int)
    requires
        0 <= m < ordered(s, keys).len(),
    ensures
        s.contains(ordered(s, keys)[m]),
{
    broadcast use vstd::seq_lib::group_to_multiset_ensures;

    law_ordering_sorts(s, keys);
    let x = ordered(s, keys)[m];
    assert(ordered(s, keys).contains(x));
    assert(s.to_multiset().count(x) > 0);
}

proof fn lemma_index_in_front(s: Seq<usize>, x: usize)
    requires
        s.no_duplicates(),
        s.len() > 0,
        s.drop_last().contains(x),
    ensures
        s.contains(x),
        s.index_of(x) == s.drop_last().index_of(x),
        s.index_of(x) < s.len() - 1,
{
    let front = s.drop_last();
    let i = choose|i: int| 0 <= i < front.len() && front[i] == x;
    assert(s[i] == x);
    let a = s.index_of(x);
    let b = front.index_of(x);
    assert(s.contains(x));
    assert(0 <= a < s.len() && s[a] == x);
    assert(0 <= b < front.len() && front[b] == x);
    assert(s[b] == x);
}

proof fn lemma_index_is(s: Seq<usize>, i: int)
    requires
        s.no_duplicates(),
        0 <= i < s.len(),
    ensures
        s.contains(s[i]),
        s.index_of(s[i]) == i,
{
    assert(s.contains(s[i]));
    let a = s.index_of(s[i]);
    assert(0 <= a < s.len() && s[a] == s[i]);
}


/// Items put into rows: an item joins the last row if it is near the row's
/// first item, else it begins a row.
pub open spec fn rows(s: Seq<usize>, near: spec_fn(usize, usize) -> bool) -> Seq<Seq<usize>>
    decreases s.len(),
{
    if s.len() == 0 {
        seq![]
    } else {
        with_item(rows(s.drop_last(), near), s.last(), near)
    }
}

/// Rows with one more item.
pub open spec fn with_item(
    rs: Seq<Seq<usize>>,
    x: usize,
    near: spec_fn(usize, usize) -> bool,
) -> Seq<Seq<usize>> {
    if rs.len() > 0 && near(rs.last()[0], x) {
        rs.update(rs.len() - 1, rs.last().push(x))
    } else {
        rs.push(seq![x])
    }
}

/// The contents of rows.
pub open spec fn rows_view(v: Seq<Vec<usize>>) -> Seq<Seq<usize>> {
    v.map_values(|r: Vec<usize>| r@)
}

/// Rows under way.
pub struct Rows {
    pub rows: Vec<Vec<usize>>,
}

impl Rows {
    /// No row is empty.
    pub open spec fn valid(&self) -> bool {
        forall|i: int| 0 <= i < self.rows@.len() ==> (#[trigger] self.rows@[i])@.len() > 0
    }

    /// No rows.
    pub fn new() -> (r: Rows)
        ensures
            r.valid(),
            rows_view(r.rows@) == Seq::<Seq<usize>>::empty(),
    {
        let rows: Vec<Vec<usize>> = Vec::new();
        assert(rows_view(rows@) =~= Seq::empty());
        Rows { rows }
    }

    /// The first item of the last row.
    pub fn head(&self) -> (r: Option<usize>)
        requires
            self.valid(),
        ensures
            match r {
                Some(x) => self.rows@.len() > 0 && rows_view(self.rows@).last()[0] == x,
                None => self.rows@.len() == 0,
            },
    {
        let n: usize = self.rows.len();
        if n == 0 {
            None
        } else {
            assert(self.rows@[n - 1]@.len() > 0);
            Some(self.rows[n - 1][0])
        }
    }

    /// Add an item, which is near the first item of the last row or not.
    pub fn push(&mut self, x: usize, near: bool)
        requires
            old(self).valid(),
        ensures
            final(self).valid(),
            rows_view(final(self).rows@) == with_item(
                rows_view(old(self).rows@),
                x,
                |a: usize, b: usize| near,
            ),
    {
        let n: usize = self.rows.len();
        let ghost was = self.rows@;
        if n > 0 && near {
            let mut last = self.rows.pop().unwrap();
            let ghost row = last@;
            last.push(x);
            self.rows.push(last);
            proof {
                assert(rows_view(self.rows@) =~= rows_view(was).update(n - 1, row.push(x)));
                assert forall|i: int| 0 <= i < self.rows@.len() implies (
                #[trigger] self.rows@[i])@.len() > 0 by {
                    if i < n - 1 {
                        assert(self.rows@[i] == was[i]);
                    }
                }
            }
        } else {
            let mut row: Vec<usize> = Vec::new();
            row.push(x);
            self.rows.push(row);
            assert(rows_view(self.rows@) =~= rows_view(was).push(seq![x]));
            assert forall|i: int| 0 <= i < self.rows@.len() implies (
            #[trigger] self.rows@[i])@.len() > 0 by {
                if i < n {
                    assert(self.rows@[i] == was[i]);
                }
            }
        }
    }
}

/// All rows, each sorted by key, one after the other.
pub open spec fn rows_ordered(rs: Seq<Seq<usize>>, keys: Seq<i64>) -> Seq<usize>
    decreases rs.len(),
{
    if rs.len() == 0 {
        seq![]
    } else {
        rows_ordered(rs.drop_last(), keys) + ordered(rs.last(), keys)
    }
}

/// Items in reading order: sorted by one key, put into rows, and sorted by
/// another key in each row.
pub open spec fn reading(
    s: Seq<usize>,
    down: Seq<i64>,
    across: Seq<i64>,
    near: spec_fn(usize, usize) -> bool,
) -> Seq<usize> {
    rows_ordered(rows(ordered(s, down), near), across)
}

/// Reading order keeps all items.
pub proof fn law_reading_keeps_all(
    s: Seq<usize>,
    down: Seq<i64>,
    across: Seq<i64>,
    near: spec_fn(usize, usize) -> bool,
)
    ensures
        reading(s, down, across, near).to_multiset() == s.to_multiset(),
{
    law_ordering_sorts(s, down);
    lemma_rows_keep_all(ordered(s, down), near);
    lemma_rows_ordered_keep_all(rows(ordered(s, down), near), across);
}

/// Rows one after the other.
pub open spec fn flat(rs: Seq<Seq<usize>>) -> Seq<usize>
    decreases rs.len(),
{
    if rs.len() == 0 {
        seq![]
    } else {
        flat(rs.drop_last()) + rs.last()
    }
}

pub proof fn lemma_rows_keep_all(s: Seq<usize>, near: spec_fn(usize, usize) -> bool)
    ensures
        flat(rows(s, near)) == s,
    decreases s.len(),
{
    if s.len() > 0 {
        let front = s.drop_last();
        let x = s.last();
        lemma_rows_keep_all(front, near);
        let rs = rows(front, near);
        let r = with_item(rs, x, near);
        if rs.len() > 0 && near(rs.last()[0], x) {
            assert(r.drop_last() =~= rs.drop_last());
            assert(flat(r) =~= flat(rs).push(x));
        } else {
            assert(r.drop_last() =~= rs);
            assert(flat(r) =~= flat(rs).push(x));
        }
        assert(front.push(x) =~= s);
    } else {
        assert(flat(rows(s, near)) =~= s);
    }
}

proof fn lemma_rows_ordered_keep_all(rs: Seq<Seq<usize>>, keys: Seq<i64>)
    ensures
        rows_ordered(rs, keys).to_multiset() == flat(rs).to_multiset(),
    decreases rs.len(),
{
    if rs.len() > 0 {
        let front = rs.drop_last();
        lemma_rows_ordered_keep_all(front, keys);
        law_ordering_sorts(rs.last(), keys);
        vstd::seq_lib::lemma_multiset_commutative(
            rows_ordered(front, keys),
            ordered(rs.last(), keys),
        );
        vstd::seq_lib::lemma_multiset_commutative(flat(front), rs.last());
    }
}

/// Sort each row by key and put the rows one after the other.
pub fn order_rows(rs: &Vec<Vec<usize>>, keys: &Vec<i64>) -> (r: Vec<usize>)
    requires
        forall|i: int, k: int|
            #![trigger rs@[i]@[k]]
            0 <= i < rs@.len() && 0 <= k < rs@[i]@.len() ==> rs@[i]@[k] < keys@.len(),
    ensures
        r@ == rows_ordered(rows_view(rs@), keys@),
{
    let mut out: Vec<usize> = Vec::new();
    let mut i: usize = 0;
    let ghost all = rows_view(rs@);
    assert(all.take(0) =~= Seq::empty());
    while i < rs.len()
        invariant
            i <= rs@.len(),
            all == rows_view(rs@),
            forall|i: int, k: int|
                #![trigger rs@[i]@[k]]
                0 <= i < rs@.len() && 0 <= k < rs@[i]@.len() ==> rs@[i]@[k] < keys@.len(),
            out@ == rows_ordered(all.take(i as int), keys@),
        decreases rs@.len() - i,
    {
        proof {
            assert(all.take(i + 1).drop_last() =~= all.take(i as int));
            assert(all.take(i + 1).last() == rs@[i as int]@);
        }
        let mut row = order_by(&rs[i], keys);
        out.append(&mut row);
        i += 1;
    }
    assert(all.take(i as int) =~= all);
    out
}

} // verus!
