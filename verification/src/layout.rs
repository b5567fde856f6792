//! Recognised lines laid out in a monospace grid that keeps the spacing of
//! the image: what stands side by side shares a line, what stands to the right
//! is indented, and a wide gap becomes a blank line.
//!
//! Positions are the caller's to measure. They come as keys to sort by, as
//! verdicts on what is near, and as columns.

use vstd::prelude::*;

use crate::order;
use crate::text;

verus! {

/// The largest column at which a text starts by its place.
pub const MAX_COL: usize = 200;

/// Spaces.
pub open spec fn spaces(n: nat) -> Seq<char> {
    Seq::new(n, |i: int| ' ')
}

/// How many spaces go before a text: up to its column, at least one after
/// another text.
pub open spec fn padding(col: usize, at: nat) -> nat {
    let c = if col < MAX_COL {
        col
    } else {
        MAX_COL
    };
    if c > at {
        (c - at) as nat
    } else if at > 0 {
        1
    } else {
        0
    }
}

/// The texts of a row in one line, each at its column.
pub open spec fn line(row: Seq<usize>, texts: Seq<Seq<char>>, cols: Seq<usize>) -> Seq<char>
    decreases row.len(),
{
    if row.len() == 0 {
        seq![]
    } else {
        let front = line(row.drop_last(), texts, cols);
        let x = row.last() as int;
        front + spaces(padding(cols[x], front.len())) + texts[x]
    }
}

/// The lines of rows, each with a line feed, after a blank line where there is
/// a gap.
pub open spec fn page(
    rows: Seq<Seq<usize>>,
    texts: Seq<Seq<char>>,
    cols: Seq<usize>,
    gaps: Seq<bool>,
) -> Seq<char>
    decreases rows.len(),
{
    if rows.len() == 0 {
        seq![]
    } else {
        let i = rows.len() - 1;
        let front = page(rows.drop_last(), texts, cols, gaps);
        let front = if gaps[i] {
            front.push('\n')
        } else {
            front
        };
        front + text::trim_end(line(rows.last(), texts, cols)).push('\n')
    }
}

/// The grid: the lines without the white space at the end.
pub open spec fn grid_of(
    rows: Seq<Seq<usize>>,
    texts: Seq<Seq<char>>,
    cols: Seq<usize>,
    gaps: Seq<bool>,
) -> Seq<char> {
    text::trim_end(page(rows, texts, cols, gaps))
}

/// Sort each row by key.
pub open spec fn sorted_rows(rows: Seq<Seq<usize>>, keys: Seq<i64>) -> Seq<Seq<usize>> {
    rows.map_values(|r: Seq<usize>| order::ordered(r, keys))
}

/// Rows name items below some number.
pub open spec fn within(rows: Seq<Vec<usize>>, n: int) -> bool {
    forall|i: int, k: int|
        #![trigger rows[i]@[k]]
        0 <= i < rows.len() && 0 <= k < rows[i]@.len() ==> rows[i]@[k] < n
}

/// Sort each row by key, from left to right.
pub fn sort_rows(rows: &Vec<Vec<usize>>, keys: &Vec<i64>) -> (r: Vec<Vec<usize>>)
    requires
        within(rows@, keys@.len() as int),
    ensures
        order::rows_view(r@) == sorted_rows(order::rows_view(rows@), keys@),
        within(r@, keys@.len() as int),
{
    let mut out: Vec<Vec<usize>> = Vec::new();
    let mut i: usize = 0;
    let ghost all = order::rows_view(rows@);
    let ghost f = |r: Seq<usize>| order::ordered(r, keys@);
    while i < rows.len()
        invariant
            i <= rows@.len(),
            all == order::rows_view(rows@),
            f == (|r: Seq<usize>| order::ordered(r, keys@)),
            within(rows@, keys@.len() as int),
            within(out@, keys@.len() as int),
            order::rows_view(out@) == all.take(i as int).map_values(f),
        decreases rows@.len() - i,
    {
        let ghost was = out@;
        assert forall|k: int| 0 <= k < rows@[i as int]@.len() implies (#[trigger] rows@[i as int]@[k])
            < keys@.len() by {}
        let row = order::order_by(&rows[i], keys);
        out.push(row);
        i += 1;
        proof {
            assert(all.take(i as int).map_values(f) =~= all.take(i - 1).map_values(f).push(
                f(all[i - 1]),
            ));
            assert(order::rows_view(out@) =~= order::rows_view(was).push(row@));
            assert forall|a: int, k: int|
                #![trigger out@[a]@[k]]
                0 <= a < out@.len() && 0 <= k < out@[a]@.len() implies out@[a]@[k] < keys@.len() by {
                if a < was.len() {
                    assert(out@[a] == was[a]);
                }
            }
        }
    }
    assert(all.take(i as int) =~= all);
    out
}

fn line_of(row: &Vec<usize>, texts: &Vec<String>, cols: &Vec<usize>) -> (r: Vec<char>)
    requires
        cols@.len() == texts@.len(),
        forall|k: int| 0 <= k < row@.len() ==> (#[trigger] row@[k]) < texts@.len(),
    ensures
        r@ == line(row@, text::string_views(texts@), cols@),
{
    let ghost ts = text::string_views(texts@);
    let mut out: Vec<char> = Vec::new();
    let mut k: usize = 0;
    assert(row@.take(0) =~= Seq::empty());
    while k < row.len()
        invariant
            k <= row@.len(),
            ts == text::string_views(texts@),
            cols@.len() == texts@.len(),
            forall|k: int| 0 <= k < row@.len() ==> (#[trigger] row@[k]) < texts@.len(),
            out@ == line(row@.take(k as int), ts, cols@),
        decreases row@.len() - k,
    {
        proof {
            assert(row@.take(k + 1).drop_last() =~= row@.take(k as int));
            assert(row@.take(k + 1).last() == row@[k as int]);
            assert(row@[k as int] < texts@.len());
        }
        let x: usize = row[k];
        let at: usize = out.len();
        let c: usize = if cols[x] < MAX_COL {
            cols[x]
        } else {
            MAX_COL
        };
        let pad: usize = if c > at {
            c - at
        } else if at > 0 {
            1
        } else {
            0
        };
        let ghost front = out@;
        let mut i: usize = 0;
        assert(out@ + spaces(0) =~= out@);
        while i < pad
            invariant
                i <= pad,
                out@ == front + spaces(i as nat),
            decreases pad - i,
        {
            out.push(' ');
            i += 1;
            assert(out@ =~= front + spaces(i as nat));
        }
        text::append_str(&mut out, &texts[x]);
        k += 1;
    }
    assert(row@.take(k as int) =~= row@);
    out
}

/// Lay rows of texts out in a grid. `gaps` says of each row whether a wide gap
/// stands above it.
pub fn grid(rows: &Vec<Vec<usize>>, texts: &Vec<String>, cols: &Vec<usize>, gaps: &Vec<bool>) -> (r:
    String)
    requires
        cols@.len() == texts@.len(),
        gaps@.len() == rows@.len(),
        within(rows@, texts@.len() as int),
    ensures
        r@ == grid_of(
            order::rows_view(rows@),
            text::string_views(texts@),
            cols@,
            gaps@,
        ),
{
    let ghost ts = text::string_views(texts@);
    let ghost all = order::rows_view(rows@);
    let mut out: Vec<char> = Vec::new();
    let mut i: usize = 0;
    assert(all.take(0) =~= Seq::empty());
    while i < rows.len()
        invariant
            i <= rows@.len(),
            ts == text::string_views(texts@),
            all == order::rows_view(rows@),
            cols@.len() == texts@.len(),
            gaps@.len() == rows@.len(),
            within(rows@, texts@.len() as int),
            out@ == page(all.take(i as int), ts, cols@, gaps@),
        decreases rows@.len() - i,
    {
        proof {
            assert(all.take(i + 1).drop_last() =~= all.take(i as int));
            assert(all.take(i + 1).last() == rows@[i as int]@);
        }
        if gaps[i] {
            out.push('\n');
        }
        let ghost front = out@;
        assert forall|k: int| 0 <= k < rows@[i as int]@.len() implies (#[trigger] rows@[i as int]@[k])
            < texts@.len() by {}
        let l = line_of(&rows[i], texts, cols);
        text::append(&mut out, text::trimmed_end(&l));
        out.push('\n');
        assert(out@ =~= front + text::trim_end(line(rows@[i as int]@, ts, cols@)).push('\n'));
        i += 1;
    }
    assert(all.take(i as int) =~= all);
    text::string_of(text::trimmed_end(&out))
}

/// Every text of a row stands in its line.
pub proof fn law_line_holds_every_text(
    row: Seq<usize>,
    texts: Seq<Seq<char>>,
    cols: Seq<usize>,
    k: int,
)
    requires
        0 <= k < row.len(),
    ensures
        text::occurs(line(row, texts, cols), texts[row[k] as int]),
    decreases row.len(),
{
    let front = line(row.drop_last(), texts, cols);
    let x = row.last() as int;
    let pad = spaces(padding(cols[x], front.len()));
    let whole = line(row, texts, cols);
    if k == row.len() - 1 {
        let at = (front + pad).len() as int;
        assert(whole.subrange(at, at + texts[x].len()) =~= texts[x]);
        assert(text::occurs_at(whole, texts[x], at));
    } else {
        law_line_holds_every_text(row.drop_last(), texts, cols, k);
        let t = texts[row[k] as int];
        assert(row.drop_last()[k] == row[k]);
        let i = choose|i: int| text::occurs_at(front, t, i);
        assert(whole.subrange(i, i + t.len()) =~= front.subrange(i, i + t.len()));
        assert(text::occurs_at(whole, t, i));
    }
}

/// A text starts at its column or, where the line has come further, one space
/// after the text before it; no later than that and the largest column.
pub proof fn law_column_of_a_text(row: Seq<usize>, texts: Seq<Seq<char>>, cols: Seq<usize>)
    requires
        row.len() > 0,
    ensures
        ({
            let front = line(row.drop_last(), texts, cols);
            let whole = line(row, texts, cols);
            let t = texts[row.last() as int];
            let at = whole.len() - t.len();
            &&& whole.subrange(at, whole.len() as int) == t
            &&& whole.take(front.len() as int) == front
            &&& front.len() > 0 ==> at > front.len()
            &&& at <= MAX_COL || at == front.len() + 1
            &&& cols[row.last() as int] <= MAX_COL ==> at >= cols[row.last() as int]
        }),
{
    let front = line(row.drop_last(), texts, cols);
    let whole = line(row, texts, cols);
    let t = texts[row.last() as int];
    let at = whole.len() - t.len();
    assert(whole.subrange(at, whole.len() as int) =~= t);
    assert(whole.take(front.len() as int) =~= front);
}

} // verus!
