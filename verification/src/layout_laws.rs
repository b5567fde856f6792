//! What the grid keeps of an image, and what rows, boxes and reading order are.

use vstd::prelude::*;

use crate::det;
use crate::det::{Component, DetBox};
use crate::layout;
use crate::layout::MAX_COL;
use crate::order;
use crate::text;
use crate::text_laws;

verus! {

/// A text starts at the first column that is not before its own, nor before
/// the largest that counts, and that leaves a space after the text before it.
/// What stands between the two is spaces.
pub proof fn law_texts_start_at_their_columns(
    row: Seq<usize>,
    texts: Seq<Seq<char>>,
    cols: Seq<usize>,
    x: usize,
)
    ensures
        ({
            let front = layout::line(row, texts, cols);
            let whole = layout::line(row.push(x), texts, cols);
            let at = whole.len() - texts[x as int].len();
            let col = if cols[x as int] > 200 {
                200
            } else {
                cols[x as int] as int
            };
            &&& front.len() <= at
            &&& whole.take(front.len() as int) == front
            &&& whole.skip(at) == texts[x as int]
            &&& forall|k: int| front.len() <= k < at ==> #[trigger] whole[k] == ' '
            &&& at >= col
            &&& front.len() > 0 ==> at > front.len()
            &&& at == col || at == front.len() + 1 || at == 0
            &&& at > col ==> at == front.len() + 1
        }),
        layout::line(Seq::<usize>::empty(), texts, cols).len() == 0,
{
    let front = layout::line(row, texts, cols);
    let whole = layout::line(row.push(x), texts, cols);
    assert(row.push(x).drop_last() =~= row);
    assert(row.push(x).last() == x);
    let at = whole.len() - texts[x as int].len();
    assert(whole.take(front.len() as int) =~= front);
    assert(whole.skip(at) =~= texts[x as int]);
}

/// The lines of a page: for each row an empty line where a gap stands above
/// it, and then its texts without the white space behind them.
pub open spec fn is_page(
    rows: Seq<Seq<usize>>,
    texts: Seq<Seq<char>>,
    cols: Seq<usize>,
    gaps: Seq<bool>,
    lines: Seq<Seq<char>>,
) -> bool
    decreases rows.len(),
{
    if rows.len() == 0 {
        lines.len() == 0
    } else {
        let n = lines.len() as int;
        let i = rows.len() - 1;
        let above = if gaps[i] {
            n - 2
        } else {
            n - 1
        };
        &&& above >= 0
        &&& text_laws::is_end_trimmed(layout::line(rows[i], texts, cols), lines[n - 1])
        &&& gaps[i] ==> lines[n - 2].len() == 0
        &&& is_page(rows.drop_last(), texts, cols, gaps, lines.take(above))
    }
}

proof fn lemma_split_push(s: Seq<char>, l: Seq<char>, before: Seq<Seq<char>>)
    requires
        text::split(s, '\n') == before.push(seq![]),
        text::lacks(l, '\n'),
    ensures
        text::split(s + l.push('\n'), '\n') == before.push(l).push(seq![]),
    decreases s.len(),
{
    text::lemma_index_of(s, '\n');
    let i = text::index_of(s, '\n');
    let whole = s + l.push('\n');
    if i < s.len() {
        let rest = s.skip(i + 1);
        assert(text::split(s, '\n') == seq![s.take(i)] + text::split(rest, '\n'));
        text_laws::law_splitting_loses_nothing(rest, '\n');
        assert(before.len() > 0);
        let tail = before.skip(1);
        assert(text::split(rest, '\n') =~= tail.push(seq![])) by {
            assert(before.push(Seq::<char>::empty()).skip(1) =~= tail.push(seq![]));
            assert((seq![s.take(i)] + text::split(rest, '\n')).skip(1) =~= text::split(rest, '\n'));
        }
        lemma_split_push(rest, l, tail);
        assert forall|k: int| 0 <= k < i implies whole[k] != '\n' by {
            assert(whole[k] == s[k]);
        }
        assert(whole[i] == s[i]);
        text::lemma_index_of_is(whole, '\n', i);
        assert(whole.take(i) =~= s.take(i));
        assert(whole.skip(i + 1) =~= rest + l.push('\n'));
        assert(before[0] == s.take(i)) by {
            assert((seq![s.take(i)] + text::split(rest, '\n'))[0] == s.take(i));
            assert(before.push(Seq::<char>::empty())[0] == before[0]);
        }
        assert(seq![s.take(i)] + tail.push(l).push(seq![]) =~= before.push(l).push(seq![]));
    } else {
        assert(text::split(s, '\n') == seq![s]);
        assert(before.len() == 0) by {
            assert(seq![s].len() == 1);
            assert(before.push(Seq::<char>::empty()).len() == before.len() + 1);
        }
        assert(s =~= Seq::<char>::empty()) by {
            assert(seq![s][0] == s);
            assert(before.push(Seq::<char>::empty())[0] == Seq::<char>::empty());
        }
        assert(whole =~= l.push('\n'));
        let n = l.len() as int;
        assert forall|k: int| 0 <= k < n implies whole[k] != '\n' by {
            assert(whole[k] == l[k]);
        }
        text::lemma_index_of_is(whole, '\n', n);
        assert(whole.take(n) =~= l);
        assert(whole.skip(n + 1) =~= Seq::<char>::empty());
        let none = Seq::<char>::empty();
        text::lemma_index_of_is(none, '\n', 0);
        assert(text::split(none, '\n') == seq![none]);
        assert(seq![l] + seq![none] =~= before.push(l).push(seq![]));
    }
}

proof fn lemma_line_lacks(row: Seq<usize>, texts: Seq<Seq<char>>, cols: Seq<usize>)
    requires
        forall|k: int| 0 <= k < row.len() ==> text::lacks(texts[(#[trigger] row[k]) as int], '\n'),
    ensures
        text::lacks(layout::line(row, texts, cols), '\n'),
    decreases row.len(),
{
    if row.len() > 0 {
        let before = row.drop_last();
        assert forall|k: int| 0 <= k < before.len() implies text::lacks(
            texts[(#[trigger] before[k]) as int],
            '\n',
        ) by {
            assert(before[k] == row[k]);
        }
        lemma_line_lacks(before, texts, cols);
        let front = layout::line(before, texts, cols);
        let x = row.last() as int;
        let pad = layout::spaces(layout::padding(cols[x], front.len()));
        let whole = layout::line(row, texts, cols);
        assert(text::lacks(texts[row[row.len() - 1] as int], '\n'));
        assert forall|k: int| 0 <= k < whole.len() implies whole[k] != '\n' by {
            if k < front.len() {
                assert(whole[k] == front[k]);
            } else if k >= front.len() + pad.len() {
                assert(whole[k] == texts[x][k - front.len() - pad.len()]);
            }
        }
    }
}

/// The lines of rows, as a page has them.
spec fn page_lines(
    rows: Seq<Seq<usize>>,
    texts: Seq<Seq<char>>,
    cols: Seq<usize>,
    gaps: Seq<bool>,
) -> Seq<Seq<char>>
    decreases rows.len(),
{
    if rows.len() == 0 {
        seq![]
    } else {
        let front = page_lines(rows.drop_last(), texts, cols, gaps);
        let front = if gaps[rows.len() - 1] {
            front.push(seq![])
        } else {
            front
        };
        front.push(text::trim_end(layout::line(rows.last(), texts, cols)))
    }
}

proof fn lemma_page(
    rows: Seq<Seq<usize>>,
    texts: Seq<Seq<char>>,
    cols: Seq<usize>,
    gaps: Seq<bool>,
)
    requires
        forall|i: int, k: int|
            #![trigger rows[i][k]]
            0 <= i < rows.len() && 0 <= k < rows[i].len() ==> text::lacks(
                texts[rows[i][k] as int],
                '\n',
            ),
    ensures
        text::split(layout::page(rows, texts, cols, gaps), '\n') == page_lines(
            rows,
            texts,
            cols,
            gaps,
        ).push(seq![]),
        is_page(rows, texts, cols, gaps, page_lines(rows, texts, cols, gaps)),
    decreases rows.len(),
{
    let page = layout::page(rows, texts, cols, gaps);
    if rows.len() == 0 {
        text::lemma_index_of_is(page, '\n', 0);
        assert(page =~= Seq::<char>::empty());
        assert(text::split(page, '\n') =~= Seq::<Seq<char>>::empty().push(seq![]));
    } else {
        let before = rows.drop_last();
        let i = rows.len() - 1;
        assert forall|a: int, k: int|
            #![trigger before[a][k]]
            0 <= a < before.len() && 0 <= k < before[a].len() implies text::lacks(
            texts[before[a][k] as int],
            '\n',
        ) by {
            assert(before[a] == rows[a]);
            assert(rows[a][k] == before[a][k]);
        }
        lemma_page(before, texts, cols, gaps);
        let front = layout::page(before, texts, cols, gaps);
        let had = page_lines(before, texts, cols, gaps);
        let row = rows.last();
        assert forall|k: int| 0 <= k < row.len() implies text::lacks(
            texts[(#[trigger] row[k]) as int],
            '\n',
        ) by {
            assert(rows[i][k] == row[k]);
        }
        lemma_line_lacks(row, texts, cols);
        let line = layout::line(row, texts, cols);
        let shown = text::trim_end(line);
        text_laws::law_trimming_the_end(line);
        assert(text::lacks(shown, '\n')) by {
            assert forall|k: int| 0 <= k < shown.len() implies shown[k] != '\n' by {
                assert(line.subrange(0, shown.len() as int)[k] == shown[k]);
            }
        }
        let all = page_lines(rows, texts, cols, gaps);
        if gaps[i] {
            let none = Seq::<char>::empty();
            lemma_split_push(front, none, had);
            assert(front + none.push('\n') =~= front.push('\n'));
            lemma_split_push(front.push('\n'), shown, had.push(none));
            assert(all.take(all.len() - 2) =~= had);
            assert(all[all.len() - 2] == none);
        } else {
            lemma_split_push(front, shown, had);
            assert(all.take(all.len() - 1) =~= had);
        }
        assert(all[all.len() - 1] == shown);
        assert(rows[i] == row);
    }
}

/// Each row of boxes is a line of its own, and a wide gap above it an empty
/// line. Nothing else stands on the page, and the grid is the page without the
/// white space behind it.
pub proof fn law_rows_are_lines(
    rows: Seq<Seq<usize>>,
    texts: Seq<Seq<char>>,
    cols: Seq<usize>,
    gaps: Seq<bool>,
)
    requires
        forall|i: int, k: int|
            #![trigger rows[i][k]]
            0 <= i < rows.len() && 0 <= k < rows[i].len() ==> text::lacks(
                texts[rows[i][k] as int],
                '\n',
            ),
    ensures
        ({
            let page = layout::page(rows, texts, cols, gaps);
            let lines = text::split(page, '\n');
            &&& lines.len() > 0
            &&& lines.last().len() == 0
            &&& is_page(rows, texts, cols, gaps, lines.drop_last())
            &&& text_laws::is_end_trimmed(page, layout::grid_of(rows, texts, cols, gaps))
        }),
{
    lemma_page(rows, texts, cols, gaps);
    let page = layout::page(rows, texts, cols, gaps);
    let had = page_lines(rows, texts, cols, gaps);
    assert(had.push(Seq::<char>::empty()).drop_last() =~= had);
    text_laws::law_trimming_the_end(page);
}

/// Rows hold all items in the order in which they came. In a row all are near
/// the first; the first of a row is not near the first of the row before it.
pub proof fn law_rows(s: Seq<usize>, near: spec_fn(usize, usize) -> bool)
    ensures
        order::flat(order::rows(s, near)) == s,
        forall|i: int| 0 <= i < order::rows(s, near).len() ==> (#[trigger] order::rows(s, near)[i]).len() > 0,
        forall|i: int, k: int|
            #![trigger order::rows(s, near)[i][k]]
            0 <= i < order::rows(s, near).len() && 0 < k < order::rows(s, near)[i].len() ==> near(
                order::rows(s, near)[i][0],
                order::rows(s, near)[i][k],
            ),
        forall|i: int|
            0 < i < order::rows(s, near).len() ==> !near(
                order::rows(s, near)[i - 1][0],
                (#[trigger] order::rows(s, near)[i])[0],
            ),
    decreases s.len(),
{
    order::lemma_rows_keep_all(s, near);
    if s.len() > 0 {
        law_rows(s.drop_last(), near);
        let rs = order::rows(s.drop_last(), near);
        let x = s.last();
        let all = order::rows(s, near);
        let n = rs.len() as int;
        if n > 0 && near(rs.last()[0], x) {
            assert(all == rs.update(n - 1, rs.last().push(x)));
            assert forall|i: int| 0 <= i < all.len() implies (#[trigger] all[i]).len() > 0
                && all[i][0] == rs[i][0] by {
                assert(rs[i].len() > 0);
            }
            assert forall|i: int, k: int|
                #![trigger all[i][k]]
                0 <= i < all.len() && 0 < k < all[i].len() implies near(all[i][0], all[i][k]) by {
                assert(rs[i].len() > 0);
                if k < rs[i].len() {
                    assert(all[i][k] == rs[i][k]);
                }
            }
            assert forall|i: int| 0 < i < all.len() implies !near(
                all[i - 1][0],
                (#[trigger] all[i])[0],
            ) by {
                assert(rs[i].len() > 0 && rs[i - 1].len() > 0);
                assert(!near(rs[i - 1][0], rs[i][0]));
            }
        } else {
            assert(all == rs.push(seq![x]));
            assert forall|i: int| 0 <= i < all.len() implies (#[trigger] all[i]).len() > 0 by {
                if i < n {
                    assert(all[i] == rs[i]);
                }
            }
            assert forall|i: int, k: int|
                #![trigger all[i][k]]
                0 <= i < all.len() && 0 < k < all[i].len() implies near(all[i][0], all[i][k]) by {
                if i < n {
                    assert(all[i] == rs[i]);
                    assert(rs[i][k] == all[i][k]);
                }
            }
            assert forall|i: int| 0 < i < all.len() implies !near(
                all[i - 1][0],
                (#[trigger] all[i])[0],
            ) by {
                if i < n {
                    assert(all[i] == rs[i] && all[i - 1] == rs[i - 1]);
                    assert(!near(rs[i - 1][0], rs[i][0]));
                }
            }
        }
    }
}

/// Sorting rows keeps the rows and what is in each, from left to right.
pub proof fn law_sorted_rows(rows: Seq<Seq<usize>>, keys: Seq<i64>, i: int)
    requires
        0 <= i < rows.len(),
    ensures
        layout::sorted_rows(rows, keys).len() == rows.len(),
        layout::sorted_rows(rows, keys)[i].to_multiset() == rows[i].to_multiset(),
        order::in_order(layout::sorted_rows(rows, keys)[i], keys),
{
    order::law_ordering_sorts(rows[i], keys);
}

/// Rows that are sorted one by one and put one after the other.
pub proof fn law_rows_follow_each_other(rs: Seq<Seq<usize>>, row: Seq<usize>, keys: Seq<i64>)
    ensures
        order::rows_ordered(rs.push(row), keys) == order::rows_ordered(rs, keys) + order::ordered(
            row,
            keys,
        ),
        order::rows_ordered(Seq::<Seq<usize>>::empty(), keys).len() == 0,
{
    assert(rs.push(row).drop_last() =~= rs);
}

/// Two pixels touch where one step to the side or one up or down leads from
/// the one to the other.
pub proof fn law_touching_pixels(w: int, x: int, y: int, u: int, v: int)
    requires
        0 <= x < w,
        0 <= u < w,
        0 <= y,
        0 <= v,
    ensures
        det::adjacent(w, y * w + x, v * w + u) <==> (y == v && (x - u == 1 || u - x == 1)) || (x
            == u && (y - v == 1 || v - y == 1)),
{
    vstd::arithmetic::div_mod::lemma_fundamental_div_mod_converse(y * w + x, w, y, x);
    vstd::arithmetic::div_mod::lemma_fundamental_div_mod_converse(v * w + u, w, v, u);
}

/// A box grows on each side by three quarters of its area over the sum of its
/// width and height, to the nearest pixel.
pub proof fn law_growth(bw: int, bh: int)
    requires
        0 <= bw,
        0 <= bh,
        0 < bw + bh,
    ensures
        ({
            let d = det::growth(bw, bh);
            let exact = 6 * bw * bh;
            &&& d >= 0
            &&& 8 * (bw + bh) * d <= exact + 4 * (bw + bh)
            &&& exact + 4 * (bw + bh) < 8 * (bw + bh) * d + 8 * (bw + bh)
        }),
{
    let n = 6 * bw * bh + 4 * (bw + bh);
    let m = 8 * (bw + bh);
    assert(0 <= 6 * bw * bh) by (nonlinear_arith)
        requires
            0 <= bw,
            0 <= bh,
    ;
    vstd::arithmetic::div_mod::lemma_fundamental_div_mod(n, m);
    vstd::arithmetic::div_mod::lemma_mod_bound(n, m);
    assert(n / m >= 0) by (nonlinear_arith)
        requires
            n >= 0,
            m > 0,
    ;
}

/// A box on a map that has grown holds the box and stays on the map; away from
/// the edges it grows alike on all sides.
pub proof fn law_grown_boxes(bx: DetBox, w: u32, h: u32)
    requires
        bx.0 <= bx.2 <= w,
        bx.1 <= bx.3 <= h,
        3 * (bx.2 - bx.0) * (bx.3 - bx.1) < 0x100_0000,
    ensures
        ({
            let g = det::grown(bx, w, h);
            let d = det::growth(bx.2 - bx.0, bx.3 - bx.1);
            &&& g.0 <= bx.0 && g.1 <= bx.1 && bx.2 <= g.2 <= w && bx.3 <= g.3 <= h
            &&& g.0 == bx.0 - d || (g.0 == 0 && bx.0 <= d)
            &&& g.1 == bx.1 - d || (g.1 == 0 && bx.1 <= d)
            &&& g.2 == bx.2 + d || (g.2 == w && bx.2 + d >= w)
            &&& g.3 == bx.3 + d || (g.3 == h && bx.3 + d >= h)
        }),
{
    if bx.2 - bx.0 + bx.3 - bx.1 > 0 {
        law_growth(bx.2 - bx.0, bx.3 - bx.1);
    }
}

/// A group gives a box where it has at least ten pixels, is at least three
/// wide and three high and is probable enough; the boxes keep the order of
/// their groups.
pub proof fn law_groups_give_boxes(
    cs: Seq<Component>,
    c: Component,
    strong: Seq<bool>,
    w: u32,
    h: u32,
)
    ensures
        ({
            let front = det::boxes(cs, strong, w, h);
            let all = det::boxes(cs.push(c), strong, w, h);
            if c.pixels@.len() >= 10 && c.r - c.l >= 3 && c.b - c.t >= 3 && strong[cs.len() as int] {
                all == front.push(det::grown((c.l as u32, c.t as u32, c.r as u32, c.b as u32), w, h))
            } else {
                all == front
            }
        }),
        det::boxes(Seq::<Component>::empty(), strong, w, h).len() == 0,
{
    assert(cs.push(c).drop_last() =~= cs);
}

/// A box is on the row of another where their centres are nearer to each other
/// than half the height of the other.
pub proof fn law_same_row(head: DetBox, b: DetBox)
    requires
        head.1 <= head.3,
    ensures
        ({
            let apart = (b.1 + b.3) - (head.1 + head.3);
            det::in_row(head, b) <==> -(head.3 - head.1) < apart && apart < head.3 - head.1
        }),
{
}

/// Boxes are read from top to bottom and in each row from left to right, and
/// none is lost.
pub proof fn law_boxes_in_reading_order(bs: Seq<DetBox>, i: int)
    requires
        0 <= i < bs.len(),
        bs.len() <= usize::MAX,
    ensures
        ({
            let near = |a: usize, b: usize| det::in_row(bs[a as int], bs[b as int]);
            let down = det::down_keys(bs);
            let across = det::across_keys(bs);
            &&& down[i] == ((bs[i].1 + bs[i].3) / 2) as i64
            &&& across[i] == bs[i].0 as i64
            &&& det::box_order(bs) == order::rows_ordered(
                order::rows(order::ordered(det::positions(bs.len()), down), near),
                across,
            )
            &&& det::positions(bs.len()).len() == bs.len()
            &&& det::positions(bs.len())[i] == i
            &&& det::box_order(bs).to_multiset() == det::positions(bs.len()).to_multiset()
        }),
{
    let near = |a: usize, b: usize| det::in_row(bs[a as int], bs[b as int]);
    order::law_reading_keeps_all(
        det::positions(bs.len()),
        det::down_keys(bs),
        det::across_keys(bs),
        near,
    );
}

} // verus!
