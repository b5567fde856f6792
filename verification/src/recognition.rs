//! Recognising lines of text: the classes that a model tells apart, the runs
//! that lines are put into, and the texts that come back.

use vstd::prelude::*;

use crate::text;

verus! {

broadcast use vstd::string::group_string_axioms;

/// The classes of a dictionary: the blank one, one for each line, and the
/// space.
pub open spec fn classes(words: Seq<char>) -> Seq<Seq<char>> {
    (seq![Seq::<char>::empty()] + text::lines(words)).push(" "@)
}

/// `docling_pdf::ocr_prep::dict_chars` makes the class table of a dictionary:
/// an empty text, the lines as `str::lines` gives them, and a space.
#[verifier::external_body]
fn dict_classes(words: &str) -> (r: Vec<String>)
    ensures
        text::string_views(r@) == classes(words@),
{
    docling_pdf::ocr_prep::dict_chars(words)
}

/// The class table of a dictionary.
pub fn class_table(words: &str) -> (r: Vec<String>)
    ensures
        text::string_views(r@) == classes(words@),
{
    dict_classes(words)
}

/// At most this many lines are recognised in one run.
pub const RUN_LINES: usize = 16;

/// A run: the width of its lines, and their positions.
pub open spec fn run_view(r: (usize, Vec<usize>)) -> (usize, Seq<usize>) {
    (r.0, r.1@)
}

/// Runs by their contents.
pub open spec fn run_views(v: Seq<(usize, Vec<usize>)>) -> Seq<(usize, Seq<usize>)> {
    v.map_values(|r: (usize, Vec<usize>)| run_view(r))
}

/// The positions of some runs, one after the other.
pub open spec fn positions(runs: Seq<(usize, Seq<usize>)>) -> Seq<usize>
    decreases runs.len(),
{
    if runs.len() == 0 {
        seq![]
    } else {
        positions(runs.drop_last()) + runs.last().1
    }
}

/// One line is recognised before another: it is narrower, or as wide and
/// earlier.
pub open spec fn before(widths: Seq<usize>, a: usize, b: usize) -> bool {
    widths[a as int] < widths[b as int] || (widths[a as int] == widths[b as int] && a < b)
}

/// A run holds at least one line and not too many, all of its width.
pub open spec fn is_run(widths: Seq<usize>, run: (usize, Seq<usize>)) -> bool {
    &&& 0 < run.1.len() <= RUN_LINES
    &&& forall|k: int|
        0 <= k < run.1.len() ==> (#[trigger] run.1[k]) < widths.len() && widths[run.1[k] as int]
            == run.0
}

/// Lines in runs of equal width, the narrow ones first: every line is in a
/// run, the lines come in order, and a run is full before another with its
/// width starts.
pub open spec fn in_runs(widths: Seq<usize>, runs: Seq<(usize, Seq<usize>)>) -> bool {
    let all = positions(runs);
    &&& forall|k: int| 0 <= k < runs.len() ==> is_run(widths, #[trigger] runs[k])
    &&& forall|k: int|
        0 < k < runs.len() ==> (#[trigger] runs[k]).0 > runs[k - 1].0 || runs[k - 1].1.len()
            == RUN_LINES
    &&& forall|i: usize| i < widths.len() ==> #[trigger] all.contains(i)
    &&& forall|i: int, j: int|
        0 <= i < j < all.len() ==> before(widths, #[trigger] all[i], #[trigger] all[j])
}

/// `docling_pdf::ocr_prep::width_batches` groups lines by their exact width,
/// the widths ascending and each group in the order of its lines, and cuts
/// every group into chunks of 16. Of a prepared line it reads the width alone.
#[verifier::external_body]
fn width_runs(widths: &Vec<usize>) -> (r: Vec<(usize, Vec<usize>)>)
    ensures
        in_runs(widths@, run_views(r@)),
{
    let line = |w: &usize| docling_pdf::ocr_prep::PrepLine { w: *w, data: Vec::new() };
    let lines: Vec<docling_pdf::ocr_prep::PrepLine> = widths.iter().map(line).collect();
    docling_pdf::ocr_prep::width_batches(&lines)
}

/// The runs in which lines of some widths are recognised.
pub fn runs(widths: &Vec<usize>) -> (r: Vec<(usize, Vec<usize>)>)
    ensures
        in_runs(widths@, run_views(r@)),
{
    width_runs(widths)
}

/// Texts put at their positions among others.
pub open spec fn spread(
    texts: Seq<Seq<char>>,
    at: Seq<usize>,
    read: Seq<Seq<char>>,
) -> Seq<Seq<char>>
    decreases at.len(),
{
    if at.len() == 0 {
        texts
    } else {
        spread(texts, at.drop_last(), read.drop_last()).update(at.last() as int, read.last())
    }
}

/// Put the texts of a run at the positions of its lines.
pub fn put_texts(texts: &mut Vec<String>, at: &Vec<usize>, read: &Vec<String>)
    requires
        at@.len() == read@.len(),
        forall|k: int| 0 <= k < at@.len() ==> (#[trigger] at@[k]) < old(texts)@.len(),
    ensures
        text::string_views(final(texts)@) == spread(
            text::string_views(old(texts)@),
            at@,
            text::string_views(read@),
        ),
{
    let ghost was = text::string_views(texts@);
    let ghost rs = text::string_views(read@);
    let mut k: usize = 0;
    assert(at@.take(0) =~= Seq::empty());
    while k < at.len()
        invariant
            k <= at@.len(),
            at@.len() == read@.len(),
            rs == text::string_views(read@),
            texts@.len() == was.len(),
            forall|k: int| 0 <= k < at@.len() ==> (#[trigger] at@[k]) < was.len(),
            text::string_views(texts@) == spread(was, at@.take(k as int), rs.take(k as int)),
        decreases at@.len() - k,
    {
        let ghost had = text::string_views(texts@);
        proof {
            assert(at@.take(k + 1).drop_last() =~= at@.take(k as int));
            assert(rs.take(k + 1).drop_last() =~= rs.take(k as int));
            assert(at@[k as int] < was.len());
        }
        let i: usize = at[k];
        texts.set(i, read[k].clone());
        assert(text::string_views(texts@) =~= had.update(i as int, rs[k as int]));
        k += 1;
    }
    assert(at@.take(k as int) =~= at@);
    assert(rs.take(k as int) =~= rs);
}

/// The texts of all lines after some runs, where `read` has the texts of each.
pub open spec fn collected(
    n: nat,
    runs: Seq<(usize, Seq<usize>)>,
    read: Seq<Seq<Seq<char>>>,
) -> Seq<Seq<char>>
    decreases runs.len(),
{
    if runs.len() == 0 {
        Seq::new(n, |i: int| Seq::<char>::empty())
    } else {
        spread(collected(n, runs.drop_last(), read.drop_last()), runs.last().1, read.last())
    }
}

proof fn lemma_spread(texts: Seq<Seq<char>>, at: Seq<usize>, read: Seq<Seq<char>>)
    requires
        at.len() == read.len(),
        at.no_duplicates(),
        forall|k: int| 0 <= k < at.len() ==> (#[trigger] at[k]) < texts.len(),
    ensures
        spread(texts, at, read).len() == texts.len(),
        forall|k: int|
            0 <= k < at.len() ==> spread(texts, at, read)[(#[trigger] at[k]) as int] == read[k],
        forall|i: usize|
            i < texts.len() && !at.contains(i) ==> #[trigger] spread(texts, at, read)[i as int]
                == texts[i as int],
    decreases at.len(),
{
    if at.len() > 0 {
        let front = at.drop_last();
        let n = at.len() - 1;
        lemma_spread(texts, front, read.drop_last());
        let s = spread(texts, at, read);
        let before = spread(texts, front, read.drop_last());
        assert(s == before.update(at[n] as int, read[n]));
        assert forall|k: int| 0 <= k < at.len() implies s[(#[trigger] at[k]) as int] == read[k] by {
            if k < n {
                assert(front[k] == at[k]);
                assert(at[k] != at[n]);
            }
        }
        assert forall|i: usize| i < texts.len() && !at.contains(i) implies #[trigger] s[i as int]
            == texts[i as int] by {
            assert(at[n] != i);
            if front.contains(i) {
                let k = choose|k: int| 0 <= k < front.len() && front[k] == i;
                assert(at[k] == i);
            }
            assert(before[i as int] == texts[i as int]);
        }
    }
}

/// Where a line of a run stands among the lines of all runs.
proof fn lemma_position(runs: Seq<(usize, Seq<usize>)>, k: int, j: int) -> (p: int)
    requires
        0 <= k < runs.len(),
        0 <= j < runs[k].1.len(),
    ensures
        0 <= p < positions(runs).len(),
        positions(runs)[p] == runs[k].1[j],
        k < runs.len() - 1 ==> p < positions(runs.drop_last()).len(),
        k == runs.len() - 1 ==> p == positions(runs.drop_last()).len() + j,
    decreases runs.len(),
{
    let front = runs.drop_last();
    if k < runs.len() - 1 {
        assert(front[k] == runs[k]);
        lemma_position(front, k, j)
    } else {
        positions(front).len() + j
    }
}

/// Every line of the runs is at some place of a run.
proof fn lemma_run_of(runs: Seq<(usize, Seq<usize>)>, p: int) -> (at: (int, int))
    requires
        0 <= p < positions(runs).len(),
    ensures
        0 <= at.0 < runs.len(),
        0 <= at.1 < runs[at.0].1.len(),
        runs[at.0].1[at.1] == positions(runs)[p],
    decreases runs.len(),
{
    let front = runs.drop_last();
    if p < positions(front).len() {
        let at = lemma_run_of(front, p);
        assert(front[at.0] == runs[at.0]);
        at
    } else {
        (runs.len() - 1, p - positions(front).len())
    }
}

proof fn lemma_collected(
    n: nat,
    runs: Seq<(usize, Seq<usize>)>,
    read: Seq<Seq<Seq<char>>>,
)
    requires
        read.len() == runs.len(),
        forall|k: int| 0 <= k < runs.len() ==> (#[trigger] runs[k]).1.len() == read[k].len(),
        positions(runs).no_duplicates(),
        forall|p: int| 0 <= p < positions(runs).len() ==> (#[trigger] positions(runs)[p]) < n,
    ensures
        collected(n, runs, read).len() == n,
        forall|k: int, j: int|
            #![trigger runs[k].1[j]]
            0 <= k < runs.len() && 0 <= j < runs[k].1.len() ==> collected(
                n,
                runs,
                read,
            )[runs[k].1[j] as int] == read[k][j],
    decreases runs.len(),
{
    if runs.len() > 0 {
        let front = runs.drop_last();
        let shorter = read.drop_last();
        let last = runs.last().1;
        let m = runs.len() - 1;
        let ps = positions(front);
        let all = positions(runs);
        assert forall|k: int| 0 <= k < front.len() implies (#[trigger] front[k]).1.len()
            == shorter[k].len() by {
            assert(runs[k].1.len() == read[k].len());
        }
        assert forall|p: int| 0 <= p < ps.len() implies (#[trigger] ps[p]) < n by {
            assert(all[p] == ps[p]);
        }
        assert(ps.no_duplicates()) by {
            assert forall|a: int, b: int| 0 <= a < ps.len() && 0 <= b < ps.len() && a != b implies
                ps[a] != ps[b] by {
                assert(all[a] == ps[a] && all[b] == ps[b]);
            }
        }
        assert forall|j: int| 0 <= j < last.len() implies all[ps.len() + j] == #[trigger] last[j] by {}
        assert(last.no_duplicates()) by {
            assert forall|a: int, b: int|
                0 <= a < last.len() && 0 <= b < last.len() && a != b implies last[a] != last[b] by {
                assert(all[ps.len() + a] == last[a] && all[ps.len() + b] == last[b]);
            }
        }
        lemma_collected(n, front, shorter);
        let texts = collected(n, front, shorter);
        assert(runs[m].1.len() == read[m].len());
        assert forall|j: int| 0 <= j < last.len() implies (#[trigger] last[j]) < texts.len() by {
            assert(all[ps.len() + j] == last[j]);
        }
        lemma_spread(texts, last, read.last());
        assert forall|k: int, j: int|
            #![trigger runs[k].1[j]]
            0 <= k < runs.len() && 0 <= j < runs[k].1.len() implies collected(
            n,
            runs,
            read,
        )[runs[k].1[j] as int] == read[k][j] by {
            if k < m {
                assert(front[k] == runs[k]);
                assert(texts[front[k].1[j] as int] == shorter[k][j]);
                let p = lemma_position(runs, k, j);
                let i = runs[k].1[j];
                if last.contains(i) {
                    let b = choose|b: int| 0 <= b < last.len() && last[b] == i;
                    assert(all[ps.len() + b] == last[b]);
                }
                assert(all[p] < n);
            } else {
                assert(last[j] == runs[k].1[j]);
            }
        }
    }
}

/// A line is in some run.
pub open spec fn in_a_run(runs: Seq<(usize, Seq<usize>)>, i: usize) -> bool {
    exists|k: int, j: int|
        0 <= k < runs.len() && 0 <= j < runs[k].1.len() && #[trigger] runs[k].1[j] == i
}

/// Every line gets the text that its run gave for it, and is in one run.
pub proof fn law_every_line_gets_its_text(
    widths: Seq<usize>,
    runs: Seq<(usize, Seq<usize>)>,
    read: Seq<Seq<Seq<char>>>,
)
    requires
        widths.len() <= usize::MAX,
        in_runs(widths, runs),
        read.len() == runs.len(),
        forall|k: int| 0 <= k < runs.len() ==> (#[trigger] runs[k]).1.len() == read[k].len(),
    ensures
        collected(widths.len(), runs, read).len() == widths.len(),
        forall|k: int, j: int|
            #![trigger runs[k].1[j]]
            0 <= k < runs.len() && 0 <= j < runs[k].1.len() ==> runs[k].1[j] < widths.len()
                && collected(widths.len(), runs, read)[runs[k].1[j] as int] == read[k][j],
        forall|i: usize| i < widths.len() ==> #[trigger] in_a_run(runs, i),
{
    let all = positions(runs);
    assert forall|p: int| 0 <= p < all.len() implies (#[trigger] all[p]) < widths.len() by {
        let (k, j) = lemma_run_of(runs, p);
        assert(is_run(widths, runs[k]));
        assert(runs[k].1[j] < widths.len());
    }
    assert(all.no_duplicates()) by {
        assert forall|a: int, b: int| 0 <= a < all.len() && 0 <= b < all.len() && a != b implies
            all[a] != all[b] by {
            if a < b {
                assert(before(widths, all[a], all[b]));
            } else {
                assert(before(widths, all[b], all[a]));
            }
        }
    }
    lemma_collected(widths.len(), runs, read);
    assert forall|k: int, j: int|
        #![trigger runs[k].1[j]]
        0 <= k < runs.len() && 0 <= j < runs[k].1.len() implies runs[k].1[j] < widths.len() by {
        assert(is_run(widths, runs[k]));
    }
    assert forall|i: usize| i < widths.len() implies #[trigger] in_a_run(runs, i) by {
        assert(all.contains(i));
        let p = choose|p: int| 0 <= p < all.len() && all[p] == i;
        let (k, j) = lemma_run_of(runs, p);
        assert(runs[k].1[j] == i);
    }
}

} // verus!
