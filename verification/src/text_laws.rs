//! What trimming, lines, numbers and searching mean.

use vstd::prelude::*;

use crate::text;

verus! {

/// A text stands at `at` in another, with nothing but white space around it.
pub open spec fn surrounded_at(s: Seq<char>, inner: Seq<char>, at: int) -> bool {
    &&& 0 <= at
    &&& at + inner.len() <= s.len()
    &&& s.subrange(at, at + inner.len()) == inner
    &&& forall|i: int| 0 <= i < at ==> text::is_white(#[trigger] s[i])
    &&& forall|i: int| at + inner.len() <= i < s.len() ==> text::is_white(#[trigger] s[i])
}

/// A text with white space at neither end.
pub open spec fn bare(s: Seq<char>) -> bool {
    s.len() > 0 ==> !text::is_white(s[0]) && !text::is_white(s[s.len() - 1])
}

/// A text is another without the white space around it: all that was taken
/// away is white space, and none is left at either end.
pub open spec fn is_trimmed(s: Seq<char>, inner: Seq<char>) -> bool {
    &&& bare(inner)
    &&& exists|at: int| surrounded_at(s, inner, at)
}

/// A text is another without the white space behind it.
pub open spec fn is_end_trimmed(s: Seq<char>, inner: Seq<char>) -> bool {
    &&& inner.len() > 0 ==> !text::is_white(inner[inner.len() - 1])
    &&& surrounded_at(s, inner, 0)
}

/// Trimming the end takes white space alone, and all of it.
pub proof fn law_trimming_the_end(s: Seq<char>)
    ensures
        is_end_trimmed(s, text::trim_end(s)),
    decreases s.len(),
{
    if s.len() > 0 && text::is_white(s.last()) {
        let front = s.drop_last();
        law_trimming_the_end(front);
        let inner = text::trim_end(front);
        assert(s.subrange(0, inner.len() as int) =~= front.subrange(0, inner.len() as int));
        assert forall|i: int| inner.len() <= i < s.len() implies text::is_white(
            #[trigger] s[i],
        ) by {
            if i < front.len() {
                assert(front[i] == s[i]);
            }
        }
        assert forall|i: int| 0 <= i < 0 implies text::is_white(#[trigger] s[i]) by {}
    } else {
        assert(s.subrange(0, s.len() as int) =~= s);
    }
}

/// Trimming the front takes white space alone, and all of it.
pub proof fn law_trimming_the_front(s: Seq<char>)
    ensures
        ({
            let inner = text::trim_start(s);
            &&& inner.len() > 0 ==> !text::is_white(inner[0])
            &&& inner.len() <= s.len()
            &&& surrounded_at(s, inner, s.len() - inner.len())
        }),
    decreases s.len(),
{
    if s.len() > 0 && text::is_white(s[0]) {
        let rest = s.skip(1);
        law_trimming_the_front(rest);
        let inner = text::trim_start(rest);
        let at = s.len() - inner.len();
        assert(s.subrange(at, at + inner.len()) =~= rest.subrange(at - 1, at - 1 + inner.len()));
        assert forall|i: int| 0 <= i < at implies text::is_white(#[trigger] s[i]) by {
            if i > 0 {
                assert(rest[i - 1] == s[i]);
            }
        }
    } else {
        assert(s.subrange(0, s.len() as int) =~= s);
    }
}

/// Trimming takes the white space around a text, all of it and nothing else.
pub proof fn law_trimming(s: Seq<char>)
    ensures
        is_trimmed(s, text::trim(s)),
        text::trim(s).len() == 0 <==> text::blank(s),
{
    law_trimming_the_front(s);
    let mid = text::trim_start(s);
    law_trimming_the_end(mid);
    let inner = text::trim(s);
    let at = s.len() - mid.len();
    assert(s.subrange(at, at + inner.len()) =~= inner) by {
        assert forall|k: int| 0 <= k < inner.len() implies s[at + k] == inner[k] by {
            assert(s.subrange(at, at + mid.len())[k] == mid[k]);
            assert(mid.subrange(0, inner.len() as int)[k] == inner[k]);
        }
    }
    assert forall|i: int| at + inner.len() <= i < s.len() implies text::is_white(
        #[trigger] s[i],
    ) by {
        assert(s.subrange(at, at + mid.len())[i - at] == mid[i - at]);
        assert(text::is_white(mid[i - at]));
    }
    if inner.len() > 0 {
        assert(mid.subrange(0, inner.len() as int)[0] == inner[0]);
        assert(mid[0] == inner[0]);
    }
    assert(surrounded_at(s, inner, at));
    if inner.len() > 0 {
        assert(s.subrange(at, at + inner.len())[0] == inner[0]);
        assert(!text::is_white(s[at]));
    } else {
        assert forall|i: int| 0 <= i < s.len() implies text::is_white(#[trigger] s[i]) by {
            if i >= at {
                assert(at + inner.len() <= i);
            }
        }
    }
}

/// There is one text that is another without the white space around it.
pub proof fn law_trimmed_texts_are_equal(s: Seq<char>, a: Seq<char>, b: Seq<char>)
    requires
        is_trimmed(s, a),
        is_trimmed(s, b),
    ensures
        a == b,
{
    let i = choose|at: int| surrounded_at(s, a, at);
    let j = choose|at: int| surrounded_at(s, b, at);
    lemma_ends(s, a, i, b, j);
    lemma_ends(s, b, j, a, i);
    assert(a =~= b) by {
        if a.len() > 0 {
            assert(a == s.subrange(i, i + a.len()));
            assert(b == s.subrange(j, j + b.len()));
        }
    }
}

proof fn lemma_ends(s: Seq<char>, a: Seq<char>, i: int, b: Seq<char>, j: int)
    requires
        bare(a),
        surrounded_at(s, a, i),
        surrounded_at(s, b, j),
    ensures
        a.len() > 0 ==> j <= i && i + a.len() <= j + b.len(),
{
    if a.len() > 0 {
        let n = a.len() as int;
        assert(s.subrange(i, i + n)[0] == a[0]);
        assert(s.subrange(i, i + n)[n - 1] == a[n - 1]);
        assert(!text::is_white(s[i]));
        assert(!text::is_white(s[i + n - 1]));
    }
}

/// What is printed is not white space: the visible ASCII characters are not,
/// and of the others below them only the space and those that move the cursor.
pub proof fn law_white_space(c: char)
    ensures
        '!' <= c <= '~' ==> !text::is_white(c),
        text::is_white(' ') && text::is_white('\t') && text::is_white('\n') && text::is_white('\r'),
        c < ' ' && text::is_white(c) ==> '\t' <= c <= '\r',
{
}

/// The lines of a text, one after the other with a line feed behind each, are
/// the text again, where it has no carriage return and ends in a line feed.
pub open spec fn lines_again(ls: Seq<Seq<char>>) -> Seq<char>
    decreases ls.len(),
{
    if ls.len() == 0 {
        seq![]
    } else {
        ls[0].push('\n') + lines_again(ls.skip(1))
    }
}

/// The lines of a text give the text back: each with its line feed, but for
/// the last where the text does not end in one. No line holds a line feed.
pub proof fn law_lines_give_the_text_back(s: Seq<char>)
    requires
        text::lacks(s, '\r'),
    ensures
        s.len() == 0 ==> text::lines(s).len() == 0,
        s.len() > 0 && s.last() == '\n' ==> lines_again(text::lines(s)) == s,
        s.len() > 0 && s.last() != '\n' ==> lines_again(text::lines(s)) == s.push('\n'),
        forall|k: int| 0 <= k < text::lines(s).len() ==> text::lacks(#[trigger] text::lines(s)[k], '\n'),
    decreases s.len(),
{
    if s.len() > 0 {
        text::lemma_index_of(s, '\n');
        let i = text::index_of(s, '\n');
        let ls = text::lines(s);
        if i < s.len() {
            let rest = s.skip(i + 1);
            let head = s.take(i);
            assert(text::lacks(rest, '\r')) by {
                assert forall|k: int| 0 <= k < rest.len() implies rest[k] != '\r' by {
                    assert(rest[k] == s[k + i + 1]);
                }
            }
            if head.len() > 0 {
                assert(head.last() == s[i - 1]);
            }
            assert(text::drop_cr(head) == head);
            law_lines_give_the_text_back(rest);
            assert(ls == seq![head] + text::lines(rest));
            assert(ls.skip(1) =~= text::lines(rest));
            assert(ls[0] == head);
            assert(head.push('\n') =~= s.take(i + 1));
            if rest.len() > 0 {
                assert(rest.last() == s.last());
                if s.last() == '\n' {
                    assert(s.take(i + 1) + rest =~= s);
                } else {
                    assert(s.take(i + 1) + rest.push('\n') =~= s.push('\n'));
                }
            } else {
                assert(lines_again(text::lines(rest)) =~= Seq::<char>::empty());
                assert(i == s.len() - 1);
                assert(s.take(i + 1) + Seq::<char>::empty() =~= s);
            }
            assert forall|k: int| 0 <= k < ls.len() implies text::lacks(#[trigger] ls[k], '\n') by {
                if k > 0 {
                    assert(ls[k] == text::lines(rest)[k - 1]);
                }
            }
        } else {
            assert(ls == seq![s]);
            assert(ls.skip(1) =~= Seq::<Seq<char>>::empty());
            assert(lines_again(ls.skip(1)) =~= Seq::<char>::empty());
            assert(s.push('\n') + Seq::<char>::empty() =~= s.push('\n'));
            assert(s[s.len() - 1] != '\n');
        }
    }
}

/// A carriage return before a line feed belongs to the line end, and no other
/// does.
pub proof fn law_line_ends(a: Seq<char>, b: Seq<char>)
    requires
        text::lacks(a, '\n'),
    ensures
        text::lines(a + seq!['\r', '\n'] + b) == seq![a] + text::lines(b),
        a.len() == 0 || a.last() != '\r' ==> text::lines(a + seq!['\n'] + b) == seq![a]
            + text::lines(b),
        a.len() > 0 ==> text::lines(a) == seq![a],
{
    let s = a + seq!['\r', '\n'] + b;
    let n = a.len() as int;
    assert forall|k: int| 0 <= k < n + 1 implies s[k] != '\n' by {
        if k < n {
            assert(s[k] == a[k]);
        }
    }
    text::lemma_index_of_is(s, '\n', n + 1);
    assert(s.take(n + 1) =~= a.push('\r'));
    assert(s.take(n + 1).drop_last() =~= a);
    assert(s.skip(n + 2) =~= b);
    let t = a + seq!['\n'] + b;
    assert forall|k: int| 0 <= k < n implies t[k] != '\n' by {
        assert(t[k] == a[k]);
    }
    text::lemma_index_of_is(t, '\n', n);
    assert(t.take(n) =~= a);
    assert(t.skip(n + 1) =~= b);
    if n > 0 {
        text::lemma_index_of_is(a, '\n', n);
    }
}

/// The parts of a text, joined by what they were split at, are the text again,
/// and none of them holds it.
pub proof fn law_splitting_loses_nothing(s: Seq<char>, c: char)
    ensures
        text::join(text::split(s, c), seq![c]) == s,
        text::split(s, c).len() > 0,
        forall|k: int| 0 <= k < text::split(s, c).len() ==> text::lacks(
            #[trigger] text::split(s, c)[k],
            c,
        ),
    decreases s.len(),
{
    text::lemma_index_of(s, c);
    let i = text::index_of(s, c);
    let parts = text::split(s, c);
    if i < s.len() {
        let rest = s.skip(i + 1);
        law_splitting_loses_nothing(rest, c);
        assert(parts == seq![s.take(i)] + text::split(rest, c));
        assert(parts.skip(1) =~= text::split(rest, c));
        text::lemma_join_front(parts, seq![c]);
        assert(parts[0] == s.take(i));
        assert(s.take(i) + seq![c] + rest =~= s);
        assert forall|k: int| 0 <= k < parts.len() implies text::lacks(#[trigger] parts[k], c) by {
            if k > 0 {
                assert(parts[k] == text::split(rest, c)[k - 1]);
            }
        }
    } else {
        assert(parts == seq![s]);
    }
}

/// Reading gives back the number that was written, in digits alone and without
/// needless zeros.
pub proof fn law_numbers_are_read_as_written(n: nat)
    ensures
        text::digits_value(text::decimal(n)) == n,
        text::all_digits(text::decimal(n)),
        n > 0 ==> text::decimal(n)[0] != '0',
        n < 10 ==> text::decimal(n).len() == 1,
        forall|max: nat| n <= max ==> #[trigger] text::unsigned(text::decimal(n), max) == Some(n),
        forall|max: nat| n > max ==> #[trigger] text::unsigned(text::decimal(n), max) is None,
    decreases n,
{
    let d = text::decimal(n);
    if n >= 10 {
        law_numbers_are_read_as_written(n / 10);
        let front = text::decimal(n / 10);
        assert(d.drop_last() =~= front);
        assert forall|i: int| 0 <= i < d.len() implies text::is_digit(#[trigger] d[i]) by {
            if i < front.len() {
                assert(d[i] == front[i]);
            }
        }
        assert(d[0] == front[0]);
    } else {
        assert(d.drop_last() =~= Seq::<char>::empty());
        assert(text::digits_value(d.drop_last()) == 0);
    }
    assert(text::is_digit(d[0]));
    assert(text::after_plus(d) == d);
}

/// Each further digit counts ten times what stands before it.
pub proof fn law_digits_count_by_ten(s: Seq<char>, c: char)
    requires
        '0' <= c <= '9',
    ensures
        text::digits_value(s.push(c)) == 10 * text::digits_value(s) + (c as int - '0' as int),
{
    assert(s.push(c).drop_last() =~= s);
}

/// ASCII lower case changes capital letters alone, each to its small letter,
/// and changes nothing that is lower case already.
pub proof fn law_lower_case(s: Seq<char>, i: int)
    requires
        0 <= i < s.len(),
    ensures
        text::lowercase(s).len() == s.len(),
        'A' <= s[i] <= 'Z' ==> text::lowercase(s)[i] as int == s[i] as int + ('a' as int - 'A' as int),
        !('A' <= s[i] <= 'Z') ==> text::lowercase(s)[i] == s[i],
        text::lowercase(text::lowercase(s)) == text::lowercase(s),
{
    let l = text::lowercase(s);
    assert forall|k: int| 0 <= k < s.len() implies text::lower(text::lower(#[trigger] s[k]))
        == text::lower(s[k]) by {}
    assert(text::lowercase(l) =~= l);
}

/// Joined parts stand in the text in order, with the separator between each
/// two and nothing else.
pub proof fn law_joined_parts(a: Seq<Seq<char>>, b: Seq<Seq<char>>, sep: Seq<char>)
    requires
        a.len() > 0,
        b.len() > 0,
    ensures
        text::join(a + b, sep) == text::join(a, sep) + sep + text::join(b, sep),
        a.len() == 1 ==> text::join(a, sep) == a[0],
    decreases b.len(),
{
    let all = a + b;
    if b.len() == 1 {
        assert(all.drop_last() =~= a);
        assert(all.last() == b[0]);
    } else {
        let front = b.drop_last();
        law_joined_parts(a, front, sep);
        assert(all.drop_last() =~= a + front);
        assert(all.last() == b.last());
        assert(text::join(a, sep) + sep + text::join(front, sep) + sep + b.last() =~= text::join(
            a,
            sep,
        ) + sep + (text::join(front, sep) + sep + b.last()));
    }
}

/// The contents of strings are their characters, each string at its place.
pub proof fn law_contents_of_strings(s: Seq<String>, v: Seq<Vec<char>>, o: Option<String>, i: int)
    ensures
        text::string_views(s).len() == s.len(),
        0 <= i < s.len() ==> text::string_views(s)[i] == s[i]@,
        text::views(v).len() == v.len(),
        0 <= i < v.len() ==> text::views(v)[i] == v[i]@,
        o matches Some(x) ==> text::opt_view(o) == Some(x@),
        o is None ==> text::opt_view(o) is None,
{
}

} // verus!
