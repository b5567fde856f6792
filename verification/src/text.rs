//! Text as sequences of characters: trimming, lines, searching and joining.

use vstd::prelude::*;

verus! {

broadcast use vstd::string::group_string_axioms;

/// `String::push` appends one character.
pub assume_specification[ String::push ](s: &mut String, c: char)
    ensures
        final(s)@ == old(s)@.push(c),
;

/// The characters of a string, in order.
pub fn chars_of(s: &str) -> (v: Vec<char>)
    ensures
        v@ == s@,
{
    let mut v: Vec<char> = Vec::new();
    for c in it: s.chars()
        invariant
            v@ == s@.take(it.index()),
            it.seq() == s@,
    {
        v.push(c);
    }
    v
}

/// The string made of some characters.
pub fn string_of(v: &[char]) -> (s: String)
    ensures
        s@ == v@,
{
    let mut s = String::new();
    let mut i: usize = 0;
    while i < v.len()
        invariant
            i <= v@.len(),
            s@ == v@.take(i as int),
        decreases v@.len() - i,
    {
        s.push(v[i]);
        i += 1;
    }
    s
}

/// Unicode's `White_Space` property.
pub open spec fn is_white(c: char) -> bool {
    ||| '\u{9}' <= c <= '\u{d}'
    ||| c == '\u{20}'
    ||| c == '\u{85}'
    ||| c == '\u{a0}'
    ||| c == '\u{1680}'
    ||| '\u{2000}' <= c <= '\u{200a}'
    ||| c == '\u{2028}'
    ||| c == '\u{2029}'
    ||| c == '\u{202f}'
    ||| c == '\u{205f}'
    ||| c == '\u{3000}'
}

/// Whether a character has Unicode's `White_Space` property.
pub fn white(c: char) -> (r: bool)
    ensures
        r == is_white(c),
{
    ('\u{9}' <= c && c <= '\u{d}') || c == '\u{20}' || c == '\u{85}' || c == '\u{a0}' || c
        == '\u{1680}' || ('\u{2000}' <= c && c <= '\u{200a}') || c == '\u{2028}' || c == '\u{2029}'
        || c == '\u{202f}' || c == '\u{205f}' || c == '\u{3000}'
}

/// Nothing but white space.
pub open spec fn blank(s: Seq<char>) -> bool {
    forall|i: int| 0 <= i < s.len() ==> is_white(#[trigger] s[i])
}

pub fn is_blank(v: &[char]) -> (r: bool)
    ensures
        r == blank(v@),
{
    let mut i: usize = 0;
    while i < v.len()
        invariant
            i <= v@.len(),
            blank(v@.take(i as int)),
        decreases v@.len() - i,
    {
        if !white(v[i]) {
            return false;
        }
        assert(v@.take(i + 1) == v@.take(i as int).push(v@[i as int]));
        i += 1;
    }
    assert(v@.take(i as int) == v@);
    true
}

pub fn is_blank_str(s: &str) -> (r: bool)
    ensures
        r == blank(s@),
{
    is_blank(&chars_of(s))
}

/// Without the white space at the front.
pub open spec fn trim_start(s: Seq<char>) -> Seq<char>
    decreases s.len(),
{
    if s.len() > 0 && is_white(s[0]) {
        trim_start(s.skip(1))
    } else {
        s
    }
}

/// Without the white space at the back.
pub open spec fn trim_end(s: Seq<char>) -> Seq<char>
    decreases s.len(),
{
    if s.len() > 0 && is_white(s.last()) {
        trim_end(s.drop_last())
    } else {
        s
    }
}

/// Without the white space at either end.
pub open spec fn trim(s: Seq<char>) -> Seq<char> {
    trim_end(trim_start(s))
}

pub fn trimmed_start<'a>(v: &'a [char]) -> (r: &'a [char])
    ensures
        r@ == trim_start(v@),
{
    let mut i: usize = 0;
    assert(v@.skip(0) == v@);
    while i < v.len() && white(v[i])
        invariant
            i <= v@.len(),
            trim_start(v@) == trim_start(v@.skip(i as int)),
        decreases v@.len() - i,
    {
        assert(v@.skip(i as int).skip(1) == v@.skip(i + 1));
        i += 1;
    }
    vstd::slice::slice_subrange(v, i, v.len())
}

pub fn trimmed_end<'a>(v: &'a [char]) -> (r: &'a [char])
    ensures
        r@ == trim_end(v@),
{
    let mut j: usize = v.len();
    assert(v@.take(j as int) == v@);
    while j > 0 && white(v[j - 1])
        invariant
            j <= v@.len(),
            trim_end(v@) == trim_end(v@.take(j as int)),
        decreases j,
    {
        assert(v@.take(j as int).drop_last() == v@.take(j - 1));
        j -= 1;
    }
    vstd::slice::slice_subrange(v, 0, j)
}

pub fn trimmed<'a>(v: &'a [char]) -> (r: &'a [char])
    ensures
        r@ == trim(v@),
{
    trimmed_end(trimmed_start(v))
}

/// A string without the white space at either end.
pub fn trim_str(s: &str) -> (r: String)
    ensures
        r@ == trim(s@),
{
    let v = chars_of(s);
    string_of(trimmed(&v))
}

/// Position of the first `c`, or the length when there is none.
pub open spec fn index_of(s: Seq<char>, c: char) -> int
    decreases s.len(),
{
    if s.len() == 0 || s[0] == c {
        0
    } else {
        1 + index_of(s.skip(1), c)
    }
}

pub proof fn lemma_index_of(s: Seq<char>, c: char)
    ensures
        0 <= index_of(s, c) <= s.len(),
        forall|i: int| 0 <= i < index_of(s, c) ==> s[i] != c,
        index_of(s, c) < s.len() ==> s[index_of(s, c)] == c,
    decreases s.len(),
{
    if s.len() > 0 && s[0] != c {
        lemma_index_of(s.skip(1), c);
        assert forall|i: int| 0 <= i < index_of(s, c) implies s[i] != c by {
            if i > 0 {
                assert(s.skip(1)[i - 1] == s[i]);
            }
        }
    }
}

/// The position that has no `c` before it and holds `c`, or is the end, is
/// the one that `index_of` names.
pub proof fn lemma_index_of_is(s: Seq<char>, c: char, k: int)
    requires
        0 <= k <= s.len(),
        forall|i: int| 0 <= i < k ==> s[i] != c,
        k < s.len() ==> s[k] == c,
    ensures
        index_of(s, c) == k,
{
    lemma_index_of(s, c);
}

pub fn position_of(v: &[char], c: char) -> (r: usize)
    ensures
        r == index_of(v@, c),
        r <= v@.len(),
{
    let mut i: usize = 0;
    while i < v.len() && v[i] != c
        invariant
            i <= v@.len(),
            forall|k: int| 0 <= k < i ==> v@[k] != c,
        decreases v@.len() - i,
    {
        i += 1;
    }
    proof {
        lemma_index_of_is(v@, c, i as int);
    }
    i
}

/// The contents of a list of character vectors.
pub open spec fn views(v: Seq<Vec<char>>) -> Seq<Seq<char>> {
    v.map_values(|x: Vec<char>| x@)
}

/// The contents of an optional string.
pub open spec fn opt_view(s: Option<String>) -> Option<Seq<char>> {
    match s {
        Some(x) => Some(x@),
        None => None,
    }
}

/// The contents of a list of strings.
pub open spec fn string_views(v: Seq<String>) -> Seq<Seq<char>> {
    v.map_values(|x: String| x@)
}

/// A character does not stand in a text.
pub open spec fn lacks(s: Seq<char>, c: char) -> bool {
    forall|i: int| 0 <= i < s.len() ==> s[i] != c
}

/// A line's text without the carriage return that ended it.
pub open spec fn drop_cr(s: Seq<char>) -> Seq<char> {
    if s.len() > 0 && s.last() == '\r' {
        s.drop_last()
    } else {
        s
    }
}

/// The lines of a text. A line ends with a line feed, before which one
/// carriage return belongs to the line end; what follows the last line feed
/// is a line of its own unless it is empty.
pub open spec fn lines(s: Seq<char>) -> Seq<Seq<char>>
    decreases s.len(),
{
    if s.len() == 0 {
        seq![]
    } else {
        let i = index_of(s, '\n');
        if 0 <= i < s.len() {
            seq![drop_cr(s.take(i))] + lines(s.skip(i + 1))
        } else {
            seq![s]
        }
    }
}

pub fn lines_of(v: &[char]) -> (r: Vec<Vec<char>>)
    ensures
        views(r@) == lines(v@),
{
    let mut out: Vec<Vec<char>> = Vec::new();
    let mut at: usize = 0;
    assert(v@.skip(0) == v@);
    while at < v.len()
        invariant
            at <= v@.len(),
            lines(v@) == views(out@) + lines(v@.skip(at as int)),
        decreases v@.len() - at,
    {
        let rest = vstd::slice::slice_subrange(v, at, v.len());
        assert(rest@ == v@.skip(at as int));
        let n = position_of(rest, '\n');
        let ghost before = views(out@);
        if n < rest.len() {
            let mut line = vstd::slice::slice_subrange(rest, 0, n);
            if n > 0 && line[n - 1] == '\r' {
                line = vstd::slice::slice_subrange(rest, 0, n - 1);
                assert(line@ == rest@.take(n as int).drop_last());
            }
            let copied = to_vec(line);
            out.push(copied);
            assert(views(out@) == before.push(drop_cr(rest@.take(n as int))));
            assert(rest@.skip(n + 1) == v@.skip(at + n + 1));
            assert(before.push(drop_cr(rest@.take(n as int))) + lines(rest@.skip(n + 1)) == before
                + (seq![drop_cr(rest@.take(n as int))] + lines(rest@.skip(n + 1))));
            at = at + n + 1;
        } else {
            let copied = to_vec(rest);
            out.push(copied);
            assert(views(out@) == before.push(rest@));
            at = v.len();
            assert(v@.skip(at as int).len() == 0);
            assert(before + seq![rest@] == before.push(rest@) + Seq::<Seq<char>>::empty());
        }
    }
    assert(v@.skip(at as int).len() == 0);
    out
}

/// A copy of some characters.
pub fn to_vec(v: &[char]) -> (r: Vec<char>)
    ensures
        r@ == v@,
{
    let mut r: Vec<char> = Vec::new();
    append(&mut r, v);
    assert(r@ == v@);
    r
}

/// Append characters.
pub fn append(out: &mut Vec<char>, v: &[char])
    ensures
        final(out)@ == old(out)@ + v@,
{
    let mut i: usize = 0;
    while i < v.len()
        invariant
            i <= v@.len(),
            out@ == old(out)@ + v@.take(i as int),
        decreases v@.len() - i,
    {
        out.push(v[i]);
        i += 1;
        assert(v@.take(i as int) == v@.take(i - 1).push(v@[i - 1]));
    }
    assert(v@.take(i as int) == v@);
}

/// Append a string.
pub fn append_str(out: &mut Vec<char>, s: &str)
    ensures
        final(out)@ == old(out)@ + s@,
{
    let v = chars_of(s);
    append(out, &v);
}

/// Parts with a separator between each two.
pub open spec fn join(parts: Seq<Seq<char>>, sep: Seq<char>) -> Seq<char>
    decreases parts.len(),
{
    if parts.len() == 0 {
        seq![]
    } else if parts.len() == 1 {
        parts[0]
    } else {
        join(parts.drop_last(), sep) + sep + parts.last()
    }
}

/// The first part of joined parts stands in front.
pub proof fn lemma_join_front(parts: Seq<Seq<char>>, sep: Seq<char>)
    requires
        parts.len() >= 2,
    ensures
        join(parts, sep) == parts[0] + sep + join(parts.skip(1), sep),
    decreases parts.len(),
{
    if parts.len() == 2 {
        assert(join(parts.drop_last(), sep) == parts[0]);
        assert(join(parts.skip(1), sep) == parts[1]);
    } else {
        lemma_join_front(parts.drop_last(), sep);
        assert(parts.drop_last().skip(1) =~= parts.skip(1).drop_last());
        let mid = join(parts.skip(1).drop_last(), sep);
        assert(join(parts.skip(1), sep) == mid + sep + parts.last());
        assert(parts[0] + sep + mid + sep + parts.last() =~= parts[0] + sep + (mid + sep
            + parts.last()));
    }
}

pub fn joined(parts: &[Vec<char>], sep: &str) -> (r: Vec<char>)
    ensures
        r@ == join(views(parts@), sep@),
{
    let mut out: Vec<char> = Vec::new();
    let mut i: usize = 0;
    while i < parts.len()
        invariant
            i <= parts@.len(),
            out@ == join(views(parts@.take(i as int)), sep@),
        decreases parts@.len() - i,
    {
        let ghost before = out@;
        if i > 0 {
            append_str(&mut out, sep);
        }
        append(&mut out, &parts[i]);
        assert(views(parts@.take(i + 1)).drop_last() == views(parts@.take(i as int)));
        assert(views(parts@.take(i + 1)).last() == parts@[i as int]@);
        if i == 0 {
            assert(before =~= seq![]);
            assert(out@ =~= parts@[0]@);
        }
        i += 1;
    }
    assert(parts@.take(i as int) == parts@);
    out
}

/// `pat` stands in `s` at `i`.
pub open spec fn occurs_at<T>(s: Seq<T>, pat: Seq<T>, i: int) -> bool {
    0 <= i && i + pat.len() <= s.len() && s.subrange(i, i + pat.len()) == pat
}

/// `pat` stands somewhere in `s`.
pub open spec fn occurs<T>(s: Seq<T>, pat: Seq<T>) -> bool {
    exists|i: int| occurs_at(s, pat, i)
}

pub open spec fn starts_with<T>(s: Seq<T>, pat: Seq<T>) -> bool {
    occurs_at(s, pat, 0)
}

pub open spec fn ends_with<T>(s: Seq<T>, pat: Seq<T>) -> bool {
    occurs_at(s, pat, s.len() - pat.len())
}

pub fn is_at(v: &[char], pat: &[char], at: usize) -> (r: bool)
    requires
        at <= v@.len(),
    ensures
        r == occurs_at(v@, pat@, at as int),
{
    let n: usize = v.len();
    if pat.len() > n - at {
        return false;
    }
    let mut k: usize = 0;
    while k < pat.len()
        invariant
            k <= pat@.len(),
            at + pat@.len() <= n,
            n == v@.len(),
            forall|i: int| 0 <= i < k ==> v@[at + i] == pat@[i],
        decreases pat@.len() - k,
    {
        if v[at + k] != pat[k] {
            assert(v@.subrange(at as int, at + pat@.len())[k as int] != pat@[k as int]);
            return false;
        }
        k += 1;
    }
    assert(v@.subrange(at as int, at + pat@.len()) == pat@);
    true
}

pub fn has_prefix(v: &[char], pat: &str) -> (r: bool)
    ensures
        r == starts_with(v@, pat@),
{
    let p = chars_of(pat);
    is_at(v, &p, 0)
}

pub fn has_suffix(v: &[char], pat: &str) -> (r: bool)
    ensures
        r == ends_with(v@, pat@),
{
    let p = chars_of(pat);
    if p.len() > v.len() {
        return false;
    }
    is_at(v, &p, v.len() - p.len())
}

/// Position of the first occurrence of `pat`.
pub open spec fn first_at<T>(s: Seq<T>, pat: Seq<T>, r: Option<usize>) -> bool {
    match r {
        Some(i) => occurs_at(s, pat, i as int) && forall|k: int|
            0 <= k < i ==> !#[trigger] occurs_at(s, pat, k),
        None => !occurs(s, pat),
    }
}

/// Position of the first occurrence of `pat`.
pub open spec fn first<T>(s: Seq<T>, pat: Seq<T>) -> Option<nat>
    decreases s.len(),
{
    if starts_with(s, pat) {
        Some(0)
    } else if s.len() == 0 {
        None
    } else {
        match first(s.skip(1), pat) {
            Some(n) => Some(n + 1),
            None => None,
        }
    }
}

/// The recursive definition finds the smallest position.
pub proof fn lemma_first<T>(s: Seq<T>, pat: Seq<T>)
    ensures
        match first(s, pat) {
            Some(n) => occurs_at(s, pat, n as int) && forall|k: int|
                0 <= k < n ==> !#[trigger] occurs_at(s, pat, k),
            None => !occurs(s, pat),
        },
    decreases s.len(),
{
    if !starts_with(s, pat) {
        if s.len() == 0 {
            assert forall|k: int| !#[trigger] occurs_at(s, pat, k) by {
                if occurs_at(s, pat, k) {
                    assert(k == 0);
                }
            }
        } else {
            let rest = s.skip(1);
            lemma_first(rest, pat);
            assert forall|k: int| k >= 0 implies #[trigger] occurs_at(rest, pat, k) == occurs_at(
                s,
                pat,
                k + 1,
            ) by {
                if k + 1 + pat.len() <= s.len() {
                    assert(rest.subrange(k, k + pat.len()) =~= s.subrange(
                        k + 1,
                        k + 1 + pat.len(),
                    ));
                }
            }
            assert forall|k: int|
                (match first(rest, pat) {
                    Some(n) => k <= n,
                    None => true,
                }) implies !#[trigger] occurs_at(s, pat, k) by {
                if k > 0 {
                    assert(!occurs_at(rest, pat, k - 1));
                }
            }
            match first(rest, pat) {
                Some(n) => {
                    assert(occurs_at(rest, pat, n as int));
                },
                None => {},
            }
        }
    }
}

/// The smallest position is the one the recursive definition finds.
pub proof fn lemma_first_is<T>(s: Seq<T>, pat: Seq<T>, r: Option<usize>)
    requires
        first_at(s, pat, r),
    ensures
        first(s, pat) == (match r {
            Some(i) => Some(i as nat),
            None => None,
        }),
{
    lemma_first(s, pat);
    match (r, first(s, pat)) {
        (Some(i), Some(n)) => {
            if i < n {
                assert(!occurs_at(s, pat, i as int));
            } else if n < i {
                assert(!occurs_at(s, pat, n as int));
            }
        },
        (Some(i), None) => {
            assert(occurs_at(s, pat, i as int));
        },
        (None, Some(n)) => {
            assert(occurs_at(s, pat, n as int));
        },
        (None, None) => {},
    }
}

pub fn find(v: &[char], pat: &str) -> (r: Option<usize>)
    ensures
        first_at(v@, pat@, r),
{
    let p = chars_of(pat);
    let mut i: usize = 0;
    while i <= v.len() && p.len() <= v.len() - i
        invariant
            p@ == pat@,
            i <= v@.len() + 1,
            forall|k: int| 0 <= k < i ==> !#[trigger] occurs_at(v@, pat@, k),
        decreases v@.len() + 1 - i,
    {
        if is_at(v, &p, i) {
            return Some(i);
        }
        if i == v.len() {
            return None;
        }
        i += 1;
    }
    None
}

pub fn has(v: &[char], pat: &str) -> (r: bool)
    ensures
        r == occurs(v@, pat@),
{
    find(v, pat).is_some()
}

/// Whether two strings hold the same characters.
pub fn same(a: &str, b: &str) -> (r: bool)
    ensures
        r == (a@ == b@),
{
    let x = chars_of(a);
    same_chars(&x, b)
}

pub fn same_chars(x: &[char], b: &str) -> (r: bool)
    ensures
        r == (x@ == b@),
{
    let y = chars_of(b);
    if x.len() != y.len() {
        return false;
    }
    let r = is_at(x, &y, 0);
    assert(x@.subrange(0, x@.len() as int) == x@);
    r
}

/// The ASCII lower case of a character.
pub open spec fn lower(c: char) -> char {
    if 'A' <= c <= 'Z' {
        (c as u8 + 32) as char
    } else {
        c
    }
}

/// A text in ASCII lower case.
pub open spec fn lowercase(s: Seq<char>) -> Seq<char> {
    s.map_values(|c: char| lower(c))
}

pub fn lowered(v: &[char]) -> (r: Vec<char>)
    ensures
        r@ == lowercase(v@),
{
    let mut r: Vec<char> = Vec::new();
    let mut i: usize = 0;
    while i < v.len()
        invariant
            i <= v@.len(),
            r@ == lowercase(v@.take(i as int)),
        decreases v@.len() - i,
    {
        let c = v[i];
        let l: char = if 'A' <= c && c <= 'Z' {
            (c as u8 + 32) as char
        } else {
            c
        };
        r.push(l);
        i += 1;
        assert(v@.take(i as int) == v@.take(i - 1).push(v@[i - 1]));
    }
    assert(v@.take(i as int) == v@);
    r
}

/// The decimal digit of a number below ten.
pub open spec fn digit(d: nat) -> char {
    (48 + d) as char
}

/// A number in decimal digits.
pub open spec fn decimal(n: nat) -> Seq<char>
    decreases n,
{
    if n < 10 {
        seq![digit(n)]
    } else {
        decimal(n / 10).push(digit(n % 10))
    }
}

pub fn decimal_of(n: u64) -> (r: Vec<char>)
    ensures
        r@ == decimal(n as nat),
    decreases n,
{
    let d: u8 = (n % 10) as u8;
    let c = (48u8 + d) as char;
    let mut r: Vec<char> = if n < 10 {
        Vec::new()
    } else {
        decimal_of(n / 10)
    };
    r.push(c);
    proof {
        assert(c == digit((n % 10) as nat));
        if n < 10 {
            assert(r@ =~= seq![digit(n as nat)]);
        }
    }
    r
}

pub open spec fn is_digit(c: char) -> bool {
    '0' <= c <= '9'
}

/// The number that decimal digits write.
pub open spec fn digits_value(s: Seq<char>) -> nat
    decreases s.len(),
{
    if s.len() == 0 {
        0
    } else {
        digits_value(s.drop_last()) * 10 + (s.last() as int - 48) as nat
    }
}

/// One or more decimal digits and nothing else.
pub open spec fn all_digits(s: Seq<char>) -> bool {
    s.len() > 0 && forall|i: int| 0 <= i < s.len() ==> is_digit(#[trigger] s[i])
}

/// A text without the plus sign in front of it.
pub open spec fn after_plus(s: Seq<char>) -> Seq<char> {
    if s.len() > 0 && s[0] == '+' {
        s.skip(1)
    } else {
        s
    }
}

/// The unsigned number of at most `max` that a text writes: decimal digits,
/// at least one, with or without a plus sign before them.
pub open spec fn unsigned(s: Seq<char>, max: nat) -> Option<nat> {
    let d = after_plus(s);
    if all_digits(d) && digits_value(d) <= max {
        Some(digits_value(d))
    } else {
        None
    }
}

proof fn lemma_digits_grow(s: Seq<char>, k: int)
    requires
        0 <= k <= s.len(),
    ensures
        digits_value(s.take(k)) <= digits_value(s),
    decreases s.len(),
{
    if k < s.len() {
        lemma_digits_grow(s.drop_last(), k);
        assert(s.drop_last().take(k) == s.take(k));
    } else {
        assert(s.take(k) == s);
    }
}

pub fn unsigned_of(v: &[char], max: u64) -> (r: Option<u64>)
    ensures
        match r {
            Some(n) => unsigned(v@, max as nat) == Some(n as nat),
            None => unsigned(v@, max as nat) is None,
        },
{
    let d = if v.len() > 0 && v[0] == '+' {
        vstd::slice::slice_subrange(v, 1, v.len())
    } else {
        v
    };
    assert(d@ == after_plus(v@));
    if d.len() == 0 {
        return None;
    }
    let mut n: u64 = 0;
    let mut i: usize = 0;
    while i < d.len()
        invariant
            i <= d@.len(),
            n == digits_value(d@.take(i as int)),
            n <= max,
            d@ == after_plus(v@),
            d@.len() > 0,
            forall|k: int| 0 <= k < i ==> is_digit(#[trigger] d@[k]),
        decreases d@.len() - i,
    {
        let c = d[i];
        if !('0' <= c && c <= '9') {
            assert(!is_digit(d@[i as int]));
            return None;
        }
        let x: u128 = (c as u8 - 48) as u128;
        proof {
            assert(d@.take(i + 1).drop_last() == d@.take(i as int));
            assert(digits_value(d@.take(i + 1)) == n * 10 + x);
            lemma_digits_grow(d@, i + 1);
        }
        let next: u128 = n as u128 * 10 + x;
        if next > max as u128 {
            return None;
        }
        n = next as u64;
        i += 1;
    }
    assert(d@.take(i as int) == d@);
    Some(n)
}

/// The parts between the occurrences of a character.
pub open spec fn split(s: Seq<char>, c: char) -> Seq<Seq<char>>
    decreases s.len(),
{
    let i = index_of(s, c);
    if 0 <= i < s.len() {
        seq![s.take(i)] + split(s.skip(i + 1), c)
    } else {
        seq![s]
    }
}

pub fn split_on(v: &[char], c: char) -> (r: Vec<Vec<char>>)
    ensures
        views(r@) == split(v@, c),
        r@.len() > 0,
{
    let mut out: Vec<Vec<char>> = Vec::new();
    let mut at: usize = 0;
    assert(v@.skip(0) == v@);
    assert(split(v@, c) == views(out@) + split(v@.skip(at as int), c));
    loop
        invariant
            at <= v@.len(),
            split(v@, c) == views(out@) + split(v@.skip(at as int), c),
        decreases v@.len() - at,
    {
        let rest = vstd::slice::slice_subrange(v, at, v.len());
        assert(rest@ == v@.skip(at as int));
        let n = position_of(rest, c);
        let ghost before = views(out@);
        if n < rest.len() {
            let part = to_vec(vstd::slice::slice_subrange(rest, 0, n));
            out.push(part);
            assert(views(out@) == before.push(rest@.take(n as int)));
            assert(rest@.skip(n + 1) == v@.skip(at + n + 1));
            assert(before.push(rest@.take(n as int)) + split(rest@.skip(n + 1), c) == before + (
            seq![rest@.take(n as int)] + split(rest@.skip(n + 1), c)));
            at = at + n + 1;
        } else {
            let part = to_vec(rest);
            out.push(part);
            assert(views(out@) == before.push(rest@));
            assert(before.push(rest@) == before + seq![rest@]);
            return out;
        }
    }
}


/// How std's `Debug` writes a string: in quotes, with escapes.
pub uninterp spec fn str_debug(s: Seq<char>) -> Seq<char>;

/// `Debug` of a string slice, as `format!` writes it with `{:?}`. What it
/// writes is a function of the string.
#[verifier::external_body]
pub(crate) fn debug_quoted(s: &str) -> (r: String)
    ensures
        r@ == str_debug(s@),
{
    format!("{:?}", s)
}

/// Text around a quoted value.
pub fn around_quoted(before: &str, value: &str, after: &str) -> (r: String)
    ensures
        r@ == before@ + str_debug(value@) + after@,
{
    let mut v = chars_of(before);
    append_str(&mut v, &debug_quoted(value));
    append_str(&mut v, after);
    string_of(&v)
}

/// Text around a value.
pub fn around(before: &str, value: &str, after: &str) -> (r: String)
    ensures
        r@ == before@ + value@ + after@,
{
    let mut v = chars_of(before);
    append_str(&mut v, value);
    append_str(&mut v, after);
    string_of(&v)
}

/// One text after another.
pub fn both(a: &str, b: &str) -> (r: String)
    ensures
        r@ == a@ + b@,
{
    let mut v = chars_of(a);
    append_str(&mut v, b);
    string_of(&v)
}

/// A copy of an optional string.
pub fn opt_clone(s: &Option<String>) -> (r: Option<String>)
    ensures
        opt_view(r) == opt_view(*s),
{
    match s {
        Some(x) => Some(x.clone()),
        None => None,
    }
}

} // verus!
