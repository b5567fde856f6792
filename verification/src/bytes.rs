//! Bytes: signatures, searching, splitting, and the text that they spell.

use vstd::prelude::*;

use crate::text;

verus! {

broadcast use vstd::string::group_string_axioms;

/// Characters below 256 as one byte each.
pub open spec fn latin(s: Seq<char>) -> Seq<u8> {
    s.map_values(|c: char| c as u8)
}

/// Whether `sig` stands in `v` at `at`.
pub fn is_at(v: &[u8], sig: &[u8], at: usize) -> (r: bool)
    requires
        at <= v@.len(),
    ensures
        r == text::occurs_at(v@, sig@, at as int),
{
    let n: usize = v.len();
    if sig.len() > n - at {
        return false;
    }
    let mut k: usize = 0;
    while k < sig.len()
        invariant
            k <= sig@.len(),
            at + sig@.len() <= n,
            n == v@.len(),
            forall|i: int| 0 <= i < k ==> v@[at + i] == sig@[i],
        decreases sig@.len() - k,
    {
        if v[at + k] != sig[k] {
            assert(v@.subrange(at as int, at + sig@.len())[k as int] != sig@[k as int]);
            return false;
        }
        k += 1;
    }
    assert(v@.subrange(at as int, at + sig@.len()) == sig@);
    true
}

/// A text of characters below 256 as bytes.
pub fn latin_of(s: &str) -> (r: Vec<u8>)
    ensures
        r@ == latin(s@),
{
    let v = text::chars_of(s);
    let mut r: Vec<u8> = Vec::new();
    let mut i: usize = 0;
    while i < v.len()
        invariant
            i <= v@.len(),
            r@ == latin(v@.take(i as int)),
        decreases v@.len() - i,
    {
        let c = v[i];
        r.push(c as u8);
        i += 1;
        assert(v@.take(i as int) == v@.take(i - 1).push(v@[i - 1]));
    }
    assert(v@.take(i as int) == v@);
    r
}

/// The bytes start with a signature.
pub open spec fn signed(v: Seq<u8>, sig: Seq<char>) -> bool {
    text::starts_with(v, latin(sig))
}

/// Whether the bytes start with a signature.
pub fn is_signed(v: &[u8], sig: &str) -> (r: bool)
    ensures
        r == signed(v@, sig@),
{
    let b = latin_of(sig);
    is_at(v, &b, 0)
}

/// A copy of some bytes.
pub fn copy(v: &[u8]) -> (r: Vec<u8>)
    ensures
        r@ == v@,
{
    let mut r: Vec<u8> = Vec::new();
    let mut i: usize = 0;
    while i < v.len()
        invariant
            i <= v@.len(),
            r@ == v@.take(i as int),
        decreases v@.len() - i,
    {
        r.push(v[i]);
        i += 1;
    }
    r
}

/// Position of the first occurrence of `needle`.
pub fn find_bytes(haystack: &[u8], needle: &[u8]) -> (r: Option<usize>)
    requires
        needle@.len() > 0,
    ensures
        match r {
            Some(i) => text::first(haystack@, needle@) == Some(i as nat) && i + needle@.len()
                <= haystack@.len(),
            None => text::first(haystack@, needle@) is None,
        },
{
    let mut i: usize = 0;
    while i < haystack.len() && needle.len() <= haystack.len() - i
        invariant
            needle@.len() > 0,
            i <= haystack@.len(),
            forall|k: int| 0 <= k < i ==> !#[trigger] text::occurs_at(haystack@, needle@, k),
        decreases haystack@.len() - i,
    {
        if is_at(haystack, needle, i) {
            proof {
                text::lemma_first_is(haystack@, needle@, Some(i));
            }
            return Some(i);
        }
        i += 1;
    }
    proof {
        text::lemma_first_is(haystack@, needle@, None);
    }
    None
}

/// The parts between the occurrences of `sep`, searched from the left.
pub open spec fn pieces(s: Seq<u8>, sep: Seq<u8>) -> Seq<Seq<u8>>
    decreases s.len(),
{
    match text::first(s, sep) {
        Some(i) => if sep.len() > 0 && i + sep.len() <= s.len() {
            seq![s.take(i as int)] + pieces(s.skip((i + sep.len()) as int), sep)
        } else {
            seq![s]
        },
        None => seq![s],
    }
}

/// What a list of byte slices holds.
pub open spec fn slices(v: Seq<&[u8]>) -> Seq<Seq<u8>> {
    v.map_values(|p: &[u8]| p@)
}

/// The parts between the occurrences of `sep`.
pub fn split_bytes<'a>(haystack: &'a [u8], sep: &[u8]) -> (r: Vec<&'a [u8]>)
    requires
        sep@.len() > 0,
    ensures
        slices(r@) == pieces(haystack@, sep@),
{
    let mut out: Vec<&'a [u8]> = Vec::new();
    let mut start: usize = 0;
    assert(haystack@.skip(0) == haystack@);
    assert(slices(out@) + pieces(haystack@, sep@) == pieces(haystack@, sep@));
    loop
        invariant
            sep@.len() > 0,
            start <= haystack@.len(),
            pieces(haystack@, sep@) == slices(out@) + pieces(haystack@.skip(start as int), sep@),
        decreases haystack@.len() - start,
    {
        let rest = vstd::slice::slice_subrange(haystack, start, haystack.len());
        assert(rest@ == haystack@.skip(start as int));
        let ghost before = slices(out@);
        match find_bytes(rest, sep) {
            Some(pos) => {
                let part = vstd::slice::slice_subrange(rest, 0, pos);
                out.push(part);
                assert(slices(out@) == before.push(rest@.take(pos as int)));
                assert(rest@.skip((pos + sep@.len()) as int) == haystack@.skip((start + pos + sep@.len()) as int));
                let ghost tail = pieces(rest@.skip((pos + sep@.len()) as int), sep@);
                assert(before.push(rest@.take(pos as int)) + tail == before + (seq![
                    rest@.take(pos as int),
                ] + tail));
                start = start + pos + sep.len();
            },
            None => {
                out.push(rest);
                assert(slices(out@) == before.push(rest@));
                assert(before.push(rest@) == before + seq![rest@]);
                return out;
            },
        }
    }
}

/// Without the line ends that start it.
pub open spec fn strip_front(s: Seq<u8>) -> Seq<u8>
    decreases s.len(),
{
    if s.len() >= 2 && s[0] == 13 && s[1] == 10 {
        strip_front(s.skip(2))
    } else {
        s
    }
}

/// Without the line ends that end it.
pub open spec fn strip_back(s: Seq<u8>) -> Seq<u8>
    decreases s.len(),
{
    if s.len() >= 2 && s[s.len() - 2] == 13 && s[s.len() - 1] == 10 {
        strip_back(s.take(s.len() - 2))
    } else {
        s
    }
}

/// Without the line ends around it.
pub open spec fn stripped(s: Seq<u8>) -> Seq<u8> {
    strip_back(strip_front(s))
}

/// Strip every line end at the front, then every one at the back.
pub fn strip_crlf<'a>(part: &'a [u8]) -> (r: &'a [u8])
    ensures
        r@ == stripped(part@),
{
    let mut a: usize = 0;
    assert(part@.skip(0) == part@);
    while part.len() - a >= 2 && part[a] == 13 && part[a + 1] == 10
        invariant
            a <= part@.len(),
            strip_front(part@) == strip_front(part@.skip(a as int)),
        decreases part@.len() - a,
    {
        assert(part@.skip(a as int).skip(2) == part@.skip(a + 2));
        a += 2;
    }
    let mut b: usize = part.len();
    let ghost front = part@.skip(a as int);
    assert(part@.subrange(a as int, b as int) == front);
    while b - a >= 2 && part[b - 2] == 13 && part[b - 1] == 10
        invariant
            a <= b <= part@.len(),
            strip_back(front) == strip_back(part@.subrange(a as int, b as int)),
        decreases b,
    {
        assert(part@.subrange(a as int, b as int).take(b - a - 2) == part@.subrange(
            a as int,
            b - 2,
        ));
        b -= 2;
    }
    vstd::slice::slice_subrange(part, a, b)
}

/// Without one line end at its start.
pub open spec fn past_line_end(s: Seq<u8>) -> Seq<u8> {
    if s.len() >= 2 && s[0] == 13 && s[1] == 10 {
        s.skip(2)
    } else {
        s
    }
}

/// Without one line end at its end.
pub open spec fn before_line_end(s: Seq<u8>) -> Seq<u8> {
    if s.len() >= 2 && s[s.len() - 2] == 13 && s[s.len() - 1] == 10 {
        s.take(s.len() - 2)
    } else {
        s
    }
}

/// Strip one line end at the front and one at the back.
pub fn between_line_ends<'a>(part: &'a [u8]) -> (r: &'a [u8])
    ensures
        r@ == before_line_end(past_line_end(part@)),
{
    let mut a: usize = 0;
    if part.len() >= 2 && part[0] == 13 && part[1] == 10 {
        a = 2;
    }
    let mut b: usize = part.len();
    assert(part@.subrange(a as int, b as int) == past_line_end(part@));
    if b - a >= 2 && part[b - 2] == 13 && part[b - 1] == 10 {
        b = b - 2;
    }
    assert(part@.subrange(a as int, b as int) == before_line_end(past_line_end(part@)));
    vstd::slice::slice_subrange(part, a, b)
}

/// What std reads bytes as that are not UTF-8, with a replacement for what is
/// not.
pub uninterp spec fn utf8_lossy(v: Seq<u8>) -> Seq<char>;

/// The text that bytes spell as UTF-8, with a replacement for what is not.
pub open spec fn spelled(v: Seq<u8>) -> Seq<char> {
    if vstd::utf8::valid_utf8(v) {
        vstd::utf8::decode_utf8(v)
    } else {
        utf8_lossy(v)
    }
}

/// `String::from_utf8_lossy`. Bytes that are UTF-8 stand for their
/// characters; for others the text is some function of the bytes.
#[verifier::external_body]
pub(crate) fn lossy(v: &[u8]) -> (r: String)
    ensures
        r@ == (if vstd::utf8::valid_utf8(v@) {
            vstd::utf8::decode_utf8(v@)
        } else {
            utf8_lossy(v@)
        }),
{
    String::from_utf8_lossy(v).into_owned()
}

/// The text that bytes spell.
pub fn spell(v: &[u8]) -> (r: String)
    ensures
        r@ == spelled(v@),
{
    lossy(v)
}

/// In UTF-8, an ASCII byte stands for its character only.
pub proof fn lemma_ascii_byte(s: Seq<char>, b: u8)
    requires
        b < 0x80,
        forall|i: int| 0 <= i < s.len() ==> s[i] != b as char,
    ensures
        forall|i: int|
            0 <= i < vstd::utf8::encode_utf8(s).len() ==> #[trigger] vstd::utf8::encode_utf8(s)[i]
                != b,
    decreases s.len(),
{
    if s.len() > 0 {
        let ch: char = s[0];
        let c = ch as u32;
        vstd::utf8::char_is_scalar(ch);
        vstd::utf8::char_u32_cast(ch, c);
        assert(ch != b as char);
        assert(c != b as u32);
        let rest = s.drop_first();
        assert forall|i: int| 0 <= i < rest.len() implies rest[i] != b as char by {
            assert(rest[i] == s[i + 1]);
        }
        lemma_ascii_byte(rest, b);
        let e = vstd::utf8::encode_scalar(c);
        assert forall|i: int| 0 <= i < e.len() implies #[trigger] e[i] != b by {
            assert(c <= 0x7f ==> (c & 0x7f) as u8 == c) by (bit_vector);
            assert(0xc0u8 | ((c >> 6) & 0x1f) as u8 >= 0x80) by (bit_vector);
            assert(0xe0u8 | ((c >> 12) & 0x0f) as u8 >= 0x80) by (bit_vector);
            assert(0xf0u8 | ((c >> 18) & 0x07) as u8 >= 0x80) by (bit_vector);
            assert(0x80u8 | (c & 0x3f) as u8 >= 0x80) by (bit_vector);
            assert(0x80u8 | ((c >> 6) & 0x3f) as u8 >= 0x80) by (bit_vector);
            assert(0x80u8 | ((c >> 12) & 0x3f) as u8 >= 0x80) by (bit_vector);
        }
        let all = vstd::utf8::encode_utf8(s);
        assert(all =~= e + vstd::utf8::encode_utf8(rest));
    }
}

} // verus!
