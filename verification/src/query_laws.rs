//! What holds of queries as they are written and read.

use vstd::prelude::*;

use crate::bytes;
use crate::query;
use crate::query::{LOWER_A, PERCENT, PLUS, SPACE, UPPER_A, ZERO};
use crate::text;

verus! {

/// A text without the characters that a query escapes with.
pub open spec fn unescaped(s: Seq<char>) -> bool {
    forall|i: int| 0 <= i < s.len() ==> s[i] != '%' && s[i] != '+'
}

/// A text without escapes decodes to itself.
pub proof fn law_unescaped_text_stays(s: Seq<char>)
    requires
        unescaped(s),
    ensures
        query::decoded_text(s) == s,
{
    broadcast use {vstd::utf8::encode_utf8_decode_utf8, vstd::utf8::encode_utf8_valid_utf8};

    bytes::lemma_ascii_byte(s, PERCENT);
    bytes::lemma_ascii_byte(s, PLUS);
    lemma_unescaped(vstd::utf8::encode_utf8(s));
}

proof fn lemma_unescaped(b: Seq<u8>)
    requires
        forall|i: int| 0 <= i < b.len() ==> b[i] != PERCENT && b[i] != PLUS,
    ensures
        query::decoded(b) == b,
    decreases b.len(),
{
    if b.len() > 0 {
        lemma_unescaped(b.skip(1));
        assert(seq![b[0]] + b.skip(1) =~= b);
    } else {
        assert(query::decoded(b) =~= b);
    }
}

/// Bytes as a query may write them: `%` and two hexadecimal digits of either
/// case, `+` for a space, and any byte but these two as itself.
pub open spec fn writes(e: Seq<u8>, b: Seq<u8>) -> bool
    decreases e.len(),
{
    if e.len() == 0 || b.len() == 0 {
        e.len() == 0 && b.len() == 0
    } else if e[0] == PLUS {
        b[0] == SPACE && writes(e.skip(1), b.skip(1))
    } else if e[0] == PERCENT {
        &&& e.len() >= 3
        &&& query::hex_value(e[1]) == Some((b[0] / 16) as u8)
        &&& query::hex_value(e[2]) == Some((b[0] % 16) as u8)
        &&& writes(e.skip(3), b.skip(1))
    } else {
        e[0] == b[0] && writes(e.skip(1), b.skip(1))
    }
}

/// Decoding gives back the bytes that were written.
pub proof fn law_decoding_gives_back_bytes(e: Seq<u8>, b: Seq<u8>)
    requires
        writes(e, b),
    ensures
        query::decoded(e) == b,
    decreases e.len(),
{
    if e.len() == 0 {
        assert(query::decoded(e) =~= b);
    } else {
        assert(seq![b[0]] + b.skip(1) =~= b);
        if e[0] == PERCENT {
            law_decoding_gives_back_bytes(e.skip(3), b.skip(1));
            assert(query::escape_value(e[1], e[2]) == Some(b[0]));
        } else {
            law_decoding_gives_back_bytes(e.skip(1), b.skip(1));
        }
    }
}

/// A text as a query may write another.
pub open spec fn writes_text(e: Seq<char>, s: Seq<char>) -> bool {
    writes(vstd::utf8::encode_utf8(e), vstd::utf8::encode_utf8(s))
}

/// Decoding gives back the text that was written.
pub proof fn law_decoding_gives_back_texts(e: Seq<char>, s: Seq<char>)
    requires
        writes_text(e, s),
    ensures
        query::decoded_text(e) == s,
{
    broadcast use {vstd::utf8::encode_utf8_decode_utf8, vstd::utf8::encode_utf8_valid_utf8};

    law_decoding_gives_back_bytes(vstd::utf8::encode_utf8(e), vstd::utf8::encode_utf8(s));
}

/// A hexadecimal digit, as a small or a capital letter where it is one.
pub open spec fn hex_digit(d: u8, small: bool) -> u8 {
    if d < 10 {
        (ZERO + d) as u8
    } else if small {
        (LOWER_A + d - 10) as u8
    } else {
        (UPPER_A + d - 10) as u8
    }
}

/// Every byte written as `%` and two hexadecimal digits.
pub open spec fn escaped(b: Seq<u8>, small: bool) -> Seq<u8>
    decreases b.len(),
{
    if b.len() == 0 {
        Seq::empty()
    } else {
        seq![PERCENT, hex_digit(b[0] / 16, small), hex_digit(b[0] % 16, small)] + escaped(
            b.skip(1),
            small,
        )
    }
}

proof fn lemma_escaped(b: Seq<u8>, small: bool)
    ensures
        writes(escaped(b, small), b),
        forall|i: int|
            0 <= i < escaped(b, small).len() ==> #[trigger] escaped(b, small)[i] < 0x80,
    decreases b.len(),
{
    if b.len() > 0 {
        lemma_escaped(b.skip(1), small);
        let e = escaped(b, small);
        let rest = escaped(b.skip(1), small);
        assert(e.skip(3) =~= rest);
        assert(e[0] == PERCENT && e[1] == hex_digit(b[0] / 16, small) && e[2] == hex_digit(
            b[0] % 16,
            small,
        ));
        assert forall|i: int| 0 <= i < e.len() implies #[trigger] e[i] < 0x80 by {
            if i >= 3 {
                assert(e[i] == rest[i - 3]);
            }
        }
    }
}

/// Every byte of a text written as `%` and two hexadecimal digits.
pub open spec fn escaped_text(s: Seq<char>, small: bool) -> Seq<char> {
    escaped(vstd::utf8::encode_utf8(s), small).map_values(|b: u8| b as char)
}

/// Decoding gives back what was escaped, bytes and texts, with digits of
/// either case.
pub proof fn law_decoding_undoes_escaping(b: Seq<u8>, s: Seq<char>, small: bool)
    ensures
        query::decoded(escaped(b, small)) == b,
        query::decoded_text(escaped_text(s, small)) == s,
{
    lemma_escaped(b, small);
    law_decoding_gives_back_bytes(escaped(b, small), b);
    let plain = vstd::utf8::encode_utf8(s);
    let written = escaped(plain, small);
    let e = escaped_text(s, small);
    lemma_escaped(plain, small);
    assert forall|i: int| 0 <= i < e.len() implies '\0' <= #[trigger] e[i] <= '\u{7f}' by {
        assert(written[i] < 0x80);
    }
    assert(vstd::utf8::is_ascii_chars(e));
    vstd::utf8::is_ascii_chars_encode_utf8(e);
    assert forall|i: int| 0 <= i < e.len() implies vstd::utf8::encode_utf8(e)[i]
        == #[trigger] written[i] by {
        assert(e[i] == written[i] as char);
        assert(written[i] < 0x80);
        assert(e[i] as u8 == vstd::utf8::encode_utf8(e)[i]);
    }
    assert(vstd::utf8::encode_utf8(e) =~= written);
    law_decoding_gives_back_texts(e, s);
}

proof fn lemma_split_of_join(parts: Seq<Seq<char>>, c: char)
    requires
        parts.len() > 0,
        forall|i: int| 0 <= i < parts.len() ==> text::lacks(#[trigger] parts[i], c),
    ensures
        text::split(text::join(parts, seq![c]), c) == parts,
    decreases parts.len(),
{
    let s = text::join(parts, seq![c]);
    let p = parts[0];
    assert(text::lacks(p, c));
    if parts.len() == 1 {
        text::lemma_index_of_is(s, c, s.len() as int);
        assert(seq![p] =~= parts);
    } else {
        let rest = parts.skip(1);
        text::lemma_join_front(parts, seq![c]);
        let tail = text::join(rest, seq![c]);
        let n = p.len() as int;
        assert forall|i: int| 0 <= i < n implies s[i] != c by {
            assert(s[i] == p[i]);
        }
        assert(s[n] == c);
        text::lemma_index_of_is(s, c, n);
        assert(s.take(n) =~= p);
        assert(s.skip(n + 1) =~= tail);
        assert forall|i: int| 0 <= i < rest.len() implies text::lacks(#[trigger] rest[i], c) by {
            assert(text::lacks(parts[i + 1], c));
        }
        lemma_split_of_join(rest, c);
        assert(seq![p] + rest =~= parts);
    }
}

/// A name and a value as they stand in a query.
pub open spec fn sent_pair(p: (Seq<char>, Seq<char>)) -> Seq<char> {
    p.0 + seq!['='] + p.1
}

/// Names and values as they stand in a query.
pub open spec fn sent(pairs: Seq<(Seq<char>, Seq<char>)>) -> Seq<char> {
    text::join(pairs.map_values(|p: (Seq<char>, Seq<char>)| sent_pair(p)), seq!['&'])
}

/// A name and a value can be told from what stands around them in a query,
/// and are written for others.
pub open spec fn sends(e: (Seq<char>, Seq<char>), p: (Seq<char>, Seq<char>)) -> bool {
    &&& text::lacks(e.0, '&') && text::lacks(e.0, '=') && text::lacks(e.1, '&')
    &&& writes_text(e.0, p.0)
    &&& writes_text(e.1, p.1)
}

proof fn lemma_pairs(written: Seq<(Seq<char>, Seq<char>)>, pairs: Seq<(Seq<char>, Seq<char>)>)
    requires
        written.len() == pairs.len(),
        forall|i: int| 0 <= i < pairs.len() ==> sends(#[trigger] written[i], pairs[i]),
    ensures
        query::parts_map(written.map_values(|p: (Seq<char>, Seq<char>)| sent_pair(p)))
            == query::map_of(pairs),
    decreases pairs.len(),
{
    let parts = written.map_values(|p: (Seq<char>, Seq<char>)| sent_pair(p));
    if pairs.len() > 0 {
        let n = pairs.len() - 1;
        let front = written.drop_last();
        assert forall|i: int| 0 <= i < n implies sends(#[trigger] front[i], pairs.drop_last()[i]) by {
            assert(sends(written[i], pairs[i]));
        }
        lemma_pairs(front, pairs.drop_last());
        assert(parts.drop_last() =~= front.map_values(
            |p: (Seq<char>, Seq<char>)| sent_pair(p),
        ));
        let e = written[n];
        assert(sends(e, pairs[n]));
        let kv = sent_pair(e);
        assert(parts.last() == kv);
        let k = e.0.len() as int;
        assert forall|i: int| 0 <= i < k implies kv[i] != '=' by {
            assert(kv[i] == e.0[i]);
        }
        assert(kv[k] == '=');
        text::lemma_index_of_is(kv, '=', k);
        assert(kv.take(k) =~= e.0);
        assert(kv.skip(k + 1) =~= e.1);
        law_decoding_gives_back_texts(e.0, pairs[n].0);
        law_decoding_gives_back_texts(e.1, pairs[n].1);
        assert(query::pair(kv) == Some(pairs[n]));
    } else {
        assert(query::parts_map(parts) =~= query::map_of(pairs));
    }
}

/// The names and values of a query arrive as they were sent; of two values for
/// one name the later counts.
pub proof fn law_queries_arrive(
    written: Seq<(Seq<char>, Seq<char>)>,
    pairs: Seq<(Seq<char>, Seq<char>)>,
)
    requires
        written.len() == pairs.len(),
        forall|i: int| 0 <= i < pairs.len() ==> sends(#[trigger] written[i], pairs[i]),
    ensures
        query::params(sent(written)) == query::map_of(pairs),
{
    let parts = written.map_values(|p: (Seq<char>, Seq<char>)| sent_pair(p));
    lemma_pairs(written, pairs);
    if pairs.len() > 0 {
        assert forall|i: int| 0 <= i < parts.len() implies text::lacks(#[trigger] parts[i], '&') by {
            assert(sends(written[i], pairs[i]));
            assert(parts[i] == sent_pair(written[i]));
            let (a, b) = written[i];
            assert forall|k: int| 0 <= k < parts[i].len() implies parts[i][k] != '&' by {
                if k < a.len() {
                    assert(parts[i][k] == a[k]);
                } else if k > a.len() {
                    assert(parts[i][k] == b[k - a.len() - 1]);
                }
            }
        }
        lemma_split_of_join(parts, '&');
    } else {
        let s = sent(written);
        assert(s.len() == 0);
        text::lemma_index_of_is(s, '&', 0);
        text::lemma_index_of_is(s, '=', 0);
        assert(text::split(s, '&') == seq![s]);
        assert(query::pair(s) is None);
        assert(seq![s].drop_last() =~= Seq::<Seq<char>>::empty());
        assert(seq![s].last() == s);
        assert(query::parts_map(seq![s]) == query::parts_map(Seq::<Seq<char>>::empty()));
        assert(parts =~= Seq::<Seq<char>>::empty());
    }
}

} // verus!
