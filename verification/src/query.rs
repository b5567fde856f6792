//! Query strings and the parameters of a request.

use vstd::prelude::*;

use crate::bytes;
use crate::text;

verus! {

broadcast use vstd::string::group_string_axioms;

/// ASCII codes.
pub const SPACE: u8 = 0x20;

pub const PERCENT: u8 = 0x25;

pub const PLUS: u8 = 0x2b;

pub const ZERO: u8 = 0x30;

pub const NINE: u8 = 0x39;

pub const UPPER_A: u8 = 0x41;

pub const UPPER_F: u8 = 0x46;

pub const LOWER_A: u8 = 0x61;

pub const LOWER_F: u8 = 0x66;

/// Names with their values; of two values for one name the later counts.
#[derive(Debug)]
pub struct Params {
    pairs: Vec<(String, String)>,
}

/// A list of pairs by its characters.
pub open spec fn pair_views(s: Seq<(String, String)>) -> Seq<(Seq<char>, Seq<char>)> {
    s.map_values(|p: (String, String)| (p.0@, p.1@))
}

/// The map that a list of pairs makes.
pub open spec fn map_of(s: Seq<(Seq<char>, Seq<char>)>) -> Map<Seq<char>, Seq<char>>
    decreases s.len(),
{
    if s.len() == 0 {
        Map::empty()
    } else {
        map_of(s.drop_last()).insert(s.last().0, s.last().1)
    }
}

impl View for Params {
    type V = Map<Seq<char>, Seq<char>>;

    closed spec fn view(&self) -> Map<Seq<char>, Seq<char>> {
        map_of(pair_views(self.pairs@))
    }
}

/// The value of a name, where it has one.
pub open spec fn value(m: Map<Seq<char>, Seq<char>>, name: Seq<char>) -> Option<Seq<char>> {
    if m.dom().contains(name) {
        Some(m[name])
    } else {
        None
    }
}

/// A name gets a value where it has none.
pub open spec fn with_default(
    m: Map<Seq<char>, Seq<char>>,
    name: Seq<char>,
    v: Seq<char>,
) -> Map<Seq<char>, Seq<char>> {
    if m.dom().contains(name) {
        m
    } else {
        m.insert(name, v)
    }
}

impl Params {
    /// No parameters.
    pub fn new() -> (r: Params)
        ensures
            r@ == Map::<Seq<char>, Seq<char>>::empty(),
    {
        Params { pairs: Vec::new() }
    }

    /// Whether there are no parameters.
    pub fn is_empty(&self) -> (r: bool)
        ensures
            r == (self@ == Map::<Seq<char>, Seq<char>>::empty()),
    {
        let ghost views = pair_views(self.pairs@);
        if self.pairs.len() > 0 {
            assert(self@.dom().contains(views.last().0));
            assert(!Map::<Seq<char>, Seq<char>>::empty().dom().contains(views.last().0));
        }
        self.pairs.len() == 0
    }

    /// The value of a name.
    pub fn get(&self, name: &str) -> (r: Option<&String>)
        ensures
            match r {
                Some(v) => value(self@, name@) == Some(v@),
                None => value(self@, name@) is None,
            },
    {
        let mut n: usize = self.pairs.len();
        let ghost views = pair_views(self.pairs@);
        assert(views.take(n as int) == views);
        while n > 0
            invariant
                n <= self.pairs@.len(),
                views == pair_views(self.pairs@),
                value(self@, name@) == value(map_of(views.take(n as int)), name@),
            decreases n,
        {
            assert(views.take(n as int).drop_last() == views.take(n - 1));
            assert(views.take(n as int).last() == views[n - 1]);
            if text::same(&self.pairs[n - 1].0, name) {
                return Some(&self.pairs[n - 1].1);
            }
            n -= 1;
        }
        None
    }

    /// Give a name a value, also where it has one.
    pub fn insert(&mut self, name: String, v: String)
        ensures
            final(self)@ == old(self)@.insert(name@, v@),
    {
        let ghost before = pair_views(self.pairs@);
        self.pairs.push((name, v));
        assert(pair_views(self.pairs@).drop_last() == before);
    }

    /// Give a name a value where it has none.
    pub fn or_insert(&mut self, name: String, v: String)
        ensures
            final(self)@ == with_default(old(self)@, name@, v@),
    {
        if self.get(&name).is_none() {
            self.insert(name, v);
        }
    }
}

/// The value of a hexadecimal digit.
pub open spec fn hex_value(b: u8) -> Option<u8> {
    if ZERO <= b <= NINE {
        Some((b - ZERO) as u8)
    } else if LOWER_A <= b <= LOWER_F {
        Some((b - LOWER_A + 10) as u8)
    } else if UPPER_A <= b <= UPPER_F {
        Some((b - UPPER_A + 10) as u8)
    } else {
        None
    }
}

fn hex_value_of(b: u8) -> (r: Option<u8>)
    ensures
        r == hex_value(b),
        match r {
            Some(v) => v < 16,
            None => true,
        },
{
    if ZERO <= b && b <= NINE {
        Some(b - ZERO)
    } else if LOWER_A <= b && b <= LOWER_F {
        Some(b - LOWER_A + 10)
    } else if UPPER_A <= b && b <= UPPER_F {
        Some(b - UPPER_A + 10)
    } else {
        None
    }
}

/// The byte that two characters write in hexadecimal; the first may be a sign.
pub open spec fn escape_value(a: u8, b: u8) -> Option<u8> {
    match (hex_value(a), hex_value(b)) {
        (Some(x), Some(y)) => Some((16 * x + y) as u8),
        (None, Some(y)) => if a == PLUS {
            Some(y)
        } else {
            None
        },
        _ => None,
    }
}

/// Bytes with `+` read as a space and `%` with two hexadecimal digits as the
/// byte that they write. Any other `%` stands for itself.
pub open spec fn decoded(s: Seq<u8>) -> Seq<u8>
    decreases s.len(),
{
    if s.len() == 0 {
        Seq::empty()
    } else if s[0] == PLUS {
        seq![SPACE] + decoded(s.skip(1))
    } else if s[0] == PERCENT && s.len() > 2 && escape_value(s[1], s[2]) is Some {
        seq![escape_value(s[1], s[2])->0] + decoded(s.skip(3))
    } else {
        seq![s[0]] + decoded(s.skip(1))
    }
}

/// Decode the bytes of a query.
pub fn decode_bytes(s: &[u8]) -> (r: Vec<u8>)
    ensures
        r@ == decoded(s@),
{
    let mut out: Vec<u8> = Vec::new();
    let mut i: usize = 0;
    assert(s@.skip(0) == s@);
    assert(out@ + decoded(s@) == decoded(s@));
    while i < s.len()
        invariant
            i <= s@.len(),
            decoded(s@) == out@ + decoded(s@.skip(i as int)),
        decreases s@.len() - i,
    {
        let ghost rest = s@.skip(i as int);
        let ghost before = out@;
        let b = s[i];
        let mut step: usize = 1;
        let mut byte: u8 = b;
        if b == PLUS {
            byte = SPACE;
        } else if b == PERCENT && s.len() - i > 2 {
            match (hex_value_of(s[i + 1]), hex_value_of(s[i + 2])) {
                (Some(x), Some(y)) => {
                    byte = 16 * x + y;
                    step = 3;
                },
                (None, Some(y)) => {
                    if s[i + 1] == PLUS {
                        byte = y;
                        step = 3;
                    }
                },
                _ => {},
            }
        }
        out.push(byte);
        assert(rest.skip(step as int) == s@.skip(i + step));
        assert(decoded(rest) == seq![byte] + decoded(rest.skip(step as int)));
        assert(before + (seq![byte] + decoded(rest.skip(step as int))) == out@ + decoded(
            rest.skip(step as int),
        ));
        i += step;
    }
    assert(out@ + Seq::<u8>::empty() == out@);
    out
}

/// A text with the escapes of a query decoded.
pub open spec fn decoded_text(s: Seq<char>) -> Seq<char> {
    bytes::spelled(decoded(vstd::utf8::encode_utf8(s)))
}

/// Decode the escapes of a query in a text.
pub fn percent_decode(s: &str) -> (r: String)
    ensures
        r@ == decoded_text(s@),
{
    let out = decode_bytes(s.as_bytes());
    bytes::spell(&out)
}

/// A part of a query as a name and a value, where there is a `=` in it.
pub open spec fn pair(kv: Seq<char>) -> Option<(Seq<char>, Seq<char>)> {
    let i = text::index_of(kv, '=');
    if i < kv.len() {
        Some((decoded_text(kv.take(i)), decoded_text(kv.skip(i + 1))))
    } else {
        None
    }
}

/// The map that the parts of a query make.
pub open spec fn parts_map(parts: Seq<Seq<char>>) -> Map<Seq<char>, Seq<char>>
    decreases parts.len(),
{
    if parts.len() == 0 {
        Map::empty()
    } else {
        let m = parts_map(parts.drop_last());
        match pair(parts.last()) {
            Some((k, v)) => m.insert(k, v),
            None => m,
        }
    }
}

/// The parameters of a query.
pub open spec fn params(query: Seq<char>) -> Map<Seq<char>, Seq<char>> {
    parts_map(text::split(query, '&'))
}

/// Read a query; of two values for one name the later counts.
pub fn parse_query(query: &str) -> (r: Params)
    ensures
        r@ == params(query@),
{
    let v = text::chars_of(query);
    let parts = text::split_on(&v, '&');
    let ghost all = text::views(parts@);
    let mut out = Params::new();
    for i in 0..parts.len()
        invariant
            all == text::views(parts@),
            out@ == parts_map(all.take(i as int)),
    {
        assert(all.take(i + 1).drop_last() == all.take(i as int));
        assert(all.take(i + 1).last() == parts@[i as int]@);
        let kv = &parts[i];
        let at: usize = text::position_of(kv, '=');
        if at < kv.len() {
            let k = vstd::slice::slice_subrange(kv, 0, at);
            let w = vstd::slice::slice_subrange(kv, at + 1, kv.len());
            assert(k@ == kv@.take(at as int));
            assert(w@ == kv@.skip(at + 1));
            let name = percent_decode(&text::string_of(k));
            let val = percent_decode(&text::string_of(w));
            out.insert(name, val);
        }
    }
    assert(all.take(all.len() as int) == all);
    out
}

} // verus!
