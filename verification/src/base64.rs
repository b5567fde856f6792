//! Base64, which `docling_core` writes.

use vstd::prelude::*;

verus! {

/// The character for six bits.
pub open spec fn sextet(n: int) -> char {
    if n < 26 {
        (65 + n) as char
    } else if n < 52 {
        (71 + n) as char
    } else if n < 62 {
        (n - 4) as char
    } else if n == 62 {
        '+'
    } else {
        '/'
    }
}

/// Bytes in the standard alphabet of base64, padded with `=`.
pub open spec fn base64(s: Seq<u8>) -> Seq<char>
    decreases s.len(),
{
    if s.len() == 0 {
        seq![]
    } else {
        let a = s[0] as int;
        let b = if s.len() > 1 {
            s[1] as int
        } else {
            0
        };
        let c = if s.len() > 2 {
            s[2] as int
        } else {
            0
        };
        let group = seq![
            sextet(a / 4),
            sextet(a % 4 * 16 + b / 16),
            if s.len() > 1 {
                sextet(b % 16 * 4 + c / 64)
            } else {
                '='
            },
            if s.len() > 2 {
                sextet(c % 64)
            } else {
                '='
            },
        ];
        group + if s.len() > 3 {
            base64(s.skip(3))
        } else {
            seq![]
        }
    }
}

/// `docling_core::base64::encode` writes bytes in the standard alphabet of
/// base64, with padding.
#[verifier::external_body]
pub(crate) fn encode(data: &[u8]) -> (r: String)
    ensures
        r@ == base64(data@),
{
    docling_core::base64::encode(data)
}

} // verus!
