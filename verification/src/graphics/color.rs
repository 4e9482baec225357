//! Hexadecimal colour codes (`#RRGGBB`, `RRGGBB`, `#RGB`, `RGB`).
use vstd::prelude::*;
use vstd::string::StringSliceAdditionalSpecFns;

verus! {

/// Why a hexadecimal colour code could not be read.
#[derive(Clone, Copy, PartialEq, Eq, Structural, Debug)]
pub enum HexError {
    /// After the leading `#` signs there are neither 3 nor 6 bytes
    Malformed,
    /// A pair of bytes is not a hexadecimal number
    InvalidDigit,
}

/// The value of a hexadecimal digit.
pub open spec fn hex_digit(c: u8) -> Option<u8> {
    if 48u8 <= c <= 57u8 {
        Some((c - 48) as u8)
    } else if 65u8 <= c <= 70u8 {
        Some((c - 55) as u8)
    } else if 97u8 <= c <= 102u8 {
        Some((c - 87) as u8)
    } else {
        None
    }
}

/// A two-byte component as `u8::from_str_radix(_, 16)` reads it: two digits, or a `+`
/// sign and one digit.
pub open spec fn hex_pair(a: u8, b: u8) -> Option<u8> {
    if a == 43u8 {
        hex_digit(b)
    } else if hex_digit(a) is Some && hex_digit(b) is Some {
        Some((hex_digit(a).unwrap() * 16 + hex_digit(b).unwrap()) as u8)
    } else {
        None
    }
}

/// The code without its leading `#` signs.
pub open spec fn trim_hashes(s: Seq<u8>) -> Seq<u8>
    decreases s.len(),
{
    if s.len() > 0 && s[0] == 35u8 {
        trim_hashes(s.drop_first())
    } else {
        s
    }
}

/// The red, green and blue components of six code bytes.
pub open spec fn rgb_of_six(t: Seq<u8>) -> Result<[u8; 3], HexError> {
    let r = hex_pair(t[0], t[1]);
    let g = hex_pair(t[2], t[3]);
    let b = hex_pair(t[4], t[5]);
    if r is Some && g is Some && b is Some {
        Ok([r.unwrap(), g.unwrap(), b.unwrap()])
    } else {
        Err(HexError::InvalidDigit)
    }
}

/// The red, green and blue components of a colour code: after the leading `#` signs,
/// six bytes in pairs, or three bytes each standing for itself twice.
pub open spec fn hex_rgb_spec(s: Seq<u8>) -> Result<[u8; 3], HexError> {
    let t = trim_hashes(s);
    if t.len() == 6 {
        rgb_of_six(t)
    } else if t.len() == 3 {
        rgb_of_six(seq![t[0], t[0], t[1], t[1], t[2], t[2]])
    } else {
        Err(HexError::Malformed)
    }
}

fn digit_value(c: u8) -> (r: Option<u8>)
    ensures
        r == hex_digit(c),
{
    if 48u8 <= c && c <= 57u8 {
        Some(c - 48)
    } else if 65u8 <= c && c <= 70u8 {
        Some(c - 55)
    } else if 97u8 <= c && c <= 102u8 {
        Some(c - 87)
    } else {
        None
    }
}

fn pair_value(a: u8, b: u8) -> (r: Option<u8>)
    ensures
        r == hex_pair(a, b),
{
    if a == 43u8 {
        return digit_value(b);
    }
    match (digit_value(a), digit_value(b)) {
        (Some(x), Some(y)) => Some(x * 16 + y),
        _ => None,
    }
}

fn rgb_of(t0: u8, t1: u8, t2: u8, t3: u8, t4: u8, t5: u8) -> (r: Result<[u8; 3], HexError>)
    ensures
        r == rgb_of_six(seq![t0, t1, t2, t3, t4, t5]),
{
    match (pair_value(t0, t1), pair_value(t2, t3), pair_value(t4, t5)) {
        (Some(r), Some(g), Some(b)) => Ok([r, g, b]),
        _ => Err(HexError::InvalidDigit),
    }
}

/// Read the red, green and blue components of a hexadecimal colour code: the bytes of
/// `hex` after its leading `#` signs are six digits in pairs, or three digits that each
/// stand for a pair of themselves.
pub fn hex_to_rgb(hex: &str) -> (r: Result<[u8; 3], HexError>)
    ensures
        r == hex_rgb_spec(hex.spec_bytes()),
{
    let bytes: &[u8] = hex.as_bytes();
    let n: usize = bytes.len();
    let mut start: usize = 0;
    proof {
        assert(bytes@.subrange(0, n as int) =~= bytes@);
    }
    while start < n && bytes[start] == 35u8
        invariant
            start <= n,
            n == bytes@.len(),
            trim_hashes(bytes@) == trim_hashes(bytes@.subrange(start as int, n as int)),
        decreases n - start,
    {
        proof {
            assert(bytes@.subrange(start as int, n as int).drop_first()
                =~= bytes@.subrange(start + 1, n as int));
        }
        start = start + 1;
    }
    let t = Ghost(bytes@.subrange(start as int, n as int));
    assert(trim_hashes(bytes@) == t@);
    if n - start == 6 {
        let r = rgb_of(bytes[start], bytes[start + 1], bytes[start + 2], bytes[start + 3],
            bytes[start + 4], bytes[start + 5]);
        assert(seq![t@[0], t@[1], t@[2], t@[3], t@[4], t@[5]] =~= t@);
        r
    } else if n - start == 3 {
        let a: u8 = bytes[start];
        let b: u8 = bytes[start + 1];
        let c: u8 = bytes[start + 2];
        rgb_of(a, a, b, b, c, c)
    } else {
        Err(HexError::Malformed)
    }
}

/// Leading `#` signs do not change what a code reads as.
pub proof fn lemma_hash_prefix_ignored(s: Seq<u8>)
    ensures
        hex_rgb_spec(seq![35u8] + s) == hex_rgb_spec(s),
{
    assert((seq![35u8] + s).drop_first() =~= s);
}

/// A three-digit code reads as the six-digit code that writes each digit twice.
pub proof fn lemma_short_form_doubles(s: Seq<u8>)
    requires
        trim_hashes(s).len() == 3,
    ensures
        ({
            let t = trim_hashes(s);
            hex_rgb_spec(s) == hex_rgb_spec(seq![t[0], t[0], t[1], t[1], t[2], t[2]])
        }),
{
    lemma_trim_hashes_start(s);
    let t = trim_hashes(s);
    let six = seq![t[0], t[0], t[1], t[1], t[2], t[2]];
    assert(six[0] != 35u8);
    assert(trim_hashes(six) == six);
}

proof fn lemma_trim_hashes_start(s: Seq<u8>)
    ensures
        trim_hashes(s).len() > 0 ==> trim_hashes(s)[0] != 35u8,
    decreases s.len(),
{
    if s.len() > 0 && s[0] == 35u8 {
        lemma_trim_hashes_start(s.drop_first());
    }
}

} // verus!
