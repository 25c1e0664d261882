//! Canonical byte encoding.
//!
//! Every structure the engine hashes or seals is laid out with the same three
//! primitives: a 64-bit little-endian integer, a length-prefixed byte string,
//! and a length-prefixed UTF-8 string.  The encoding is deterministic, so a
//! digest over it can be reproduced off-line.

use vstd::prelude::*;
use vstd::bytes::{
    lemma_auto_spec_u64_to_from_le_bytes, spec_u64_from_le_bytes, spec_u64_to_le_bytes,
    u64_from_le_bytes, u64_to_le_bytes,
};
use vstd::slice::{slice_subrange, slice_to_vec};
use vstd::utf8::{decode_utf8, encode_utf8, encode_utf8_decode_utf8, encode_utf8_valid_utf8, valid_utf8};

verus! {

/// A 64-bit value, little endian.
pub open spec fn enc_u64(n: u64) -> Seq<u8> {
    spec_u64_to_le_bytes(n)
}

/// An encoded 64-bit value takes eight bytes.
pub broadcast proof fn lemma_enc_u64_len(n: u64)
    ensures
        (#[trigger] enc_u64(n)).len() == 8,
{
    lemma_auto_spec_u64_to_from_le_bytes();
}

/// A byte string: its length as `enc_u64`, then its bytes.
pub open spec fn enc_bytes(b: Seq<u8>) -> Seq<u8>
    recommends
        b.len() <= u64::MAX,
{
    enc_u64(b.len() as u64) + b
}

/// A string: its UTF-8 bytes as `enc_bytes`.
pub open spec fn enc_str(s: Seq<char>) -> Seq<u8> {
    enc_bytes(encode_utf8(s))
}

/// Read a 64-bit little-endian value at position `i`.
pub open spec fn parse_u64(bytes: Seq<u8>, i: int) -> Option<(u64, int)> {
    if 0 <= i && i + 8 <= bytes.len() {
        Some((spec_u64_from_le_bytes(bytes.subrange(i, i + 8)), i + 8))
    } else {
        None
    }
}

/// Read a length-prefixed byte string at position `i`.
pub open spec fn parse_bytes(bytes: Seq<u8>, i: int) -> Option<(Seq<u8>, int)> {
    match parse_u64(bytes, i) {
        Option::None => Option::None,
        Option::Some((n, j)) => {
            if n <= bytes.len() - j {
                Some((bytes.subrange(j, j + n), j + n))
            } else {
                None
            }
        },
    }
}

/// Read a length-prefixed UTF-8 string at position `i`.
pub open spec fn parse_str(bytes: Seq<u8>, i: int) -> Option<(Seq<char>, int)> {
    match parse_bytes(bytes, i) {
        Option::None => Option::None,
        Option::Some((b, j)) => {
            if valid_utf8(b) {
                Some((decode_utf8(b), j))
            } else {
                None
            }
        },
    }
}

/// Parsing an encoded 64-bit value back yields the value.
pub proof fn lemma_parse_u64_at(bytes: Seq<u8>, i: int, n: u64)
    requires
        0 <= i,
        i + 8 <= bytes.len(),
        bytes.subrange(i, i + 8) == enc_u64(n),
    ensures
        parse_u64(bytes, i) == Some((n, i + 8)),
{
    lemma_auto_spec_u64_to_from_le_bytes();
}

/// Parsing an encoded byte string back yields the bytes.
pub proof fn lemma_parse_bytes_at(bytes: Seq<u8>, i: int, b: Seq<u8>)
    requires
        0 <= i,
        b.len() <= u64::MAX,
        i + 8 + b.len() <= bytes.len(),
        bytes.subrange(i, i + 8 + b.len()) == enc_bytes(b),
    ensures
        parse_bytes(bytes, i) == Some((b, i + 8 + b.len())),
{
    let whole = bytes.subrange(i, i + 8 + b.len());
    assert(bytes.subrange(i, i + 8) =~= whole.subrange(0, 8));
    assert(whole.subrange(0, 8) =~= enc_u64(b.len() as u64)) by {
        lemma_auto_spec_u64_to_from_le_bytes();
    }
    lemma_parse_u64_at(bytes, i, b.len() as u64);
    assert(bytes.subrange(i + 8, i + 8 + b.len()) =~= whole.subrange(8, 8 + b.len() as int));
    assert(whole.subrange(8, 8 + b.len() as int) =~= b);
}

/// Parsing an encoded string back yields the string.
pub proof fn lemma_parse_str_at(bytes: Seq<u8>, i: int, s: Seq<char>)
    requires
        0 <= i,
        encode_utf8(s).len() <= u64::MAX,
        i + 8 + encode_utf8(s).len() <= bytes.len(),
        bytes.subrange(i, i + 8 + encode_utf8(s).len()) == enc_str(s),
    ensures
        parse_str(bytes, i) == Some((s, i + 8 + encode_utf8(s).len())),
{
    lemma_parse_bytes_at(bytes, i, encode_utf8(s));
    encode_utf8_valid_utf8(s);
    encode_utf8_decode_utf8(s);
}

/// Append a 64-bit value, little endian.
pub fn write_u64(out: &mut Vec<u8>, n: u64)
    ensures
        final(out)@ == old(out)@ + enc_u64(n),
{
    let mut tail = u64_to_le_bytes(n);
    out.append(&mut tail);
}

/// Append a length-prefixed byte string.
pub fn write_bytes(out: &mut Vec<u8>, b: &[u8])
    ensures
        final(out)@ == old(out)@ + enc_bytes(b@),
        b@.len() <= usize::MAX,
{
    write_u64(out, b.len() as u64);
    let mut tail = slice_to_vec(b);
    out.append(&mut tail);
    assert(out@ =~= old(out)@ + enc_bytes(b@));
}

/// Append a length-prefixed UTF-8 string.
pub fn write_str(out: &mut Vec<u8>, s: &str)
    ensures
        final(out)@ == old(out)@ + enc_str(s@),
        encode_utf8(s@).len() <= usize::MAX,
{
    write_bytes(out, s.as_bytes());
}

/// Read a 64-bit little-endian value.
pub fn read_u64(bytes: &[u8], pos: usize) -> (r: Option<(u64, usize)>)
    ensures
        match parse_u64(bytes@, pos as int) {
            Option::Some((n, j)) => r matches Some(p) && p.0 == n && p.1 == j,
            Option::None => r is None,
        },
{
    if pos <= bytes.len() && bytes.len() - pos >= 8 {
        let field = slice_subrange(bytes, pos, pos + 8);
        Some((u64_from_le_bytes(field), pos + 8))
    } else {
        None
    }
}

/// Read a length-prefixed byte string.
pub fn read_bytes(bytes: &[u8], pos: usize) -> (r: Option<(Vec<u8>, usize)>)
    ensures
        match parse_bytes(bytes@, pos as int) {
            Option::Some((b, j)) => r matches Some(p) && p.0@ == b && p.1 == j,
            Option::None => r is None,
        },
{
    match read_u64(bytes, pos) {
        None => None,
        Some((n, next)) => {
            if n <= (bytes.len() - next) as u64 {
                let end = next + (n as usize);
                let field = slice_subrange(bytes, next, end);
                Some((slice_to_vec(field), end))
            } else {
                None
            }
        },
    }
}

/// Turn bytes into the string they encode, if they are valid UTF-8.
///
/// Relies on `String::from_utf8`: it succeeds exactly on valid UTF-8 input
/// and returns the string whose UTF-8 encoding is that input.
#[verifier::external_body]
fn bytes_to_string(b: Vec<u8>) -> (r: Option<String>)
    ensures
        r is Some <==> valid_utf8(b@),
        r matches Some(s) ==> encode_utf8(s@) == b@,
{
    String::from_utf8(b).ok()
}

/// Read a length-prefixed UTF-8 string.
pub fn read_str(bytes: &[u8], pos: usize) -> (r: Option<(String, usize)>)
    ensures
        match parse_str(bytes@, pos as int) {
            Option::Some((s, j)) => r matches Some(p) && p.0@ == s && p.1 == j,
            Option::None => r is None,
        },
{
    match read_bytes(bytes, pos) {
        None => None,
        Some((field, next)) => {
            proof {
                if valid_utf8(field@) {
                    encode_utf8_decode_utf8_view(field@);
                }
            }
            match bytes_to_string(field) {
                None => None,
                Some(s) => Some((s, next)),
            }
        },
    }
}

/// Decoding valid UTF-8 bytes and encoding the result gives the bytes back,
/// so a string read from the wire reproduces them exactly.
proof fn encode_utf8_decode_utf8_view(b: Seq<u8>)
    requires
        valid_utf8(b),
    ensures
        forall|s: Seq<char>| encode_utf8(s) == b ==> decode_utf8(b) == s,
{
    assert forall|s: Seq<char>| encode_utf8(s) == b implies decode_utf8(b) == s by {
        encode_utf8_decode_utf8(s);
    }
}

} // verus!
