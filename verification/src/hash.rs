//! SHA-256 digests, written as lower-case hexadecimal.

use vstd::prelude::*;
use sha2::{Digest, Sha256};
use crate::text::push_char;

verus! {

/// The SHA-256 digest of a byte string.
pub uninterp spec fn sha256(data: Seq<u8>) -> Seq<u8>;

/// `Sha256::digest` from the `sha2` crate: the 32-byte SHA-256 digest of the
/// data. The digest depends on the data alone and is named `sha256`; its
/// length is the one the algorithm fixes.
#[verifier::external_body]
pub(crate) fn sha256_digest(data: &[u8]) -> (out: Vec<u8>)
    ensures
        out@ == sha256(data@),
        out@.len() == 32,
{
    Sha256::digest(data).to_vec()
}

/// The lower-case hexadecimal digit of a value below sixteen.
pub open spec fn hex_digit(v: nat) -> char {
    if v < 10 {
        ((v + 48) as u8) as char
    } else {
        ((v + 87) as u8) as char
    }
}

/// Two lower-case hexadecimal digits per byte.
pub open spec fn hex_lower(data: Seq<u8>) -> Seq<char>
    decreases data.len(),
{
    if data.len() == 0 {
        seq![]
    } else {
        hex_lower(data.drop_last()).push(hex_digit((data.last() / 16) as nat)).push(
            hex_digit((data.last() % 16) as nat),
        )
    }
}

fn hex_char(v: u8) -> (c: char)
    requires
        v < 16,
    ensures
        c == hex_digit(v as nat),
{
    if v < 10 {
        (v + 48) as char
    } else {
        (v + 87) as char
    }
}

/// The bytes written as lower-case hexadecimal.
pub fn hex_string(data: &[u8]) -> (out: String)
    ensures
        out@ == hex_lower(data@),
        out@.len() == 2 * data@.len(),
{
    let mut out = String::new();
    let mut i: usize = 0;
    while i < data.len()
        invariant
            i <= data.len(),
            out@ == hex_lower(data@.take(i as int)),
            out@.len() == 2 * i,
        decreases data.len() - i,
    {
        let b = data[i];
        push_char(&mut out, hex_char(b / 16));
        push_char(&mut out, hex_char(b % 16));
        assert(data@.take(i + 1).drop_last() =~= data@.take(i as int));
        i = i + 1;
    }
    assert(data@.take(data.len() as int) =~= data@);
    out
}

/// The SHA-256 digest of the data, in lower-case hexadecimal.
pub fn sha256_hex(data: &[u8]) -> (out: String)
    ensures
        out@ == hex_lower(sha256(data@)),
        out@.len() == 64,
{
    let digest = sha256_digest(data);
    hex_string(digest.as_slice())
}

} // verus!
