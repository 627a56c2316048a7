//! Content digests: SHA-256, written as hexadecimal.
use sha2::Digest;
use vstd::prelude::*;
use crate::strings::{char_from_ascii, push_char};

verus! {

/// The SHA-256 digest of some bytes, as the `sha2` crate computes it.
pub uninterp spec fn sha256_digest(data: Seq<u8>) -> Seq<u8>;

/// `sha2::Sha256::digest`, collected into a vector. The contract names the
/// digest and states its length, 32 bytes.
#[verifier::external_body]
pub(crate) fn sha256(data: &[u8]) -> (r: Vec<u8>)
    ensures
        r@ == sha256_digest(data@),
        r@.len() == 32,
{
    sha2::Sha256::digest(data).to_vec()
}

pub open spec fn hex_digit(d: int) -> char {
    if d < 10 {
        (48 + d) as char
    } else {
        (87 + d) as char
    }
}

/// Bytes as lowercase hexadecimal, two digits each.
pub open spec fn hex_of(bytes: Seq<u8>) -> Seq<char>
    decreases bytes.len(),
{
    if bytes.len() == 0 {
        Seq::<char>::empty()
    } else {
        hex_of(bytes.drop_last()) + seq![hex_digit((bytes.last() / 16) as int), hex_digit((bytes.last() % 16) as int)]
    }
}

fn push_hex_digit(out: &mut String, d: u8)
    requires
        d < 16,
    ensures
        final(out)@ == old(out)@.push(hex_digit(d as int)),
{
    let code: u32 = if d < 10 { 48 + d as u32 } else { 87 + d as u32 };
    push_char(out, char_from_ascii(code));
}

/// The first `n` bytes of `bytes` in lowercase hexadecimal.
pub(crate) fn hex_prefix(bytes: &Vec<u8>, n: usize) -> (r: String)
    requires
        n <= bytes@.len(),
    ensures
        r@ == hex_of(bytes@.take(n as int)),
{
    let mut out = String::new();
    let mut i: usize = 0;
    while i < n
        invariant
            i <= n <= bytes@.len(),
            out@ == hex_of(bytes@.take(i as int)),
        decreases n - i,
    {
        let b = bytes[i];
        push_hex_digit(&mut out, b / 16);
        push_hex_digit(&mut out, b % 16);
        assert(bytes@.take(i + 1).drop_last() =~= bytes@.take(i as int));
        i = i + 1;
    }
    out
}

} // verus!
