//! The SHA-1 digest of a buffer, as lower-case hexadecimal text.

use crypto::digest::Digest;
use crypto::sha1::Sha1;
use vstd::prelude::*;

verus! {

/// The SHA-1 digest of `data`, written as hexadecimal text.
pub uninterp spec fn sha1_hex(data: Seq<u8>) -> Seq<char>;

/// Whether `c` is a digit of lower-case hexadecimal.
pub open spec fn is_hex_digit(c: char) -> bool {
    ('0' <= c && c <= '9') || ('a' <= c && c <= 'f')
}

/// Whether `text` is made of lower-case hexadecimal digits alone.
pub open spec fn is_hex(text: Seq<char>) -> bool {
    forall|i: int| 0 <= i < text.len() ==> is_hex_digit(#[trigger] text[i])
}

/// The longest input, in bytes, whose length in bits the hasher can count.
pub const MAX_DIGEST_INPUT: u64 = 0x1fff_ffff_ffff_ffff;

/// Runs `crypto::sha1::Sha1` over `v` with a fresh hasher (`Sha1::new`,
/// `Digest::input`, `Digest::result_str`). Believed of it: the text it
/// returns is the digest of the bytes given, a function of those bytes
/// alone, and is 40 characters long, two for each of the 20 bytes of the
/// digest, each a lower-case hexadecimal digit: `result_str` writes every
/// character from a table of those sixteen. The hasher counts its input
/// in bits in 64 bits and stops the program where that count overflows, so
/// longer inputs are left out.
#[verifier::external_body]
fn sha1sync(v: &[u8]) -> (r: String)
    requires
        v@.len() <= MAX_DIGEST_INPUT,
    ensures
        r@ == sha1_hex(v@),
        r@.len() == 40,
        is_hex(r@),
{
    let mut hasher = Sha1::new();
    hasher.input(v);
    hasher.result_str()
}

/// The digest of `v` as 40 digits of lower-case hexadecimal, or `None`
/// where `v` is longer than the hasher can count.
pub fn hex_digest(v: &[u8]) -> (r: Option<String>)
    ensures
        match r {
            Some(s) => v@.len() <= MAX_DIGEST_INPUT && s@ == sha1_hex(v@) && s@.len() == 40
                && is_hex(s@),
            None => v@.len() > MAX_DIGEST_INPUT,
        },
{
    if v.len() as u64 <= MAX_DIGEST_INPUT {
        Some(sha1sync(v))
    } else {
        None
    }
}

} // verus!
