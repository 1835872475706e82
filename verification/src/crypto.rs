//! The digest and the encoding that the opening handshake applies to the
//! client's key, computed by the `sha1` and `base64` crates.
use vstd::prelude::*;
use sha1::{Digest, Sha1};

verus! {

/// The SHA-1 digest of `data`, as the `sha1` crate computes it.
pub uninterp spec fn sha1_of(data: Seq<u8>) -> Seq<u8>;

/// The standard (RFC 4648 alphabet, padded) Base64 text of `data`, as
/// `base64::encode` computes it.
pub uninterp spec fn base64_of(data: Seq<u8>) -> Seq<char>;

/// Calls `<sha1::Sha1 as digest::Digest>::digest` (a fresh hasher, one
/// `update` with `data`, `finalize`). Claimed: the result is the name
/// [`sha1_of`] applied to `data`, and it is 20 bytes long (`Sha1`'s
/// `OutputSize` is `U20`). Nothing is stated of the digest's value.
#[verifier::external_body]
pub(crate) fn sha1_digest(data: &[u8]) -> (r: Vec<u8>)
    ensures
        r@ == sha1_of(data@),
        r@.len() == 20,
{
    Sha1::digest(data).to_vec()
}

/// Calls `base64::encode`, which encodes with the `STANDARD` configuration.
/// Claimed: the result is the name [`base64_of`] applied to `data`, four
/// characters for every started group of three bytes (`encoded_size` with
/// padding), of which the last `(3 - n % 3) % 3` are the padding `=`
/// (`add_padding`). `encode` panics where that size overflows a `usize`, which
/// `requires` leaves out. Nothing is stated of the other characters.
#[verifier::external_body]
pub(crate) fn base64_encode(data: &[u8]) -> (r: String)
    requires
        (data@.len() + 2) / 3 * 4 <= usize::MAX,
    ensures
        r@ == base64_of(data@),
        r@.len() == (data@.len() + 2) / 3 * 4,
        forall|i: int|
            r@.len() - (3 - data@.len() % 3) % 3 <= i < r@.len() ==> #[trigger] r@[i] == '=',
{
    base64::encode(data)
}

} // verus!
