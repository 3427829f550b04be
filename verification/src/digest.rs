//! SHA-256 fingerprint of a sample, as lowercase hex.
use sha2::{Digest, Sha256};
use vstd::prelude::*;

use crate::emit::{lower_digit, lower_digit_char};
use crate::text::push_char;

verus! {

/// The SHA-256 digest of `data`.
pub uninterp spec fn sha256_of(data: Seq<u8>) -> Seq<u8>;

/// `sha2::Sha256::digest`: the SHA-256 digest of `data`, 32 bytes long.
#[verifier::external_body]
fn sha256(data: &[u8]) -> (r: Vec<u8>)
    ensures
        r@ == sha256_of(data@),
        r@.len() == 32,
{
    Sha256::digest(data).to_vec()
}

/// Each byte of `bytes` as two lowercase hex digits, with no separator.
pub open spec fn lower_hex_bytes(bytes: Seq<u8>) -> Seq<char>
    decreases bytes.len(),
{
    if bytes.len() == 0 {
        Seq::empty()
    } else {
        lower_hex_bytes(bytes.drop_last()) + seq![
            lower_digit(bytes.last() as nat / 16),
            lower_digit(bytes.last() as nat % 16),
        ]
    }
}

/// The SHA-256 digest of `data` in lowercase hex (64 characters).
pub fn sha256_hex(data: &[u8]) -> (r: String)
    ensures
        r@ == lower_hex_bytes(sha256_of(data@)),
        r@.len() == 64,
{
    let digest = sha256(data);
    let mut out = String::new();
    let mut i: usize = 0;
    while i < digest.len()
        invariant
            i <= digest@.len(),
            out@ == lower_hex_bytes(digest@.take(i as int)),
        decreases digest@.len() - i,
    {
        assert(digest@.take(i as int + 1).drop_last() =~= digest@.take(i as int));
        push_char(&mut out, lower_digit_char((digest[i] / 16) as u64));
        push_char(&mut out, lower_digit_char((digest[i] % 16) as u64));
        i += 1;
    }
    assert(digest@.take(i as int) =~= digest@);
    proof {
        lemma_lower_hex_bytes_shape(digest@);
    }
    out
}


/// The hex text of a byte string has two lowercase hexadecimal digits per byte.
pub proof fn lemma_lower_hex_bytes_shape(bytes: Seq<u8>)
    ensures
        lower_hex_bytes(bytes).len() == 2 * bytes.len(),
        forall|i: int|
            0 <= i < lower_hex_bytes(bytes).len() ==> ('0' <= #[trigger] lower_hex_bytes(bytes)[i] <= '9') || ('a'
                <= lower_hex_bytes(bytes)[i] <= 'f'),
    decreases bytes.len(),
{
    if bytes.len() > 0 {
        let prev = lower_hex_bytes(bytes.drop_last());
        let cur = lower_hex_bytes(bytes);
        lemma_lower_hex_bytes_shape(bytes.drop_last());
        assert forall|i: int| 0 <= i < cur.len() implies ('0' <= #[trigger] cur[i] <= '9') || ('a' <= cur[i] <= 'f') by {
            if i < prev.len() {
                assert(cur[i] == prev[i]);
            }
        }
    }
}

} // verus!
