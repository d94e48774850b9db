//! Content hashes: SHA-1 digests written as lowercase hexadecimal.
use sha1::Digest;
use vstd::prelude::*;

verus! {

/// The SHA-1 digest of `data`.
pub uninterp spec fn sha1_digest(data: Seq<u8>) -> Seq<u8>;

/// Relies on `sha1::Sha1::digest`: the SHA-1 digest of the bytes, twenty
/// bytes long.
#[verifier::external_body]
fn sha1_of(data: &[u8]) -> (r: Vec<u8>)
    ensures
        r@ == sha1_digest(data@),
        r@.len() == 20,
{
    sha1::Sha1::digest(data).to_vec()
}

/// The lowercase hexadecimal digit for `v`, which is below sixteen.
pub open spec fn hex_digit(v: u8) -> char {
    if v < 10 {
        ('0' as u8 + v) as char
    } else {
        ('a' as u8 + (v - 10)) as char
    }
}

/// Two lowercase hexadecimal digits per byte, high half first.
pub open spec fn hex_of(b: Seq<u8>) -> Seq<char>
    decreases b.len(),
{
    if b.len() == 0 {
        Seq::empty()
    } else {
        hex_of(b.drop_last()).push(hex_digit(b.last() / 16)).push(hex_digit(b.last() % 16))
    }
}

/// `c` is a digit or a lowercase letter from `a` to `f`.
pub open spec fn is_lower_hex_char(c: char) -> bool {
    ('0' <= c && c <= '9') || ('a' <= c && c <= 'f')
}

/// Relies on `base16ct::lower::encode_string`: two lowercase hexadecimal
/// digits per byte, high half first. It panics only on inputs longer than
/// half the address space.
#[verifier::external_body]
fn lower_hex(bytes: &[u8]) -> (r: String)
    requires
        bytes@.len() <= usize::MAX / 2,
    ensures
        r@ == hex_of(bytes@),
{
    base16ct::lower::encode_string(bytes)
}

/// The hex form of `b` has two lowercase hexadecimal digits per byte.
pub proof fn lemma_hex_shape(b: Seq<u8>)
    ensures
        hex_of(b).len() == 2 * b.len(),
        forall|i: int| 0 <= i < hex_of(b).len() ==> is_lower_hex_char(#[trigger] hex_of(b)[i]),
    decreases b.len(),
{
    if b.len() > 0 {
        lemma_hex_shape(b.drop_last());
        let hi = b.last() / 16;
        let lo = b.last() % 16;
        assert(is_lower_hex_char(hex_digit(hi)));
        assert(is_lower_hex_char(hex_digit(lo)));
    }
}

/// The hash of a file's bytes and their count: the SHA-1 digest of `data` in
/// lowercase hexadecimal, forty characters long.
pub fn calc_hash(data: &[u8]) -> (r: (String, u64))
    ensures
        r.0@ == hex_of(sha1_digest(data@)),
        r.0@.len() == 40,
        forall|i: int| 0 <= i < r.0@.len() ==> is_lower_hex_char(#[trigger] r.0@[i]),
        r.1 == data@.len(),
{
    let digest = sha1_of(data);
    let hash = lower_hex(digest.as_slice());
    proof {
        lemma_hex_shape(digest@);
    }
    (hash, data.len() as u64)
}

/// Hashing the same bytes twice gives the same text, made of lowercase
/// hexadecimal digits, two per byte of the digest (forty, as `calc_hash`
/// states).
pub proof fn lemma_hash_repeatable(first: Seq<u8>, second: Seq<u8>)
    requires
        first == second,
    ensures
        hex_of(sha1_digest(first)) == hex_of(sha1_digest(second)),
        hex_of(sha1_digest(first)).len() == 2 * sha1_digest(first).len(),
        forall|i: int|
            0 <= i < hex_of(sha1_digest(second)).len() ==> is_lower_hex_char(#[trigger] hex_of(sha1_digest(second))[i]),
{
    lemma_hex_shape(sha1_digest(first));
}

} // verus!
