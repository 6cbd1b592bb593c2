//! Content fingerprints.
use vstd::prelude::*;

verus! {

/// The BLAKE3 digest of some bytes.
pub uninterp spec fn blake3_digest(input: Seq<u8>) -> Seq<u8>;

/// `blake3::hash` returns the 32-byte digest of its input, a function of the input alone.
#[verifier::external_body]
pub(crate) fn blake3_hash(input: &[u8]) -> (r: [u8; 32])
    ensures
        r@ == blake3_digest(input@),
{
    *blake3::hash(input).as_bytes()
}

/// Fingerprint of a text.
pub fn hash_text(value: &str) -> (r: [u8; 32])
    ensures
        r@ == blake3_digest(vstd::utf8::encode_utf8(value@)),
{
    blake3_hash(value.as_bytes())
}

/// The file a compiled artifact is cached under: its fingerprint in hexadecimal.
pub open spec fn cache_file(hash: Seq<u8>) -> Seq<char> {
    crate::text::hex_bytes(hash) + ".cwasm"@
}

pub fn hash_filename(hash: &[u8; 32]) -> (r: String)
    ensures
        r@ == cache_file(hash@),
{
    let mut out = String::new();
    crate::text::push_hex_all(&mut out, hash.as_slice());
    proof {
        assert(out@ =~= crate::text::hex_bytes(hash@));
    }
    out.append(".cwasm");
    out
}

} // verus!
