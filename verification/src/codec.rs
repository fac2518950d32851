//! The two outside codecs the archiver leans on: the SHA-1 digest used as a
//! dedup key, and LZF compression for the chunk payload.
//!
//! Their results are named (`sha1_of`, `lzf_of`) rather than written out:
//! nothing here re-states either algorithm, only what the crates' own
//! documentation promises of them.

use vstd::prelude::*;

verus! {

/// The SHA-1 digest of a byte sequence, named but not defined.
pub uninterp spec fn sha1_of(b: Seq<u8>) -> Seq<u8>;

/// What LZF compression makes of a byte sequence: its compressed form, or
/// nothing when the data cannot be made smaller.
pub uninterp spec fn lzf_of(b: Seq<u8>) -> Option<Seq<u8>>;

/// Computes the SHA-1 digest of the bytes.
///
/// Relies on `sha1::Sha1::digest`: a 20-byte digest that depends on the
/// bytes alone.
#[verifier::external_body]
pub fn sha1_digest(b: &[u8]) -> (r: Vec<u8>)
    ensures
        r@ == sha1_of(b@),
        r@.len() == 20,
{
    <sha1::Sha1 as sha1::Digest>::digest(b).as_slice().to_vec()
}

/// Compresses the bytes, or reports that no smaller form exists.
///
/// Relies on `lzf::compress`: deterministic in its input; it returns an
/// error when the input is under two bytes or the output would not fit the
/// input's size, and never a buffer larger than the input.
#[verifier::external_body]
pub fn lzf_pack(b: &[u8]) -> (r: Option<Vec<u8>>)
    ensures
        match r {
            Some(c) => lzf_of(b@) == Some(c@) && c@.len() <= b@.len(),
            None => lzf_of(b@) is None,
        },
{
    match lzf::compress(b) {
        Ok(v) => Some(v),
        Err(_) => None,
    }
}

/// What LZF decompression makes of candidate bytes and an expected length,
/// named but not defined: it depends on the two arguments alone.
pub uninterp spec fn lzf_unpacked_of(c: Seq<u8>, n: int) -> Option<Seq<u8>>;

/// Whether `d` is the one byte sequence of length `n` that LZF compresses
/// into `c`.
pub open spec fn is_lzf_preimage(d: Seq<u8>, c: Seq<u8>, n: int) -> bool {
    forall|o: Seq<u8>| #[trigger] lzf_of(o) == Some(c) && o.len() == n ==> o == d
}

/// Decompresses `c` into a buffer expected to be `n` bytes long.
///
/// Relies on `lzf::decompress`: it is deterministic in `(c, n)` — named
/// `lzf_unpacked_of` — and inverts `lzf::compress`, so when `c` is the
/// compressed form of an `n`-byte input, that input comes back, and nothing
/// else can.
#[verifier::external_body]
pub fn lzf_unpack(c: &[u8], n: usize) -> (r: Option<Vec<u8>>)
    ensures
        r matches Some(d) ==> lzf_unpacked_of(c@, n as int) == Some(d@),
        r is None ==> lzf_unpacked_of(c@, n as int) is None,
        r is Some <== exists|o: Seq<u8>| #[trigger] lzf_of(o) == Some(c@) && o.len() == n,
        r matches Some(d) ==> d@.len() <= n && is_lzf_preimage(d@, c@, n as int),
{
    match lzf::decompress(c, n) {
        Ok(v) => Some(v),
        Err(_) => None,
    }
}

} // verus!
