//! Calls into outside crates and into parts of std that vstd leaves unspecified.

use vstd::prelude::*;

verus! {

/// What `str::to_lowercase` returns for a string, as characters.
pub uninterp spec fn lower_of(s: Seq<char>) -> Seq<char>;

/// What `xxhash_rust::xxh64::xxh64` with seed 0 returns for the UTF-8 bytes of a string.
pub uninterp spec fn xxh64_of(s: Seq<char>) -> u64;

/// Relies on `uuid::Uuid::new_v4`: a random identifier, here as its 128-bit value. The
/// version and variant bits are always set, so it is never the nil value; nothing else
/// is promised of it.
#[verifier::external_body]
pub(crate) fn fresh_id() -> (r: u128)
    ensures
        r != 0,
{
    uuid::Uuid::new_v4().as_u128()
}

/// Relies on `str::to_lowercase`: the result depends on the characters alone.
#[verifier::external_body]
pub(crate) fn lowercase(s: &str) -> (r: String)
    ensures
        r@ == lower_of(s@),
{
    s.to_lowercase()
}

/// Relies on `xxhash_rust::xxh64::xxh64`, called with seed 0 on the string's UTF-8 bytes:
/// the archive format's hash; the result depends on the characters alone.
#[verifier::external_body]
pub(crate) fn xxh64_str(s: &str) -> (r: u64)
    ensures
        r == xxh64_of(s@),
{
    xxhash_rust::xxh64::xxh64(s.as_bytes(), 0)
}

} // verus!
