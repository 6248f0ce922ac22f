//! The BLAKE3 hasher and what is relied on of it.
use vstd::prelude::*;

verus! {

/// A hash value.
pub type Hash = [u8; 32];

/// The BLAKE3 hasher, an opaque value.
#[verifier::external_type_specification]
#[verifier::external_body]
pub struct ExHasher(blake3::Hasher);

/// The bytes that a hasher holds: those that it was fed since it was made or last reset.
pub uninterp spec fn hasher_input(hasher: blake3::Hasher) -> Seq<u8>;

/// The key words and flags that a hasher was made with, empty for the plain hash function.
pub uninterp spec fn hasher_mode(hasher: blake3::Hasher) -> Seq<u8>;

/// The BLAKE3 hash of some bytes under a mode.
pub uninterp spec fn blake3_digest(mode: Seq<u8>, input: Seq<u8>) -> Seq<u8>;

/// `blake3::Hasher::new` makes a hasher of the plain hash function, which has been fed nothing.
pub assume_specification[ blake3::Hasher::new ]() -> (hasher: blake3::Hasher)
    ensures
        hasher_input(hasher) == Seq::<u8>::empty(),
        hasher_mode(hasher) == Seq::<u8>::empty(),
;

/// `blake3::Hasher::update` feeds some bytes behind those that the hasher holds, keeps the mode,
/// and hands the same hasher back.
pub assume_specification<'a, 'b>[ blake3::Hasher::update ](
    hasher: &'a mut blake3::Hasher,
    input: &'b [u8],
) -> (fed: &'a mut blake3::Hasher)
    ensures
        hasher_input(*fed) == hasher_input(*old(hasher)) + input@,
        hasher_mode(*fed) == hasher_mode(*old(hasher)),
        *final(hasher) == *final(fed),
;

/// `blake3::Hasher::reset` makes the hasher hold nothing, keeps the mode, and hands the same hasher
/// back.
pub assume_specification[ blake3::Hasher::reset ](hasher: &mut blake3::Hasher) -> (cleared:
    &mut blake3::Hasher)
    ensures
        hasher_input(*cleared) == Seq::<u8>::empty(),
        hasher_mode(*cleared) == hasher_mode(*old(hasher)),
        *final(hasher) == *final(cleared),
;

/// Calls `blake3::Hasher::finalize`: the hash depends on nothing but the mode of the hasher and the
/// bytes that it holds, and the hasher stays as it is.
#[verifier::external_body]
pub(crate) fn finalize(hasher: &blake3::Hasher) -> (digest: Hash)
    ensures
        digest@ == blake3_digest(hasher_mode(*hasher), hasher_input(*hasher)),
{
    hasher.finalize().into()
}

} // verus!
