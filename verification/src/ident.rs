//! Node identities: a fresh 128-bit identifier for every node, and its
//! rendering as the node's on-disk file name.
use vstd::prelude::*;

verus! {

/// Relies on uuid::Uuid::new_v4 for a freshly drawn random identifier;
/// nothing is assumed about the value. Aborts only if the operating
/// system's randomness source fails, an environmental failure no input
/// condition can exclude.
#[verifier::external_body]
pub fn fresh_id() -> u128 {
    uuid::Uuid::new_v4().as_u128()
}

/// The canonical hyphenated text of an identity, as uuid renders it:
/// a fixed function of the identity alone.
pub uninterp spec fn id_text(id: u128) -> Seq<char>;

/// Relies on uuid::fmt::Hyphenated::to_string: 36 characters, 32 lowercase
/// hexadecimal digits broken by four hyphens, determined by the identity
/// alone.
#[verifier::external_body]
pub fn id_string(id: u128) -> (r: String)
    ensures
        r@ == id_text(id),
        r@.len() == 36,
{
    uuid::Uuid::from_u128(id).hyphenated().to_string()
}

} // verus!
