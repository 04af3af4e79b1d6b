//! Trusted wrappers around the outside calls that the library needs:
//! one std string operation that vstd gives no specification, and the
//! random UUID generator.

use vstd::prelude::*;

verus! {

/// Relies on String::push: appends exactly the given character.
#[verifier::external_body]
pub(crate) fn push_char(s: &mut String, c: char)
    ensures
        final(s)@ == old(s)@.push(c),
{
    s.push(c)
}

/// Relies on uuid::Uuid::new_v4 and uuid::Uuid::as_u128: a freshly
/// generated random UUID, as the big-endian 128-bit value of its bytes.
/// The value is random, so nothing is promised of it beyond the fixed
/// version nibble (4) and variant bits (binary 10) that new_v4 sets.
#[verifier::external_body]
pub(crate) fn fresh_uuid() -> (r: u128)
    ensures
        (r >> 76u128) & 0xf == 4,
        (r >> 62u128) & 0x3 == 2,
{
    uuid::Uuid::new_v4().as_u128()
}

} // verus!
