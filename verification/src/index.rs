//! Conversions between the `u32` ids that the mesh stores and the `usize`
//! positions that vectors are indexed by.

use vstd::prelude::*;

verus! {

/// The id that stands for "no half-edge" and "no point": the largest `u32`.
pub const EMPTY: u32 = 0xFFFF_FFFFu32;

/// The position that an id names.
///
/// Calls `asprim::AsPrim::as_usize` on a `u32`, which is the cast `as usize`;
/// the contract claims that the value is kept.
#[verifier::external_body]
pub(crate) fn as_index(id: u32) -> (r: usize)
    ensures
        r == id,
{
    asprim::AsPrim::as_usize(id)
}

/// The id of a position.
///
/// Calls `asprim::AsPrim::as_` from `usize` to `u32`, which is the cast
/// `as u32`; the contract claims that the result is that cast, which keeps
/// a position that fits.
#[verifier::external_body]
pub(crate) fn as_id(position: usize) -> (r: u32)
    ensures
        r == position as u32,
{
    asprim::AsPrim::as_(position)
}

/// The reserved id [`EMPTY`].
///
/// Calls `num_traits::Bounded::max_value` for `u32`; the contract claims that
/// it returns `u32::MAX`.
#[verifier::external_body]
pub(crate) fn empty_id() -> (r: u32)
    ensures
        r == EMPTY,
{
    num_traits::Bounded::max_value()
}

/// The id that fresh hull slots are filled with.
///
/// Calls `num_traits::Zero::zero` for `u32`; the contract claims that it
/// returns 0.
#[verifier::external_body]
pub(crate) fn zero_id() -> (r: u32)
    ensures
        r == 0,
{
    num_traits::Zero::zero()
}

} // verus!
