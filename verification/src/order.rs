//! The value ordering used by truncation.
//!
//! A stored value is a 32-bit IEEE-754 bit pattern carried as a `u32`.
//! Truncation ranks entries by the IEEE-754 total order of their values
//! (sign-magnitude order: negative values below positive ones, `-0.0` just
//! below `+0.0`), with ties between equal bit patterns broken by position.
//! `rank_key` maps a bit pattern to a `u32` whose natural order is exactly
//! that total order, so the whole ranking is plain integer logic.

use vstd::prelude::*;

verus! {

/// The sign bit of a 32-bit IEEE-754 pattern.
pub open spec fn spec_sign_bit(bits: u32) -> bool {
    bits >= 0x8000_0000u32
}

/// A pattern is finite when its exponent field is not all ones
/// (all-ones exponents are the infinities and NaNs).
pub open spec fn spec_value_is_finite(bits: u32) -> bool {
    bits & 0x7f80_0000u32 != 0x7f80_0000u32
}

/// A pattern is non-zero when clearing the sign bit leaves something:
/// both `+0.0` and `-0.0` count as zero.
pub open spec fn spec_value_is_nonzero(bits: u32) -> bool {
    bits & 0x7fff_ffffu32 != 0u32
}

/// The key whose `u32` order is the IEEE-754 total order of the pattern:
/// non-negative patterns are moved above `0x8000_0000` keeping their order,
/// negative patterns are complemented so that more negative means smaller.
pub open spec fn spec_rank_key(bits: u32) -> u32 {
    if bits < 0x8000_0000u32 {
        bits ^ 0x8000_0000u32
    } else {
        !bits
    }
}

/// Whether the entry at position `j` ranks strictly above the entry at
/// position `i`: larger value under the total order, or the same value
/// bit pattern at a later position.
pub open spec fn ranks_above(vals: Seq<u32>, i: int, j: int) -> bool {
    ||| spec_rank_key(vals[j]) > spec_rank_key(vals[i])
    ||| (spec_rank_key(vals[j]) == spec_rank_key(vals[i]) && j > i)
}

/// Exec mirror of `spec_value_is_finite`.
pub fn value_is_finite(bits: u32) -> (r: bool)
    ensures
        r == spec_value_is_finite(bits),
{
    bits & 0x7f80_0000u32 != 0x7f80_0000u32
}

/// Exec mirror of `spec_value_is_nonzero`.
pub fn value_is_nonzero(bits: u32) -> (r: bool)
    ensures
        r == spec_value_is_nonzero(bits),
{
    bits & 0x7fff_ffffu32 != 0u32
}

/// Exec mirror of `spec_rank_key`.
pub fn rank_key(bits: u32) -> (r: u32)
    ensures
        r == spec_rank_key(bits),
{
    if bits < 0x8000_0000u32 {
        bits ^ 0x8000_0000u32
    } else {
        !bits
    }
}

/// `ranks_above` is a strict total order on the positions of `vals`:
/// it is irreflexive, asymmetric, transitive, and any two distinct
/// positions are ordered one way or the other.
pub proof fn lemma_ranks_above_strict_total(vals: Seq<u32>)
    ensures
        forall|i: int| !ranks_above(vals, i, i),
        forall|i: int, j: int| #[trigger] ranks_above(vals, i, j) ==> !ranks_above(vals, j, i),
        forall|i: int, j: int, k: int|
            #[trigger] ranks_above(vals, i, j) && #[trigger] ranks_above(vals, j, k) ==> ranks_above(
                vals,
                i,
                k,
            ),
        forall|i: int, j: int|
            0 <= i < vals.len() && 0 <= j < vals.len() && i != j ==> (#[trigger] ranks_above(
                vals,
                i,
                j,
            ) || ranks_above(vals, j, i)),
{
}

} // verus!
