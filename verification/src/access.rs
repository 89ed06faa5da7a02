//! The index access method's view of a heap row's place: Postgres keeps a
//! block number as two 16-bit halves.
use vstd::prelude::*;

verus! {

/// The block number with the given halves.
pub open spec fn block_of(hi: u16, lo: u16) -> int {
    hi * 65536 + lo
}

/// Puts the two halves of a block number together.
pub fn block_number(hi: u16, lo: u16) -> (block: u32)
    ensures
        block == block_of(hi, lo),
{
    hi as u32 * 65536 + lo as u32
}

/// Parts a block number into its high and low halves.
pub fn block_halves(block: u32) -> (r: (u16, u16))
    ensures
        block == block_of(r.0, r.1),
{
    ((block / 65536) as u16, (block % 65536) as u16)
}

/// Whether an index column is a plain table column: the attribute number of an
/// expression is zero.
pub fn plain_column(attnum: i16) -> (r: bool)
    ensures
        r == (attnum != 0),
{
    attnum != 0
}

/// A block number determines its halves, so putting them together and parting
/// them undo each other.
pub proof fn law_halves_are_unique(hi: u16, lo: u16, hi2: u16, lo2: u16)
    ensures
        block_of(hi, lo) == block_of(hi2, lo2) ==> hi == hi2 && lo == lo2,
        0 <= block_of(hi, lo) <= u32::MAX,
{
}

/// The high half of a block number counts 65536 blocks each.
pub proof fn law_the_high_half_counts_65536_blocks(hi: u16, lo: u16)
    ensures
        block_of(hi, lo) == 65536 * hi + lo,
{
}

} // verus!
