//! The bit layout of a cell index, and the calls into `h3o` that read or
//! build one.

use h3o::{CellIndex, Resolution};
use vstd::prelude::*;

verus! {

/// The finest resolution of the grid.
pub const MAX_RESOLUTION: u8 = 15;

/// The largest base cell number.
pub const MAX_BASE_CELL: u8 = 121;

/// The direction value that marks an unused resolution.
pub const UNUSED_DIRECTION: u8 = 7;

/// `h3o::CellIndex`. Nothing inside it is seen here: the bits that it
/// holds are named by `cell_raw`.
#[verifier::external_type_specification]
#[verifier::external_body]
pub struct ExCellIndex(CellIndex);

/// The 64 bits that a cell index holds.
pub uninterp spec fn cell_raw(c: CellIndex) -> u64;

/// Bit offset of the direction at resolution `res` (1 to 15).
pub open spec fn direction_offset(res: u8) -> u64 {
    ((15 - res) * 3) as u64
}

/// The index mode: four bits from bit 59.
pub open spec fn raw_mode(bits: u64) -> u8 {
    ((bits & (0b1111u64 << 59)) >> 59) as u8
}

/// The resolution: four bits from bit 52.
pub open spec fn raw_resolution(bits: u64) -> u8 {
    ((bits & (0b1111u64 << 52)) >> 52) as u8
}

/// The base cell: seven bits from bit 45.
pub open spec fn raw_base_cell(bits: u64) -> u8 {
    ((bits & (0b111_1111u64 << 45)) >> 45) as u8
}

/// The direction at resolution `res` (1 to 15): three bits.
pub open spec fn raw_direction(bits: u64, res: u8) -> u8 {
    ((bits & (0b111u64 << direction_offset(res))) >> direction_offset(res)) as u8
}

/// Whether a base cell is one of the twelve pentagons.
pub open spec fn is_pentagon_base(base: u8) -> bool {
    if base < 64 {
        0x8402_0040_0100_4010u64 & (1u64 << base) != 0
    } else {
        0x0020_0802_0008_0100u64 & (1u64 << ((base - 64) as u8)) != 0
    }
}

/// Whether the directions at resolutions 1 to `res` avoid the deleted
/// subsequence of a pentagon: the first direction that is not the centre
/// is not the K axis (1).
pub open spec fn avoids_deleted_subsequence(bits: u64, res: u8) -> bool {
    forall|r: u8|
        1 <= r <= res && #[trigger] raw_direction(bits, r) == 1 ==> exists|q: u8|
            1 <= q < r && #[trigger] raw_direction(bits, q) != 0
}

/// Whether 64 bits are a cell index: reserved bits clear, cell mode, a base
/// cell in range, a direction below 7 at every resolution up to the cell's
/// own, 7 at every finer one, and no deleted subsequence under a pentagon.
pub open spec fn raw_valid(bits: u64) -> bool {
    &&& (bits >> 56) & 0b1000_0111 == 0
    &&& raw_mode(bits) == 1
    &&& raw_base_cell(bits) <= MAX_BASE_CELL
    &&& forall|r: u8|
        1 <= r <= 15 ==> ((#[trigger] raw_direction(bits, r)) == UNUSED_DIRECTION <==> r
            > raw_resolution(bits))
    &&& is_pentagon_base(raw_base_cell(bits)) ==> avoids_deleted_subsequence(
        bits,
        raw_resolution(bits),
    )
}

/// `u64::from` on a cell index: its bits, which are always those of a valid
/// cell.
#[verifier::external_body]
pub(crate) fn cell_to_raw(c: CellIndex) -> (bits: u64)
    ensures
        bits == cell_raw(c),
        raw_valid(bits),
{
    u64::from(c)
}

/// `CellIndex::try_from` on 64 bits: a cell holding exactly those bits when
/// they are valid, nothing otherwise.
#[verifier::external_body]
pub(crate) fn cell_from_raw(bits: u64) -> (c: Option<CellIndex>)
    ensures
        c is Some <==> raw_valid(bits),
        c is Some ==> cell_raw(c.unwrap()) == bits,
{
    CellIndex::try_from(bits).ok()
}

/// `CellIndex::base_cell`, as a number.
#[verifier::external_body]
pub(crate) fn cell_base(c: CellIndex) -> (base: u8)
    ensures
        base == raw_base_cell(cell_raw(c)),
{
    u8::from(c.base_cell())
}

/// `CellIndex::resolution`, as a number.
#[verifier::external_body]
pub(crate) fn cell_resolution(c: CellIndex) -> (res: u8)
    ensures
        res == raw_resolution(cell_raw(c)),
{
    u8::from(c.resolution())
}

/// `CellIndex::direction_at`, with resolution and direction as numbers: the
/// direction bits at `res` when `res` lies between 1 and the cell's own
/// resolution, nothing otherwise.
#[verifier::external_body]
pub(crate) fn cell_direction_at(c: CellIndex, res: u8) -> (dir: Option<u8>)
    ensures
        dir is Some <==> 1 <= res <= raw_resolution(cell_raw(c)),
        dir is Some ==> dir.unwrap() == raw_direction(cell_raw(c), res),
{
    match Resolution::try_from(res) {
        Ok(resolution) => c.direction_at(resolution).map(u8::from),
        Err(_) => None,
    }
}

/// Whether `child` holds the bits of `parent` one resolution finer, with
/// `direction` at the new resolution.
pub open spec fn is_child(child: u64, parent: u64, direction: u8) -> bool {
    &&& raw_resolution(child) == raw_resolution(parent) + 1
    &&& raw_base_cell(child) == raw_base_cell(parent)
    &&& forall|r: u8|
        1 <= r <= raw_resolution(parent) ==> #[trigger] raw_direction(child, r) == raw_direction(
            parent,
            r,
        )
    &&& raw_direction(child, raw_resolution(child)) == direction
}

/// `Resolution::succ`, on numbers: the next finer resolution, where there
/// is one.
#[verifier::external_body]
pub(crate) fn resolution_succ(res: u8) -> (finer: Option<u8>)
    ensures
        finer is Some <==> res < MAX_RESOLUTION,
        finer is Some ==> finer.unwrap() == res + 1,
{
    match Resolution::try_from(res) {
        Ok(resolution) => resolution.succ().map(u8::from),
        Err(_) => None,
    }
}

/// `CellIndex::children` at the next finer resolution, collected: the
/// children in ascending order of their direction, from the centre child
/// (0) to the last (6). A pentagon has six children, any other cell seven.
#[verifier::external_body]
pub(crate) fn cell_children(c: CellIndex, res: u8) -> (children: Vec<CellIndex>)
    requires
        res == raw_resolution(cell_raw(c)) + 1,
        res <= MAX_RESOLUTION,
    ensures
        6 <= children@.len() <= 7,
        is_child(cell_raw(children@[0]), cell_raw(c), 0),
        is_child(cell_raw(children@[children@.len() - 1]), cell_raw(c), 6),
{
    match Resolution::try_from(res) {
        Ok(resolution) => c.children(resolution).collect(),
        Err(_) => Vec::new(),
    }
}

} // verus!
