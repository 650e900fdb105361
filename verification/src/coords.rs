//! Integer 3D coordinates and the level-indexed addressing arithmetic.
//!
//! At level 0 a coordinate is an exact voxel position; at level `l` it names
//! the cube of edge `2^l` (in level-0 units) that contains a position. Moving
//! one level up halves each axis, rounding toward negative infinity.

use vstd::arithmetic::div_mod::{
    lemma_fundamental_div_mod, lemma_fundamental_div_mod_converse_div,
    lemma_fundamental_div_mod_converse_mod,
};
use vstd::prelude::*;

verus! {

/// An integer 3-vector identifying a voxel (at level 0) or a coarser cube.
#[derive(Clone, Copy, PartialEq, Eq, Structural, Debug)]
pub struct Coord {
    pub x: i32,
    pub y: i32,
    pub z: i32,
}

impl View for Coord {
    type V = (int, int, int);

    open spec fn view(&self) -> (int, int, int) {
        (self.x as int, self.y as int, self.z as int)
    }
}

impl Coord {
    pub fn new(x: i32, y: i32, z: i32) -> (c: Coord)
        ensures
            c@ == (x as int, y as int, z as int),
    {
        Coord { x, y, z }
    }
}

/// The ancestor of position `x` (one axis) at level `l`: `l` successive
/// floor-halvings. Division on `int` is Euclidean, which for the positive
/// divisor 2 rounds toward negative infinity.
pub open spec fn anc1(x: int, l: nat) -> int
    decreases l,
{
    if l == 0 {
        x
    } else {
        anc1(x, (l - 1) as nat) / 2
    }
}

/// The ancestor of coordinate `c` at level `l`, per axis.
pub open spec fn anc3(c: (int, int, int), l: nat) -> (int, int, int) {
    (anc1(c.0, l), anc1(c.1, l), anc1(c.2, l))
}

/// Which of the eight child slots of the cube `(c.0/2, c.1/2, c.2/2)` the
/// coordinate `c` falls in: one bit per axis.
pub open spec fn slot_of(c: (int, int, int)) -> int {
    (c.0 % 2) + 2 * (c.1 % 2) + 4 * (c.2 % 2)
}

/// The per-axis offsets of child slot `j` relative to the doubled parent
/// coordinate.
pub open spec fn slot_dx(j: int) -> int {
    j % 2
}

pub open spec fn slot_dy(j: int) -> int {
    (j / 2) % 2
}

pub open spec fn slot_dz(j: int) -> int {
    j / 4
}

/// Floor-halving decomposes a coordinate axis into parent and offset bit.
pub proof fn lemma_half_split(x: int)
    ensures
        x == 2 * (x / 2) + (x % 2),
        0 <= x % 2 < 2,
{
    lemma_fundamental_div_mod(x, 2);
}

/// A doubled parent plus an offset bit halves back exactly.
pub proof fn lemma_half_exact(p: int, d: int)
    requires
        0 <= d < 2,
    ensures
        (2 * p + d) / 2 == p,
        (2 * p + d) % 2 == d,
{
    lemma_fundamental_div_mod_converse_div(2 * p + d, 2, p, d);
    lemma_fundamental_div_mod_converse_mod(2 * p + d, 2, p, d);
}

/// A child slot index is recovered from its per-axis offsets.
pub proof fn lemma_slot_roundtrip(j: int)
    requires
        0 <= j < 8,
    ensures
        0 <= slot_dx(j) < 2,
        0 <= slot_dy(j) < 2,
        0 <= slot_dz(j) < 2,
        slot_dx(j) + 2 * slot_dy(j) + 4 * slot_dz(j) == j,
{
    lemma_half_split(j);
    lemma_half_split(j / 2);
    vstd::arithmetic::div_mod::lemma_div_denominator(j, 2, 2);
}

/// The slot of a child coordinate built from parent `p` and slot `j` is `j`
/// itself, and halving returns to `p`.
pub proof fn lemma_child_coords(p: (int, int, int), j: int)
    requires
        0 <= j < 8,
    ensures
        ({
            let c = (2 * p.0 + slot_dx(j), 2 * p.1 + slot_dy(j), 2 * p.2 + slot_dz(j));
            &&& c.0 / 2 == p.0
            &&& c.1 / 2 == p.1
            &&& c.2 / 2 == p.2
            &&& slot_of(c) == j
        }),
{
    lemma_slot_roundtrip(j);
    lemma_half_exact(p.0, slot_dx(j));
    lemma_half_exact(p.1, slot_dy(j));
    lemma_half_exact(p.2, slot_dz(j));
}

/// Any coordinate is the child, at its own slot, of its halved parent.
pub proof fn lemma_parent_of(c: (int, int, int))
    ensures
        0 <= slot_of(c) < 8,
        c.0 == 2 * (c.0 / 2) + slot_dx(slot_of(c)),
        c.1 == 2 * (c.1 / 2) + slot_dy(slot_of(c)),
        c.2 == 2 * (c.2 / 2) + slot_dz(slot_of(c)),
{
    lemma_half_split(c.0);
    lemma_half_split(c.1);
    lemma_half_split(c.2);
    let j = slot_of(c);
    lemma_slot_roundtrip(j);
    lemma_half_exact((c.1 % 2) + 2 * (c.2 % 2), c.0 % 2);
    lemma_half_exact(c.2 % 2, c.1 % 2);
    vstd::arithmetic::div_mod::lemma_div_denominator(j, 2, 2);
}

/// Floor-halving one axis, implemented with Euclidean division so that
/// negative coordinates round toward negative infinity as well.
pub fn div2(x: i32) -> (r: i32)
    ensures
        r as int == (x as int) / 2,
{
    let q = x.checked_div_euclid(2);
    proof {
        assert(i32::MIN <= (x as int) / 2 <= i32::MAX) by {
            lemma_half_split(x as int);
        }
    }
    q.unwrap()
}

} // verus!
