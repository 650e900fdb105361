//! Boolean set algebra over voxel indexes: union, intersection, difference,
//! and complement-within-domain (inversion).
//!
//! The combinators are pure: they read their inputs through shared
//! references, never mutate them, and allocate a fresh result instance. Only
//! `invert_in_place` mutates, and only the receiver it is called on.

use crate::coords::Coord;
use crate::storage::{inverts, VoxelCSG};
use vstd::prelude::*;

verus! {

impl VoxelCSG {
    /// The union of two indexes: a voxel is filled in the result exactly if
    /// it is filled in either input. The result's height is the larger of the
    /// two.
    #[verifier::loop_isolation(false)]
    pub fn union(&self, other: &VoxelCSG) -> (r: VoxelCSG)
        requires
            self.wf(),
            other.wf(),
        ensures
            r.wf(),
            r.s_height() == if self.s_height() >= other.s_height() {
                self.s_height()
            } else {
                other.s_height()
            },
            forall|q: (int, int, int)| #[trigger] r.filled(q) == (self.filled(q) || other.filled(
                q,
            )),
    {
        let ha = self.height();
        let hb = other.height();
        let h = if ha >= hb {
            ha
        } else {
            hb
        };
        let mut r = VoxelCSG::new(h);
        let pa = self.filled_points();
        let mut n: usize = 0;
        while n < pa.len()
            invariant
                n <= pa@.len(),
                r.wf(),
                r.s_height() == h as int,
                forall|q: (int, int, int)| #[trigger] r.present(q) == r.filled(q),
                forall|q: (int, int, int)| #[trigger] r.filled(q) ==> self.filled(q),
                forall|m: int| 0 <= m < n as int ==> r.filled((#[trigger] pa@[m])@),
            decreases pa@.len() - n,
        {
            let c = pa[n];
            r.fill_path_from_root(c);
            n = n + 1;
        }
        let pb = other.filled_points();
        let mut n2: usize = 0;
        while n2 < pb.len()
            invariant
                n2 <= pb@.len(),
                r.wf(),
                r.s_height() == h as int,
                forall|q: (int, int, int)| #[trigger] r.present(q) == r.filled(q),
                forall|q: (int, int, int)| #[trigger] r.filled(q) ==> self.filled(q)
                    || other.filled(q),
                forall|m: int| 0 <= m < pa@.len() ==> r.filled((#[trigger] pa@[m])@),
                forall|m: int| 0 <= m < n2 as int ==> r.filled((#[trigger] pb@[m])@),
            decreases pb@.len() - n2,
        {
            let c = pb[n2];
            r.fill_path_from_root(c);
            n2 = n2 + 1;
        }
        proof {
            assert forall|q: (int, int, int)| #[trigger] r.filled(q) == (self.filled(q)
                || other.filled(q)) by {
                if self.filled(q) {
                    let m = choose|m: int| 0 <= m < pa@.len() && (#[trigger] pa@[m])@ == q;
                    assert(r.filled(pa@[m]@));
                }
                if other.filled(q) {
                    let m = choose|m: int| 0 <= m < pb@.len() && (#[trigger] pb@[m])@ == q;
                    assert(r.filled(pb@[m]@));
                }
            }
        }
        r
    }

    /// The intersection of two indexes: a voxel is filled in the result
    /// exactly if it is filled in both inputs. Only the receiver's filled
    /// leaves are scanned; each is kept after a point query against `other`.
    #[verifier::loop_isolation(false)]
    pub fn intersection(&self, other: &VoxelCSG) -> (r: VoxelCSG)
        requires
            self.wf(),
            other.wf(),
        ensures
            r.wf(),
            r.s_height() == if self.s_height() >= other.s_height() {
                self.s_height()
            } else {
                other.s_height()
            },
            forall|q: (int, int, int)| #[trigger] r.filled(q) == (self.filled(q) && other.filled(
                q,
            )),
    {
        let ha = self.height();
        let hb = other.height();
        let h = if ha >= hb {
            ha
        } else {
            hb
        };
        let mut r = VoxelCSG::new(h);
        let pa = self.filled_points();
        let mut n: usize = 0;
        while n < pa.len()
            invariant
                n <= pa@.len(),
                r.wf(),
                r.s_height() == h as int,
                forall|q: (int, int, int)| #[trigger] r.present(q) == r.filled(q),
                forall|q: (int, int, int)| #[trigger] r.filled(q) ==> self.filled(q)
                    && other.filled(q),
                forall|m: int|
                    0 <= m < n as int && other.filled((#[trigger] pa@[m])@) ==> r.filled(
                        pa@[m]@,
                    ),
            decreases pa@.len() - n,
        {
            let c = pa[n];
            if other.get_voxel(c) {
                r.fill_path_from_root(c);
            }
            n = n + 1;
        }
        proof {
            assert forall|q: (int, int, int)| #[trigger] r.filled(q) == (self.filled(q)
                && other.filled(q)) by {
                if self.filled(q) && other.filled(q) {
                    let m = choose|m: int| 0 <= m < pa@.len() && (#[trigger] pa@[m])@ == q;
                    assert(other.filled(pa@[m]@));
                }
            }
        }
        r
    }

    /// The difference of two indexes: a voxel is filled in the result exactly
    /// if it is filled in the receiver and not filled in `other` (absence in
    /// `other` counts as unfilled).
    #[verifier::loop_isolation(false)]
    pub fn difference(&self, other: &VoxelCSG) -> (r: VoxelCSG)
        requires
            self.wf(),
            other.wf(),
        ensures
            r.wf(),
            r.s_height() == if self.s_height() >= other.s_height() {
                self.s_height()
            } else {
                other.s_height()
            },
            forall|q: (int, int, int)| #[trigger] r.filled(q) == (self.filled(q) && !other.filled(
                q,
            )),
    {
        let ha = self.height();
        let hb = other.height();
        let h = if ha >= hb {
            ha
        } else {
            hb
        };
        let mut r = VoxelCSG::new(h);
        let pa = self.filled_points();
        let mut n: usize = 0;
        while n < pa.len()
            invariant
                n <= pa@.len(),
                r.wf(),
                r.s_height() == h as int,
                forall|q: (int, int, int)| #[trigger] r.present(q) == r.filled(q),
                forall|q: (int, int, int)| #[trigger] r.filled(q) ==> self.filled(q)
                    && !other.filled(q),
                forall|m: int|
                    0 <= m < n as int && !other.filled((#[trigger] pa@[m])@) ==> r.filled(
                        pa@[m]@,
                    ),
            decreases pa@.len() - n,
        {
            let c = pa[n];
            if !other.get_voxel(c) {
                r.fill_path_from_root(c);
            }
            n = n + 1;
        }
        proof {
            assert forall|q: (int, int, int)| #[trigger] r.filled(q) == (self.filled(q)
                && !other.filled(q)) by {
                if self.filled(q) && !other.filled(q) {
                    let m = choose|m: int| 0 <= m < pa@.len() && (#[trigger] pa@[m])@ == q;
                    assert(!other.filled(pa@[m]@));
                }
            }
        }
        r
    }

    /// The copying variant of inversion: deep-copy the receiver, flip every
    /// stored payload of the copy, and return it. The receiver is read
    /// through a shared reference and its own query results are unaffected.
    pub fn invert(&self) -> (r: VoxelCSG)
        requires
            self.wf(),
        ensures
            r.wf(),
            inverts(*self, r),
    {
        let mut r = self.duplicate();
        r.invert_in_place();
        r
    }
}

/// Inverting an index twice restores every query: each coordinate that was
/// materialized keeps its key, and every voxel reads back its original value
/// (a coordinate never materialized reads `false` throughout).
pub proof fn lemma_invert_twice_restores(t0: VoxelCSG, t1: VoxelCSG, t2: VoxelCSG)
    requires
        inverts(t0, t1),
        inverts(t1, t2),
    ensures
        forall|q: (int, int, int)| #[trigger] t2.present(q) == t0.present(q),
        forall|q: (int, int, int)| #[trigger] t2.filled(q) == t0.filled(q),
{
    assert forall|q: (int, int, int)| #[trigger] t2.filled(q) == t0.filled(q) by {
        t0.lemma_filled_implies_present(q);
    }
}

} // verus!

