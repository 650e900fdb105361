//! Export adapter: stream every occupied level-0 cell of an index into the
//! external dense-voxel file codec's writer. The writer's on-disk byte layout
//! and its coordinate-range restrictions are the codec's own concern; this
//! adapter performs no coordinate translation and no retry.

use crate::storage::VoxelCSG;
use vox_writer::VoxWriter;
use vstd::prelude::*;

verus! {

#[verifier::external_type_specification]
#[verifier::external_body]
pub struct ExVoxWriter(VoxWriter);

/// What a writer holds: the set of voxel positions added to it. The codec
/// keeps one entry per position, whatever color it was given.
pub uninterp spec fn vox_coords(w: VoxWriter) -> Set<(int, int, int)>;

/// Relies on vox_writer::VoxWriter::create_empty: a freshly created writer
/// holds no voxels.
#[verifier::external_body]
fn vox_create_empty() -> (w: VoxWriter)
    ensures
        vox_coords(w) == Set::<(int, int, int)>::empty(),
{
    VoxWriter::create_empty()
}

/// Relies on vox_writer::VoxWriter::add_voxel: records the position with the
/// given color index; re-adding an already-present position leaves the
/// stored voxel set unchanged.
#[verifier::external_body]
fn vox_add_voxel(w: &mut VoxWriter, x: i32, y: i32, z: i32, color_index: i32)
    ensures
        vox_coords(*final(w)) == vox_coords(*old(w)).insert((x as int, y as int, z as int)),
{
    w.add_voxel(x, y, z, color_index);
}

impl VoxelCSG {
    /// Stream every filled voxel into a fresh codec writer, each with the
    /// default color index 255: the emitted point set is exactly the set of
    /// filled coordinates, with no duplicates and nothing extraneous. Writing
    /// the file itself is the caller's step, through the writer returned.
    #[verifier::loop_isolation(false)]
    pub fn export_voxels(&self) -> (w: VoxWriter)
        requires
            self.wf(),
        ensures
            vox_coords(w) == self.filled_set(),
    {
        let pts = self.filled_points();
        let mut w = vox_create_empty();
        let mut n: usize = 0;
        while n < pts.len()
            invariant
                n <= pts@.len(),
                forall|q: (int, int, int)|
                    #[trigger] vox_coords(w).contains(q) <==> exists|m: int|
                        0 <= m < n as int && (#[trigger] pts@[m])@ == q,
            decreases pts@.len() - n,
        {
            let c = pts[n];
            vox_add_voxel(&mut w, c.x, c.y, c.z, 255);
            proof {
                assert forall|q: (int, int, int)| #[trigger] vox_coords(w).contains(q) implies
                    exists|m: int| 0 <= m < n as int + 1 && (#[trigger] pts@[m])@ == q by {
                    if q == c@ {
                        assert(pts@[n as int]@ == q);
                    }
                }
                assert forall|m: int| 0 <= m < n as int + 1 implies vox_coords(w).contains(
                    (#[trigger] pts@[m])@,
                ) by {
                    if m == n as int {
                        assert(pts@[m]@ == c@);
                    }
                }
                assert forall|q: (int, int, int)|
                    (exists|m: int| 0 <= m < n as int + 1 && (#[trigger] pts@[m])@ == q)
                        implies #[trigger] vox_coords(w).contains(q) by {
                    let m = choose|m: int|
                        0 <= m < n as int + 1 && (#[trigger] pts@[m])@ == q;
                    assert(vox_coords(w).contains(pts@[m]@));
                }
            }
            n = n + 1;
        }
        proof {
            assert forall|q: (int, int, int)|
                #[trigger] vox_coords(w).contains(q) == self.filled_set().contains(q) by {
                if self.filled(q) {
                    assert(exists|m: int|
                        0 <= m < pts@.len() && (#[trigger] pts@[m])@ == q);
                }
                if vox_coords(w).contains(q) {
                    let m = choose|m: int| 0 <= m < pts@.len() && (#[trigger] pts@[m])@ == q;
                    assert(self.filled(pts@[m]@));
                }
            }
            assert(vox_coords(w) =~= self.filled_set());
        }
        w
    }
}

} // verus!
