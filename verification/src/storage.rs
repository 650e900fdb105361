//! Sparse octree storage: an arena of nodes addressed by `(level, coordinate)`
//! keys, with existence-aware lookup, path-creation from the coarsest existing
//! ancestor down to a target leaf, and depth-first collection of occupied
//! leaves.
//!
//! A node exists only if a path-fill created it. Every node holds a boolean
//! payload; the payload of a level-0 node means "this voxel is filled", while
//! payloads of coarser nodes are write-once existence markers that no query
//! reads.

use crate::coords::{
    anc1, anc3, div2, lemma_child_coords, lemma_parent_of, lemma_slot_roundtrip, slot_dx, slot_dy,
    slot_dz, slot_of, Coord,
};
use vstd::prelude::*;

verus! {

/// One arena node: its own key (level and coordinate), its boolean payload,
/// and the arena indices of its existing children, one slot per octant.
#[derive(Clone, Copy)]
pub(crate) struct Node {
    pub(crate) level: u32,
    pub(crate) cx: i32,
    pub(crate) cy: i32,
    pub(crate) cz: i32,
    pub(crate) value: bool,
    pub(crate) kids: [Option<usize>; 8],
}

/// Construction failure: the requested tree height is too small.
#[derive(Clone, Copy, PartialEq, Eq, Structural, Debug)]
pub enum CsgError {
    InvalidArgument,
}

/// A sparse boolean voxel index: a forest of octrees of a fixed height,
/// stored as an arena keyed by `(level, coordinate)`.
///
/// Set-algebra combinators over these indexes never mutate their inputs: they
/// take shared references and allocate a fresh result instance.
pub struct VoxelCSG {
    pub(crate) height: u32,
    pub(crate) nodes: Vec<Node>,
    pub(crate) roots: Vec<usize>,
}

impl VoxelCSG {
    /// The number of resolution levels; valid levels are `0 .. height - 1`.
    pub closed spec fn s_height(self) -> int {
        self.height as int
    }

    pub(crate) open spec fn n_len(self) -> int {
        self.nodes@.len() as int
    }

    pub(crate) open spec fn nd(self, i: int) -> Node {
        self.nodes@[i]
    }

    pub(crate) open spec fn level_of(self, i: int) -> int {
        self.nd(i).level as int
    }

    pub(crate) open spec fn coords_of(self, i: int) -> (int, int, int) {
        (self.nd(i).cx as int, self.nd(i).cy as int, self.nd(i).cz as int)
    }

    pub(crate) open spec fn kid_at(self, i: int, j: int) -> Option<int> {
        if 0 <= i < self.n_len() && 0 <= j < 8 {
            match self.nd(i).kids@[j] {
                Some(k) => Some(k as int),
                None => None,
            }
        } else {
            None
        }
    }

    pub(crate) open spec fn root_coords(self, a: int) -> (int, int, int) {
        self.coords_of(self.roots@[a] as int)
    }

    /// The arena index of the root tracked for coordinate `c` (at the root
    /// level), scanning root slots from position `from` on.
    pub(crate) open spec fn root_at(self, c: (int, int, int), from: int) -> Option<int>
        decreases self.roots@.len() - from,
    {
        if from < 0 || from >= self.roots@.len() {
            None
        } else if self.root_coords(from) == c {
            Some(self.roots@[from] as int)
        } else {
            self.root_at(c, from + 1)
        }
    }

    /// The arena index of the node addressed by key `(level l, coordinate c)`:
    /// the unique descent from the root covering `c`, one octant choice per
    /// level.
    pub(crate) open spec fn node_at(self, c: (int, int, int), l: int) -> Option<int>
        decreases self.s_height() - 1 - l,
    {
        if l == self.s_height() - 1 {
            self.root_at(c, 0)
        } else if 0 <= l < self.s_height() - 1 {
            match self.node_at((c.0 / 2, c.1 / 2, c.2 / 2), l + 1) {
                Some(i) => self.kid_at(i, slot_of(c)),
                None => None,
            }
        } else {
            None
        }
    }

    /// A level-0 node exists at coordinate `c`.
    pub closed spec fn present(self, c: (int, int, int)) -> bool {
        self.node_at(c, 0) is Some
    }

    /// The voxel at coordinate `c` is filled: a level-0 node exists there and
    /// its payload is `true`. Absence reads as `false`.
    pub closed spec fn filled(self, c: (int, int, int)) -> bool {
        match self.node_at(c, 0) {
            Some(i) => 0 <= i < self.n_len() && self.nd(i).value,
            None => false,
        }
    }

    /// The set of all filled voxel coordinates.
    pub open spec fn filled_set(self) -> Set<(int, int, int)> {
        Set::new(|q: (int, int, int)| self.filled(q))
    }

    pub(crate) open spec fn kid_ok(self, i: int, j: int) -> bool {
        match self.nd(i).kids@[j] {
            Some(k) => {
                &&& k < self.n_len()
                &&& self.level_of(k as int) + 1 == self.level_of(i)
                &&& self.coords_of(k as int) == (
                    2 * self.coords_of(i).0 + slot_dx(j),
                    2 * self.coords_of(i).1 + slot_dy(j),
                    2 * self.coords_of(i).2 + slot_dz(j),
                )
            },
            None => true,
        }
    }

    pub(crate) open spec fn node_ok(self, i: int) -> bool {
        &&& self.level_of(i) < self.s_height()
        &&& (self.level_of(i) == 0 ==> forall|j: int|
            0 <= j < 8 ==> #[trigger] self.nd(i).kids@[j] is None)
        &&& forall|j: int| 0 <= j < 8 ==> #[trigger] self.kid_ok(i, j)
    }

    pub(crate) open spec fn root_ok(self, r: int) -> bool {
        &&& (self.roots@[r] as int) < self.n_len()
        &&& self.level_of(self.roots@[r] as int) == self.s_height() - 1
    }

    /// Structural well-formedness: levels in range, child links one level
    /// down with octant-consistent coordinates, leaves childless, all roots
    /// at the top level with pairwise distinct coordinates.
    pub closed spec fn wf(self) -> bool {
        &&& self.s_height() >= 2
        &&& forall|i: int| 0 <= i < self.n_len() ==> #[trigger] self.node_ok(i)
        &&& forall|r: int| 0 <= r < self.roots@.len() ==> #[trigger] self.root_ok(r)
        &&& forall|a: int, b: int|
            0 <= a < self.roots@.len() && 0 <= b < self.roots@.len() && a != b
                ==> #[trigger] self.root_coords(a) != #[trigger] self.root_coords(b)
    }

    /// A found root has the searched coordinate, the top level, and a valid
    /// arena index.
    pub(crate) proof fn lemma_root_at_props(self, c: (int, int, int), from: int)
        requires
            self.wf(),
            self.root_at(c, from) is Some,
        ensures
            ({
                let i = self.root_at(c, from)->Some_0;
                &&& 0 <= i < self.n_len()
                &&& self.level_of(i) == self.s_height() - 1
                &&& self.coords_of(i) == c
            }),
        decreases self.roots@.len() - from,
    {
        if 0 <= from < self.roots@.len() {
            if self.root_coords(from) == c {
                assert(self.root_ok(from));
            } else {
                self.lemma_root_at_props(c, from + 1);
            }
        }
    }

    /// The node addressed by a key has that key stored in it and a valid
    /// arena index.
    pub(crate) proof fn lemma_node_at_props(self, c: (int, int, int), l: int)
        requires
            self.wf(),
            0 <= l <= self.s_height() - 1,
            self.node_at(c, l) is Some,
        ensures
            ({
                let i = self.node_at(c, l)->Some_0;
                &&& 0 <= i < self.n_len()
                &&& self.level_of(i) == l
                &&& self.coords_of(i) == c
            }),
        decreases self.s_height() - 1 - l,
    {
        if l == self.s_height() - 1 {
            self.lemma_root_at_props(c, 0);
        } else {
            let p = (c.0 / 2, c.1 / 2, c.2 / 2);
            self.lemma_node_at_props(p, l + 1);
            let i = self.node_at(p, l + 1)->Some_0;
            let j = slot_of(c);
            lemma_parent_of(c);
            assert(self.node_ok(i));
            assert(self.kid_ok(i, j));
        }
    }

    /// If the ancestor of `q` at level `l` is not tracked, then `q` itself is
    /// not tracked at level 0.
    pub(crate) proof fn lemma_descend_none(self, q: (int, int, int), l: int)
        requires
            0 <= l <= self.s_height() - 1,
            self.node_at(anc3(q, l as nat), l) is None,
        ensures
            self.node_at(q, 0) is None,
        decreases l,
    {
        if l > 0 {
            let c = anc3(q, (l - 1) as nat);
            assert(anc3(q, l as nat) == (c.0 / 2, c.1 / 2, c.2 / 2));
            assert(self.node_at(c, l - 1) is None);
            self.lemma_descend_none(q, l - 1);
        }
    }

    /// A root slot with matching coordinate is what the scan from the start
    /// finds, roots having pairwise distinct coordinates.
    pub(crate) proof fn lemma_root_at_found(self, a: int, from: int)
        requires
            self.wf(),
            0 <= from <= a < self.roots@.len(),
        ensures
            self.root_at(self.root_coords(a), from) == Some(self.roots@[a] as int),
        decreases a - from,
    {
        if from < a {
            assert(self.root_coords(from) != self.root_coords(a));
            self.lemma_root_at_found(a, from + 1);
        }
    }

    /// A successful root scan points at some root slot.
    pub(crate) proof fn lemma_root_at_position(self, c: (int, int, int), from: int)
        requires
            0 <= from,
            self.root_at(c, from) is Some,
        ensures
            exists|a: int|
                from <= a < self.roots@.len() && #[trigger] self.root_coords(a) == c
                    && self.roots@[a] as int == self.root_at(c, from)->Some_0,
        decreases self.roots@.len() - from,
    {
        if from < self.roots@.len() {
            if self.root_coords(from) == c {
                assert(self.root_coords(from) == c);
            } else {
                self.lemma_root_at_position(c, from + 1);
            }
        }
    }
}

/// The two indexes have the same node skeleton (levels, coordinates, child
/// links, roots); only payloads may differ.
pub(crate) open spec fn same_shape(t0: VoxelCSG, t1: VoxelCSG) -> bool {
    &&& t1.s_height() == t0.s_height()
    &&& t1.roots@ == t0.roots@
    &&& t1.n_len() == t0.n_len()
    &&& forall|i: int|
        0 <= i < t0.n_len() ==> {
            &&& (#[trigger] t1.nd(i)).level == t0.nd(i).level
            &&& t1.nd(i).cx == t0.nd(i).cx
            &&& t1.nd(i).cy == t0.nd(i).cy
            &&& t1.nd(i).cz == t0.nd(i).cz
            &&& t1.nd(i).kids == t0.nd(i).kids
        }
}

/// Same-skeleton indexes address the same nodes at every key.
pub(crate) proof fn lemma_same_shape_root_at(
    t0: VoxelCSG,
    t1: VoxelCSG,
    c: (int, int, int),
    from: int,
)
    requires
        same_shape(t0, t1),
        forall|r: int| 0 <= r < t0.roots@.len() ==> #[trigger] t0.root_ok(r),
    ensures
        t1.root_at(c, from) == t0.root_at(c, from),
{
    assert forall|r: int|
        0 <= r < t0.roots@.len() implies #[trigger] t1.root_coords(r) == t0.root_coords(r) by {
        assert(t0.root_ok(r));
    }
    lemma_same_shape_root_at_weak(t0, t1, c, from);
}

pub(crate) proof fn lemma_same_shape_node_at(
    t0: VoxelCSG,
    t1: VoxelCSG,
    c: (int, int, int),
    l: int,
)
    requires
        t0.wf(),
        same_shape(t0, t1),
        0 <= l <= t0.s_height() - 1,
    ensures
        t1.node_at(c, l) == t0.node_at(c, l),
    decreases t0.s_height() - 1 - l,
{
    if l == t0.s_height() - 1 {
        lemma_same_shape_root_at(t0, t1, c, 0);
    } else {
        let p = (c.0 / 2, c.1 / 2, c.2 / 2);
        lemma_same_shape_node_at(t0, t1, p, l + 1);
        match t0.node_at(p, l + 1) {
            Some(i) => {
                t0.lemma_node_at_props(p, l + 1);
                assert(t1.nd(i).kids == t0.nd(i).kids);
            },
            None => {},
        }
    }
}

/// Appending a fresh childless root node changes addressing at its own key
/// only.
pub(crate) proof fn lemma_add_root_root_at(
    t0: VoxelCSG,
    t1: VoxelCSG,
    nnew: Node,
    kidx: usize,
    c: (int, int, int),
    from: int,
)
    requires
        t0.wf(),
        kidx as int == t0.n_len(),
        t1.s_height() == t0.s_height(),
        t1.nodes@ == t0.nodes@.push(nnew),
        t1.roots@ == t0.roots@.push(kidx),
        t0.root_at(((nnew.cx as int), (nnew.cy as int), (nnew.cz as int)), 0) is None,
        0 <= from,
    ensures
        t1.root_at(c, from) == if c == ((nnew.cx as int), (nnew.cy as int), (nnew.cz as int))
            && from <= t0.roots@.len() {
            Some(t0.n_len())
        } else {
            t0.root_at(c, from)
        },
    decreases t1.roots@.len() - from,
{
    let nc = ((nnew.cx as int), (nnew.cy as int), (nnew.cz as int));
    if from < t0.roots@.len() {
        assert(t0.root_ok(from));
        assert(t1.root_coords(from) == t0.root_coords(from));
        lemma_add_root_root_at(t0, t1, nnew, kidx, c, from + 1);
        if c == nc {
            // no old root carries the new coordinate: otherwise the old scan
            // from 0 would have found one
            if t0.root_coords(from) == nc {
                t0.lemma_root_at_found(from, 0);
                assert(false);
            }
        }
    } else if from == t0.roots@.len() {
        assert(t1.root_coords(from) == nc);
        assert(t1.root_at(c, from + 1) is None);
        assert(t0.root_at(c, from) is None);
    } else {
    }
}

pub(crate) proof fn lemma_add_root_node_at(
    t0: VoxelCSG,
    t1: VoxelCSG,
    nnew: Node,
    kidx: usize,
    c: (int, int, int),
    l: int,
)
    requires
        t0.wf(),
        kidx as int == t0.n_len(),
        t1.s_height() == t0.s_height(),
        t1.nodes@ == t0.nodes@.push(nnew),
        t1.roots@ == t0.roots@.push(kidx),
        nnew.level as int == t0.s_height() - 1,
        forall|j: int| 0 <= j < 8 ==> #[trigger] nnew.kids@[j] is None,
        t0.root_at(((nnew.cx as int), (nnew.cy as int), (nnew.cz as int)), 0) is None,
        0 <= l <= t0.s_height() - 1,
    ensures
        t1.node_at(c, l) == if c == ((nnew.cx as int), (nnew.cy as int), (nnew.cz as int)) && l
            == t0.s_height() - 1 {
            Some(t0.n_len())
        } else {
            t0.node_at(c, l)
        },
    decreases t0.s_height() - 1 - l,
{
    let nc = ((nnew.cx as int), (nnew.cy as int), (nnew.cz as int));
    if l == t0.s_height() - 1 {
        lemma_add_root_root_at(t0, t1, nnew, kidx, c, 0);
    } else {
        let p = (c.0 / 2, c.1 / 2, c.2 / 2);
        lemma_add_root_node_at(t0, t1, nnew, kidx, p, l + 1);
        if p == nc && l + 1 == t0.s_height() - 1 {
            // the parent is the fresh root, which has no children yet
            assert(t1.node_at(p, l + 1) == Some(t0.n_len()));
            assert(t1.kid_at(t0.n_len(), slot_of(c)) is None) by {
                lemma_parent_of(c);
            }
            assert(t0.node_at(p, l + 1) is None);
            assert(t0.node_at(c, l) is None);
            assert(t1.node_at(c, l) is None);
        } else {
            match t0.node_at(p, l + 1) {
                Some(i) => {
                    t0.lemma_node_at_props(p, l + 1);
                    assert(t1.nd(i).kids == t0.nd(i).kids);
                    assert(t1.kid_at(i, slot_of(c)) == t0.kid_at(i, slot_of(c)));
                },
                None => {},
            }
        }
    }
}

/// Linking a fresh childless child under an addressed node changes
/// addressing at the child's own key only, where nothing was tracked before.
pub(crate) proof fn lemma_link_child_node_at(
    t0: VoxelCSG,
    t1: VoxelCSG,
    pi: int,
    pj: int,
    knew: Node,
    kidx: usize,
    c: (int, int, int),
    l: int,
)
    requires
        t0.wf(),
        kidx as int == t0.n_len(),
        0 <= pi < t0.n_len(),
        0 <= pj < 8,
        t0.nd(pi).kids@[pj] is None,
        t0.level_of(pi) >= 1,
        knew.level as int == t0.level_of(pi) - 1,
        knew.cx as int == 2 * t0.coords_of(pi).0 + slot_dx(pj),
        knew.cy as int == 2 * t0.coords_of(pi).1 + slot_dy(pj),
        knew.cz as int == 2 * t0.coords_of(pi).2 + slot_dz(pj),
        forall|j: int| 0 <= j < 8 ==> #[trigger] knew.kids@[j] is None,
        t0.node_at(t0.coords_of(pi), t0.level_of(pi)) == Some(pi),
        t1.s_height() == t0.s_height(),
        t1.roots@ == t0.roots@,
        t1.n_len() == t0.n_len() + 1,
        t1.nd(t0.n_len()) == knew,
        forall|m: int| 0 <= m < t0.n_len() && m != pi ==> #[trigger] t1.nd(m) == t0.nd(m),
        t1.nd(pi).level == t0.nd(pi).level,
        t1.nd(pi).cx == t0.nd(pi).cx,
        t1.nd(pi).cy == t0.nd(pi).cy,
        t1.nd(pi).cz == t0.nd(pi).cz,
        t1.nd(pi).value == t0.nd(pi).value,
        t1.nd(pi).kids@ == t0.nd(pi).kids@.update(pj, Some(kidx)),
        0 <= l <= t0.s_height() - 1,
    ensures
        t1.node_at(c, l) == if c == ((knew.cx as int), (knew.cy as int), (knew.cz as int)) && l
            == knew.level as int {
            Some(t0.n_len())
        } else {
            t0.node_at(c, l)
        },
    decreases t0.s_height() - 1 - l,
{
    let kc = ((knew.cx as int), (knew.cy as int), (knew.cz as int));
    let kl = knew.level as int;
    // the child's key was untracked in t0
    assert(t0.node_at(kc, kl) is None) by {
        lemma_child_coords(t0.coords_of(pi), pj);
        assert((kc.0 / 2, kc.1 / 2, kc.2 / 2) == t0.coords_of(pi));
        assert(slot_of(kc) == pj);
        assert(t0.kid_at(pi, pj) is None);
    }
    if l == t0.s_height() - 1 {
        // the child is strictly below the root level
        assert(kl < t0.level_of(pi));
        assert(t0.node_ok(pi));
        assert forall|r: int|
            0 <= r < t0.roots@.len() implies #[trigger] t1.root_coords(r) == t0.root_coords(
            r,
        ) by {
            assert(t0.root_ok(r));
            if t0.roots@[r] as int != pi {
                assert(t1.nd(t0.roots@[r] as int) == t0.nd(t0.roots@[r] as int));
            }
        }
        lemma_same_shape_root_at_weak(t0, t1, c, 0);
    } else {
        let p = (c.0 / 2, c.1 / 2, c.2 / 2);
        lemma_link_child_node_at(t0, t1, pi, pj, knew, kidx, p, l + 1);
        let j = slot_of(c);
        lemma_parent_of(c);
        if p == kc && l + 1 == kl {
            // the parent is the fresh child, which has no children
            assert(t1.node_at(p, l + 1) == Some(t0.n_len()));
            assert(t1.kid_at(t0.n_len(), j) is None);
            assert(t0.node_at(p, l + 1) is None);
        } else {
            match t0.node_at(p, l + 1) {
                Some(m) => {
                    t0.lemma_node_at_props(p, l + 1);
                    if m == pi && j == pj {
                        // exactly the new child's key
                        lemma_child_coords(t0.coords_of(pi), pj);
                        assert(c == kc && l == kl);
                        assert(t1.kid_at(m, j) == Some(t0.n_len()));
                        assert(t0.kid_at(m, j) is None);
                    } else if m == pi {
                        assert(t1.nd(pi).kids@[j] == t0.nd(pi).kids@[j]);
                        assert(t1.kid_at(m, j) == t0.kid_at(m, j));
                        assert(!(c == kc && l == kl)) by {
                            if c == kc && l == kl {
                                lemma_child_coords(t0.coords_of(pi), pj);
                                assert(slot_of(kc) == pj);
                            }
                        }
                    } else {
                        assert(t1.nd(m) == t0.nd(m));
                        assert(t1.kid_at(m, j) == t0.kid_at(m, j));
                        assert(!(c == kc && l == kl)) by {
                            if c == kc && l == kl {
                                lemma_child_coords(t0.coords_of(pi), pj);
                                assert(p == t0.coords_of(pi) && l + 1 == t0.level_of(pi));
                                t0.lemma_node_at_props(p, l + 1);
                            }
                        }
                    }
                },
                None => {
                    assert(!(c == kc && l == kl)) by {
                        if c == kc && l == kl {
                            lemma_child_coords(t0.coords_of(pi), pj);
                            assert(t0.node_at(p, l + 1) == Some(pi));
                        }
                    }
                },
            }
        }
    }
}

/// Appending a fresh childless root node preserves well-formedness.
pub(crate) proof fn lemma_add_root_wf(t0: VoxelCSG, t1: VoxelCSG, nnew: Node, kidx: usize)
    requires
        t0.wf(),
        kidx as int == t0.n_len(),
        t1.s_height() == t0.s_height(),
        t1.nodes@ == t0.nodes@.push(nnew),
        t1.roots@ == t0.roots@.push(kidx),
        nnew.level as int == t0.s_height() - 1,
        forall|j: int| 0 <= j < 8 ==> #[trigger] nnew.kids@[j] is None,
        t0.root_at(((nnew.cx as int), (nnew.cy as int), (nnew.cz as int)), 0) is None,
    ensures
        t1.wf(),
{
    let nc = ((nnew.cx as int), (nnew.cy as int), (nnew.cz as int));
    let n = t0.n_len();
    assert forall|i: int| 0 <= i < t1.n_len() implies #[trigger] t1.node_ok(i) by {
        if i < n {
            assert(t0.node_ok(i));
            assert(t1.nd(i) == t0.nd(i));
            assert forall|j: int| 0 <= j < 8 implies #[trigger] t1.kid_ok(i, j) by {
                assert(t0.kid_ok(i, j));
                match t0.nd(i).kids@[j] {
                    Some(k) => {
                        assert(t1.nd(k as int) == t0.nd(k as int));
                    },
                    None => {},
                }
            }
        } else {
            assert(t1.nd(i) == nnew);
            assert forall|j: int| 0 <= j < 8 implies #[trigger] t1.kid_ok(i, j) by {
                assert(t1.nd(i).kids@[j] is None);
            }
        }
    }
    assert forall|r: int| 0 <= r < t1.roots@.len() implies #[trigger] t1.root_ok(r) by {
        if r < t0.roots@.len() {
            assert(t0.root_ok(r));
            assert(t1.nd(t0.roots@[r] as int) == t0.nd(t0.roots@[r] as int));
        } else {
            assert(t1.roots@[r] == kidx);
            assert(t1.nd(n) == nnew);
        }
    }
    assert forall|a: int, b: int|
        0 <= a < t1.roots@.len() && 0 <= b < t1.roots@.len() && a != b implies #[trigger] t1
        .root_coords(a) != #[trigger] t1.root_coords(b) by {
        let ra = t0.roots@.len() as int;
        if a < ra && b < ra {
            assert(t0.root_ok(a));
            assert(t0.root_ok(b));
            assert(t1.root_coords(a) == t0.root_coords(a));
            assert(t1.root_coords(b) == t0.root_coords(b));
        } else if a < ra {
            assert(t0.root_ok(a));
            assert(t1.root_coords(a) == t0.root_coords(a));
            assert(t1.root_coords(b) == nc);
            if t0.root_coords(a) == nc {
                t0.lemma_root_at_found(a, 0);
                assert(false);
            }
        } else {
            assert(b < ra);
            assert(t0.root_ok(b));
            assert(t1.root_coords(a) == nc);
            assert(t1.root_coords(b) == t0.root_coords(b));
            if t0.root_coords(b) == nc {
                t0.lemma_root_at_found(b, 0);
                assert(false);
            }
        }
    }
}

/// Linking a fresh childless child under an addressed node preserves
/// well-formedness.
pub(crate) proof fn lemma_link_child_wf(
    t0: VoxelCSG,
    t1: VoxelCSG,
    pi: int,
    pj: int,
    knew: Node,
    kidx: usize,
)
    requires
        t0.wf(),
        kidx as int == t0.n_len(),
        0 <= pi < t0.n_len(),
        0 <= pj < 8,
        t0.nd(pi).kids@[pj] is None,
        t0.level_of(pi) >= 1,
        knew.level as int == t0.level_of(pi) - 1,
        knew.cx as int == 2 * t0.coords_of(pi).0 + slot_dx(pj),
        knew.cy as int == 2 * t0.coords_of(pi).1 + slot_dy(pj),
        knew.cz as int == 2 * t0.coords_of(pi).2 + slot_dz(pj),
        forall|j: int| 0 <= j < 8 ==> #[trigger] knew.kids@[j] is None,
        t1.s_height() == t0.s_height(),
        t1.roots@ == t0.roots@,
        t1.n_len() == t0.n_len() + 1,
        t1.nd(t0.n_len()) == knew,
        forall|m: int| 0 <= m < t0.n_len() && m != pi ==> #[trigger] t1.nd(m) == t0.nd(m),
        t1.nd(pi).level == t0.nd(pi).level,
        t1.nd(pi).cx == t0.nd(pi).cx,
        t1.nd(pi).cy == t0.nd(pi).cy,
        t1.nd(pi).cz == t0.nd(pi).cz,
        t1.nd(pi).value == t0.nd(pi).value,
        t1.nd(pi).kids@ == t0.nd(pi).kids@.update(pj, Some(kidx)),
    ensures
        t1.wf(),
{
    let n = t0.n_len();
    assert forall|i: int| 0 <= i < t1.n_len() implies #[trigger] t1.node_ok(i) by {
        if i == n {
            assert(t1.nd(i) == knew);
            assert(t0.node_ok(pi));
            assert forall|j: int| 0 <= j < 8 implies #[trigger] t1.kid_ok(i, j) by {
                assert(t1.nd(i).kids@[j] is None);
            }
        } else if i == pi {
            assert(t0.node_ok(i));
            assert(t1.level_of(i) == t0.level_of(i));
            assert forall|j: int| 0 <= j < 8 implies #[trigger] t1.kid_ok(i, j) by {
                if j == pj {
                    assert(t1.nd(i).kids@[j] == Some(kidx));
                    assert(t1.nd(n) == knew);
                    assert(t1.level_of(n) + 1 == t1.level_of(i));
                } else {
                    assert(t1.nd(i).kids@[j] == t0.nd(i).kids@[j]);
                    assert(t0.kid_ok(i, j));
                    match t0.nd(i).kids@[j] {
                        Some(k) => {
                            assert(k < n);
                            if k as int != pi {
                                assert(t1.nd(k as int) == t0.nd(k as int));
                            }
                        },
                        None => {},
                    }
                }
            }
        } else {
            assert(t0.node_ok(i));
            assert(t1.nd(i) == t0.nd(i));
            assert forall|j: int| 0 <= j < 8 implies #[trigger] t1.kid_ok(i, j) by {
                assert(t0.kid_ok(i, j));
                match t0.nd(i).kids@[j] {
                    Some(k) => {
                        if k as int != pi {
                            assert(t1.nd(k as int) == t0.nd(k as int));
                        }
                    },
                    None => {},
                }
            }
        }
    }
    assert forall|r: int| 0 <= r < t1.roots@.len() implies #[trigger] t1.root_ok(r) by {
        assert(t0.root_ok(r));
        let m = t0.roots@[r] as int;
        if m != pi {
            assert(t1.nd(m) == t0.nd(m));
        }
    }
    assert forall|a: int, b: int|
        0 <= a < t1.roots@.len() && 0 <= b < t1.roots@.len() && a != b implies #[trigger] t1
        .root_coords(a) != #[trigger] t1.root_coords(b) by {
        assert(t0.root_ok(a));
        assert(t0.root_ok(b));
        assert(t1.root_coords(a) == t0.root_coords(a)) by {
            if t0.roots@[a] as int != pi {
                assert(t1.nd(t0.roots@[a] as int) == t0.nd(t0.roots@[a] as int));
            }
        }
        assert(t1.root_coords(b) == t0.root_coords(b)) by {
            if t0.roots@[b] as int != pi {
                assert(t1.nd(t0.roots@[b] as int) == t0.nd(t0.roots@[b] as int));
            }
        }
    }
}

/// A skeleton-preserving rewrite of payloads preserves well-formedness.
pub(crate) proof fn lemma_same_shape_wf(t0: VoxelCSG, t1: VoxelCSG)
    requires
        t0.wf(),
        same_shape(t0, t1),
    ensures
        t1.wf(),
{
    assert forall|i: int| 0 <= i < t1.n_len() implies #[trigger] t1.node_ok(i) by {
        assert(t0.node_ok(i));
        assert forall|j: int| 0 <= j < 8 implies #[trigger] t1.kid_ok(i, j) by {
            assert(t0.kid_ok(i, j));
            assert(t1.nd(i).kids@[j] == t0.nd(i).kids@[j]);
        }
        assert forall|j: int| 0 <= j < 8 && t1.level_of(i) == 0 implies t1.nd(i).kids@[j]
            is None by {
            assert(t0.nd(i).kids@[j] is None);
        }
    }
    assert forall|r: int| 0 <= r < t1.roots@.len() implies #[trigger] t1.root_ok(r) by {
        assert(t0.root_ok(r));
    }
    assert forall|a: int, b: int|
        0 <= a < t1.roots@.len() && 0 <= b < t1.roots@.len() && a != b implies #[trigger] t1
        .root_coords(a) != #[trigger] t1.root_coords(b) by {
        assert(t0.root_ok(a));
        assert(t0.root_ok(b));
        assert(t1.root_coords(a) == t0.root_coords(a));
        assert(t1.root_coords(b) == t0.root_coords(b));
    }
}

/// The complement-within-domain relation: the two indexes track the same
/// level-0 keys, and a tracked voxel is filled afterwards exactly if it was
/// tracked and unfilled before. Coordinates that were never materialized stay
/// absent: this is not a set complement over the whole coordinate universe.
pub open spec fn inverts(pre: VoxelCSG, post: VoxelCSG) -> bool {
    &&& post.s_height() == pre.s_height()
    &&& forall|q: (int, int, int)| #[trigger] post.present(q) == pre.present(q)
    &&& forall|q: (int, int, int)| #[trigger] post.filled(q) == (pre.present(q) && !pre.filled(q))
}

/// Root scanning ignores payloads and child links; it needs only equal root
/// slots and unchanged root-node keys.
pub(crate) proof fn lemma_same_shape_root_at_weak(
    t0: VoxelCSG,
    t1: VoxelCSG,
    c: (int, int, int),
    from: int,
)
    requires
        t1.roots@ == t0.roots@,
        forall|r: int|
            0 <= r < t0.roots@.len() ==> #[trigger] t1.root_coords(r) == t0.root_coords(r),
    ensures
        t1.root_at(c, from) == t0.root_at(c, from),
    decreases t0.roots@.len() - from,
{
    if 0 <= from < t0.roots@.len() {
        assert(t1.root_coords(from) == t0.root_coords(from));
        lemma_same_shape_root_at_weak(t0, t1, c, from + 1);
    }
}


impl VoxelCSG {
    /// Create an empty index with the given number of levels. The height must
    /// exceed 1; `create` offers the same construction with an error result.
    pub fn new(height: u32) -> (t: VoxelCSG)
        requires
            height >= 2,
        ensures
            t.wf(),
            t.s_height() == height as int,
            forall|q: (int, int, int)| !t.present(q) && !t.filled(q),
    {
        let t = VoxelCSG { height, nodes: Vec::new(), roots: Vec::new() };
        proof {
            assert forall|q: (int, int, int)| !t.present(q) && !t.filled(q) by {
                let l = t.s_height() - 1;
                assert(t.node_at(anc3(q, l as nat), l) is None);
                t.lemma_descend_none(q, l);
            }
        }
        t
    }

    /// Create an empty index, rejecting heights of 1 or less.
    pub fn create(height: u32) -> (r: Result<VoxelCSG, CsgError>)
        ensures
            height >= 2 ==> ({
                &&& r is Ok
                &&& r->Ok_0.wf()
                &&& r->Ok_0.s_height() == height as int
                &&& forall|q: (int, int, int)| !r->Ok_0.present(q) && !r->Ok_0.filled(q)
            }),
            height <= 1 ==> r == Result::<VoxelCSG, CsgError>::Err(CsgError::InvalidArgument),
    {
        if height <= 1 {
            Err(CsgError::InvalidArgument)
        } else {
            Ok(VoxelCSG::new(height))
        }
    }

    /// The number of resolution levels fixed at construction; always above 1
    /// for a well-formed index.
    pub fn height(&self) -> (h: u32)
        requires
            self.wf(),
        ensures
            h as int == self.s_height(),
            h >= 2,
    {
        self.height
    }

    /// Scan the tracked roots for one covering coordinate `c`.
    #[verifier::loop_isolation(false)]
    fn find_root(&self, c: Coord) -> (r: Option<usize>)
        requires
            self.wf(),
        ensures
            match r {
                Some(u) => self.root_at(c@, 0) == Some(u as int),
                None => self.root_at(c@, 0) is None,
            },
    {
        let mut a: usize = 0;
        while a < self.roots.len()
            invariant
                a <= self.roots@.len(),
                self.root_at(c@, 0) == self.root_at(c@, a as int),
            decreases self.roots@.len() - a,
        {
            let ri = self.roots[a];
            proof {
                assert(self.root_ok(a as int));
            }
            let nd = self.nodes[ri];
            if nd.cx == c.x && nd.cy == c.y && nd.cz == c.z {
                proof {
                    assert(self.root_coords(a as int) == c@);
                }
                return Some(ri);
            }
            proof {
                assert(self.root_coords(a as int) != c@);
            }
            a = a + 1;
        }
        None
    }

    /// Read the voxel at a coordinate: `true` only if a level-0 node exists
    /// there and is filled.
    #[verifier::loop_isolation(false)]
    pub fn get_voxel(&self, coords: Coord) -> (b: bool)
        requires
            self.wf(),
        ensures
            b == self.filled(coords@),
    {
        let h = self.height;
        let ch = anc_chain(coords, h);
        let top = ch[(h - 1) as usize];
        let mut i: usize;
        match self.find_root(top) {
            Some(r) => {
                proof {
                    self.lemma_root_at_props(top@, 0);
                }
                i = r;
            },
            None => {
                proof {
                    let l = self.s_height() - 1;
                    assert(self.node_at(anc3(coords@, l as nat), l) is None);
                    self.lemma_descend_none(coords@, l);
                }
                return false;
            },
        }
        let mut l: u32 = h - 1;
        while l > 0
            invariant
                1 <= l + 1 <= self.height,
                i < self.nodes@.len(),
                self.node_at(ch@[l as int]@, l as int) == Some(i as int),
            decreases l,
        {
            let cc = ch[(l - 1) as usize];
            let cur = ch[l as usize];
            proof {
                assert(cur@ == (cc@.0 / 2, cc@.1 / 2, cc@.2 / 2));
            }
            let j = octant(cur, cc);
            let nd = self.nodes[i];
            proof {
                assert(self.node_ok(i as int));
                assert(self.kid_ok(i as int, j as int));
            }
            match nd.kids[j] {
                Some(k) => {
                    proof {
                        assert(self.node_at(cc@, l - 1) == Some(k as int));
                    }
                    i = k;
                    l = l - 1;
                },
                None => {
                    proof {
                        assert(self.node_at(cc@, l - 1) is None);
                        self.lemma_descend_none(coords@, l - 1);
                    }
                    return false;
                },
            }
        }
        let nd = self.nodes[i];
        proof {
            assert(ch@[0]@ == coords@);
        }
        nd.value
    }
}

impl VoxelCSG {
    /// Walk from the coarsest tracked ancestor covering the level-0 key `p`
    /// (creating a fresh root if none exists) down to `p`, creating every
    /// missing node along the way with payload `true`. Nodes that already
    /// existed are left untouched; in particular an existing level-0 node
    /// keeps its payload.
    #[verifier::loop_isolation(false)]
    pub fn fill_path_from_root(&mut self, p: Coord)
        requires
            old(self).wf(),
        ensures
            final(self).wf(),
            final(self).s_height() == old(self).s_height(),
            forall|q: (int, int, int)|
                final(self).present(q) == (old(self).present(q) || q == p@),
            forall|q: (int, int, int)|
                final(self).filled(q) == (old(self).filled(q) || (q == p@ && !old(self).present(
                    q,
                ))),
    {
        let ghost t0 = *self;
        let h = self.height;
        let ch = anc_chain(p, h);
        let top = ch[(h - 1) as usize];
        let mut i: usize;
        match self.find_root(top) {
            Some(r) => {
                proof {
                    self.lemma_root_at_props(top@, 0);
                }
                i = r;
            },
            None => {
                let k = self.nodes.len();
                let nnew = Node {
                    level: h - 1,
                    cx: top.x,
                    cy: top.y,
                    cz: top.z,
                    value: true,
                    kids: [None, None, None, None, None, None, None, None],
                };
                self.nodes.push(nnew);
                self.roots.push(k);
                proof {
                    lemma_add_root_wf(t0, *self, nnew, k);
                    assert forall|c: (int, int, int), l: int|
                        0 <= l <= t0.s_height() - 1 implies self.node_at(c, l) == (if c == top@
                        && l == t0.s_height() - 1 {
                        Some(t0.n_len())
                    } else {
                        t0.node_at(c, l)
                    }) by {
                        lemma_add_root_node_at(t0, *self, nnew, k, c, l);
                    }
                }
                i = k;
            },
        }
        let mut l: u32 = h - 1;
        while l > 0
            invariant
                self.wf(),
                self.height == t0.height,
                1 <= l + 1 <= self.height,
                i < self.nodes@.len(),
                self.n_len() >= t0.n_len(),
                self.node_at(ch@[l as int]@, l as int) == Some(i as int),
                forall|m: int|
                    0 <= m < t0.n_len() ==> {
                        &&& (#[trigger] self.nd(m)).value == t0.nd(m).value
                        &&& self.nd(m).level == t0.nd(m).level
                        &&& self.nd(m).cx == t0.nd(m).cx
                        &&& self.nd(m).cy == t0.nd(m).cy
                        &&& self.nd(m).cz == t0.nd(m).cz
                    },
                forall|q: (int, int, int)|
                    q != p@ ==> self.node_at(q, 0) == t0.node_at(q, 0),
                l > 0 ==> self.node_at(p@, 0) == t0.node_at(p@, 0),
                l == 0 && t0.node_at(p@, 0) is Some ==> self.node_at(p@, 0) == t0.node_at(
                    p@,
                    0,
                ),
                l == 0 && t0.node_at(p@, 0) is None ==> (self.node_at(p@, 0) is Some && 0 <= self
                    .node_at(p@, 0)->Some_0 < self.n_len() && self.nd(
                    self.node_at(p@, 0)->Some_0,
                ).value == true),
            decreases l,
        {
            let cc = ch[(l - 1) as usize];
            let cur = ch[l as usize];
            proof {
                assert(cur@ == (cc@.0 / 2, cc@.1 / 2, cc@.2 / 2));
            }
            let j = octant(cur, cc);
            let nd = self.nodes[i];
            proof {
                assert(self.node_ok(i as int));
                assert(self.kid_ok(i as int, j as int));
            }
            match nd.kids[j] {
                Some(k) => {
                    proof {
                        assert(self.node_at(cc@, l - 1) == Some(k as int));
                    }
                    i = k;
                    l = l - 1;
                },
                None => {
                    let ghost tpre = *self;
                    let k = self.nodes.len();
                    let knew = Node {
                        level: l - 1,
                        cx: cc.x,
                        cy: cc.y,
                        cz: cc.z,
                        value: true,
                        kids: [None, None, None, None, None, None, None, None],
                    };
                    self.nodes.push(knew);
                    let mut nn = self.nodes[i];
                    nn.kids[j] = Some(k);
                    self.nodes[i] = nn;
                    proof {
                        tpre.lemma_node_at_props(ch@[l as int]@, l as int);
                        assert(tpre.coords_of(i as int) == cur@);
                        assert(tpre.level_of(i as int) == l as int);
                        lemma_parent_of(cc@);
                        assert(knew.cx as int == 2 * tpre.coords_of(i as int).0 + slot_dx(
                            j as int,
                        ));
                        assert(knew.cy as int == 2 * tpre.coords_of(i as int).1 + slot_dy(
                            j as int,
                        ));
                        assert(knew.cz as int == 2 * tpre.coords_of(i as int).2 + slot_dz(
                            j as int,
                        ));
                        assert(self.nd(i as int).kids@ == tpre.nd(i as int).kids@.update(
                            j as int,
                            Some(k),
                        ));
                        assert(forall|m: int|
                            0 <= m < tpre.n_len() && m != i as int ==> #[trigger] self.nd(m)
                                == tpre.nd(m));
                        lemma_link_child_wf(tpre, *self, i as int, j as int, knew, k);
                        assert forall|c: (int, int, int), l2: int|
                            0 <= l2 <= tpre.s_height() - 1 implies self.node_at(c, l2) == (if c
                            == cc@ && l2 == l - 1 {
                            Some(tpre.n_len())
                        } else {
                            tpre.node_at(c, l2)
                        }) by {
                            lemma_link_child_node_at(tpre, *self, i as int, j as int, knew, k, c, l2);
                        }
                        assert(self.node_at(cc@, l - 1) == Some(k as int));
                        if l - 1 == 0 {
                            assert(cc@ == p@);
                            assert(tpre.node_at(p@, 0) is None);
                            assert(self.nd(k as int).value == true);
                        }
                    }
                    i = k;
                    l = l - 1;
                },
            }
        }
        proof {
            assert(ch@[0]@ == p@);
            assert forall|q: (int, int, int)|
                final(self).present(q) == (t0.present(q) || q == p@) by {
                if q != p@ {
                } else {
                    assert(self.node_at(p@, 0) is Some);
                }
            }
            assert forall|q: (int, int, int)|
                final(self).filled(q) == (t0.filled(q) || (q == p@ && !t0.present(q))) by {
                if q != p@ {
                    match t0.node_at(q, 0) {
                        Some(m) => {
                            t0.lemma_node_at_props(q, 0);
                            assert(self.nd(m).value == t0.nd(m).value);
                        },
                        None => {},
                    }
                } else {
                    match t0.node_at(p@, 0) {
                        Some(m) => {
                            t0.lemma_node_at_props(p@, 0);
                            assert(self.nd(m).value == t0.nd(m).value);
                        },
                        None => {},
                    }
                }
            }
        }
    }
}

impl VoxelCSG {
    /// A filled voxel is in particular a tracked one.
    pub proof fn lemma_filled_implies_present(self, q: (int, int, int))
        ensures
            self.filled(q) ==> self.present(q),
    {
    }

    /// Flip the stored payload of every node of the index, at every level,
    /// in two phases: first collect the nodes into a list, then flip each
    /// collected node. The arena holds exactly the nodes that path-fills
    /// created and linked, so collecting its indices in order lists every
    /// node without descending the tree; no node is added or removed, and
    /// coordinates never materialized stay absent.
    #[verifier::loop_isolation(false)]
    pub fn invert_in_place(&mut self)
        requires
            old(self).wf(),
        ensures
            final(self).wf(),
            inverts(*old(self), *final(self)),
    {
        let ghost t0 = *self;
        let mut all_nodes: Vec<usize> = Vec::new();
        let mut c: usize = 0;
        while c < self.nodes.len()
            invariant
                c <= self.nodes@.len(),
                all_nodes@.len() == c as int,
                forall|m: int| 0 <= m < c as int ==> #[trigger] all_nodes@[m] == m as usize,
            decreases self.nodes@.len() - c,
        {
            all_nodes.push(c);
            c = c + 1;
        }
        let mut n: usize = 0;
        while n < all_nodes.len()
            invariant
                n <= all_nodes@.len(),
                all_nodes@.len() == self.nodes@.len(),
                forall|m: int| 0 <= m < all_nodes@.len() ==> #[trigger] all_nodes@[m] == m as usize,
                self.height == t0.height,
                self.n_len() == t0.n_len(),
                self.roots@ == t0.roots@,
                forall|m: int|
                    0 <= m < t0.n_len() ==> {
                        &&& (#[trigger] self.nd(m)).level == t0.nd(m).level
                        &&& self.nd(m).cx == t0.nd(m).cx
                        &&& self.nd(m).cy == t0.nd(m).cy
                        &&& self.nd(m).cz == t0.nd(m).cz
                        &&& self.nd(m).kids == t0.nd(m).kids
                    },
                forall|m: int| 0 <= m < n as int ==> (#[trigger] self.nd(m)).value == !t0.nd(
                    m,
                ).value,
                forall|m: int|
                    n as int <= m < t0.n_len() ==> (#[trigger] self.nd(m)).value == t0.nd(
                        m,
                    ).value,
            decreases all_nodes@.len() - n,
        {
            let idx = all_nodes[n];
            proof {
                assert(idx == n as usize);
            }
            let ghost sp = *self;
            let mut nd = self.nodes[idx];
            proof {
                assert(nd == sp.nd(idx as int));
            }
            nd.value = !nd.value;
            proof {
                assert(nd.kids == sp.nd(idx as int).kids);
                assert(nd.level == sp.nd(idx as int).level);
                assert(nd.value == !sp.nd(idx as int).value);
            }
            self.nodes[idx] = nd;
            proof {
                assert(self.nodes@ == sp.nodes@.update(idx as int, nd));
                assert(self.nd(idx as int) == nd);
                assert forall|m: int|
                    0 <= m < t0.n_len() implies {
                        &&& (#[trigger] self.nd(m)).level == t0.nd(m).level
                        &&& self.nd(m).cx == t0.nd(m).cx
                        &&& self.nd(m).cy == t0.nd(m).cy
                        &&& self.nd(m).cz == t0.nd(m).cz
                        &&& self.nd(m).kids == t0.nd(m).kids
                    } by {
                    assert(sp.nd(m).level == t0.nd(m).level);
                    if m != idx as int {
                        assert(self.nd(m) == sp.nd(m));
                    }
                }
                assert forall|m: int|
                    0 <= m < n as int + 1 implies (#[trigger] self.nd(m)).value == !t0.nd(
                        m,
                    ).value by {
                    if m != idx as int {
                        assert(self.nd(m) == sp.nd(m));
                        assert(sp.nd(m).value == !t0.nd(m).value);
                    }
                }
                assert forall|m: int|
                    n as int + 1 <= m < t0.n_len() implies (#[trigger] self.nd(m)).value
                        == t0.nd(m).value by {
                    assert(self.nd(m) == sp.nd(m));
                    assert(sp.nd(m).value == t0.nd(m).value);
                }
            }
            n = n + 1;
        }
        proof {
            assert(same_shape(t0, *self));
            lemma_same_shape_wf(t0, *self);
            assert forall|q: (int, int, int)| #[trigger] self.present(q) == t0.present(q) by {
                lemma_same_shape_node_at(t0, *self, q, 0);
            }
            assert forall|q: (int, int, int)| #[trigger] self.filled(q) == (t0.present(q)
                && !t0.filled(q)) by {
                lemma_same_shape_node_at(t0, *self, q, 0);
                match t0.node_at(q, 0) {
                    Some(m) => {
                        t0.lemma_node_at_props(q, 0);
                        assert(self.nd(m).value == !t0.nd(m).value);
                    },
                    None => {},
                }
            }
        }
    }

    /// A deep copy with identical height, tracked keys and payloads.
    #[verifier::loop_isolation(false)]
    pub(crate) fn duplicate(&self) -> (r: VoxelCSG)
        requires
            self.wf(),
        ensures
            r.wf(),
            r.s_height() == self.s_height(),
            forall|q: (int, int, int)| #[trigger] r.present(q) == self.present(q),
            forall|q: (int, int, int)| #[trigger] r.filled(q) == self.filled(q),
    {
        let mut nodes2: Vec<Node> = Vec::new();
        let mut a: usize = 0;
        while a < self.nodes.len()
            invariant
                a <= self.nodes@.len(),
                nodes2@.len() == a as int,
                forall|m: int| 0 <= m < a as int ==> nodes2@[m] == self.nodes@[m],
            decreases self.nodes@.len() - a,
        {
            nodes2.push(self.nodes[a]);
            a = a + 1;
        }
        let mut roots2: Vec<usize> = Vec::new();
        let mut b: usize = 0;
        while b < self.roots.len()
            invariant
                b <= self.roots@.len(),
                roots2@.len() == b as int,
                forall|m: int| 0 <= m < b as int ==> roots2@[m] == self.roots@[m],
            decreases self.roots@.len() - b,
        {
            roots2.push(self.roots[b]);
            b = b + 1;
        }
        let r = VoxelCSG { height: self.height, nodes: nodes2, roots: roots2 };
        proof {
            assert(r.nodes@ =~= self.nodes@);
            assert(r.roots@ =~= self.roots@);
            assert(same_shape(*self, r));
            lemma_same_shape_wf(*self, r);
            assert forall|q: (int, int, int)| #[trigger] r.present(q) == self.present(q) by {
                lemma_same_shape_node_at(*self, r, q, 0);
            }
            assert forall|q: (int, int, int)| #[trigger] r.filled(q) == self.filled(q) by {
                lemma_same_shape_node_at(*self, r, q, 0);
                assert(r.nodes@ == self.nodes@);
            }
        }
        r
    }

    /// Collect, in depth-first pre-order below the addressed node `i`, the
    /// coordinate of every filled level-0 descendant.
    #[verifier::loop_isolation(false)]
    fn collect_rec(&self, i: usize, out: &mut Vec<Coord>)
        requires
            self.wf(),
            i < self.nodes@.len(),
            self.node_at(self.coords_of(i as int), self.level_of(i as int)) == Some(i as int),
        ensures
            final(out)@.len() >= old(out)@.len(),
            forall|n: int| 0 <= n < old(out)@.len() ==> final(out)@[n] == old(out)@[n],
            forall|n: int|
                old(out)@.len() <= n < final(out)@.len() ==> self.filled(
                    (#[trigger] final(out)@[n])@,
                ) && anc3(final(out)@[n]@, self.level_of(i as int) as nat) == self.coords_of(
                    i as int,
                ),
            forall|q: (int, int, int)|
                self.filled(q) && anc3(q, self.level_of(i as int) as nat) == self.coords_of(
                    i as int,
                ) ==> exists|n: int|
                    old(out)@.len() <= n < final(out)@.len() && (#[trigger] final(out)@[n])@ == q,
            forall|n1: int, n2: int|
                old(out)@.len() <= n1 < n2 < final(out)@.len() ==> (
                #[trigger] final(out)@[n1])@ != (#[trigger] final(out)@[n2])@,
        decreases self.nd(i as int).level,
    {
        let nd = self.nodes[i];
        let ghost li = self.level_of(i as int);
        let ghost ci = self.coords_of(i as int);
        proof {
            assert(self.node_ok(i as int));
        }
        if nd.level == 0 {
            proof {
                assert forall|q: (int, int, int)| anc3(q, 0) == q by {
                    assert(anc1(q.0, 0) == q.0);
                    assert(anc1(q.1, 0) == q.1);
                    assert(anc1(q.2, 0) == q.2);
                }
                assert(self.filled(ci) == nd.value);
            }
            if nd.value {
                let c = Coord::new(nd.cx, nd.cy, nd.cz);
                let ghost n0 = out@.len();
                out.push(c);
                proof {
                    assert(out@[n0 as int] == c);
                    assert(c@ == ci);
                    assert forall|q: (int, int, int)|
                        self.filled(q) && anc3(q, li as nat) == ci implies exists|n: int|
                        n0 <= n < out@.len() && (#[trigger] out@[n])@ == q by {
                        assert(anc3(q, li as nat) == q);
                        assert(out@[n0 as int]@ == q);
                    }
                }
            } else {
                proof {
                    assert forall|q: (int, int, int)|
                        self.filled(q) && anc3(q, li as nat) == ci implies false by {
                        assert(anc3(q, li as nat) == q);
                        assert(q == ci);
                    }
                }
            }
        } else {
            let ghost out0 = out@;
            let mut j: usize = 0;
            while j < 8
                invariant
                    j <= 8,
                    out@.len() >= out0.len(),
                    forall|n: int| 0 <= n < out0.len() ==> out@[n] == out0[n],
                    forall|n: int|
                        out0.len() <= n < out@.len() ==> self.filled((#[trigger] out@[n])@)
                            && anc3(out@[n]@, li as nat) == ci && 0 <= slot_of(
                            anc3(out@[n]@, (li - 1) as nat),
                        ) < j as int,
                    forall|q: (int, int, int)|
                        self.filled(q) && anc3(q, li as nat) == ci && slot_of(
                            anc3(q, (li - 1) as nat),
                        ) < j as int ==> exists|n: int|
                            out0.len() <= n < out@.len() && (#[trigger] out@[n])@ == q,
                    forall|n1: int, n2: int|
                        out0.len() <= n1 < n2 < out@.len() ==> (#[trigger] out@[n1])@ != (
                        #[trigger] out@[n2])@,
                decreases 8 - j,
            {
                let ghost outj = out@;
                proof {
                    assert(self.kid_ok(i as int, j as int));
                    lemma_slot_roundtrip(j as int);
                }
                match nd.kids[j] {
                    Some(k) => {
                        let ghost ck = self.coords_of(k as int);
                        proof {
                            lemma_child_coords(ci, j as int);
                            assert(ck == (
                                2 * ci.0 + slot_dx(j as int),
                                2 * ci.1 + slot_dy(j as int),
                                2 * ci.2 + slot_dz(j as int),
                            ));
                            assert((ck.0 / 2, ck.1 / 2, ck.2 / 2) == ci);
                            assert(slot_of(ck) == j as int);
                            assert(self.level_of(k as int) == li - 1);
                            assert(self.node_at(ck, li - 1) == Some(k as int));
                        }
                        self.collect_rec(k, out);
                        proof {
                            assert forall|n: int|
                                out0.len() <= n < out@.len() implies self.filled(
                                (#[trigger] out@[n])@,
                            ) && anc3(out@[n]@, li as nat) == ci && 0 <= slot_of(
                                anc3(out@[n]@, (li - 1) as nat),
                            ) < j as int + 1 by {
                                if n < outj.len() {
                                    assert(out@[n] == outj[n]);
                                } else {
                                    let q = out@[n]@;
                                    assert(anc3(q, (li - 1) as nat) == ck);
                                    assert(anc1(q.0, li as nat) == anc1(
                                        q.0,
                                        (li - 1) as nat,
                                    ) / 2);
                                    assert(anc1(q.1, li as nat) == anc1(
                                        q.1,
                                        (li - 1) as nat,
                                    ) / 2);
                                    assert(anc1(q.2, li as nat) == anc1(
                                        q.2,
                                        (li - 1) as nat,
                                    ) / 2);
                                    assert(anc3(q, li as nat) == ci);
                                    assert(slot_of(anc3(q, (li - 1) as nat)) == j as int);
                                }
                            }
                            assert forall|q: (int, int, int)|
                                self.filled(q) && anc3(q, li as nat) == ci && slot_of(
                                    anc3(q, (li - 1) as nat),
                                ) < j as int + 1 implies exists|n: int|
                                out0.len() <= n < out@.len() && (#[trigger] out@[n])@ == q by {
                                if slot_of(anc3(q, (li - 1) as nat)) < j as int {
                                    let n0 = choose|n: int|
                                        out0.len() <= n < outj.len() && (#[trigger] outj[n])@
                                            == q;
                                    assert(out@[n0] == outj[n0]);
                                    assert(out0.len() <= n0 < out@.len() && out@[n0]@ == q);
                                } else {
                                    let cq = anc3(q, (li - 1) as nat);
                                    lemma_parent_of(cq);
                                    assert(anc1(q.0, li as nat) == anc1(
                                        q.0,
                                        (li - 1) as nat,
                                    ) / 2);
                                    assert(anc1(q.1, li as nat) == anc1(
                                        q.1,
                                        (li - 1) as nat,
                                    ) / 2);
                                    assert(anc1(q.2, li as nat) == anc1(
                                        q.2,
                                        (li - 1) as nat,
                                    ) / 2);
                                    assert((cq.0 / 2, cq.1 / 2, cq.2 / 2) == ci);
                                    assert(cq == ck);
                                    let n0 = choose|n: int|
                                        outj.len() <= n < out@.len() && (#[trigger] out@[n])@
                                            == q;
                                    assert(out0.len() <= n0 < out@.len() && out@[n0]@ == q);
                                }
                            }
                            assert forall|n1: int, n2: int|
                                out0.len() <= n1 < n2 < out@.len() implies (#[trigger] out@[n1])@
                                != (#[trigger] out@[n2])@ by {
                                if n2 < outj.len() {
                                    assert(out@[n1] == outj[n1]);
                                    assert(out@[n2] == outj[n2]);
                                } else if n1 >= outj.len() {
                                } else {
                                    assert(out@[n1] == outj[n1]);
                                    let q1 = out@[n1]@;
                                    let q2 = out@[n2]@;
                                    assert(slot_of(anc3(q1, (li - 1) as nat)) < j as int);
                                    assert(anc3(q2, (li - 1) as nat) == ck);
                                    assert(slot_of(anc3(q2, (li - 1) as nat)) == j as int);
                                }
                            }
                        }
                    },
                    None => {
                        proof {
                            assert forall|q: (int, int, int)|
                                self.filled(q) && anc3(q, li as nat) == ci && slot_of(
                                    anc3(q, (li - 1) as nat),
                                ) < j as int + 1 implies exists|n: int|
                                out0.len() <= n < out@.len() && (#[trigger] out@[n])@ == q by {
                                if slot_of(anc3(q, (li - 1) as nat)) < j as int {
                                } else {
                                    let cq = anc3(q, (li - 1) as nat);
                                    lemma_parent_of(cq);
                                    assert(anc1(q.0, li as nat) == anc1(
                                        q.0,
                                        (li - 1) as nat,
                                    ) / 2);
                                    assert(anc1(q.1, li as nat) == anc1(
                                        q.1,
                                        (li - 1) as nat,
                                    ) / 2);
                                    assert(anc1(q.2, li as nat) == anc1(
                                        q.2,
                                        (li - 1) as nat,
                                    ) / 2);
                                    assert((cq.0 / 2, cq.1 / 2, cq.2 / 2) == ci);
                                    assert(slot_of(cq) == j as int);
                                    assert(self.node_at(cq, li - 1) is None);
                                    self.lemma_descend_none(q, li - 1);
                                    assert(!self.filled(q));
                                }
                            }
                        }
                    },
                }
                j = j + 1;
            }
            proof {
                assert forall|q: (int, int, int)|
                    self.filled(q) && anc3(q, li as nat) == ci implies exists|n: int|
                    out0.len() <= n < out@.len() && (#[trigger] out@[n])@ == q by {
                    lemma_parent_of(anc3(q, (li - 1) as nat));
                    assert(slot_of(anc3(q, (li - 1) as nat)) < 8);
                }
            }
        }
    }

    /// Every filled voxel coordinate, each exactly once, gathered by a
    /// depth-first scan of every root, visiting octants in a fixed ascending
    /// order so that repeated scans of an unchanged index agree.
    #[verifier::loop_isolation(false)]
    pub fn filled_points(&self) -> (pts: Vec<Coord>)
        requires
            self.wf(),
        ensures
            forall|n: int| 0 <= n < pts@.len() ==> self.filled((#[trigger] pts@[n])@),
            forall|q: (int, int, int)|
                self.filled(q) ==> exists|n: int|
                    0 <= n < pts@.len() && (#[trigger] pts@[n])@ == q,
            forall|n1: int, n2: int|
                0 <= n1 < n2 < pts@.len() ==> (#[trigger] pts@[n1])@ != (#[trigger] pts@[n2])@,
    {
        let mut out: Vec<Coord> = Vec::new();
        let ghost rl = self.s_height() - 1;
        let mut a: usize = 0;
        while a < self.roots.len()
            invariant
                a <= self.roots@.len(),
                forall|n: int|
                    0 <= n < out@.len() ==> self.filled((#[trigger] out@[n])@) && exists|b: int|
                        0 <= b < a as int && anc3(out@[n]@, rl as nat) == #[trigger] self
                            .root_coords(b),
                forall|q: (int, int, int), b: int|
                    #[trigger] self.filled(q) && 0 <= b < a as int && anc3(q, rl as nat)
                        == #[trigger] self.root_coords(b) ==> exists|n: int|
                        0 <= n < out@.len() && (#[trigger] out@[n])@ == q,
                forall|n1: int, n2: int|
                    0 <= n1 < n2 < out@.len() ==> (#[trigger] out@[n1])@ != (#[trigger] out@[n2])@,
            decreases self.roots@.len() - a,
        {
            let ghost outa = out@;
            let ri = self.roots[a];
            proof {
                assert(self.root_ok(a as int));
                self.lemma_root_at_found(a as int, 0);
                assert(self.node_at(self.coords_of(ri as int), self.level_of(ri as int))
                    == Some(ri as int));
            }
            self.collect_rec(ri, &mut out);
            proof {
                assert forall|n: int|
                    0 <= n < out@.len() implies self.filled((#[trigger] out@[n])@) && exists|
                    b: int,
                |
                    0 <= b < a as int + 1 && anc3(out@[n]@, rl as nat) == #[trigger] self
                        .root_coords(b) by {
                    if n < outa.len() {
                        assert(out@[n] == outa[n]);
                        let b0 = choose|b: int|
                            0 <= b < a as int && anc3(outa[n]@, rl as nat) == #[trigger] self
                                .root_coords(b);
                        assert(anc3(out@[n]@, rl as nat) == self.root_coords(b0));
                    } else {
                        assert(anc3(out@[n]@, rl as nat) == self.root_coords(a as int));
                    }
                }
                assert forall|q: (int, int, int), b: int|
                    #[trigger] self.filled(q) && 0 <= b < a as int + 1 && anc3(q, rl as nat)
                        == #[trigger] self.root_coords(b) implies exists|n: int|
                    0 <= n < out@.len() && (#[trigger] out@[n])@ == q by {
                    if b < a as int {
                        let n0 = choose|n: int|
                            0 <= n < outa.len() && (#[trigger] outa[n])@ == q;
                        assert(out@[n0] == outa[n0]);
                    } else {
                        let n0 = choose|n: int|
                            outa.len() <= n < out@.len() && (#[trigger] out@[n])@ == q;
                        assert(0 <= n0 < out@.len() && out@[n0]@ == q);
                    }
                }
                assert forall|n1: int, n2: int|
                    0 <= n1 < n2 < out@.len() implies (#[trigger] out@[n1])@ != (
                    #[trigger] out@[n2])@ by {
                    if n2 < outa.len() {
                        assert(out@[n1] == outa[n1]);
                        assert(out@[n2] == outa[n2]);
                    } else if n1 >= outa.len() {
                    } else {
                        assert(out@[n1] == outa[n1]);
                        let q1 = out@[n1]@;
                        let q2 = out@[n2]@;
                        let b0 = choose|b: int|
                            0 <= b < a as int && anc3(outa[n1]@, rl as nat) == #[trigger] self
                                .root_coords(b);
                        assert(anc3(q1, rl as nat) == self.root_coords(b0));
                        assert(anc3(q2, rl as nat) == self.root_coords(a as int));
                        assert(self.root_coords(b0) != self.root_coords(a as int));
                    }
                }
            }
            a = a + 1;
        }
        proof {
            assert forall|q: (int, int, int)| self.filled(q) implies exists|n: int|
                0 <= n < out@.len() && (#[trigger] out@[n])@ == q by {
                let c = anc3(q, rl as nat);
                assert(self.node_at(c, rl) is Some) by {
                    if self.node_at(c, rl) is None {
                        self.lemma_descend_none(q, rl);
                    }
                }
                self.lemma_root_at_position(c, 0);
                let b = choose|b: int|
                    0 <= b < self.roots@.len() && #[trigger] self.root_coords(b) == c
                        && self.roots@[b] as int == self.root_at(c, 0)->Some_0;
                assert(self.filled(q) && 0 <= b < self.roots@.len() && anc3(q, rl as nat)
                    == self.root_coords(b));
            }
        }
        out
    }
}

/// The chain of ancestors of `p`: entry `l` is the coordinate of `p`'s
/// ancestor cube at level `l`.
#[verifier::loop_isolation(false)]
fn anc_chain(p: Coord, levels: u32) -> (ch: Vec<Coord>)
    requires
        levels >= 1,
    ensures
        ch@.len() == levels as int,
        forall|l: int| 0 <= l < levels as int ==> (#[trigger] ch@[l])@ == anc3(p@, l as nat),
{
    let mut ch: Vec<Coord> = Vec::new();
    ch.push(p);
    let mut l: u32 = 1;
    while l < levels
        invariant
            1 <= l <= levels,
            ch@.len() == l as int,
            forall|m: int| 0 <= m < l as int ==> (#[trigger] ch@[m])@ == anc3(p@, m as nat),
        decreases levels - l,
    {
        let prev = ch[(l - 1) as usize];
        let nxt = Coord::new(div2(prev.x), div2(prev.y), div2(prev.z));
        proof {
            assert(anc1(p@.0, l as nat) == anc1(p@.0, (l - 1) as nat) / 2);
            assert(anc1(p@.1, l as nat) == anc1(p@.1, (l - 1) as nat) / 2);
            assert(anc1(p@.2, l as nat) == anc1(p@.2, (l - 1) as nat) / 2);
        }
        ch.push(nxt);
        l = l + 1;
    }
    ch
}

/// The octant slot that the child coordinate `cc` occupies under its parent
/// coordinate `cur`.
fn octant(cur: Coord, cc: Coord) -> (j: usize)
    requires
        cur@.0 == cc@.0 / 2,
        cur@.1 == cc@.1 / 2,
        cur@.2 == cc@.2 / 2,
    ensures
        j < 8,
        j as int == slot_of(cc@),
{
    proof {
        lemma_parent_of(cc@);
        lemma_slot_roundtrip(slot_of(cc@));
    }
    let dx = cc.x as i64 - 2 * (cur.x as i64);
    let dy = cc.y as i64 - 2 * (cur.y as i64);
    let dz = cc.z as i64 - 2 * (cur.z as i64);
    (dx + 2 * dy + 4 * dz) as usize
}

} // verus!
