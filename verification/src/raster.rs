//! Primitive rasterizers: enumerate a finite integer coordinate set (box,
//! sphere, cylinder, polyhedron bounding box with a membership predicate) and
//! commit every member through path-fill with payload `true`.

use crate::coords::Coord;
use crate::storage::VoxelCSG;
use vstd::prelude::*;

verus! {

/// Membership in the half-open box `[mn, mx)` per axis; empty whenever
/// `mn.i >= mx.i` on some axis.
pub open spec fn in_cube(mn: (int, int, int), mx: (int, int, int), q: (int, int, int)) -> bool {
    &&& mn.0 <= q.0 < mx.0
    &&& mn.1 <= q.1 < mx.1
    &&& mn.2 <= q.2 < mx.2
}

/// Membership in the sphere around `c` of squared radius `r2`, boundary
/// inclusive.
pub open spec fn in_sphere(c: (int, int, int), r2: int, q: (int, int, int)) -> bool {
    (q.0 - c.0) * (q.0 - c.0) + (q.1 - c.1) * (q.1 - c.1) + (q.2 - c.2) * (q.2 - c.2) <= r2
}

/// Membership in the upright cylinder with base center `base`, height `h`
/// along the z axis (half-open), and squared radius `r2` in the x-y plane,
/// boundary inclusive.
pub open spec fn in_cylinder(base: (int, int, int), h: int, r2: int, q: (int, int, int)) -> bool {
    &&& base.2 <= q.2 < base.2 + h
    &&& (q.0 - base.0) * (q.0 - base.0) + (q.1 - base.1) * (q.1 - base.1) <= r2
}

/// Membership in the inclusive box `[mn, mx]` per axis.
pub open spec fn in_poly_box(mn: (int, int, int), mx: (int, int, int), q: (int, int, int)) -> bool {
    &&& mn.0 <= q.0 <= mx.0
    &&& mn.1 <= q.1 <= mx.1
    &&& mn.2 <= q.2 <= mx.2
}

/// The stand-in inside test used by the polyhedron rasterizer: the coordinate
/// sum is even. A genuine geometric predicate (half-space intersection or
/// winding parity) would replace this in a real deployment; the scan and
/// commit plumbing does not depend on which predicate is supplied.
pub open spec fn in_polyhedron_stub(q: (int, int, int)) -> bool {
    (q.0 + q.1 + q.2) % 2 == 0
}

/// A point of the sphere lies in its bounding box of half-edge `rc`.
proof fn lemma_sphere_in_box(c: (int, int, int), r2: int, rc: int, q: (int, int, int))
    requires
        rc >= 0,
        r2 <= rc * rc,
        in_sphere(c, r2, q),
    ensures
        c.0 - rc <= q.0 <= c.0 + rc,
        c.1 - rc <= q.1 <= c.1 + rc,
        c.2 - rc <= q.2 <= c.2 + rc,
{
    let d0 = q.0 - c.0;
    let d1 = q.1 - c.1;
    let d2 = q.2 - c.2;
    assert(d0 * d0 >= 0 && d1 * d1 >= 0 && d2 * d2 >= 0) by (nonlinear_arith);
    assert(-rc <= d0 <= rc && -rc <= d1 <= rc && -rc <= d2 <= rc) by (nonlinear_arith)
        requires
            rc >= 0,
            d0 * d0 + d1 * d1 + d2 * d2 <= rc * rc,
            d0 * d0 >= 0,
            d1 * d1 >= 0,
            d2 * d2 >= 0,
    ;
}

/// A point of the cylinder's disc lies in its x-y bounding box of half-edge
/// `rc`.
proof fn lemma_disc_in_box(base: (int, int, int), r2: int, rc: int, q: (int, int, int))
    requires
        rc >= 0,
        r2 <= rc * rc,
        (q.0 - base.0) * (q.0 - base.0) + (q.1 - base.1) * (q.1 - base.1) <= r2,
    ensures
        base.0 - rc <= q.0 <= base.0 + rc,
        base.1 - rc <= q.1 <= base.1 + rc,
{
    let d0 = q.0 - base.0;
    let d1 = q.1 - base.1;
    assert(d0 * d0 >= 0 && d1 * d1 >= 0) by (nonlinear_arith);
    assert(-rc <= d0 <= rc && -rc <= d1 <= rc) by (nonlinear_arith)
        requires
            rc >= 0,
            d0 * d0 + d1 * d1 <= rc * rc,
            d0 * d0 >= 0,
            d1 * d1 >= 0,
    ;
}

impl VoxelCSG {
    /// Fill every voxel of the half-open box `[min, max)`: nothing when some
    /// axis has `min.i >= max.i`. Voxels already materialized keep their
    /// payload.
    #[verifier::loop_isolation(false)]
    pub fn fill_cube(&mut self, min: Coord, max: Coord)
        requires
            old(self).wf(),
        ensures
            final(self).wf(),
            final(self).s_height() == old(self).s_height(),
            forall|q: (int, int, int)|
                #[trigger] final(self).present(q) == (old(self).present(q) || in_cube(
                    min@,
                    max@,
                    q,
                )),
            forall|q: (int, int, int)|
                #[trigger] final(self).filled(q) == (old(self).filled(q) || (in_cube(min@, max@, q)
                    && !old(self).present(q))),
    {
        let ghost t0 = *self;
        if min.x >= max.x || min.y >= max.y || min.z >= max.z {
            return ;
        }
        let mut z = min.z;
        while z < max.z
            invariant
                min.z <= z <= max.z,
                self.wf(),
                self.s_height() == t0.s_height(),
                forall|q: (int, int, int)|
                    #[trigger] self.present(q) == (t0.present(q) || (in_cube(min@, max@, q) && q.2
                        < z as int)),
                forall|q: (int, int, int)|
                    #[trigger] self.filled(q) == (t0.filled(q) || (in_cube(min@, max@, q) && q.2
                        < z as int && !t0.present(q))),
            decreases max.z as int - z as int,
        {
            let mut y = min.y;
            while y < max.y
                invariant
                    min.y <= y <= max.y,
                    min.z <= z < max.z,
                    self.wf(),
                    self.s_height() == t0.s_height(),
                    forall|q: (int, int, int)|
                        #[trigger] self.present(q) == (t0.present(q) || (in_cube(min@, max@, q) && (
                        q.2 < z as int || (q.2 == z as int && q.1 < y as int)))),
                    forall|q: (int, int, int)|
                        #[trigger] self.filled(q) == (t0.filled(q) || (in_cube(min@, max@, q) && (
                        q.2 < z as int || (q.2 == z as int && q.1 < y as int)) && !t0.present(q))),
                decreases max.y as int - y as int,
            {
                let mut x = min.x;
                while x < max.x
                    invariant
                        min.x <= x <= max.x,
                        min.y <= y < max.y,
                        min.z <= z < max.z,
                        self.wf(),
                        self.s_height() == t0.s_height(),
                        forall|q: (int, int, int)|
                            #[trigger] self.present(q) == (t0.present(q) || (in_cube(min@, max@, q)
                                && (q.2 < z as int || (q.2 == z as int && (q.1 < y as int || (q.1
                                == y as int && q.0 < x as int)))))),
                        forall|q: (int, int, int)|
                            #[trigger] self.filled(q) == (t0.filled(q) || (in_cube(min@, max@, q)
                                && (q.2 < z as int || (q.2 == z as int && (q.1 < y as int || (q.1
                                == y as int && q.0 < x as int)))) && !t0.present(q))),
                    decreases max.x as int - x as int,
                {
                    self.fill_path_from_root(Coord::new(x, y, z));
                    x = x + 1;
                }
                y = y + 1;
            }
            z = z + 1;
        }
    }

    /// Fill every voxel whose squared Euclidean distance from `center` is at
    /// most `radius_sq`, scanning the bounding box `center +- radius_ceil`.
    /// `radius_ceil` must dominate the radius (`radius_sq <= radius_ceil^2`),
    /// as the ceiling of the radius does.
    #[verifier::loop_isolation(false)]
    pub fn fill_sphere(&mut self, center: Coord, radius_ceil: i32, radius_sq: i64)
        requires
            old(self).wf(),
            0 <= radius_ceil <= 1_000_000_000,
            radius_sq <= radius_ceil * radius_ceil,
            center@.0 - radius_ceil >= i32::MIN,
            center@.1 - radius_ceil >= i32::MIN,
            center@.2 - radius_ceil >= i32::MIN,
            center@.0 + radius_ceil < i32::MAX,
            center@.1 + radius_ceil < i32::MAX,
            center@.2 + radius_ceil < i32::MAX,
        ensures
            final(self).wf(),
            final(self).s_height() == old(self).s_height(),
            forall|q: (int, int, int)|
                #[trigger] final(self).present(q) == (old(self).present(q) || in_sphere(
                    center@,
                    radius_sq as int,
                    q,
                )),
            forall|q: (int, int, int)|
                #[trigger] final(self).filled(q) == (old(self).filled(q) || (in_sphere(
                    center@,
                    radius_sq as int,
                    q,
                ) && !old(self).present(q))),
    {
        let ghost t0 = *self;
        let ghost r2 = radius_sq as int;
        let lox = center.x - radius_ceil;
        let hix = center.x + radius_ceil;
        let loy = center.y - radius_ceil;
        let hiy = center.y + radius_ceil;
        let loz = center.z - radius_ceil;
        let hiz = center.z + radius_ceil;
        let ghost sbox = |q: (int, int, int)|
            {
                &&& lox as int <= q.0 <= hix as int
                &&& loy as int <= q.1 <= hiy as int
                &&& loz as int <= q.2 <= hiz as int
            };
        let mut z = loz;
        while z <= hiz
            invariant
                loz as int <= z as int <= hiz as int + 1,
                self.wf(),
                self.s_height() == t0.s_height(),
                forall|q: (int, int, int)|
                    #[trigger] self.present(q) == (t0.present(q) || (in_sphere(center@, r2, q)
                        && sbox(q) && q.2 < z as int)),
                forall|q: (int, int, int)|
                    #[trigger] self.filled(q) == (t0.filled(q) || (in_sphere(center@, r2, q)
                        && sbox(q) && q.2 < z as int && !t0.present(q))),
            decreases hiz as int + 1 - z as int,
        {
            let mut y = loy;
            while y <= hiy
                invariant
                    loy as int <= y as int <= hiy as int + 1,
                    loz as int <= z as int <= hiz as int,
                    self.wf(),
                    self.s_height() == t0.s_height(),
                    forall|q: (int, int, int)|
                        #[trigger] self.present(q) == (t0.present(q) || (in_sphere(center@, r2, q)
                            && sbox(q) && (q.2 < z as int || (q.2 == z as int && q.1
                            < y as int)))),
                    forall|q: (int, int, int)|
                        #[trigger] self.filled(q) == (t0.filled(q) || (in_sphere(center@, r2, q)
                            && sbox(q) && (q.2 < z as int || (q.2 == z as int && q.1 < y as int))
                            && !t0.present(q))),
                decreases hiy as int + 1 - y as int,
            {
                let mut x = lox;
                while x <= hix
                    invariant
                        lox as int <= x as int <= hix as int + 1,
                        loy as int <= y as int <= hiy as int,
                        loz as int <= z as int <= hiz as int,
                        self.wf(),
                        self.s_height() == t0.s_height(),
                        forall|q: (int, int, int)|
                            #[trigger] self.present(q) == (t0.present(q) || (in_sphere(
                                center@,
                                r2,
                                q,
                            ) && sbox(q) && (q.2 < z as int || (q.2 == z as int && (q.1 < y as int
                                || (q.1 == y as int && q.0 < x as int)))))),
                        forall|q: (int, int, int)|
                            #[trigger] self.filled(q) == (t0.filled(q) || (in_sphere(
                                center@,
                                r2,
                                q,
                            ) && sbox(q) && (q.2 < z as int || (q.2 == z as int && (q.1 < y as int
                                || (q.1 == y as int && q.0 < x as int)))) && !t0.present(q))),
                    decreases hix as int + 1 - x as int,
                {
                    let dx = x as i64 - center.x as i64;
                    let dy = y as i64 - center.y as i64;
                    let dz = z as i64 - center.z as i64;
                    proof {
                        assert(dx * dx >= 0 && dx * dx <= 0x1000000000000000int)
                            by (nonlinear_arith)
                            requires
                                -0x40000000i64 <= dx <= 0x40000000i64,
                        ;
                        assert(dy * dy >= 0 && dy * dy <= 0x1000000000000000int)
                            by (nonlinear_arith)
                            requires
                                -0x40000000i64 <= dy <= 0x40000000i64,
                        ;
                        assert(dz * dz >= 0 && dz * dz <= 0x1000000000000000int)
                            by (nonlinear_arith)
                            requires
                                -0x40000000i64 <= dz <= 0x40000000i64,
                        ;
                    }
                    let d2 = dx * dx + dy * dy + dz * dz;
                    if d2 <= radius_sq {
                        self.fill_path_from_root(Coord::new(x, y, z));
                    }
                    x = x + 1;
                }
                y = y + 1;
            }
            z = z + 1;
        }
        proof {
            assert forall|q: (int, int, int)| in_sphere(center@, r2, q) implies sbox(q) by {
                lemma_sphere_in_box(center@, r2, radius_ceil as int, q);
            }
        }
    }

    /// Fill every voxel of the upright cylinder with base center `base`,
    /// height `height` along the z axis (half-open: nothing when `height <=
    /// 0`), and squared radius `radius_sq` in the x-y plane.
    #[verifier::loop_isolation(false)]
    pub fn fill_cylinder(&mut self, base: Coord, height: i32, radius_ceil: i32, radius_sq: i64)
        requires
            old(self).wf(),
            0 <= radius_ceil <= 1_000_000_000,
            radius_sq <= radius_ceil * radius_ceil,
            base@.0 - radius_ceil >= i32::MIN,
            base@.1 - radius_ceil >= i32::MIN,
            base@.0 + radius_ceil < i32::MAX,
            base@.1 + radius_ceil < i32::MAX,
            base@.2 + height <= i32::MAX,
        ensures
            final(self).wf(),
            final(self).s_height() == old(self).s_height(),
            forall|q: (int, int, int)|
                #[trigger] final(self).present(q) == (old(self).present(q) || in_cylinder(
                    base@,
                    height as int,
                    radius_sq as int,
                    q,
                )),
            forall|q: (int, int, int)|
                #[trigger] final(self).filled(q) == (old(self).filled(q) || (in_cylinder(
                    base@,
                    height as int,
                    radius_sq as int,
                    q,
                ) && !old(self).present(q))),
    {
        let ghost t0 = *self;
        let ghost r2 = radius_sq as int;
        let ghost hh = height as int;
        let lox = base.x - radius_ceil;
        let hix = base.x + radius_ceil;
        let loy = base.y - radius_ceil;
        let hiy = base.y + radius_ceil;
        let ghost sbox = |q: (int, int, int)|
            {
                &&& lox as int <= q.0 <= hix as int
                &&& loy as int <= q.1 <= hiy as int
            };
        if height <= 0 {
            return ;
        }
        let top = base.z + height;
        let mut z = base.z;
        while z < top
            invariant
                base@.2 <= z as int <= top as int,
                self.wf(),
                self.s_height() == t0.s_height(),
                forall|q: (int, int, int)|
                    #[trigger] self.present(q) == (t0.present(q) || (in_cylinder(base@, hh, r2, q)
                        && sbox(q) && q.2 < z as int)),
                forall|q: (int, int, int)|
                    #[trigger] self.filled(q) == (t0.filled(q) || (in_cylinder(base@, hh, r2, q)
                        && sbox(q) && q.2 < z as int && !t0.present(q))),
            decreases top as int - z as int,
        {
            let mut y = loy;
            while y <= hiy
                invariant
                    loy as int <= y as int <= hiy as int + 1,
                    base@.2 <= z as int && (z as int) < top as int,
                    self.wf(),
                    self.s_height() == t0.s_height(),
                    forall|q: (int, int, int)|
                        #[trigger] self.present(q) == (t0.present(q) || (in_cylinder(
                            base@,
                            hh,
                            r2,
                            q,
                        ) && sbox(q) && (q.2 < z as int || (q.2 == z as int && q.1 < y as int)))),
                    forall|q: (int, int, int)|
                        #[trigger] self.filled(q) == (t0.filled(q) || (in_cylinder(base@, hh, r2, q)
                            && sbox(q) && (q.2 < z as int || (q.2 == z as int && q.1 < y as int))
                            && !t0.present(q))),
                decreases hiy as int + 1 - y as int,
            {
                let mut x = lox;
                while x <= hix
                    invariant
                        lox as int <= x as int <= hix as int + 1,
                        loy as int <= y as int <= hiy as int,
                        base@.2 <= z as int && (z as int) < top as int,
                        self.wf(),
                        self.s_height() == t0.s_height(),
                        forall|q: (int, int, int)|
                            #[trigger] self.present(q) == (t0.present(q) || (in_cylinder(
                                base@,
                                hh,
                                r2,
                                q,
                            ) && sbox(q) && (q.2 < z as int || (q.2 == z as int && (q.1 < y as int
                                || (q.1 == y as int && q.0 < x as int)))))),
                        forall|q: (int, int, int)|
                            #[trigger] self.filled(q) == (t0.filled(q) || (in_cylinder(
                                base@,
                                hh,
                                r2,
                                q,
                            ) && sbox(q) && (q.2 < z as int || (q.2 == z as int && (q.1 < y as int
                                || (q.1 == y as int && q.0 < x as int)))) && !t0.present(q))),
                    decreases hix as int + 1 - x as int,
                {
                    let dx = x as i64 - base.x as i64;
                    let dy = y as i64 - base.y as i64;
                    proof {
                        assert(dx * dx >= 0 && dx * dx <= 0x1000000000000000int)
                            by (nonlinear_arith)
                            requires
                                -0x40000000i64 <= dx <= 0x40000000i64,
                        ;
                        assert(dy * dy >= 0 && dy * dy <= 0x1000000000000000int)
                            by (nonlinear_arith)
                            requires
                                -0x40000000i64 <= dy <= 0x40000000i64,
                        ;
                    }
                    let d2 = dx * dx + dy * dy;
                    if d2 <= radius_sq {
                        self.fill_path_from_root(Coord::new(x, y, z));
                    }
                    x = x + 1;
                }
                y = y + 1;
            }
            z = z + 1;
        }
        proof {
            assert forall|q: (int, int, int)| in_cylinder(base@, hh, r2, q) implies sbox(q) by {
                lemma_disc_in_box(base@, r2, radius_ceil as int, q);
            }
        }
    }

    /// Fill every voxel of the inclusive bounding box `[poly_min, poly_max]`
    /// that the inside test accepts. The vertex and face lists parameterize a
    /// pluggable predicate; the stand-in used here (an even coordinate sum)
    /// ignores them, as `in_polyhedron_stub` records.
    #[verifier::loop_isolation(false)]
    pub fn fill_polyhedron(
        &mut self,
        poly_min: Coord,
        poly_max: Coord,
        vertices: &[Coord],
        indices: &[(usize, usize, usize)],
    )
        requires
            old(self).wf(),
            poly_max@.0 < i32::MAX,
            poly_max@.1 < i32::MAX,
            poly_max@.2 < i32::MAX,
        ensures
            final(self).wf(),
            final(self).s_height() == old(self).s_height(),
            forall|q: (int, int, int)|
                #[trigger] final(self).present(q) == (old(self).present(q) || (in_poly_box(
                    poly_min@,
                    poly_max@,
                    q,
                ) && in_polyhedron_stub(q))),
            forall|q: (int, int, int)|
                #[trigger] final(self).filled(q) == (old(self).filled(q) || (in_poly_box(
                    poly_min@,
                    poly_max@,
                    q,
                ) && in_polyhedron_stub(q) && !old(self).present(q))),
    {
        let ghost t0 = *self;
        if poly_min.x > poly_max.x || poly_min.y > poly_max.y || poly_min.z > poly_max.z {
            return ;
        }
        let mut z = poly_min.z;
        while z <= poly_max.z
            invariant
                poly_min@.2 <= z as int <= poly_max@.2 + 1,
                self.wf(),
                self.s_height() == t0.s_height(),
                forall|q: (int, int, int)|
                    #[trigger] self.present(q) == (t0.present(q) || (in_poly_box(
                        poly_min@,
                        poly_max@,
                        q,
                    ) && in_polyhedron_stub(q) && q.2 < z as int)),
                forall|q: (int, int, int)|
                    #[trigger] self.filled(q) == (t0.filled(q) || (in_poly_box(
                        poly_min@,
                        poly_max@,
                        q,
                    ) && in_polyhedron_stub(q) && q.2 < z as int && !t0.present(q))),
            decreases poly_max@.2 + 1 - z as int,
        {
            let mut y = poly_min.y;
            while y <= poly_max.y
                invariant
                    poly_min@.1 <= y as int <= poly_max@.1 + 1,
                    poly_min@.2 <= z as int <= poly_max@.2,
                    self.wf(),
                    self.s_height() == t0.s_height(),
                    forall|q: (int, int, int)|
                        #[trigger] self.present(q) == (t0.present(q) || (in_poly_box(
                            poly_min@,
                            poly_max@,
                            q,
                        ) && in_polyhedron_stub(q) && (q.2 < z as int || (q.2 == z as int && q.1
                            < y as int)))),
                    forall|q: (int, int, int)|
                        #[trigger] self.filled(q) == (t0.filled(q) || (in_poly_box(
                            poly_min@,
                            poly_max@,
                            q,
                        ) && in_polyhedron_stub(q) && (q.2 < z as int || (q.2 == z as int && q.1
                            < y as int)) && !t0.present(q))),
                decreases poly_max@.1 + 1 - y as int,
            {
                let mut x = poly_min.x;
                while x <= poly_max.x
                    invariant
                        poly_min@.0 <= x as int <= poly_max@.0 + 1,
                        poly_min@.1 <= y as int <= poly_max@.1,
                        poly_min@.2 <= z as int <= poly_max@.2,
                        self.wf(),
                        self.s_height() == t0.s_height(),
                        forall|q: (int, int, int)|
                            #[trigger] self.present(q) == (t0.present(q) || (in_poly_box(
                                poly_min@,
                                poly_max@,
                                q,
                            ) && in_polyhedron_stub(q) && (q.2 < z as int || (q.2 == z as int && (
                            q.1 < y as int || (q.1 == y as int && q.0 < x as int)))))),
                        forall|q: (int, int, int)|
                            #[trigger] self.filled(q) == (t0.filled(q) || (in_poly_box(
                                poly_min@,
                                poly_max@,
                                q,
                            ) && in_polyhedron_stub(q) && (q.2 < z as int || (q.2 == z as int && (
                            q.1 < y as int || (q.1 == y as int && q.0 < x as int))))
                                && !t0.present(q))),
                    decreases poly_max@.0 + 1 - x as int,
                {
                    let s_val = x as i64 + y as i64 + z as i64;
                    let par = s_val.checked_rem_euclid(2).unwrap();
                    if par == 0 {
                        self.fill_path_from_root(Coord::new(x, y, z));
                    }
                    x = x + 1;
                }
                y = y + 1;
            }
            z = z + 1;
        }
    }
}

} // verus!
