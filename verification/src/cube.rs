//! Two empty cubes grown from their origin corners: where the rotation that
//! the growth settles on keeps the corner, the shared block takes both cubes
//! whole.

use vstd::prelude::*;
use crate::axis_map::{
    is_rotation, lemma_inverse, lemma_rotate_step, lemma_rotation_entries, rotate, AxisMap,
};
use crate::box_view::{
    free_cells, is_block, lemma_split_index, lemma_zeros16, placeable, zeros16, BoxView,
};
use crate::grids::{cell_index, lemma_cell_index_bound, lemma_cube_fits};
use crate::grow::{congruent_under, stuck, stuck_pair, turned, usable};
use crate::point::{axis_of, lemma_next_cell_in_box, opposite, Offset, Point};

verus! {

/// The rotation `m` sends the three forward directions to forward
/// directions, so that it keeps the origin corner of a cube in place.
pub open spec fn keeps_corner(m: Seq<u8>) -> bool {
    is_rotation(m) && m[0] % 2 == 0 && m[2] % 2 == 0 && m[4] % 2 == 0
}

/// Every voxel of the object is empty.
pub open spec fn all_free(g: BoxView) -> bool {
    forall|p: Point| p.in_box(g.d) ==> #[trigger] g.label(p) == 0
}

/// Every voxel of the object belongs to the block `id`.
pub open spec fn all_of(g: BoxView, id: u16) -> bool {
    forall|p: Point| p.in_box(g.d) ==> #[trigger] g.label(p) == id
}

/// The origin corner.
pub open spec fn corner() -> Point {
    Point(0, 0, 0)
}

/// A direction map accepts, for every direction, the image under every
/// rotation that it admits.
pub proof fn lemma_admitted_is_accepted(axis: AxisMap, m: Seq<u8>, dir: u8)
    requires
        axis.wf(),
        axis.admits(m),
        dir < 6,
    ensures
        m[dir as int] < 6,
        axis.accepts(dir, m[dir as int]),
{
    lemma_rotation_entries(m);
    match axis {
        AxisMap::Map1 { from, to } => {
            if axis_of(dir) == axis_of(from) {
                assert(dir == from || dir == opposite(from));
            } else {
                assert(axis_of(m[dir as int]) != axis_of(m[from as int]));
            }
        },
        _ => {},
    }
}

/// A rotation that keeps the corner carries a step inside the cube to a step
/// inside the cube.
proof fn lemma_corner_step(m: Seq<u8>, d: u8, q: Point, b: Point, dir: u8, p: Point)
    requires
        keeps_corner(m),
        q.in_box(d),
        b.in_box(d),
        dir < 6,
        q.spec_next_cell(d, dir) == Some(p),
        b.offset_from(corner()) == rotate(m, q.offset_from(corner())),
    ensures
        b.spec_next_cell(d, m[dir as int]) is Some,
        (b.spec_next_cell(d, m[dir as int])->0).in_box(d),
        (b.spec_next_cell(d, m[dir as int])->0).offset_from(corner()) == rotate(
            m,
            p.offset_from(corner()),
        ),
{
    lemma_rotation_entries(m);
    lemma_next_cell_in_box(q, d, dir);
    let q_off = q.offset_from(corner());
    let p_off = p.offset_from(corner());
    assert(p_off == q_off.plus(Offset::unit(dir)));
    lemma_rotate_step(m, q_off, dir);
    let r = rotate(m, p_off);
    assert(axis_of(m[0]) != axis_of(m[2]));
    assert(axis_of(m[0]) != axis_of(m[4]));
    assert(axis_of(m[2]) != axis_of(m[4]));
    assert(0 <= r.dx < d && 0 <= r.dy < d && 0 <= r.dz < d);
    assert(r == b.offset_from(corner()).plus(Offset::unit(m[dir as int])));
    lemma_next_cell_in_box(b, d, m[dir as int]);
}

/// What is known after two empty cubes have grown a block from their origin
/// corners: both objects have grown by the two lists, the rotation `m`,
/// which the direction map admits and which keeps the corner, carries one
/// list to the other, and no pair can step.
pub open spec fn grown_from_corners(
    g1: BoxView,
    g2: BoxView,
    h1: BoxView,
    h2: BoxView,
    v1: Seq<Point>,
    v2: Seq<Point>,
    axis: AxisMap,
    id: u16,
    m: Seq<u8>,
) -> bool {
    &&& g1.wf()
    &&& g2.wf()
    &&& g1.d == g2.d
    &&& g1.d >= 1
    &&& all_free(g1)
    &&& all_free(g2)
    &&& is_block(id)
    &&& h1.grew_by(g1, v1, id)
    &&& h2.grew_by(g2, v2, id)
    &&& placeable(g1, v1)
    &&& placeable(g2, v2)
    &&& v1.len() == v2.len()
    &&& v1.len() >= 1
    &&& v1[0] == corner()
    &&& v2[0] == corner()
    &&& free_cells(h1) + v1.len() == free_cells(g1)
    &&& free_cells(h2) + v2.len() == free_cells(g2)
    &&& axis.wf()
    &&& axis.admits(m)
    &&& keeps_corner(m)
    &&& congruent_under(m, v1, v2)
    &&& stuck(h1, h2, v1, v2, axis)
}

/// Every voxel of the first cube belongs to the block: the growth has
/// reached it from the voxel before it on the way from the corner.
proof fn lemma_cell_is_filled(
    g1: BoxView,
    g2: BoxView,
    h1: BoxView,
    h2: BoxView,
    v1: Seq<Point>,
    v2: Seq<Point>,
    axis: AxisMap,
    id: u16,
    m: Seq<u8>,
    p: Point,
)
    requires
        grown_from_corners(g1, g2, h1, h2, v1, v2, axis, id, m),
        p.in_box(g1.d),
    ensures
        h1.label(p) == id,
        v1.contains(p),
    decreases p.0 + p.1 + p.2,
{
    let d = g1.d;
    assert(h1.label(p) == (if v1.contains(p) {
        id
    } else {
        g1.label(p)
    }));
    if p == corner() {
        assert(v1[0] == p);
    } else if !v1.contains(p) {
        let dir: u8 = if p.0 > 0 {
            0
        } else if p.1 > 0 {
            2
        } else {
            4
        };
        let q = if p.0 > 0 {
            Point((p.0 - 1) as u8, p.1, p.2)
        } else if p.1 > 0 {
            Point(p.0, (p.1 - 1) as u8, p.2)
        } else {
            Point(p.0, p.1, (p.2 - 1) as u8)
        };
        lemma_cell_is_filled(g1, g2, h1, h2, v1, v2, axis, id, m, q);
        let k = choose|k: int| 0 <= k < v1.len() && v1[k] == q;
        assert(q.spec_next_cell(d, dir) == Some(p));
        assert(g1.label(p) == 0);
        assert(usable(h1, q, dir));
        lemma_admitted_is_accepted(axis, m, dir);
        let c = m[dir as int];
        assert(turned(m, v1, v2, k));
        assert(g2.free(v2[k]));
        lemma_corner_step(m, d, q, v2[k], dir, p);
        let p2 = v2[k].spec_next_cell(d, c)->0;
        assert(h2.label(p2) == (if v2.contains(p2) {
            id
        } else {
            g2.label(p2)
        }));
        if v2.contains(p2) {
            let j = choose|j: int| 0 <= j < v2.len() && v2[j] == p2;
            assert(turned(m, v1, v2, j));
            lemma_inverse(m, v1[j].offset_from(corner()));
            lemma_inverse(m, p.offset_from(corner()));
            assert(g1.free(v1[j]));
            assert(v1[j] == p);
        }
        assert(g2.label(p2) == 0);
        assert(usable(h2, v2[k], c));
        assert(stuck_pair(h1, h2, v1[k], v2[k], axis));
        assert(axis.accepts(dir, c));
    }
}

/// The voxel with the flat index `i` in a grid of edge `d`.
pub open spec fn point_at(d: u8, i: int) -> Point {
    Point((i / (d as int) / (d as int)) as u8, (i / (d as int) % (d as int)) as u8, (i % (
    d as int)) as u8)
}

/// Every flat index of a grid is the index of a voxel of the grid.
proof fn lemma_point_at(d: u8, i: int)
    requires
        d >= 1,
        0 <= i < d * d * d,
    ensures
        point_at(d, i).in_box(d),
        cell_index(d, point_at(d, i)) == i,
{
    let xy = i / (d as int);
    lemma_cube_fits(d);
    lemma_split_index(d as int, (d * d) as int, i);
    lemma_split_index(d as int, d as int, xy);
}

/// The labels of an object without an empty voxel leave no zero position,
/// and those of an empty object are zero at every position.
proof fn lemma_free_cells_of(g: BoxView)
    requires
        g.wf(),
        g.d >= 1,
    ensures
        all_free(g) ==> free_cells(g) == g.d * g.d * g.d,
        free_cells(g) == 0 ==> forall|p: Point| p.in_box(g.d) ==> #[trigger] g.label(p) != 0,
        (forall|p: Point| p.in_box(g.d) ==> #[trigger] g.label(p) != 0) ==> free_cells(g) == 0,
{
    let d = g.d;
    let n = g.grid.len();
    lemma_cube_fits(d);
    lemma_zeros16(g.grid, n);
    if all_free(g) {
        assert forall|i: int| 0 <= i < n implies g.grid[i] == 0 by {
            lemma_point_at(d, i);
            assert(g.label(point_at(d, i)) == 0);
        }
        lemma_zeros_count(g.grid, n);
    }
    if free_cells(g) == 0 {
        assert forall|p: Point| p.in_box(d) implies #[trigger] g.label(p) != 0 by {
            lemma_cell_index_bound(d, p);
            if g.label(p) == 0 {
                assert(zeros16(g.grid, n).contains(cell_index(d, p) as usize));
            }
        }
    }
    if forall|p: Point| p.in_box(d) ==> #[trigger] g.label(p) != 0 {
        assert forall|i: int| 0 <= i < n implies g.grid[i] != 0 by {
            lemma_point_at(d, i);
            assert(g.label(point_at(d, i)) != 0);
        }
        lemma_zeros_count(g.grid, n);
    }
}

/// Where every label is zero each position is listed, and where none is,
/// none.
proof fn lemma_zeros_count(s: Seq<u16>, n: nat)
    requires
        n <= s.len(),
    ensures
        (forall|i: int| 0 <= i < n ==> s[i] == 0) ==> zeros16(s, n).len() == n,
        (forall|i: int| 0 <= i < n ==> s[i] != 0) ==> zeros16(s, n).len() == 0,
    decreases n,
{
    if n > 0 {
        lemma_zeros_count(s, (n - 1) as nat);
    }
}

/// Two empty cubes, grown from their origin corners under a rotation that
/// keeps the corner, are taken whole: when no pair can step any more, every
/// voxel of both cubes belongs to the block, and each list holds as many
/// voxels as a cube has.
pub proof fn lemma_cubes_are_shared_whole(
    g1: BoxView,
    g2: BoxView,
    h1: BoxView,
    h2: BoxView,
    v1: Seq<Point>,
    v2: Seq<Point>,
    axis: AxisMap,
    id: u16,
    m: Seq<u8>,
)
    requires
        grown_from_corners(g1, g2, h1, h2, v1, v2, axis, id, m),
        h1.wf(),
        h2.wf(),
    ensures
        all_of(h1, id),
        all_of(h2, id),
        v1.len() == g1.d * g1.d * g1.d,
        v2.len() == g1.d * g1.d * g1.d,
{
    let d = g1.d;
    assert forall|p: Point| p.in_box(h1.d) implies #[trigger] h1.label(p) == id by {
        lemma_cell_is_filled(g1, g2, h1, h2, v1, v2, axis, id, m, p);
    }
    lemma_free_cells_of(g1);
    lemma_free_cells_of(g2);
    lemma_free_cells_of(h1);
    lemma_free_cells_of(h2);
    assert forall|p: Point| p.in_box(h1.d) implies #[trigger] h1.label(p) != 0 by {
        assert(h1.label(p) == id);
    }
    assert(free_cells(h1) == 0);
    assert(free_cells(h2) == 0);
    assert forall|p: Point| p.in_box(h2.d) implies #[trigger] h2.label(p) == id by {
        assert(h2.label(p) != 0);
        assert(g2.label(p) == 0);
    }
}

} // verus!
