//! Growing one shared block in both objects at once, so that the two grown
//! regions stay congruent under a rotation.

use vstd::prelude::*;
use rand_pcg::Mcg128Xsl64;
use crate::axis_map::{
    inverse, is_rotation, lemma_accepts_after_fix, lemma_admits_some, lemma_candidates_accepted,
    lemma_candidates_complete, lemma_fix_keeps_images, lemma_fix_refines, lemma_inverse,
    lemma_rotate_step, rotate, some_rotation, AxisMap,
};
use crate::buffers::{DirList, PairStack};
use crate::box_view::{free_cells, is_block, lemma_grew_by_step, lemma_put, placeable, BoxView};
use crate::grid_box::GridBox;
use crate::point::{lemma_next_cell_in_box, Offset, Point};
use crate::random::shuffle_directions;

verus! {

/// Voxel `k` of `b` lies, seen from the first voxel of `b`, where the
/// rotation `m` carries voxel `k` of `a`, seen from the first voxel of `a`.
pub open spec fn turned(m: Seq<u8>, a: Seq<Point>, b: Seq<Point>, k: int) -> bool {
    b[k].offset_from(b[0]) == rotate(m, a[k].offset_from(a[0]))
}

/// The rotation `m`, with a shift, carries `a` to `b`, voxel by voxel.
pub open spec fn congruent_under(m: Seq<u8>, a: Seq<Point>, b: Seq<Point>) -> bool {
    a.len() == b.len() && forall|k: int| 0 <= k < a.len() ==> #[trigger] turned(m, a, b, k)
}

/// Some rotation of the cube, with a shift, carries `a` to `b`.
pub open spec fn congruent(a: Seq<Point>, b: Seq<Point>) -> bool {
    exists|m: Seq<u8>| is_rotation(m) && #[trigger] congruent_under(m, a, b)
}

/// Voxel `k` of `a` is a neighbour of an earlier voxel of `a`.
pub open spec fn attached(a: Seq<Point>, k: int) -> bool {
    exists|j: int| 0 <= j < k && (#[trigger] a[j]).adjacent(a[k])
}

/// Every voxel of `a` but the first is a neighbour of an earlier one, so the
/// voxels form one 6-connected region.
pub open spec fn grown(a: Seq<Point>) -> bool {
    forall|k: int| 0 < k < a.len() ==> #[trigger] attached(a, k)
}

/// `path` lists positions of `pts`, from the first voxel to voxel `k`, such
/// that each voxel on the way is a neighbour of the one before.
pub open spec fn is_path(pts: Seq<Point>, path: Seq<int>, k: int) -> bool {
    &&& path.len() >= 1
    &&& path[0] == 0
    &&& path.last() == k
    &&& forall|i: int| 0 <= i < path.len() ==> 0 <= #[trigger] path[i] < pts.len()
    &&& forall|i: int| 0 < i < path.len() ==> pts[path[i - 1]].adjacent(pts[#[trigger] path[i]])
}

/// In a grown list, a chain of neighbours leads from the first voxel to
/// every voxel: the voxels form one 6-connected region.
pub proof fn lemma_grown_is_connected(pts: Seq<Point>, k: int)
    requires
        grown(pts),
        0 <= k < pts.len(),
    ensures
        exists|path: Seq<int>| is_path(pts, path, k),
    decreases k,
{
    if k == 0 {
        let path = Seq::<int>::empty().push(0int);
        assert(is_path(pts, path, 0));
    } else {
        assert(attached(pts, k));
        let j = choose|j: int| 0 <= j < k && (#[trigger] pts[j]).adjacent(pts[k]);
        lemma_grown_is_connected(pts, j);
        let before = choose|path: Seq<int>| is_path(pts, path, j);
        let path = before.push(k);
        assert forall|i: int| 0 < i < path.len() implies pts[path[i - 1]].adjacent(
            pts[#[trigger] path[i]],
        ) by {
            if i < before.len() {
                assert(path[i] == before[i]);
                assert(path[i - 1] == before[i - 1]);
            } else {
                assert(path[i - 1] == before[before.len() - 1]);
            }
        }
        assert forall|i: int| 0 <= i < path.len() implies 0 <= #[trigger] path[i] < pts.len() by {
            if i < before.len() {
                assert(path[i] == before[i]);
            }
        }
        assert(path[0] == before[0]);
        assert(is_path(pts, path, k));
    }
}

/// Congruence does not depend on which of the two lists is turned: the
/// inverse rotation carries `b` to `a`.
pub proof fn lemma_congruent_symmetric(a: Seq<Point>, b: Seq<Point>)
    requires
        congruent(a, b),
    ensures
        congruent(b, a),
{
    let m = choose|m: Seq<u8>| is_rotation(m) && #[trigger] congruent_under(m, a, b);
    let w = inverse(m);
    assert forall|k: int| 0 <= k < b.len() implies #[trigger] turned(w, b, a, k) by {
        assert(turned(m, a, b, k));
        lemma_inverse(m, a[k].offset_from(a[0]));
    }
    lemma_inverse(m, Offset::zero());
    assert(congruent_under(w, b, a));
}

/// The neighbour of `q` in direction `dir` exists and is empty in `g`.
pub open spec fn usable(g: BoxView, q: Point, dir: u8) -> bool {
    q.spec_next_cell(g.d, dir) matches Some(r) && g.free(r)
}

/// The pair `pair` holds voxels with the same position in `a` and `b`.
pub open spec fn paired(a: Seq<Point>, b: Seq<Point>, pair: (Point, Point)) -> bool {
    exists|k: int| 0 <= k < a.len() && 0 <= k < b.len() && #[trigger] a[k] == pair.0 && b[k] == pair.1
}

/// Every pair on the stack is a pair of voxels grown together.
pub open spec fn stack_ok(stack: Seq<(Point, Point)>, a: Seq<Point>, b: Seq<Point>) -> bool {
    forall|s: int| 0 <= s < stack.len() ==> paired(a, b, #[trigger] stack[s])
}

/// What holds while a shared block grows from the states `old1`, `old2`: the
/// voxels `pp1`, `pp2` placed so far are those by which the two objects have
/// grown, each list is connected, and every rotation that the direction map
/// still admits carries `pp1` to `pp2`.
pub open spec fn grow_inv(
    old1: BoxView,
    old2: BoxView,
    g1: BoxView,
    g2: BoxView,
    pp1: Seq<Point>,
    pp2: Seq<Point>,
    axis: AxisMap,
    id: u16,
) -> bool {
    &&& g1.wf()
    &&& g2.wf()
    &&& g1.d == g2.d
    &&& is_block(id)
    &&& pp1.len() == pp2.len()
    &&& pp1.len() >= 1
    &&& g1.grew_by(old1, pp1, id)
    &&& g2.grew_by(old2, pp2, id)
    &&& placeable(old1, pp1)
    &&& placeable(old2, pp2)
    &&& grown(pp1)
    &&& grown(pp2)
    &&& axis.wf()
    &&& forall|m: Seq<u8>| #[trigger] axis.admits(m) ==> congruent_under(m, pp1, pp2)
    &&& free_cells(g1) + pp1.len() == free_cells(old1)
    &&& free_cells(g2) + pp2.len() == free_cells(old2)
}

/// The pair `(p, q)` cannot step in any of the directions `dirs`: where `p`
/// has an empty neighbour in such a direction, `q` has none in any direction
/// that the map accepts as its image.
pub open spec fn stuck_in(
    g1: BoxView,
    g2: BoxView,
    p: Point,
    q: Point,
    axis: AxisMap,
    dirs: Seq<u8>,
) -> bool {
    forall|dir1: u8, c: u8|
        dir1 < 6 && c < 6 && dirs.contains(dir1) && usable(g1, p, dir1) && #[trigger] axis.accepts(
            dir1,
            c,
        ) ==> !usable(g2, q, c)
}

/// The pair `(p, q)` cannot step in any direction.
pub open spec fn stuck_pair(g1: BoxView, g2: BoxView, p: Point, q: Point, axis: AxisMap) -> bool {
    forall|dir1: u8, c: u8|
        dir1 < 6 && c < 6 && usable(g1, p, dir1) && #[trigger] axis.accepts(dir1, c) ==> !usable(
            g2,
            q,
            c,
        )
}

/// No pair of the two lists can step: the block cannot grow any further
/// under the direction map `axis`.
pub open spec fn stuck(
    g1: BoxView,
    g2: BoxView,
    a: Seq<Point>,
    b: Seq<Point>,
    axis: AxisMap,
) -> bool {
    forall|k: int| 0 <= k < a.len() ==> stuck_pair(g1, g2, #[trigger] a[k], b[k], axis)
}

/// The pair `(p, q)` is done with: it cannot step, or it waits on the
/// stack, or it is the pair being tried and cannot step in the directions
/// tried so far.
pub open spec fn settled(
    g1: BoxView,
    g2: BoxView,
    p: Point,
    q: Point,
    axis: AxisMap,
    stack: Seq<(Point, Point)>,
    now: Option<((Point, Point), Seq<u8>)>,
) -> bool {
    stuck_pair(g1, g2, p, q, axis) || stack.contains((p, q)) || (now matches Some(t) && t.0 == (p, q)
        && stuck_in(g1, g2, p, q, axis, t.1))
}

/// Every pair of the two lists is done with.
pub open spec fn all_settled(
    g1: BoxView,
    g2: BoxView,
    a: Seq<Point>,
    b: Seq<Point>,
    axis: AxisMap,
    stack: Seq<(Point, Point)>,
    now: Option<((Point, Point), Seq<u8>)>,
) -> bool {
    forall|k: int|
        0 <= k < a.len() ==> settled(g1, g2, #[trigger] a[k], b[k], axis, stack, now)
}

/// An empty neighbour after a voxel has been placed was an empty neighbour
/// before.
proof fn lemma_usable_before(g: BoxView, r: Point, id: u16, x: Point, dir: u8)
    requires
        g.wf(),
        g.free(r),
        is_block(id),
        usable(g.put(r, id), x, dir),
    ensures
        usable(g, x, dir),
        x.spec_next_cell(g.d, dir) != Some(r),
{
    lemma_put(g, r, id);
    let y = x.spec_next_cell(g.d, dir)->0;
    assert(g.put(r, id).free(y));
    assert(y != r);
    assert(g.label(y) == g.put(r, id).label(y));
}

/// Taking the top pair off the stack to try it keeps every pair done with.
proof fn lemma_settled_pop(
    g1: BoxView,
    g2: BoxView,
    a: Seq<Point>,
    b: Seq<Point>,
    axis: AxisMap,
    stack: Seq<(Point, Point)>,
)
    requires
        stack.len() > 0,
        all_settled(g1, g2, a, b, axis, stack, None),
    ensures
        all_settled(
            g1,
            g2,
            a,
            b,
            axis,
            stack.drop_last(),
            Some((stack.last(), Seq::<u8>::empty())),
        ),
{
    let rest = stack.drop_last();
    let now = Some((stack.last(), Seq::<u8>::empty()));
    assert forall|k: int| 0 <= k < a.len() implies settled(
        g1,
        g2,
        #[trigger] a[k],
        b[k],
        axis,
        rest,
        now,
    ) by {
        assert(settled(g1, g2, a[k], b[k], axis, stack, None));
        if stack.contains((a[k], b[k])) {
            let m = choose|m: int| 0 <= m < stack.len() && stack[m] == (a[k], b[k]);
            if m < stack.len() - 1 {
                assert(rest[m] == (a[k], b[k]));
            }
        }
    }
}

/// A direction in which the pair being tried cannot step counts as tried.
proof fn lemma_settled_skip(
    g1: BoxView,
    g2: BoxView,
    a: Seq<Point>,
    b: Seq<Point>,
    axis: AxisMap,
    stack: Seq<(Point, Point)>,
    pair: (Point, Point),
    dirs: Seq<u8>,
    dir1: u8,
)
    requires
        all_settled(g1, g2, a, b, axis, stack, Some((pair, dirs))),
        forall|c: u8|
            c < 6 && usable(g1, pair.0, dir1) && #[trigger] axis.accepts(dir1, c) ==> !usable(
                g2,
                pair.1,
                c,
            ),
    ensures
        all_settled(g1, g2, a, b, axis, stack, Some((pair, dirs.push(dir1)))),
{
    let more = dirs.push(dir1);
    assert forall|k: int| 0 <= k < a.len() implies settled(
        g1,
        g2,
        #[trigger] a[k],
        b[k],
        axis,
        stack,
        Some((pair, more)),
    ) by {
        assert(settled(g1, g2, a[k], b[k], axis, stack, Some((pair, dirs))));
        if pair == (a[k], b[k]) && stuck_in(g1, g2, a[k], b[k], axis, dirs) {
            assert forall|e: u8, c: u8|
                e < 6 && c < 6 && more.contains(e) && usable(g1, a[k], e) && #[trigger] axis.accepts(
                    e,
                    c,
                ) implies !usable(g2, b[k], c) by {
                if e != dir1 {
                    let m = choose|m: int| 0 <= m < more.len() && more[m] == e;
                    assert(dirs[m] == e);
                }
            }
        }
    }
}

/// A step of the pair being tried keeps every pair done with: the new pair
/// waits on the stack, and the direction of the step counts as tried.
proof fn lemma_settled_step(
    g1: BoxView,
    g2: BoxView,
    a: Seq<Point>,
    b: Seq<Point>,
    axis: AxisMap,
    stack: Seq<(Point, Point)>,
    pair: (Point, Point),
    dirs: Seq<u8>,
    dir1: u8,
    dir2: u8,
    r1: Point,
    r2: Point,
    id: u16,
)
    requires
        g1.wf(),
        g2.wf(),
        axis.wf(),
        is_block(id),
        dir1 < 6,
        dir2 < 6,
        axis.accepts(dir1, dir2),
        a.len() == b.len(),
        g1.free(r1),
        g2.free(r2),
        pair.0.spec_next_cell(g1.d, dir1) == Some(r1),
        all_settled(g1, g2, a, b, axis, stack, Some((pair, dirs))),
    ensures
        all_settled(
            g1.put(r1, id),
            g2.put(r2, id),
            a.push(r1),
            b.push(r2),
            axis.spec_fix(dir1, dir2),
            stack.push((r1, r2)),
            Some((pair, dirs.push(dir1))),
        ),
{
    let h1 = g1.put(r1, id);
    let h2 = g2.put(r2, id);
    let next = axis.spec_fix(dir1, dir2);
    let higher = stack.push((r1, r2));
    let more = dirs.push(dir1);
    let a2 = a.push(r1);
    let b2 = b.push(r2);
    assert(higher[stack.len() as int] == (r1, r2));
    assert forall|k: int| 0 <= k < a2.len() implies settled(
        h1,
        h2,
        #[trigger] a2[k],
        b2[k],
        next,
        higher,
        Some((pair, more)),
    ) by {
        if k < a.len() {
            let p = a[k];
            let q = b[k];
            assert(settled(g1, g2, a[k], b[k], axis, stack, Some((pair, dirs))));
            if stuck_pair(g1, g2, p, q, axis) {
                assert forall|e: u8, c: u8|
                    e < 6 && c < 6 && usable(h1, p, e) && #[trigger] next.accepts(
                        e,
                        c,
                    ) implies !usable(h2, q, c) by {
                    lemma_usable_before(g1, r1, id, p, e);
                    lemma_accepts_after_fix(axis, dir1, dir2, e, c);
                    assert(axis.accepts(e, c));
                    if usable(h2, q, c) {
                        lemma_usable_before(g2, r2, id, q, c);
                    }
                }
            } else if stack.contains((p, q)) {
                let m = choose|m: int| 0 <= m < stack.len() && stack[m] == (p, q);
                assert(higher[m] == (p, q));
            } else {
                assert forall|e: u8, c: u8|
                    e < 6 && c < 6 && more.contains(e) && usable(h1, p, e) && #[trigger] next.accepts(
                        e,
                        c,
                    ) implies !usable(h2, q, c) by {
                    lemma_usable_before(g1, r1, id, p, e);
                    lemma_accepts_after_fix(axis, dir1, dir2, e, c);
                    assert(axis.accepts(e, c));
                    assert(e != dir1);
                    let m = choose|m: int| 0 <= m < more.len() && more[m] == e;
                    assert(dirs[m] == e);
                    if usable(h2, q, c) {
                        lemma_usable_before(g2, r2, id, q, c);
                    }
                }
            }
        }
    }
}

/// Once all six directions are tried, the pair being tried cannot step.
proof fn lemma_settled_done(
    g1: BoxView,
    g2: BoxView,
    a: Seq<Point>,
    b: Seq<Point>,
    axis: AxisMap,
    stack: Seq<(Point, Point)>,
    pair: (Point, Point),
    dirs: Seq<u8>,
)
    requires
        all_settled(g1, g2, a, b, axis, stack, Some((pair, dirs))),
        forall|d: u8| d < 6 ==> dirs.contains(d),
    ensures
        all_settled(g1, g2, a, b, axis, stack, None),
{
    assert forall|k: int| 0 <= k < a.len() implies settled(
        g1,
        g2,
        #[trigger] a[k],
        b[k],
        axis,
        stack,
        None,
    ) by {
        assert(settled(g1, g2, a[k], b[k], axis, stack, Some((pair, dirs))));
    }
}

/// A shared block under way: both objects, the voxels placed so far in each,
/// the pairs that are still to be tried, and the direction map.
#[verifier::ext_equal]
pub struct GrowView {
    pub g1: BoxView,
    pub g2: BoxView,
    pub pp1: Seq<Point>,
    pub pp2: Seq<Point>,
    pub stack: Seq<(Point, Point)>,
    pub axis: AxisMap,
}

/// The first of the directions `cands[j]`, `cands[j + 1]`, … in which `q` has
/// an empty neighbour in `g`, with that neighbour.
pub open spec fn first_usable(g: BoxView, q: Point, cands: Seq<u8>, j: int) -> Option<(u8, Point)>
    decreases cands.len() - j,
{
    if j < 0 || j >= cands.len() {
        None
    } else if usable(g, q, cands[j]) {
        Some((cands[j], q.spec_next_cell(g.d, cands[j])->0))
    } else {
        first_usable(g, q, cands, j + 1)
    }
}

/// The growth after the pair `pair` has been tried in direction `dir1` of
/// the first object: if its voxel there has an empty neighbour, and its voxel
/// in the second object has one in a direction that the map offers, the first
/// such direction in the order of `directions2` is taken; both neighbours
/// are placed, their pair is put on the stack, and the map fixes the two
/// directions to each other.
pub open spec fn grow_try(
    s: GrowView,
    pair: (Point, Point),
    dir1: u8,
    directions2: Seq<u8>,
    id: u16,
) -> GrowView {
    match pair.0.spec_next_cell(s.g1.d, dir1) {
        Some(r1) => if s.g1.label(r1) == 0 {
            match first_usable(s.g2, pair.1, s.axis.spec_map_axis(dir1, directions2), 0) {
                Some(step) => GrowView {
                    g1: s.g1.put(r1, id),
                    g2: s.g2.put(step.1, id),
                    pp1: s.pp1.push(r1),
                    pp2: s.pp2.push(step.1),
                    stack: s.stack.push((r1, step.1)),
                    axis: s.axis.spec_fix(dir1, step.0),
                },
                None => s,
            }
        } else {
            s
        },
        None => s,
    }
}

/// The growth after the pair `pair` has been tried in the directions
/// `directions1[i]`, `directions1[i + 1]`, … of the first object.
pub open spec fn grow_dirs(
    s: GrowView,
    pair: (Point, Point),
    i: int,
    directions1: Seq<u8>,
    directions2: Seq<u8>,
    id: u16,
) -> GrowView
    decreases 6 - i,
{
    if i < 0 || i >= 6 {
        s
    } else {
        grow_dirs(
            grow_try(s, pair, directions1[i], directions2, id),
            pair,
            i + 1,
            directions1,
            directions2,
            id,
        )
    }
}

/// The first object is well formed and the pairs on the stack have their
/// first voxel in its grid.
pub open spec fn grow_ready(s: GrowView, id: u16) -> bool {
    &&& s.g1.wf()
    &&& is_block(id)
    &&& forall|k: int| 0 <= k < s.stack.len() ==> (#[trigger] s.stack[k]).0.in_box(s.g1.d)
}

/// What a growth has left to do at most: two for each empty voxel of the
/// first object and one for each pair on the stack.
pub open spec fn grow_measure(s: GrowView) -> nat {
    2 * free_cells(s.g1) + s.stack.len()
}

/// Trying a pair leaves no more to do than there was.
pub proof fn lemma_grow_dirs(
    s: GrowView,
    pair: (Point, Point),
    i: int,
    directions1: Seq<u8>,
    directions2: Seq<u8>,
    id: u16,
)
    requires
        grow_ready(s, id),
        pair.0.in_box(s.g1.d),
        0 <= i <= 6,
    ensures
        grow_ready(grow_dirs(s, pair, i, directions1, directions2, id), id),
        grow_measure(grow_dirs(s, pair, i, directions1, directions2, id)) <= grow_measure(s),
        grow_dirs(s, pair, i, directions1, directions2, id).g1.d == s.g1.d,
    decreases 6 - i,
{
    if i < 6 {
        let dir1 = directions1[i];
        let t = grow_try(s, pair, dir1, directions2, id);
        if dir1 < 6 {
            lemma_next_cell_in_box(pair.0, s.g1.d, dir1);
        }
        match pair.0.spec_next_cell(s.g1.d, dir1) {
            Some(r1) => {
                if s.g1.label(r1) == 0 && t != s {
                    lemma_put(s.g1, r1, id);
                    crate::box_view::lemma_put_fills(s.g1, r1, id);
                    assert forall|k: int| 0 <= k < t.stack.len() implies (
                    #[trigger] t.stack[k]).0.in_box(t.g1.d) by {
                        if k < s.stack.len() {
                            assert(t.stack[k] == s.stack[k]);
                        }
                    }
                }
            },
            None => {},
        }
        lemma_grow_dirs(t, pair, i + 1, directions1, directions2, id);
    }
}

/// The growth run to its end: as long as a pair is on the stack, the pair
/// on top is taken off and tried in the six directions.
pub open spec fn grow_run(
    s: GrowView,
    directions1: Seq<u8>,
    directions2: Seq<u8>,
    id: u16,
) -> GrowView
    decreases grow_measure(s),
    when grow_ready(s, id)
{
    if s.stack.len() == 0 {
        s
    } else {
        let rest = GrowView { stack: s.stack.drop_last(), ..s };
        proof {
            assert forall|k: int| 0 <= k < rest.stack.len() implies (
            #[trigger] rest.stack[k]).0.in_box(rest.g1.d) by {
                assert(rest.stack[k] == s.stack[k]);
            }
            lemma_grow_dirs(rest, s.stack.last(), 0, directions1, directions2, id);
        }
        grow_run(
            grow_dirs(rest, s.stack.last(), 0, directions1, directions2, id),
            directions1,
            directions2,
            id,
        )
    }
}

/// The growth as it starts: the two seeds are placed and their pair waits
/// on the stack, and the map has fixed nothing.
pub open spec fn grow_start(g1: BoxView, g2: BoxView, p1: Point, p2: Point, id: u16) -> GrowView {
    GrowView {
        g1: g1.put(p1, id),
        g2: g2.put(p2, id),
        pp1: Seq::<Point>::empty().push(p1),
        pp2: Seq::<Point>::empty().push(p2),
        stack: Seq::<(Point, Point)>::empty().push((p1, p2)),
        axis: AxisMap::Empty,
    }
}

/// `directions` holds the six directions, in some order.
pub open spec fn all_six(directions: Seq<u8>) -> bool {
    directions.len() == 6 && forall|d: u8| d < 6 ==> directions.contains(d)
}

/// The growth of a block from the seeds `p1` and `p2`, run to its end with
/// the directions tried in the orders `directions1` and `directions2`.
pub open spec fn grown_from(
    g1: BoxView,
    g2: BoxView,
    p1: Point,
    p2: Point,
    id: u16,
    directions1: Seq<u8>,
    directions2: Seq<u8>,
) -> GrowView {
    grow_run(grow_start(g1, g2, p1, p2, id), directions1, directions2, id)
}

/// Appending a neighbour of voxel `k` keeps a list connected.
proof fn lemma_grown_push(a: Seq<Point>, k: int, r: Point)
    requires
        grown(a),
        0 <= k < a.len(),
        a[k].adjacent(r),
    ensures
        grown(a.push(r)),
{
    let longer = a.push(r);
    assert forall|i: int| 0 < i < longer.len() implies #[trigger] attached(longer, i) by {
        if i < a.len() {
            assert(attached(a, i));
            let j = choose|j: int| 0 <= j < i && (#[trigger] a[j]).adjacent(a[i]);
            assert(longer[j].adjacent(longer[i]));
        } else {
            assert(longer[k].adjacent(longer[i]));
        }
    }
}

/// One step of growth: the pair at position `k` gets the neighbours `r1`
/// (in direction `dir1`) and `r2` (in direction `dir2`), and the direction
/// map fixes `dir1` to `dir2`.
proof fn lemma_grow_step(
    old1: BoxView,
    old2: BoxView,
    g1: BoxView,
    g2: BoxView,
    pp1: Seq<Point>,
    pp2: Seq<Point>,
    axis: AxisMap,
    id: u16,
    k: int,
    dir1: u8,
    dir2: u8,
    r1: Point,
    r2: Point,
)
    requires
        grow_inv(old1, old2, g1, g2, pp1, pp2, axis, id),
        0 <= k < pp1.len(),
        dir1 < 6,
        dir2 < 6,
        axis.accepts(dir1, dir2),
        pp1[k].spec_next_cell(g1.d, dir1) == Some(r1),
        pp2[k].spec_next_cell(g2.d, dir2) == Some(r2),
        g1.free(r1),
        g2.free(r2),
    ensures
        grow_inv(
            old1,
            old2,
            g1.put(r1, id),
            g2.put(r2, id),
            pp1.push(r1),
            pp2.push(r2),
            axis.spec_fix(dir1, dir2),
            id,
        ),
        free_cells(g1) >= 1,
        free_cells(g1.put(r1, id)) == free_cells(g1) - 1,
{
    let d = g1.d;
    let q1 = pp1[k];
    let q2 = pp2[k];
    let n1 = pp1.push(r1);
    let n2 = pp2.push(r2);
    let next = axis.spec_fix(dir1, dir2);
    lemma_grew_by_step(old1, g1, pp1, id, r1);
    lemma_grew_by_step(old2, g2, pp2, id, r2);
    assert(old1.free(pp1[k]) && old2.free(pp2[k]));
    lemma_next_cell_in_box(q1, d, dir1);
    lemma_next_cell_in_box(q2, d, dir2);
    lemma_grown_push(pp1, k, r1);
    lemma_grown_push(pp2, k, r2);
    lemma_fix_keeps_images(axis, dir1, dir2, dir1);
    assert forall|m: Seq<u8>| #[trigger] next.admits(m) implies congruent_under(m, n1, n2) by {
        lemma_fix_refines(axis, dir1, dir2, m);
        assert(axis.admits(m));
        lemma_turned_push(m, pp1, pp2, k, dir1, dir2, r1, r2);
    }
}

/// A rotation that carries one list to the other still does so after a
/// step from pair `k` in a direction of the first object and its image in
/// the second.
proof fn lemma_turned_push(
    m: Seq<u8>,
    pp1: Seq<Point>,
    pp2: Seq<Point>,
    k: int,
    dir1: u8,
    dir2: u8,
    r1: Point,
    r2: Point,
)
    requires
        is_rotation(m),
        congruent_under(m, pp1, pp2),
        0 <= k < pp1.len(),
        dir1 < 6,
        m[dir1 as int] == dir2,
        r1.offset_from(pp1[k]) == Offset::unit(dir1),
        r2.offset_from(pp2[k]) == Offset::unit(dir2),
    ensures
        congruent_under(m, pp1.push(r1), pp2.push(r2)),
{
    let n1 = pp1.push(r1);
    let n2 = pp2.push(r2);
    assert forall|i: int| 0 <= i < n1.len() implies #[trigger] turned(m, n1, n2, i) by {
        if i < pp1.len() {
            assert(turned(m, pp1, pp2, i));
        } else {
            assert(turned(m, pp1, pp2, k));
            lemma_rotate_step(m, pp1[k].offset_from(pp1[0]), dir1);
            assert(r1.offset_from(pp1[0]) == pp1[k].offset_from(pp1[0]).plus(Offset::unit(dir1)));
            assert(r2.offset_from(pp2[0]) == pp2[k].offset_from(pp2[0]).plus(Offset::unit(dir2)));
        }
    }
}

/// A pair stays a pair of the lists when the lists grow.
proof fn lemma_stack_push(
    stack: Seq<(Point, Point)>,
    a: Seq<Point>,
    b: Seq<Point>,
    r1: Point,
    r2: Point,
)
    requires
        stack_ok(stack, a, b),
        a.len() == b.len(),
    ensures
        stack_ok(stack.push((r1, r2)), a.push(r1), b.push(r2)),
        stack_ok(stack, a.push(r1), b.push(r2)),
{
    let a2 = a.push(r1);
    let b2 = b.push(r2);
    assert forall|s: int| 0 <= s < stack.len() implies paired(a2, b2, #[trigger] stack[s]) by {
        assert(paired(a, b, stack[s]));
        let k = choose|k: int|
            0 <= k < a.len() && 0 <= k < b.len() && #[trigger] a[k] == stack[s].0 && b[k]
                == stack[s].1;
        assert(a2[k] == stack[s].0 && b2[k] == stack[s].1);
    }
    let longer = stack.push((r1, r2));
    assert forall|s: int| 0 <= s < longer.len() implies paired(a2, b2, #[trigger] longer[s]) by {
        if s < stack.len() {
            assert(longer[s] == stack[s]);
        } else {
            assert(a2[a.len() as int] == r1 && b2[a.len() as int] == r2);
        }
    }
}

/// Six values among which each of the six directions occurs are the six
/// directions, each once.
pub proof fn lemma_six_directions(directions: Seq<u8>)
    requires
        directions.len() == 6,
        forall|d: u8| d < 6 ==> directions.contains(d),
    ensures
        forall|i: int| 0 <= i < 6 ==> directions[i] < 6,
{
    let at = |d: u8| choose|k: int| 0 <= k < 6 && directions[k] == d;
    assert(directions.contains(0u8) && directions.contains(1u8) && directions.contains(2u8)
        && directions.contains(3u8) && directions.contains(4u8) && directions.contains(5u8));
    let k0 = at(0u8);
    let k1 = at(1u8);
    let k2 = at(2u8);
    let k3 = at(3u8);
    let k4 = at(4u8);
    let k5 = at(5u8);
    assert forall|i: int| 0 <= i < 6 implies directions[i] < 6 by {
        assert(i == k0 || i == k1 || i == k2 || i == k3 || i == k4 || i == k5);
    }
}

/// After a shuffle of directions, the array still holds directions.
pub proof fn lemma_shuffled_directions(before: Seq<u8>, after: Seq<u8>)
    requires
        after.to_multiset() == before.to_multiset(),
        forall|i: int| 0 <= i < before.len() ==> before[i] < 6,
    ensures
        forall|i: int| 0 <= i < after.len() ==> after[i] < 6,
        after.len() == before.len(),
        forall|d: u8| before.contains(d) ==> after.contains(d),
{
    before.to_multiset_ensures();
    after.to_multiset_ensures();
    assert forall|d: u8| before.contains(d) implies after.contains(d) by {
        assert(before.to_multiset().count(d) > 0);
    }
    assert forall|i: int| 0 <= i < after.len() implies after[i] < 6 by {
        assert(after.contains(after[i]));
        assert(after.to_multiset().count(after[i]) > 0);
        assert(before.contains(after[i]));
    }
}

/// The first of the directions `cands` in which `q2` has an empty neighbour
/// in the second object, with that neighbour.
fn find_partner(grid_2: &GridBox, q2: Point, cands: &DirList) -> (r: Option<(u8, Point)>)
    requires
        grid_2.wf(),
        q2.in_box(grid_2.d),
        forall|j: int| 0 <= j < cands@.len() ==> cands@[j] < 6,
    ensures
        match r {
            Some((dir2, r2)) => exists|j: int|
                0 <= j < cands@.len() && #[trigger] cands@[j] == dir2 && q2.spec_next_cell(
                    grid_2.d,
                    dir2,
                ) == Some(r2) && grid_2@.free(r2) && forall|i: int|
                    0 <= i < j ==> !usable(grid_2@, q2, #[trigger] cands@[i]),
            None => forall|j: int| 0 <= j < cands@.len() ==> !usable(grid_2@, q2, #[trigger] cands@[j]),
        },
        r == first_usable(grid_2@, q2, cands@, 0),
{
    let n: usize = cands.len();
    let mut j: usize = 0;
    while j < n
        invariant
            j <= n,
            n == cands@.len(),
            first_usable(grid_2@, q2, cands@, j as int) == first_usable(grid_2@, q2, cands@, 0),
            grid_2.wf(),
            q2.in_box(grid_2.d),
            forall|i: int| 0 <= i < cands@.len() ==> cands@[i] < 6,
            forall|i: int| 0 <= i < j ==> !usable(grid_2@, q2, #[trigger] cands@[i]),
        decreases n - j,
    {
        let dir2: u8 = cands.at(j);
        proof {
            lemma_next_cell_in_box(q2, grid_2.d, dir2);
        }
        match q2.next_cell(grid_2.d, dir2) {
            Some(r2) => {
                if grid_2.label(r2) == 0 {
                    assert(cands@[j as int] == dir2);
                    return Some((dir2, r2));
                }
            },
            None => {},
        }
        j += 1;
    }
    None
}

/// Tries to grow the pair `(q1, q2)` in each direction of `directions1`: if
/// the neighbour of `q1` is empty, the first direction offered by the map in
/// which `q2` has an empty neighbour is taken, both neighbours are placed
/// and pushed, and the map fixes the two directions to each other.
fn grow_from(
    grid_1: &mut GridBox,
    grid_2: &mut GridBox,
    pp1: &mut Vec<Point>,
    pp2: &mut Vec<Point>,
    stack: &mut PairStack,
    axis_map: AxisMap,
    pair: (Point, Point),
    directions1: [u8; 6],
    directions2: [u8; 6],
    block_id: u16,
    Ghost(old1): Ghost<BoxView>,
    Ghost(old2): Ghost<BoxView>,
) -> (next: AxisMap)
    requires
        old(grid_1).wf(),
        old(grid_2).wf(),
        grow_inv(old1, old2, old(grid_1)@, old(grid_2)@, old(pp1)@, old(pp2)@, axis_map, block_id),
        stack_ok(old(stack)@, old(pp1)@, old(pp2)@),
        paired(old(pp1)@, old(pp2)@, pair),
        forall|i: int| 0 <= i < 6 ==> directions1@[i] < 6,
        forall|i: int| 0 <= i < 6 ==> directions2@[i] < 6,
        forall|d: u8| d < 6 ==> directions1@.contains(d),
        forall|d: u8| d < 6 ==> directions2@.contains(d),
        all_settled(
            old(grid_1)@,
            old(grid_2)@,
            old(pp1)@,
            old(pp2)@,
            axis_map,
            old(stack)@,
            Some((pair, Seq::<u8>::empty())),
        ),
    ensures
        final(grid_1).wf(),
        final(grid_2).wf(),
        grow_inv(old1, old2, final(grid_1)@, final(grid_2)@, final(pp1)@, final(pp2)@, next, block_id),
        stack_ok(final(stack)@, final(pp1)@, final(pp2)@),
        all_settled(
            final(grid_1)@,
            final(grid_2)@,
            final(pp1)@,
            final(pp2)@,
            next,
            final(stack)@,
            None,
        ),
        final(pp1)@[0] == old(pp1)@[0],
        final(pp2)@[0] == old(pp2)@[0],
        2 * free_cells(final(grid_1)@) + final(stack)@.len() <= 2 * free_cells(old(grid_1)@) + old(
            stack,
        )@.len(),
        (GrowView {
            g1: final(grid_1)@,
            g2: final(grid_2)@,
            pp1: final(pp1)@,
            pp2: final(pp2)@,
            stack: final(stack)@,
            axis: next,
        }) == grow_dirs(
            GrowView {
                g1: old(grid_1)@,
                g2: old(grid_2)@,
                pp1: old(pp1)@,
                pp2: old(pp2)@,
                stack: old(stack)@,
                axis: axis_map,
            },
            pair,
            0,
            directions1@,
            directions2@,
            block_id,
        ),
{
    let d: u8 = grid_1.d;
    let (q1, q2) = pair;
    let mut axis: AxisMap = axis_map;
    let ghost k = choose|k: int|
        0 <= k < pp1@.len() && 0 <= k < pp2@.len() && #[trigger] pp1@[k] == pair.0 && pp2@[k]
            == pair.1;
    let ghost entry = GrowView {
        g1: grid_1@,
        g2: grid_2@,
        pp1: pp1@,
        pp2: pp2@,
        stack: stack@,
        axis: axis_map,
    };
    let mut i: usize = 0;
    while i < 6
        invariant
            i <= 6,
            d == grid_1.d,
            grid_1.wf(),
            grid_2.wf(),
            grow_dirs(
                GrowView { g1: grid_1@, g2: grid_2@, pp1: pp1@, pp2: pp2@, stack: stack@, axis },
                pair,
                i as int,
                directions1@,
                directions2@,
                block_id,
            ) == grow_dirs(entry, pair, 0, directions1@, directions2@, block_id),
            grow_inv(old1, old2, grid_1@, grid_2@, pp1@, pp2@, axis, block_id),
            stack_ok(stack@, pp1@, pp2@),
            pair == (q1, q2),
            forall|d: u8| d < 6 ==> directions1@.contains(d),
            forall|d: u8| d < 6 ==> directions2@.contains(d),
            all_settled(
                grid_1@,
                grid_2@,
                pp1@,
                pp2@,
                axis,
                stack@,
                Some((pair, directions1@.take(i as int))),
            ),
            pp1@[0] == old(pp1)@[0],
            pp2@[0] == old(pp2)@[0],
            0 <= k < pp1@.len(),
            pp1@[k] == q1,
            pp2@[k] == q2,
            forall|i: int| 0 <= i < 6 ==> directions1@[i] < 6,
            forall|i: int| 0 <= i < 6 ==> directions2@[i] < 6,
            2 * free_cells(grid_1@) + stack@.len() <= 2 * free_cells(old(grid_1)@) + old(
                stack,
            )@.len(),
        decreases 6 - i,
    {
        let dir1: u8 = directions1[i];
        let ghost tried = directions1@.take(i as int);
        let ghost cur = GrowView {
            g1: grid_1@,
            g2: grid_2@,
            pp1: pp1@,
            pp2: pp2@,
            stack: stack@,
            axis,
        };
        proof {
            assert(old1.free(pp1@[k]) && old2.free(pp2@[k]));
            lemma_next_cell_in_box(q1, d, dir1);
            assert(directions1@.take(i + 1) =~= tried.push(dir1));
            assert(grow_dirs(cur, pair, i as int, directions1@, directions2@, block_id)
                == grow_dirs(
                grow_try(cur, pair, dir1, directions2@, block_id),
                pair,
                i + 1,
                directions1@,
                directions2@,
                block_id,
            ));
        }
        let mut stepped: bool = false;
        match q1.next_cell(d, dir1) {
            Some(r1) => {
                if grid_1.label(r1) == 0 {
                    let cands: DirList = axis.map_axis(dir1, directions2);
                    proof {
                        assert forall|j: int| 0 <= j < cands@.len() implies cands@[j] < 6
                            && axis.accepts(dir1, cands@[j]) by {
                            lemma_candidates_accepted(axis, dir1, directions2@, j);
                        }
                    }
                    match find_partner(grid_2, q2, &cands) {
                        Some((dir2, r2)) => {
                            proof {
                                lemma_grow_step(
                                    old1,
                                    old2,
                                    grid_1@,
                                    grid_2@,
                                    pp1@,
                                    pp2@,
                                    axis,
                                    block_id,
                                    k,
                                    dir1,
                                    dir2,
                                    r1,
                                    r2,
                                );
                                lemma_stack_push(stack@, pp1@, pp2@, r1, r2);
                                lemma_settled_step(
                                    grid_1@,
                                    grid_2@,
                                    pp1@,
                                    pp2@,
                                    axis,
                                    stack@,
                                    pair,
                                    tried,
                                    dir1,
                                    dir2,
                                    r1,
                                    r2,
                                    block_id,
                                );
                            }
                            grid_1.put(r1, block_id);
                            grid_2.put(r2, block_id);
                            pp1.push(r1);
                            pp2.push(r2);
                            axis = axis.fix(dir1, dir2);
                            stack.push((r1, r2));
                            stepped = true;
                        },
                        None => {
                            proof {
                                assert forall|c: u8|
                                    c < 6 && usable(grid_1@, pair.0, dir1) && #[trigger] axis.accepts(
                                        dir1,
                                        c,
                                    ) implies !usable(grid_2@, pair.1, c) by {
                                    lemma_candidates_complete(axis, dir1, directions2@, c);
                                    let j = choose|j: int|
                                        0 <= j < cands@.len() && cands@[j] == c;
                                    assert(!usable(grid_2@, q2, cands@[j]));
                                }
                            }
                        },
                    }
                }
            },
            None => {},
        }
        proof {
            if !stepped {
                lemma_settled_skip(grid_1@, grid_2@, pp1@, pp2@, axis, stack@, pair, tried, dir1);
            }
            assert((GrowView {
                g1: grid_1@,
                g2: grid_2@,
                pp1: pp1@,
                pp2: pp2@,
                stack: stack@,
                axis,
            }) =~= grow_try(cur, pair, dir1, directions2@, block_id));
        }
        i += 1;
    }
    proof {
        assert(directions1@.take(6) =~= directions1@);
        lemma_settled_done(grid_1@, grid_2@, pp1@, pp2@, axis, stack@, pair, directions1@);
    }
    axis
}

/// Grows a new shared block from the empty voxels `p1` of the first object
/// and `p2` of the second. Both voxels are placed, and the pair `(p1, p2)`
/// waits on a stack. The pair on top is taken off and tried in the
/// directions of the first object, in the order of `directions1`: where its
/// voxel of the first object has an empty neighbour, the directions that the
/// direction map offers for the second object are tried, with `directions2`
/// giving their order; at the first in which the voxel of the second object
/// has an empty neighbour, both neighbours are placed and their pair is put
/// on the stack, and the map fixes the two directions to each other. Growth
/// ends when the stack is empty: no pair can step any more. The voxels
/// placed are returned in the order of placing, those of the first object
/// and those of the second, with the direction map that the steps have
/// fixed.
pub fn grow_in_order(
    grid_1: &mut GridBox,
    grid_2: &mut GridBox,
    block_id: u16,
    p1: Point,
    p2: Point,
    directions1: [u8; 6],
    directions2: [u8; 6],
) -> (r: (Vec<Point>, Vec<Point>, AxisMap))
    requires
        old(grid_1).wf(),
        old(grid_2).wf(),
        old(grid_1).d == old(grid_2).d,
        old(grid_1)@.free(p1),
        old(grid_2)@.free(p2),
        is_block(block_id),
        forall|d: u8| d < 6 ==> directions1@.contains(d),
        forall|d: u8| d < 6 ==> directions2@.contains(d),
    ensures
        final(grid_1).wf(),
        final(grid_2).wf(),
        r.0@.len() == r.1@.len(),
        r.0@.len() >= 1,
        r.0@[0] == p1,
        r.1@[0] == p2,
        placeable(old(grid_1)@, r.0@),
        placeable(old(grid_2)@, r.1@),
        final(grid_1)@.grew_by(old(grid_1)@, r.0@, block_id),
        final(grid_2)@.grew_by(old(grid_2)@, r.1@, block_id),
        grown(r.0@),
        grown(r.1@),
        congruent(r.0@, r.1@),
        free_cells(final(grid_1)@) + r.0@.len() == free_cells(old(grid_1)@),
        free_cells(final(grid_2)@) + r.1@.len() == free_cells(old(grid_2)@),
        r.2.wf(),
        forall|m: Seq<u8>| #[trigger] r.2.admits(m) ==> congruent_under(m, r.0@, r.1@),
        stuck(final(grid_1)@, final(grid_2)@, r.0@, r.1@, r.2),
        ({
            let end = grown_from(
                old(grid_1)@,
                old(grid_2)@,
                p1,
                p2,
                block_id,
                directions1@,
                directions2@,
            );
            &&& r.0@ == end.pp1
            &&& r.1@ == end.pp2
            &&& r.2 == end.axis
            &&& final(grid_1)@ == end.g1
            &&& final(grid_2)@ == end.g2
        }),
{
    let ghost old1 = grid_1@;
    let ghost old2 = grid_2@;
    proof {
        lemma_six_directions(directions1@);
        lemma_six_directions(directions2@);
    }
    let mut axis_map: AxisMap = AxisMap::new();
    let mut pp1: Vec<Point> = Vec::new();
    let mut pp2: Vec<Point> = Vec::new();
    let mut stack: PairStack = PairStack::new();
    stack.push((p1, p2));
    proof {
        let none = Seq::<Point>::empty();
        assert(old1.grew_by(old1, none, block_id));
        assert(old2.grew_by(old2, none, block_id));
        lemma_grew_by_step(old1, old1, none, block_id, p1);
        lemma_grew_by_step(old2, old2, none, block_id, p2);
    }
    grid_1.put(p1, block_id);
    grid_2.put(p2, block_id);
    pp1.push(p1);
    pp2.push(p2);
    proof {
        assert(pp1@ =~= Seq::<Point>::empty().push(p1));
        assert(pp2@ =~= Seq::<Point>::empty().push(p2));
        assert forall|m: Seq<u8>| #[trigger] axis_map.admits(m) implies congruent_under(
            m,
            pp1@,
            pp2@,
        ) by {
            lemma_rotate_step(m, Offset::zero(), 0);
            assert(turned(m, pp1@, pp2@, 0));
        }
        assert(stack@[0] == (p1, p2));
        assert(pp1@[0] == stack@[0].0 && pp2@[0] == stack@[0].1);
        assert(paired(pp1@, pp2@, stack@[0]));
        assert forall|k: int| 0 <= k < pp1@.len() implies settled(
            grid_1@,
            grid_2@,
            #[trigger] pp1@[k],
            pp2@[k],
            axis_map,
            stack@,
            None,
        ) by {
            assert(stack@.contains((pp1@[k], pp2@[k])));
        }
    }
    let ghost goal = grow_run(
        grow_start(old1, old2, p1, p2, block_id),
        directions1@,
        directions2@,
        block_id,
    );
    proof {
        assert(stack@ =~= Seq::<(Point, Point)>::empty().push((p1, p2)));
    }
    loop
        invariant
            grid_1.wf(),
            grid_2.wf(),
            grow_run(
                GrowView {
                    g1: grid_1@,
                    g2: grid_2@,
                    pp1: pp1@,
                    pp2: pp2@,
                    stack: stack@,
                    axis: axis_map,
                },
                directions1@,
                directions2@,
                block_id,
            ) == goal,
            grow_inv(old1, old2, grid_1@, grid_2@, pp1@, pp2@, axis_map, block_id),
            stack_ok(stack@, pp1@, pp2@),
            all_settled(grid_1@, grid_2@, pp1@, pp2@, axis_map, stack@, None),
            pp1@[0] == p1,
            pp2@[0] == p2,
            forall|i: int| 0 <= i < 6 ==> directions1@[i] < 6,
            forall|i: int| 0 <= i < 6 ==> directions2@[i] < 6,
            forall|d: u8| d < 6 ==> directions1@.contains(d),
            forall|d: u8| d < 6 ==> directions2@.contains(d),
        ensures
            grid_1.wf(),
            grid_2.wf(),
            grow_inv(old1, old2, grid_1@, grid_2@, pp1@, pp2@, axis_map, block_id),
            pp1@[0] == p1,
            pp2@[0] == p2,
            stuck(grid_1@, grid_2@, pp1@, pp2@, axis_map),
            (GrowView {
                g1: grid_1@,
                g2: grid_2@,
                pp1: pp1@,
                pp2: pp2@,
                stack: stack@,
                axis: axis_map,
            }) == goal,
        decreases 2 * free_cells(grid_1@) + stack@.len(),
    {
        let ghost below = stack@;
        let ghost cur = GrowView {
            g1: grid_1@,
            g2: grid_2@,
            pp1: pp1@,
            pp2: pp2@,
            stack: below,
            axis: axis_map,
        };
        proof {
            assert forall|k: int| 0 <= k < below.len() implies (#[trigger] below[k]).0.in_box(
                grid_1.d,
            ) by {
                assert(paired(pp1@, pp2@, below[k]));
                let m = choose|m: int|
                    0 <= m < pp1@.len() && 0 <= m < pp2@.len() && #[trigger] pp1@[m] == below[k].0
                        && pp2@[m] == below[k].1;
                assert(old1.free(pp1@[m]));
            }
            assert(grow_ready(cur, block_id));
        }
        match stack.pop() {
            Some(pair) => {
                proof {
                    let rest = GrowView { stack: below.drop_last(), ..cur };
                    assert forall|k: int| 0 <= k < rest.stack.len() implies (
                    #[trigger] rest.stack[k]).0.in_box(rest.g1.d) by {
                        assert(rest.stack[k] == below[k]);
                    }
                    lemma_grow_dirs(rest, pair, 0, directions1@, directions2@, block_id);
                    assert(grow_run(cur, directions1@, directions2@, block_id) == grow_run(
                        grow_dirs(rest, pair, 0, directions1@, directions2@, block_id),
                        directions1@,
                        directions2@,
                        block_id,
                    ));
                    lemma_settled_pop(grid_1@, grid_2@, pp1@, pp2@, axis_map, below);
                    assert(stack@ == below.drop_last());
                    assert(pair == below.last());
                    assert(paired(pp1@, pp2@, below[below.len() - 1]));
                    assert forall|s: int| 0 <= s < stack@.len() implies paired(
                        pp1@,
                        pp2@,
                        #[trigger] stack@[s],
                    ) by {
                        assert(stack@[s] == below[s]);
                    }
                }
                axis_map =
                grow_from(
                    grid_1,
                    grid_2,
                    &mut pp1,
                    &mut pp2,
                    &mut stack,
                    axis_map,
                    pair,
                    directions1,
                    directions2,
                    block_id,
                    Ghost(old1),
                    Ghost(old2),
                );
            },
            None => {
                proof {
                    assert(grow_run(cur, directions1@, directions2@, block_id) == cur);
                    assert(stack@ == below);
                    assert forall|k: int| 0 <= k < pp1@.len() implies stuck_pair(
                        grid_1@,
                        grid_2@,
                        #[trigger] pp1@[k],
                        pp2@[k],
                        axis_map,
                    ) by {
                        assert(settled(grid_1@, grid_2@, pp1@[k], pp2@[k], axis_map, stack@, None));
                    }
                }
                break ;
            },
        }
    }
    proof {
        lemma_admits_some(axis_map);
        assert(congruent_under(some_rotation(axis_map)@, pp1@, pp2@));
    }
    (pp1, pp2, axis_map)
}

/// Grows a new shared block from the empty voxels `p1` of the first object
/// and `p2` of the second, as `grow_in_order` does, with the six directions
/// in a random order drawn for each object.
pub fn grow_with_map(
    rng: &mut Mcg128Xsl64,
    grid_1: &mut GridBox,
    grid_2: &mut GridBox,
    block_id: u16,
    p1: Point,
    p2: Point,
) -> (r: (Vec<Point>, Vec<Point>, AxisMap))
    requires
        old(grid_1).wf(),
        old(grid_2).wf(),
        old(grid_1).d == old(grid_2).d,
        old(grid_1)@.free(p1),
        old(grid_2)@.free(p2),
        is_block(block_id),
    ensures
        final(grid_1).wf(),
        final(grid_2).wf(),
        r.0@.len() == r.1@.len(),
        r.0@.len() >= 1,
        r.0@[0] == p1,
        r.1@[0] == p2,
        placeable(old(grid_1)@, r.0@),
        placeable(old(grid_2)@, r.1@),
        final(grid_1)@.grew_by(old(grid_1)@, r.0@, block_id),
        final(grid_2)@.grew_by(old(grid_2)@, r.1@, block_id),
        grown(r.0@),
        grown(r.1@),
        congruent(r.0@, r.1@),
        free_cells(final(grid_1)@) + r.0@.len() == free_cells(old(grid_1)@),
        free_cells(final(grid_2)@) + r.1@.len() == free_cells(old(grid_2)@),
        r.2.wf(),
        forall|m: Seq<u8>| #[trigger] r.2.admits(m) ==> congruent_under(m, r.0@, r.1@),
        stuck(final(grid_1)@, final(grid_2)@, r.0@, r.1@, r.2),
        exists|directions1: Seq<u8>, directions2: Seq<u8>|
            all_six(directions1) && all_six(directions2) && ({
                let end = #[trigger] grown_from(
                    old(grid_1)@,
                    old(grid_2)@,
                    p1,
                    p2,
                    block_id,
                    directions1,
                    directions2,
                );
                &&& r.0@ == end.pp1
                &&& r.1@ == end.pp2
                &&& r.2 == end.axis
                &&& final(grid_1)@ == end.g1
                &&& final(grid_2)@ == end.g2
            }),
{
    let mut directions1: [u8; 6] = [0, 1, 2, 3, 4, 5];
    let mut directions2: [u8; 6] = [0, 1, 2, 3, 4, 5];
    let ghost plain = directions1@;
    shuffle_directions(rng, &mut directions1);
    shuffle_directions(rng, &mut directions2);
    proof {
        assert forall|d: u8| d < 6 implies plain.contains(d) by {
            assert(plain[d as int] == d);
        }
        lemma_shuffled_directions(plain, directions1@);
        lemma_shuffled_directions(plain, directions2@);
        assert(all_six(directions1@) && all_six(directions2@));
    }
    grow_in_order(grid_1, grid_2, block_id, p1, p2, directions1, directions2)
}

/// Grows a new shared block from the empty voxels `p1` of the first object
/// and `p2` of the second, as `grow_with_map` does, and returns the voxels
/// placed in each object, in the order of placing.
pub fn grow_shared_block(
    rng: &mut Mcg128Xsl64,
    grid_1: &mut GridBox,
    grid_2: &mut GridBox,
    block_id: u16,
    p1: Point,
    p2: Point,
) -> (r: (Vec<Point>, Vec<Point>))
    requires
        old(grid_1).wf(),
        old(grid_2).wf(),
        old(grid_1).d == old(grid_2).d,
        old(grid_1)@.free(p1),
        old(grid_2)@.free(p2),
        is_block(block_id),
    ensures
        final(grid_1).wf(),
        final(grid_2).wf(),
        r.0@.len() == r.1@.len(),
        r.0@.len() >= 1,
        r.0@[0] == p1,
        r.1@[0] == p2,
        placeable(old(grid_1)@, r.0@),
        placeable(old(grid_2)@, r.1@),
        final(grid_1)@.grew_by(old(grid_1)@, r.0@, block_id),
        final(grid_2)@.grew_by(old(grid_2)@, r.1@, block_id),
        grown(r.0@),
        grown(r.1@),
        congruent(r.0@, r.1@),
        free_cells(final(grid_1)@) + r.0@.len() == free_cells(old(grid_1)@),
        free_cells(final(grid_2)@) + r.1@.len() == free_cells(old(grid_2)@),
        exists|axis: AxisMap|
            axis.wf() && #[trigger] stuck(final(grid_1)@, final(grid_2)@, r.0@, r.1@, axis)
                && forall|m: Seq<u8>| #[trigger] axis.admits(m) ==> congruent_under(m, r.0@, r.1@),
        exists|directions1: Seq<u8>, directions2: Seq<u8>|
            all_six(directions1) && all_six(directions2) && ({
                let end = #[trigger] grown_from(
                    old(grid_1)@,
                    old(grid_2)@,
                    p1,
                    p2,
                    block_id,
                    directions1,
                    directions2,
                );
                &&& r.0@ == end.pp1
                &&& r.1@ == end.pp2
                &&& final(grid_1)@ == end.g1
                &&& final(grid_2)@ == end.g2
            }),
{
    let (pp1, pp2, _) = grow_with_map(rng, grid_1, grid_2, block_id, p1, p2);
    (pp1, pp2)
}


} // verus!
