//! The voxel classifier: which usable voxels are still needed to cover a
//! silhouette cell, and how urgently.

use vstd::prelude::*;
use rand_pcg::Mcg128Xsl64;
use crate::buffers::PointList;
use crate::box_view::{lemma_block_is_counted, BoxView, FORBIDDEN, OFF};
use crate::grid_box::GridBox;
use crate::hole::{on_ys, xz_entries, xzy_entries, xzy_in_box, xzy_view, HoleXZYY};
use crate::grids::lemma_plane_index_bound;
use crate::point::Point;

verus! {

/// The voxels `(x, y, z)` of one column, for the `y`s given.
pub open spec fn column_points(x: u8, z: u8, ys: Seq<u8>) -> Seq<Point> {
    Seq::new(ys.len(), |k: int| Point(x, ys[k], z))
}

/// The voxels of a hole, column after column.
pub open spec fn hole_points(h: Seq<(u8, u8, Seq<u8>)>) -> Seq<Point>
    decreases h.len(),
{
    if h.len() == 0 {
        Seq::<Point>::empty()
    } else {
        hole_points(h.drop_last()) + column_points(h.last().0, h.last().1, h.last().2)
    }
}

/// How many of the two silhouette cells of voxel `p` are still uncovered.
pub open spec fn urgency(v: BoxView, p: Point) -> int {
    let f = v.front_at(p.0, p.2);
    let r = v.right_at(p.1, p.2);
    if f == 0 && r == 0 {
        2
    } else if f == 0 || r == 0 {
        1
    } else {
        0
    }
}

/// The voxels of `pts` with both silhouette cells uncovered, in order.
pub open spec fn yet_yet_of(v: BoxView, pts: Seq<Point>) -> Seq<Point>
    decreases pts.len(),
{
    if pts.len() == 0 {
        Seq::<Point>::empty()
    } else {
        let rest = yet_yet_of(v, pts.drop_last());
        if urgency(v, pts.last()) == 2 {
            rest.push(pts.last())
        } else {
            rest
        }
    }
}

/// The voxels of `pts` with exactly one silhouette cell uncovered that come
/// before the first voxel with both uncovered, in order.
pub open spec fn yet_of(v: BoxView, pts: Seq<Point>) -> Seq<Point>
    decreases pts.len(),
{
    if pts.len() == 0 {
        Seq::<Point>::empty()
    } else {
        let rest = yet_of(v, pts.drop_last());
        if urgency(v, pts.last()) == 1 && yet_yet_of(v, pts.drop_last()).len() == 0 {
            rest.push(pts.last())
        } else {
            rest
        }
    }
}

/// The empty voxels of `pts` with both silhouette cells covered that come
/// before the first voxel with a cell uncovered, in order.
pub open spec fn can_of(v: BoxView, pts: Seq<Point>) -> Seq<Point>
    decreases pts.len(),
{
    if pts.len() == 0 {
        Seq::<Point>::empty()
    } else {
        let rest = can_of(v, pts.drop_last());
        if urgency(v, pts.last()) == 0 && v.label(pts.last()) == 0 && yet_yet_of(
            v,
            pts.drop_last(),
        ).len() == 0 && yet_of(v, pts.drop_last()).len() == 0 {
            rest.push(pts.last())
        } else {
            rest
        }
    }
}

/// The usable voxels of an object in three classes of falling urgency.
pub struct YetPointSet {
    pub yet_yet: PointList,
    pub yet: PointList,
    pub can: PointList,
}

impl YetPointSet {
    /// The three classes are those of `pts` in the state `v`.
    pub open spec fn classifies(&self, v: BoxView, pts: Seq<Point>) -> bool {
        &&& self.yet_yet@ == yet_yet_of(v, pts)
        &&& self.yet@ == yet_of(v, pts)
        &&& self.can@ == can_of(v, pts)
    }

    /// No voxel is left with an uncovered silhouette cell.
    pub fn satisfied(&self) -> (b: bool)
        ensures
            b == (self.yet_yet@.len() == 0 && self.yet@.len() == 0),
    {
        self.yet_yet.is_empty() && self.yet.is_empty()
    }

    /// A random voxel of the most urgent class that is not empty, or nothing
    /// if all three are empty.
    pub fn chose(&self, rng: &mut Mcg128Xsl64) -> (r: Option<Point>)
        ensures
            self.yet_yet@.len() > 0 ==> r is Some && self.yet_yet@.contains(r->0),
            self.yet_yet@.len() == 0 && self.yet@.len() > 0 ==> r is Some && self.yet@.contains(
                r->0,
            ),
            self.yet_yet@.len() == 0 && self.yet@.len() == 0 && self.can@.len() > 0 ==> r is Some
                && self.can@.contains(r->0),
            self.yet_yet@.len() == 0 && self.yet@.len() == 0 && self.can@.len() == 0 ==> r is None,
    {
        if !self.yet_yet.is_empty() {
            self.yet_yet.pick(rng)
        } else if !self.yet.is_empty() {
            self.yet.pick(rng)
        } else if !self.can.is_empty() {
            self.can.pick(rng)
        } else {
            None
        }
    }
}

impl GridBox {
    /// Sorts the voxels of the hole into three classes: `yet_yet` holds those
    /// whose two silhouette cells are both uncovered; `yet` those with one
    /// uncovered, as long as `yet_yet` is still empty; `can` the empty voxels
    /// with both covered, as long as the other two classes are still empty.
    pub fn make_yet_points(&self, hole: &[HoleXZYY]) -> (r: YetPointSet)
        requires
            self.wf(),
            xzy_in_box(xzy_view(hole@), self.d),
        ensures
            r.classifies(self@, hole_points(xzy_view(hole@))),
    {
        let ghost v = self@;
        let ghost h = xzy_view(hole@);
        let mut yet_yet: PointList = PointList::new();
        let mut yet: PointList = PointList::new();
        let mut can: PointList = PointList::new();
        let mut i: usize = 0;
        assert(h.take(0) =~= Seq::<(u8, u8, Seq<u8>)>::empty());
        while i < hole.len()
            invariant
                i <= hole@.len(),
                self.wf(),
                v == self@,
                h == xzy_view(hole@),
                xzy_in_box(h, self.d),
                yet_yet@ == yet_yet_of(v, hole_points(h.take(i as int))),
                yet@ == yet_of(v, hole_points(h.take(i as int))),
                can@ == can_of(v, hole_points(h.take(i as int))),
            decreases hole@.len() - i,
        {
            let x: u8 = hole[i].0;
            let z: u8 = hole[i].1;
            let ghost before = hole_points(h.take(i as int));
            let ghost ys = h[i as int].2;
            assert(h[i as int].0 < self.d && h[i as int].1 < self.d);
            let front: u8 = self.front.get(x, z);
            let n: usize = hole[i].2.len();
            let mut k: usize = 0;
            assert(before + column_points(x, z, ys.take(0)) =~= before);
            while k < n
                invariant
                    k <= n,
                    i < hole@.len(),
                    n == ys.len(),
                    ys == hole@[i as int].2@,
                    ys == h[i as int].2,
                    x < self.d,
                    z < self.d,
                    forall|m: int| 0 <= m < ys.len() ==> #[trigger] ys[m] < self.d,
                    self.wf(),
                    v == self@,
                    front == v.front_at(x, z),
                    yet_yet@ == yet_yet_of(v, before + column_points(x, z, ys.take(k as int))),
                    yet@ == yet_of(v, before + column_points(x, z, ys.take(k as int))),
                    can@ == can_of(v, before + column_points(x, z, ys.take(k as int))),
                decreases n - k,
            {
                let y: u8 = hole[i].2[k];
                assert(y == ys[k as int]);
                let right: u8 = self.right.get(y, z);
                let p: Point = Point::new(x, y, z);
                proof {
                    let prev = before + column_points(x, z, ys.take(k as int));
                    let next = before + column_points(x, z, ys.take(k + 1));
                    assert(column_points(x, z, ys.take(k + 1)) =~= column_points(
                        x,
                        z,
                        ys.take(k as int),
                    ).push(p));
                    assert(next =~= prev.push(p));
                    assert(next.drop_last() =~= prev);
                    assert(next.last() == p);
                }
                if front == 0 && right == 0 {
                    yet_yet.push(p);
                } else if front == 0 || right == 0 {
                    if yet_yet.is_empty() {
                        yet.push(p);
                    }
                } else {
                    if yet_yet.is_empty() && yet.is_empty() && self.label(p) == 0 {
                        can.push(p);
                    }
                }
                k += 1;
            }
            proof {
                assert(ys.take(n as int) =~= ys);
                assert(h.take(i + 1).drop_last() =~= h.take(i as int));
                assert(h.take(i + 1).last() == h[i as int]);
            }
            i += 1;
        }
        assert(h.take(hole@.len() as int) =~= h);
        YetPointSet { yet_yet, yet, can }
    }
}

/// What the three classes hold: voxels of `pts` with the urgency of their
/// class, and the two urgent classes are empty exactly when no voxel of `pts`
/// has an uncovered silhouette cell.
pub proof fn lemma_classes(v: BoxView, pts: Seq<Point>)
    ensures
        forall|k: int|
            0 <= k < yet_yet_of(v, pts).len() ==> pts.contains(#[trigger] yet_yet_of(v, pts)[k])
                && urgency(v, yet_yet_of(v, pts)[k]) == 2,
        forall|k: int|
            0 <= k < yet_of(v, pts).len() ==> pts.contains(#[trigger] yet_of(v, pts)[k]) && urgency(
                v,
                yet_of(v, pts)[k],
            ) == 1,
        forall|k: int|
            0 <= k < can_of(v, pts).len() ==> pts.contains(#[trigger] can_of(v, pts)[k]) && urgency(
                v,
                can_of(v, pts)[k],
            ) == 0 && v.label(can_of(v, pts)[k]) == 0,
        (yet_yet_of(v, pts).len() == 0 && yet_of(v, pts).len() == 0) <==> (forall|k: int|
            0 <= k < pts.len() ==> urgency(v, #[trigger] pts[k]) == 0),
    decreases pts.len(),
{
    if pts.len() > 0 {
        let prev = pts.drop_last();
        let p = pts.last();
        lemma_classes(v, prev);
        assert(pts[pts.len() - 1] == p);
        assert forall|q: Point| prev.contains(q) implies pts.contains(q) by {
            let m = choose|m: int| 0 <= m < prev.len() && prev[m] == q;
            assert(pts[m] == q);
        }
        assert forall|k: int| 0 <= k < yet_yet_of(v, pts).len() implies pts.contains(
            #[trigger] yet_yet_of(v, pts)[k],
        ) && urgency(v, yet_yet_of(v, pts)[k]) == 2 by {
            if k < yet_yet_of(v, prev).len() {
                assert(yet_yet_of(v, pts)[k] == yet_yet_of(v, prev)[k]);
            }
        }
        assert forall|k: int| 0 <= k < yet_of(v, pts).len() implies pts.contains(
            #[trigger] yet_of(v, pts)[k],
        ) && urgency(v, yet_of(v, pts)[k]) == 1 by {
            if k < yet_of(v, prev).len() {
                assert(yet_of(v, pts)[k] == yet_of(v, prev)[k]);
            }
        }
        assert forall|k: int| 0 <= k < can_of(v, pts).len() implies pts.contains(
            #[trigger] can_of(v, pts)[k],
        ) && urgency(v, can_of(v, pts)[k]) == 0 && v.label(can_of(v, pts)[k]) == 0 by {
            if k < can_of(v, prev).len() {
                assert(can_of(v, pts)[k] == can_of(v, prev)[k]);
            }
        }
        if yet_yet_of(v, pts).len() == 0 && yet_of(v, pts).len() == 0 {
            assert forall|k: int| 0 <= k < pts.len() implies urgency(v, #[trigger] pts[k])
                == 0 by {
                if k < prev.len() {
                    assert(pts[k] == prev[k]);
                }
            }
        }
        if forall|k: int| 0 <= k < pts.len() ==> urgency(v, #[trigger] pts[k]) == 0 {
            assert forall|k: int| 0 <= k < prev.len() implies urgency(v, #[trigger] prev[k])
                == 0 by {
                assert(pts[k] == prev[k]);
            }
        }
    }
}

/// A usable voxel with an uncovered silhouette cell is empty.
pub proof fn lemma_urgent_is_free(v: BoxView, p: Point)
    requires
        v.wf(),
        p.in_box(v.d),
        v.label(p) != FORBIDDEN,
        urgency(v, p) >= 1,
    ensures
        v.free(p),
{
    if v.label(p) != 0 {
        lemma_block_is_counted(v, p);
    }
}

/// The voxels of two lists of columns are those of the first list followed
/// by those of the second.
pub proof fn lemma_hole_points_concat(a: Seq<(u8, u8, Seq<u8>)>, b: Seq<(u8, u8, Seq<u8>)>)
    ensures
        hole_points(a + b) == hole_points(a) + hole_points(b),
    decreases b.len(),
{
    if b.len() == 0 {
        assert(a + b =~= a);
        assert(hole_points(a) + hole_points(b) =~= hole_points(a));
    } else {
        lemma_hole_points_concat(a, b.drop_last());
        assert((a + b).drop_last() =~= a + b.drop_last());
        assert((a + b).last() == b.last());
        assert(hole_points(a + b) =~= hole_points(a) + hole_points(b));
    }
}

/// A voxel is in a concatenation exactly when it is in one of the parts.
proof fn lemma_contains_concat(a: Seq<Point>, b: Seq<Point>, p: Point)
    ensures
        (a + b).contains(p) <==> a.contains(p) || b.contains(p),
{
    if a.contains(p) {
        let m = choose|m: int| 0 <= m < a.len() && a[m] == p;
        assert((a + b)[m] == p);
    }
    if b.contains(p) {
        let m = choose|m: int| 0 <= m < b.len() && b[m] == p;
        assert((a + b)[a.len() + m] == p);
    }
    if (a + b).contains(p) {
        let m = choose|m: int| 0 <= m < (a + b).len() && (a + b)[m] == p;
        if m < a.len() {
            assert(a[m] == p);
        } else {
            assert(b[m - a.len()] == p);
        }
    }
}

proof fn lemma_on_ys_members(v: BoxView, z: u8, n: nat, y: u8)
    requires
        n <= v.d,
    ensures
        on_ys(v, z, n).contains(y) <==> y < n && v.right_at(y, z) != OFF,
    decreases n,
{
    if n > 0 {
        let rest = on_ys(v, z, (n - 1) as nat);
        lemma_on_ys_members(v, z, (n - 1) as nat, y);
        let all = on_ys(v, z, n);
        if rest.contains(y) {
            let m = choose|m: int| 0 <= m < rest.len() && rest[m] == y;
            assert(all[m] == y);
        }
        if all.contains(y) {
            let m = choose|m: int| 0 <= m < all.len() && all[m] == y;
            if m < rest.len() {
                assert(rest[m] == y);
            }
        }
        if y == n - 1 && v.right_at(y, z) != OFF {
            assert(all[all.len() - 1] == y);
        }
    }
}

proof fn lemma_xz_members(v: BoxView, x: u8, n: nat, p: Point)
    requires
        n <= v.d,
    ensures
        hole_points(xz_entries(v, x, n)).contains(p) <==> p.0 == x && p.1 < v.d && p.2 < n
            && v.front_at(x, p.2) != OFF && v.right_at(p.1, p.2) != OFF,
    decreases n,
{
    if n > 0 {
        let z = (n - 1) as u8;
        let rest = xz_entries(v, x, (n - 1) as nat);
        lemma_xz_members(v, x, (n - 1) as nat, p);
        if v.front_at(x, z) != OFF {
            let ys = on_ys(v, z, v.d as nat);
            let col = column_points(x, z, ys);
            assert(xz_entries(v, x, n).drop_last() =~= rest);
            lemma_contains_concat(hole_points(rest), col, p);
            lemma_on_ys_members(v, z, v.d as nat, p.1);
            if col.contains(p) {
                let m = choose|m: int| 0 <= m < col.len() && col[m] == p;
                assert(ys[m] == p.1);
            }
            if p.0 == x && p.2 == z && ys.contains(p.1) {
                let m = choose|m: int| 0 <= m < ys.len() && ys[m] == p.1;
                assert(col[m] == p);
            }
        }
    }
}

proof fn lemma_xzy_members(v: BoxView, n: nat, p: Point)
    requires
        n <= v.d,
    ensures
        hole_points(xzy_entries(v, n)).contains(p) <==> p.0 < n && p.1 < v.d && p.2 < v.d
            && v.front_at(p.0, p.2) != OFF && v.right_at(p.1, p.2) != OFF,
    decreases n,
{
    if n > 0 {
        let x = (n - 1) as u8;
        lemma_xzy_members(v, (n - 1) as nat, p);
        lemma_xz_members(v, x, v.d as nat, p);
        lemma_hole_points_concat(xzy_entries(v, (n - 1) as nat), xz_entries(v, x, v.d as nat));
        lemma_contains_concat(
            hole_points(xzy_entries(v, (n - 1) as nat)),
            hole_points(xz_entries(v, x, v.d as nat)),
            p,
        );
    }
}

/// The hole of an object lists exactly the voxels that are not forbidden.
pub proof fn lemma_hole_lists_usable(v: BoxView, p: Point)
    requires
        v.wf(),
    ensures
        hole_points(xzy_entries(v.blank(), v.d as nat)).contains(p) <==> p.in_box(v.d) && v.label(p)
            != FORBIDDEN,
{
    let w = v.blank();
    lemma_xzy_members(w, v.d as nat, p);
    if p.in_box(v.d) {
        lemma_plane_index_bound(v.d, p.0, p.2);
        lemma_plane_index_bound(v.d, p.2, p.1);
        assert(v.label(p) == FORBIDDEN <==> (v.front_at(p.0, p.2) == OFF || v.right_at(p.1, p.2)
            == OFF));
    }
}

/// With the hole of the object, the classifier reports the object as
/// satisfied exactly when every usable voxel projects onto two covered
/// silhouette cells.
pub proof fn lemma_satisfied_is_covered(v: BoxView)
    requires
        v.wf(),
    ensures
        ({
            let pts = hole_points(xzy_entries(v.blank(), v.d as nat));
            (yet_yet_of(v, pts).len() == 0 && yet_of(v, pts).len() == 0) <==> v.covered()
        }),
{
    let pts = hole_points(xzy_entries(v.blank(), v.d as nat));
    lemma_classes(v, pts);
    if yet_yet_of(v, pts).len() == 0 && yet_of(v, pts).len() == 0 {
        assert forall|p: Point| p.in_box(v.d) && #[trigger] v.label(p) != FORBIDDEN implies v.front_at(
            p.0,
            p.2,
        ) >= 1 && v.right_at(p.1, p.2) >= 1 by {
            lemma_hole_lists_usable(v, p);
            let m = choose|m: int| 0 <= m < pts.len() && pts[m] == p;
            assert(urgency(v, pts[m]) == 0);
        }
    }
    if v.covered() {
        assert forall|k: int| 0 <= k < pts.len() implies urgency(v, #[trigger] pts[k]) == 0 by {
            lemma_hole_lists_usable(v, pts[k]);
            assert(pts.contains(pts[k]));
            assert(v.label(pts[k]) != FORBIDDEN);
        }
    }
}

/// Whatever the classifier offers from the hole of the object is an empty
/// voxel of the grid.
pub proof fn lemma_offered_is_free(v: BoxView, p: Point)
    requires
        v.wf(),
        ({
            let pts = hole_points(xzy_entries(v.blank(), v.d as nat));
            yet_yet_of(v, pts).contains(p) || yet_of(v, pts).contains(p) || can_of(v, pts).contains(
                p,
            )
        }),
    ensures
        v.free(p),
{
    let pts = hole_points(xzy_entries(v.blank(), v.d as nat));
    lemma_classes(v, pts);
    lemma_hole_lists_usable(v, p);
    if yet_yet_of(v, pts).contains(p) {
        let m = choose|m: int| 0 <= m < yet_yet_of(v, pts).len() && yet_yet_of(v, pts)[m] == p;
        assert(pts.contains(yet_yet_of(v, pts)[m]));
        lemma_urgent_is_free(v, p);
    } else if yet_of(v, pts).contains(p) {
        let m = choose|m: int| 0 <= m < yet_of(v, pts).len() && yet_of(v, pts)[m] == p;
        assert(pts.contains(yet_of(v, pts)[m]));
        lemma_urgent_is_free(v, p);
    } else {
        let m = choose|m: int| 0 <= m < can_of(v, pts).len() && can_of(v, pts)[m] == p;
        assert(pts.contains(can_of(v, pts)[m]));
    }
}

} // verus!
