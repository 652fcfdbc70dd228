//! The growing correspondence between the six directions of the first object
//! and those of the second, which ends as one of the 24 rotations of the cube.

use vstd::prelude::*;
use crate::buffers::DirList;
use crate::point::{axis_of, flip, opposite, Offset};

verus! {

/// Direction of the cross product of the unit steps `a` and `b`, which run
/// along different axes: `x × y = z`, `y × z = x`, `z × x = y`, and each sign
/// flip of an argument flips the result.
pub open spec fn cross(a: u8, b: u8) -> u8 {
    let base: u8 = if axis_of(a) == 0 {
        if axis_of(b) == 1 {
            4u8
        } else {
            3u8
        }
    } else if axis_of(a) == 1 {
        if axis_of(b) == 2 {
            0u8
        } else {
            5u8
        }
    } else {
        if axis_of(b) == 0 {
            2u8
        } else {
            1u8
        }
    };
    if a % 2 == b % 2 {
        base
    } else {
        opposite(base)
    }
}

/// The cross product of two directions on different axes, computed.
pub fn cross_dir(a: u8, b: u8) -> (c: u8)
    requires
        a < 6,
        b < 6,
        axis_of(a) != axis_of(b),
    ensures
        c == cross(a, b),
        c < 6,
        axis_of(c) != axis_of(a),
        axis_of(c) != axis_of(b),
{
    let i: u8 = a / 2;
    let j: u8 = b / 2;
    let turn: u8 = if (j + 3 - i) % 3 == 1 {
        0
    } else {
        1
    };
    2 * (3 - i - j) + (turn + a % 2 + b % 2) % 2
}

/// `m` lists the images of the six directions under a rotation of the cube:
/// opposite directions go to opposite directions, the images of `+x` and `+y`
/// are perpendicular, and the image of `+z` is their cross product.
pub open spec fn is_rotation(m: Seq<u8>) -> bool {
    &&& m.len() == 6
    &&& m[0] < 6
    &&& m[2] < 6
    &&& m[1] == opposite(m[0])
    &&& m[3] == opposite(m[2])
    &&& m[5] == opposite(m[4])
    &&& axis_of(m[0]) != axis_of(m[2])
    &&& m[4] == cross(m[0], m[2])
}

/// The offset `v` turned by the rotation `m`.
pub open spec fn rotate(m: Seq<u8>, v: Offset) -> Offset {
    Offset::along(m[0], v.dx).plus(Offset::along(m[2], v.dy)).plus(Offset::along(m[4], v.dz))
}

/// The rotation that undoes `m`: it sends `m[d]` back to `d`.
pub open spec fn inverse(m: Seq<u8>) -> Seq<u8> {
    Seq::new(
        6,
        |e: int|
            if m[0] == e {
                0u8
            } else if m[1] == e {
                1u8
            } else if m[2] == e {
                2u8
            } else if m[3] == e {
                3u8
            } else if m[4] == e {
                4u8
            } else {
                5u8
            },
    )
}

/// The identity rotation.
pub open spec fn identity() -> [u8; 6] {
    [0u8, 1u8, 2u8, 3u8, 4u8, 5u8]
}

/// The half turn that is tried first once `from` is known to go to `to`: it
/// exchanges `from` and `to`. For `from == to` it is the identity, and for
/// opposite directions it turns about the lowest of the two other axes.
pub open spec fn pivot_entry(from: u8, to: u8, d: u8) -> u8 {
    if from == to {
        d
    } else if to == opposite(from) {
        let keep: int = if axis_of(from) == 0 {
            1
        } else {
            0
        };
        if axis_of(d) == keep {
            d
        } else {
            opposite(d)
        }
    } else if d == from {
        to
    } else if d == to {
        from
    } else if d == opposite(from) {
        opposite(to)
    } else if d == opposite(to) {
        opposite(from)
    } else {
        opposite(d)
    }
}

/// The images of all six directions under the half turn of `pivot_entry`.
pub open spec fn pivot(from: u8, to: u8) -> [u8; 6] {
    [
        pivot_entry(from, to, 0),
        pivot_entry(from, to, 1),
        pivot_entry(from, to, 2),
        pivot_entry(from, to, 3),
        pivot_entry(from, to, 4),
        pivot_entry(from, to, 5),
    ]
}

/// Image of `d` under the one rotation that sends `from` to `to` and `d1` to
/// `d2`, where `d1` leaves the axis of `from` and `d2` that of `to`.
pub open spec fn through_entry(from: u8, to: u8, d1: u8, d2: u8, d: u8) -> u8 {
    if d == from {
        to
    } else if d == opposite(from) {
        opposite(to)
    } else if d == d1 {
        d2
    } else if d == opposite(d1) {
        opposite(d2)
    } else if d == cross(from, d1) {
        cross(to, d2)
    } else {
        opposite(cross(to, d2))
    }
}

/// The rotation that sends `from` to `to` and `d1` to `d2`.
pub open spec fn rotation_through(from: u8, to: u8, d1: u8, d2: u8) -> [u8; 6] {
    [
        through_entry(from, to, d1, d2, 0),
        through_entry(from, to, d1, d2, 1),
        through_entry(from, to, d1, d2, 2),
        through_entry(from, to, d1, d2, 3),
        through_entry(from, to, d1, d2, 4),
        through_entry(from, to, d1, d2, 5),
    ]
}

/// The images under `pivot(from, to)` of those of `directions` that leave the
/// axis of `from`, in the order of `directions`.
pub open spec fn off_axis_images(from: u8, to: u8, directions: Seq<u8>) -> Seq<u8>
    decreases directions.len(),
{
    if directions.len() == 0 {
        Seq::<u8>::empty()
    } else {
        let rest = off_axis_images(from, to, directions.drop_last());
        let d = directions.last();
        if axis_of(d) == axis_of(from) {
            rest
        } else {
            rest.push(pivot_entry(from, to, d))
        }
    }
}

/// What is known so far of the rotation that carries the first object's
/// directions to the second's.
#[derive(Debug, Copy, Clone, Eq, PartialEq, Hash)]
pub enum AxisMap {
    /// Nothing is fixed.
    Empty,
    /// `from` goes to `to`, and so the opposite of `from` to the opposite of `to`.
    Map1 { from: u8, to: u8 },
    /// All six images are fixed.
    Map2 { map: [u8; 6] },
}

impl AxisMap {
    /// Directions are in range, and a complete map is a rotation.
    pub open spec fn wf(self) -> bool {
        match self {
            AxisMap::Empty => true,
            AxisMap::Map1 { from, to } => from < 6 && to < 6,
            AxisMap::Map2 { map } => is_rotation(map@),
        }
    }

    /// The image of `d` where the map fixes one.
    pub open spec fn image(self, d: u8) -> Option<u8> {
        match self {
            AxisMap::Empty => None,
            AxisMap::Map1 { from, to } => if d == from {
                Some(to)
            } else if d == opposite(from) {
                Some(opposite(to))
            } else {
                None
            },
            AxisMap::Map2 { map } => if d < 6 {
                Some(map@[d as int])
            } else {
                None
            },
        }
    }

    /// The rotation `m` agrees with everything the map has fixed.
    pub open spec fn admits(self, m: Seq<u8>) -> bool {
        is_rotation(m) && match self {
            AxisMap::Empty => true,
            AxisMap::Map1 { from, to } => m[from as int] == to,
            AxisMap::Map2 { map } => m == map@,
        }
    }

    /// Sending `d1` to `d2` does not contradict the map.
    pub open spec fn accepts(self, d1: u8, d2: u8) -> bool {
        match self {
            AxisMap::Empty => true,
            AxisMap::Map1 { from, to } => if axis_of(d1) == axis_of(from) {
                self.image(d1) == Some(d2)
            } else {
                axis_of(d2) != axis_of(to)
            },
            AxisMap::Map2 { map } => map@[d1 as int] == d2,
        }
    }

    /// The map after `d1` has been sent to `d2`.
    pub open spec fn spec_fix(self, d1: u8, d2: u8) -> AxisMap {
        match self {
            AxisMap::Empty => AxisMap::Map1 { from: d1, to: d2 },
            AxisMap::Map1 { from, to } => if axis_of(d1) == axis_of(from) {
                self
            } else {
                AxisMap::Map2 { map: rotation_through(from, to, d1, d2) }
            },
            AxisMap::Map2 { map } => self,
        }
    }

    /// The directions of the second object that `direction` may be sent to,
    /// in the order in which they are tried.
    pub open spec fn spec_map_axis(self, direction: u8, directions: Seq<u8>) -> Seq<u8> {
        match self {
            AxisMap::Empty => directions,
            AxisMap::Map1 { from, to } => if direction == from {
                seq![to]
            } else if direction == opposite(from) {
                seq![opposite(to)]
            } else {
                off_axis_images(from, to, directions)
            },
            AxisMap::Map2 { map } => seq![map@[direction as int]],
        }
    }

    /// The map that fixes nothing.
    pub fn new() -> (r: AxisMap)
        ensures
            r == AxisMap::Empty,
            r.wf(),
    {
        AxisMap::Empty
    }

    /// Records that `d1` goes to `d2`. The first pair fixes one axis, a second
    /// pair off that axis completes the rotation, and a pair that the map has
    /// already fixed changes nothing.
    pub fn fix(self, d1: u8, d2: u8) -> (r: AxisMap)
        requires
            self.wf(),
            d1 < 6,
            d2 < 6,
            self.accepts(d1, d2),
        ensures
            r == self.spec_fix(d1, d2),
            r.wf(),
            r.image(d1) == Some(d2),
    {
        match self {
            AxisMap::Empty => AxisMap::Map1 { from: d1, to: d2 },
            AxisMap::Map1 { from, to } => {
                if from == d1 || from == flip(d1) {
                    AxisMap::Map1 { from, to }
                } else {
                    let map: [u8; 6] = AxisMap::complete(from, to, d1, d2);
                    proof {
                        lemma_rotation_through(from, to, d1, d2);
                    }
                    AxisMap::Map2 { map }
                }
            },
            AxisMap::Map2 { map } => AxisMap::Map2 { map },
        }
    }

    /// Image of `d` under the rotation that sends `from` to `to`, `d1` to `d2`
    /// and their cross product `c1` to `c2`.
    fn complete_entry(from: u8, to: u8, d1: u8, d2: u8, c1: u8, c2: u8, d: u8) -> (e: u8)
        requires
            c1 == cross(from, d1),
            c2 == cross(to, d2),
        ensures
            e == through_entry(from, to, d1, d2, d),
    {
        if d == from {
            to
        } else if d == flip(from) {
            flip(to)
        } else if d == d1 {
            d2
        } else if d == flip(d1) {
            flip(d2)
        } else if d == c1 {
            c2
        } else {
            flip(c2)
        }
    }

    /// Builds the rotation that sends `from` to `to` and `d1` to `d2`: the
    /// third axis follows from the cross products.
    fn complete(from: u8, to: u8, d1: u8, d2: u8) -> (map: [u8; 6])
        requires
            from < 6,
            to < 6,
            d1 < 6,
            d2 < 6,
            axis_of(d1) != axis_of(from),
            axis_of(d2) != axis_of(to),
        ensures
            map == rotation_through(from, to, d1, d2),
    {
        let c1: u8 = cross_dir(from, d1);
        let c2: u8 = cross_dir(to, d2);
        let map: [u8; 6] = [
            AxisMap::complete_entry(from, to, d1, d2, c1, c2, 0),
            AxisMap::complete_entry(from, to, d1, d2, c1, c2, 1),
            AxisMap::complete_entry(from, to, d1, d2, c1, c2, 2),
            AxisMap::complete_entry(from, to, d1, d2, c1, c2, 3),
            AxisMap::complete_entry(from, to, d1, d2, c1, c2, 4),
            AxisMap::complete_entry(from, to, d1, d2, c1, c2, 5),
        ];
        assert(map@ =~= rotation_through(from, to, d1, d2)@);
        map
    }

    /// The half turn of `pivot`, looked up.
    fn pivot_table(from: u8, to: u8) -> (map: [u8; 6])
        requires
            from < 6,
            to < 6,
        ensures
            map == pivot(from, to),
    {
        let map: [u8; 6] = match (from, to) {
            (from, to) if from == to => [0, 1, 2, 3, 4, 5],
            (0, 1) | (1, 0) => [1, 0, 2, 3, 5, 4],
            (0, 2) | (2, 0) => [2, 3, 0, 1, 5, 4],
            (0, 3) | (3, 0) => [3, 2, 1, 0, 5, 4],
            (0, 4) | (4, 0) => [4, 5, 3, 2, 0, 1],
            (0, 5) | (5, 0) => [5, 4, 3, 2, 1, 0],
            (1, 2) | (2, 1) => [3, 2, 1, 0, 5, 4],
            (1, 3) | (3, 1) => [2, 3, 0, 1, 5, 4],
            (1, 4) | (4, 1) => [5, 4, 3, 2, 1, 0],
            (1, 5) | (5, 1) => [4, 5, 3, 2, 0, 1],
            (2, 3) | (3, 2) => [0, 1, 3, 2, 5, 4],
            (2, 4) | (4, 2) => [1, 0, 4, 5, 2, 3],
            (2, 5) | (5, 2) => [1, 0, 5, 4, 3, 2],
            (3, 4) | (4, 3) => [1, 0, 5, 4, 3, 2],
            (3, 5) | (5, 3) => [1, 0, 4, 5, 2, 3],
            _ => [0, 1, 3, 2, 5, 4],
        };
        assert(map@ =~= pivot(from, to)@);
        map
    }

    /// The directions of the second object that `direction` of the first may
    /// be sent to. With nothing fixed these are `directions` as given; on the
    /// fixed axis, or with the rotation complete, it is the one image; off the
    /// fixed axis they are the four directions off the image axis, ordered as
    /// `directions` orders their preimages under the half turn of `pivot`.
    pub fn map_axis(self, direction: u8, directions: [u8; 6]) -> (r: DirList)
        requires
            self.wf(),
            direction < 6,
            forall|i: int| 0 <= i < 6 ==> directions@[i] < 6,
        ensures
            r@ == self.spec_map_axis(direction, directions@),
    {
        let mut r: DirList = DirList::new();
        match self {
            AxisMap::Empty => {
                let mut i: usize = 0;
                while i < 6
                    invariant
                        i <= 6,
                        r@ == directions@.take(i as int),
                    decreases 6 - i,
                {
                    r.push(directions[i]);
                    i += 1;
                    assert(r@ =~= directions@.take(i as int));
                }
                assert(directions@.take(6) =~= directions@);
            },
            AxisMap::Map1 { from, to } => {
                if from == direction {
                    r.push(to);
                    assert(r@ =~= seq![to]);
                } else if from == flip(direction) {
                    r.push(flip(to));
                    assert(r@ =~= seq![opposite(to)]);
                } else {
                    let map: [u8; 6] = AxisMap::pivot_table(from, to);
                    let mut i: usize = 0;
                    while i < 6
                        invariant
                            i <= 6,
                            from < 6,
                            to < 6,
                            map == pivot(from, to),
                            forall|k: int| 0 <= k < 6 ==> directions@[k] < 6,
                            r@ == off_axis_images(from, to, directions@.take(i as int)),
                        decreases 6 - i,
                    {
                        let d: u8 = directions[i];
                        assert(directions@.take(i + 1).drop_last() =~= directions@.take(i as int));
                        if !(d == from || d == flip(from)) {
                            r.push(map[d as usize]);
                        }
                        i += 1;
                    }
                    assert(directions@.take(6) =~= directions@);
                }
            },
            AxisMap::Map2 { map } => {
                r.push(map[direction as usize]);
                assert(r@ =~= seq![map@[direction as int]]);
            },
        }
        r
    }
}

/// `rotation_through` is a rotation with the two images it was made for.
#[verifier::rlimit(100)]
pub proof fn lemma_rotation_through(from: u8, to: u8, d1: u8, d2: u8)
    requires
        from < 6,
        to < 6,
        d1 < 6,
        d2 < 6,
        axis_of(d1) != axis_of(from),
        axis_of(d2) != axis_of(to),
    ensures
        is_rotation(rotation_through(from, to, d1, d2)@),
        rotation_through(from, to, d1, d2)@[from as int] == to,
        rotation_through(from, to, d1, d2)@[d1 as int] == d2,
{
}

/// Every entry of a rotation is a direction, and directions on different
/// axes have images on different axes.
pub proof fn lemma_rotation_entries(m: Seq<u8>)
    requires
        is_rotation(m),
    ensures
        forall|d: int| 0 <= d < 6 ==> #[trigger] m[d] < 6,
        forall|d: int| 0 <= d < 6 ==> m[opposite(d as u8) as int] == opposite(#[trigger] m[d]),
        forall|d: int, e: int|
            0 <= d < 6 && 0 <= e < 6 && d != e ==> #[trigger] m[d] != #[trigger] m[e],
        forall|d: int, e: int|
            0 <= d < 6 && 0 <= e < 6 && d / 2 != e / 2 ==> axis_of(#[trigger] m[d]) != axis_of(
                #[trigger] m[e],
            ),
{
    assert forall|d: int| 0 <= d < 6 implies m[opposite(d as u8) as int] == opposite(
        #[trigger] m[d],
    ) by {
        if d == 0 {
        } else if d == 1 {
        } else if d == 2 {
        } else if d == 3 {
        } else if d == 4 {
        } else {
        }
    }
}

/// A rotation is known once the images of two directions on different axes
/// are known.
pub proof fn lemma_rotation_determined(a: Seq<u8>, b: Seq<u8>, f: u8, g: u8)
    requires
        is_rotation(a),
        is_rotation(b),
        f < 6,
        g < 6,
        axis_of(f) != axis_of(g),
        a[f as int] == b[f as int],
        a[g as int] == b[g as int],
    ensures
        a == b,
{
    lemma_rotation_entries(a);
    lemma_rotation_entries(b);
    lemma_rotation_cross(a, f, g);
    lemma_rotation_cross(b, f, g);
    let h = cross(f, g);
    assert(a[h as int] == b[h as int]);
    assert(a[opposite(f) as int] == b[opposite(f) as int]);
    assert(a[opposite(g) as int] == b[opposite(g) as int]);
    assert(a[opposite(h) as int] == b[opposite(h) as int]);
    assert forall|k: int| 0 <= k < 6 implies a[k] == b[k] by {
        let d = k as u8;
        assert(d == f || d == opposite(f) || d == g || d == opposite(g) || d == h || d
            == opposite(h));
    }
    assert(a =~= b);
}

/// A rotation carries cross products to cross products.
#[verifier::rlimit(100)]
pub proof fn lemma_rotation_cross(m: Seq<u8>, f: u8, g: u8)
    requires
        is_rotation(m),
        f < 6,
        g < 6,
        axis_of(f) != axis_of(g),
    ensures
        m[cross(f, g) as int] == cross(m[f as int], m[g as int]),
{
}

/// Turning an offset that was extended by one step in direction `d` gives the
/// turned offset extended by one step in the image of `d`.
pub proof fn lemma_rotate_step(m: Seq<u8>, v: Offset, d: u8)
    requires
        is_rotation(m),
        d < 6,
    ensures
        rotate(m, v.plus(Offset::unit(d))) == rotate(m, v).plus(Offset::unit(m[d as int])),
        rotate(m, Offset::zero()) == Offset::zero(),
{
}

/// The inverse of a rotation is a rotation, and it undoes the turn.
#[verifier::rlimit(100)]
pub proof fn lemma_inverse(m: Seq<u8>, v: Offset)
    requires
        is_rotation(m),
    ensures
        is_rotation(inverse(m)),
        rotate(inverse(m), rotate(m, v)) == v,
        rotate(m, rotate(inverse(m), v)) == v,
{
}

/// The direction map respects opposites: where `d` has an image, the
/// opposite of `d` has the opposite image.
pub proof fn lemma_image_of_opposite(s: AxisMap, d: u8)
    requires
        s.wf(),
        d < 6,
        s.image(d) is Some,
    ensures
        s.image(opposite(d)) == Some(opposite(s.image(d)->0)),
{
    match s {
        AxisMap::Map2 { map } => {
            lemma_rotation_entries(map@);
        },
        _ => {},
    }
}

/// A direction that the map has fixed is offered exactly its image.
pub proof fn lemma_map_axis_of_fixed(s: AxisMap, d: u8, directions: Seq<u8>)
    requires
        s.wf(),
        d < 6,
        s.image(d) is Some,
    ensures
        s.spec_map_axis(d, directions) == seq![s.image(d)->0],
{
}

/// On a complete map, fixing a direction to its own image changes nothing.
pub proof fn lemma_complete_fix_is_noop(s: AxisMap, d: u8)
    requires
        s.wf(),
        s is Map2,
        d < 6,
    ensures
        s.accepts(d, s.image(d)->0),
        s.spec_fix(d, s.image(d)->0) == s,
{
}

/// Once a pair is fixed it stays fixed: after `fix(d1, d2)` the image of `d1`
/// is `d2`, and every image that the map had before is kept.
pub proof fn lemma_fix_keeps_images(s: AxisMap, d1: u8, d2: u8, a: u8)
    requires
        s.wf(),
        d1 < 6,
        d2 < 6,
        a < 6,
        s.accepts(d1, d2),
    ensures
        s.spec_fix(d1, d2).wf(),
        s.spec_fix(d1, d2).image(d1) == Some(d2),
        s.image(a) is Some ==> s.spec_fix(d1, d2).image(a) == s.image(a),
{
    match s {
        AxisMap::Map1 { from, to } => {
            if axis_of(d1) != axis_of(from) {
                lemma_rotation_through(from, to, d1, d2);
                lemma_rotation_entries(rotation_through(from, to, d1, d2)@);
            }
        },
        AxisMap::Map2 { map } => {
            lemma_rotation_entries(map@);
        },
        _ => {},
    }
}

/// The rotations that the map admits after `fix(d1, d2)` are those that it
/// admitted before and that send `d1` to `d2`.
pub proof fn lemma_fix_refines(s: AxisMap, d1: u8, d2: u8, m: Seq<u8>)
    requires
        s.wf(),
        d1 < 6,
        d2 < 6,
        s.accepts(d1, d2),
    ensures
        s.spec_fix(d1, d2).admits(m) <==> s.admits(m) && m[d1 as int] == d2,
{
    if is_rotation(m) {
        lemma_rotation_entries(m);
        match s {
            AxisMap::Map1 { from, to } => {
                if axis_of(d1) != axis_of(from) {
                    let r = rotation_through(from, to, d1, d2)@;
                    lemma_rotation_through(from, to, d1, d2);
                    if m[from as int] == to && m[d1 as int] == d2 {
                        lemma_rotation_determined(m, r, from, d1);
                    }
                } else {
                    assert(d1 == from || d1 == opposite(from));
                }
            },
            _ => {},
        }
    }
}

/// A well-formed map admits at least one rotation.
pub open spec fn some_rotation(s: AxisMap) -> [u8; 6] {
    match s {
        AxisMap::Empty => identity(),
        AxisMap::Map1 { from, to } => pivot(from, to),
        AxisMap::Map2 { map } => map,
    }
}

/// `some_rotation` is a rotation that the map admits; in particular the half
/// turn `pivot(from, to)` is a rotation that sends `from` to `to`.
#[verifier::rlimit(100)]
pub proof fn lemma_admits_some(s: AxisMap)
    requires
        s.wf(),
    ensures
        s.admits(some_rotation(s)@),
{
}

/// Every direction that `map_axis` offers for `d1` can be fixed as its image.
pub proof fn lemma_candidates_accepted(s: AxisMap, d1: u8, directions: Seq<u8>, i: int)
    requires
        s.wf(),
        d1 < 6,
        forall|k: int| 0 <= k < directions.len() ==> directions[k] < 6,
        0 <= i < s.spec_map_axis(d1, directions).len(),
    ensures
        s.spec_map_axis(d1, directions)[i] < 6,
        s.accepts(d1, s.spec_map_axis(d1, directions)[i]),
{
    match s {
        AxisMap::Empty => {},
        AxisMap::Map1 { from, to } => {
            if d1 == from {
            } else if d1 == opposite(from) {
            } else {
                lemma_off_axis_images(from, to, directions, i);
            }
        },
        AxisMap::Map2 { map } => {
            lemma_rotation_entries(map@);
        },
    }
}

/// The images offered off the fixed axis are directions off the image axis.
pub proof fn lemma_off_axis_images(from: u8, to: u8, directions: Seq<u8>, i: int)
    requires
        from < 6,
        to < 6,
        forall|k: int| 0 <= k < directions.len() ==> directions[k] < 6,
        0 <= i < off_axis_images(from, to, directions).len(),
    ensures
        off_axis_images(from, to, directions)[i] < 6,
        axis_of(off_axis_images(from, to, directions)[i]) != axis_of(to),
    decreases directions.len(),
{
    if directions.len() > 0 {
        let rest = off_axis_images(from, to, directions.drop_last());
        if i < rest.len() {
            lemma_off_axis_images(from, to, directions.drop_last(), i);
        } else {
            let d = directions.last();
            lemma_admits_some(AxisMap::Map1 { from, to });
            lemma_rotation_entries(pivot(from, to)@);
            assert(pivot(from, to)@[d as int] == pivot_entry(from, to, d));
            assert(axis_of(pivot(from, to)@[d as int]) != axis_of(pivot(from, to)@[from as int]));
        }
    }
}

/// What a map accepts after a pair has been fixed, it accepted before.
pub proof fn lemma_accepts_after_fix(s: AxisMap, d1: u8, d2: u8, a: u8, c: u8)
    requires
        s.wf(),
        d1 < 6,
        d2 < 6,
        a < 6,
        c < 6,
        s.accepts(d1, d2),
        s.spec_fix(d1, d2).accepts(a, c),
    ensures
        s.accepts(a, c),
{
    match s {
        AxisMap::Map1 { from, to } => {
            if axis_of(d1) != axis_of(from) {
                lemma_rotation_through(from, to, d1, d2);
                lemma_rotation_entries(rotation_through(from, to, d1, d2)@);
            }
        },
        _ => {},
    }
}

/// The half turn `pivot(from, to)` undoes itself.
proof fn lemma_pivot_twice(from: u8, to: u8, c: u8)
    requires
        from < 6,
        to < 6,
        c < 6,
    ensures
        pivot_entry(from, to, c) < 6,
        pivot_entry(from, to, pivot_entry(from, to, c)) == c,
        axis_of(c) != axis_of(to) ==> axis_of(pivot_entry(from, to, c)) != axis_of(from),
{
}

/// The image of every direction of `directions` that leaves the axis of
/// `from` is among the images offered.
proof fn lemma_off_axis_images_has(from: u8, to: u8, directions: Seq<u8>, d: u8)
    requires
        directions.contains(d),
        axis_of(d) != axis_of(from),
    ensures
        off_axis_images(from, to, directions).contains(pivot_entry(from, to, d)),
    decreases directions.len(),
{
    let all = off_axis_images(from, to, directions);
    let rest = off_axis_images(from, to, directions.drop_last());
    let k = choose|k: int| 0 <= k < directions.len() && directions[k] == d;
    if k == directions.len() - 1 {
        assert(all[all.len() - 1] == pivot_entry(from, to, d));
    } else {
        assert(directions.drop_last()[k] == d);
        lemma_off_axis_images_has(from, to, directions.drop_last(), d);
        let m = choose|m: int| 0 <= m < rest.len() && rest[m] == pivot_entry(from, to, d);
        assert(all[m] == rest[m]);
    }
}

/// Where `directions` holds all six directions, `map_axis` offers every
/// direction that the map accepts as the image.
pub proof fn lemma_candidates_complete(s: AxisMap, d1: u8, directions: Seq<u8>, c: u8)
    requires
        s.wf(),
        d1 < 6,
        c < 6,
        forall|d: u8| d < 6 ==> directions.contains(d),
        s.accepts(d1, c),
    ensures
        s.spec_map_axis(d1, directions).contains(c),
{
    match s {
        AxisMap::Empty => {},
        AxisMap::Map1 { from, to } => {
            if d1 == from || d1 == opposite(from) {
                assert(s.spec_map_axis(d1, directions)[0] == c);
            } else {
                lemma_pivot_twice(from, to, c);
                lemma_off_axis_images_has(from, to, directions, pivot_entry(from, to, c));
            }
        },
        AxisMap::Map2 { map } => {
            assert(s.spec_map_axis(d1, directions)[0] == c);
        },
    }
}

} // verus!
