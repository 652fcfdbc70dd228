//! Small inline buffers backed by `smallvec`.
//!
//! Each buffer wraps a `SmallVec`, which the verifier cannot look into. What
//! a buffer holds is therefore a name without a definition, and the
//! functions that call `SmallVec` carry contracts over that name which are
//! taken on trust: they restate what the method of `SmallVec` does to the
//! items, as a `Vec` would do it.

use vstd::prelude::*;
use rand::seq::SliceRandom;
use rand_pcg::Mcg128Xsl64;
use smallvec::SmallVec;
use crate::point::Point;

verus! {

/// A short list of directions, kept inline for up to six entries.
#[verifier::external_body]
pub struct DirList {
    inner: SmallVec<[u8; 6]>,
}

/// The directions that a `DirList` holds, first to last.
pub uninterp spec fn dir_list_items(list: DirList) -> Seq<u8>;

impl View for DirList {
    type V = Seq<u8>;

    open spec fn view(&self) -> Seq<u8> {
        dir_list_items(*self)
    }
}

impl DirList {
    /// `SmallVec::new`: a fresh buffer holds nothing.
    #[verifier::external_body]
    pub(crate) fn new() -> (list: DirList)
        ensures
            dir_list_items(list) == Seq::<u8>::empty(),
    {
        DirList { inner: SmallVec::new() }
    }

    /// `SmallVec::push`: the value is appended behind the items already held.
    #[verifier::external_body]
    pub(crate) fn push(&mut self, dir: u8)
        ensures
            dir_list_items(*final(self)) == dir_list_items(*old(self)).push(dir),
    {
        self.inner.push(dir)
    }

    /// `SmallVec::len`: the number of items held.
    #[verifier::external_body]
    pub(crate) fn len(&self) -> (n: usize)
        ensures
            n == dir_list_items(*self).len(),
    {
        self.inner.len()
    }

    /// Indexing a `SmallVec`: the item at position `i`.
    #[verifier::external_body]
    pub(crate) fn at(&self, i: usize) -> (dir: u8)
        requires
            i < dir_list_items(*self).len(),
        ensures
            dir == dir_list_items(*self)[i as int],
    {
        self.inner[i]
    }

    /// The directions as a vector, in order.
    pub fn to_vec(&self) -> (v: Vec<u8>)
        ensures
            v@ == self@,
    {
        let mut v: Vec<u8> = Vec::new();
        let n: usize = self.len();
        let mut i: usize = 0;
        while i < n
            invariant
                n == self@.len(),
                i <= n,
                v@ == self@.take(i as int),
            decreases n - i,
        {
            v.push(self.at(i));
            i += 1;
            assert(v@ =~= self@.take(i as int));
        }
        assert(self@.take(n as int) =~= self@);
        v
    }
}

/// A list of voxels, kept inline for up to 128 entries.
#[verifier::external_body]
pub struct PointList {
    inner: SmallVec<[Point; 128]>,
}

/// The voxels that a `PointList` holds, first to last.
pub uninterp spec fn point_list_items(list: PointList) -> Seq<Point>;

impl View for PointList {
    type V = Seq<Point>;

    open spec fn view(&self) -> Seq<Point> {
        point_list_items(*self)
    }
}

impl PointList {
    /// `SmallVec::new`: a fresh buffer holds nothing.
    #[verifier::external_body]
    pub(crate) fn new() -> (list: PointList)
        ensures
            point_list_items(list) == Seq::<Point>::empty(),
    {
        PointList { inner: SmallVec::new() }
    }

    /// `SmallVec::push`: the value is appended behind the items already held.
    #[verifier::external_body]
    pub(crate) fn push(&mut self, p: Point)
        ensures
            point_list_items(*final(self)) == point_list_items(*old(self)).push(p),
    {
        self.inner.push(p)
    }

    /// `SmallVec::len`: the number of items held.
    #[verifier::external_body]
    pub(crate) fn len(&self) -> (n: usize)
        ensures
            n == point_list_items(*self).len(),
    {
        self.inner.len()
    }

    /// Indexing a `SmallVec`: the item at position `i`.
    #[verifier::external_body]
    pub(crate) fn at(&self, i: usize) -> (p: Point)
        requires
            i < point_list_items(*self).len(),
        ensures
            p == point_list_items(*self)[i as int],
    {
        self.inner[i]
    }

    /// `SliceRandom::choose` on the items: one of them, picked by `rng`, or
    /// nothing if there is none.
    #[verifier::external_body]
    pub(crate) fn pick(&self, rng: &mut Mcg128Xsl64) -> (r: Option<Point>)
        ensures
            r is None <==> point_list_items(*self).len() == 0,
            r is Some ==> point_list_items(*self).contains(r->0),
    {
        self.inner.choose(rng).copied()
    }

    /// Whether the list holds nothing.
    pub fn is_empty(&self) -> (b: bool)
        ensures
            b == (self@.len() == 0),
    {
        self.len() == 0
    }

    /// The voxels as a vector, in order.
    pub fn to_vec(&self) -> (v: Vec<Point>)
        ensures
            v@ == self@,
    {
        let mut v: Vec<Point> = Vec::new();
        let n: usize = self.len();
        let mut i: usize = 0;
        while i < n
            invariant
                n == self@.len(),
                i <= n,
                v@ == self@.take(i as int),
            decreases n - i,
        {
            v.push(self.at(i));
            i += 1;
            assert(v@ =~= self@.take(i as int));
        }
        assert(self@.take(n as int) =~= self@);
        v
    }
}

/// A stack of voxel pairs, one voxel of each object, kept inline for up to
/// 32 entries.
#[verifier::external_body]
pub struct PairStack {
    inner: SmallVec<[(Point, Point); 32]>,
}

/// The pairs that a `PairStack` holds, bottom to top.
pub uninterp spec fn pair_stack_items(stack: PairStack) -> Seq<(Point, Point)>;

impl View for PairStack {
    type V = Seq<(Point, Point)>;

    open spec fn view(&self) -> Seq<(Point, Point)> {
        pair_stack_items(*self)
    }
}

impl PairStack {
    /// `SmallVec::new`: a fresh buffer holds nothing.
    #[verifier::external_body]
    pub(crate) fn new() -> (stack: PairStack)
        ensures
            pair_stack_items(stack) == Seq::<(Point, Point)>::empty(),
    {
        PairStack { inner: SmallVec::new() }
    }

    /// `SmallVec::push`: the pair is put on top.
    #[verifier::external_body]
    pub(crate) fn push(&mut self, pair: (Point, Point))
        ensures
            pair_stack_items(*final(self)) == pair_stack_items(*old(self)).push(pair),
    {
        self.inner.push(pair)
    }

    /// `SmallVec::pop`: the top pair is taken off and returned, or nothing if
    /// the stack is empty.
    #[verifier::external_body]
    pub(crate) fn pop(&mut self) -> (r: Option<(Point, Point)>)
        ensures
            pair_stack_items(*old(self)).len() == 0 ==> r is None && pair_stack_items(*final(self))
                == pair_stack_items(*old(self)),
            pair_stack_items(*old(self)).len() > 0 ==> r == Some(
                pair_stack_items(*old(self)).last(),
            ) && pair_stack_items(*final(self)) == pair_stack_items(*old(self)).drop_last(),
    {
        self.inner.pop()
    }
}

} // verus!
