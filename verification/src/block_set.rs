//! The catalogue of placed blocks: the shared blocks with their voxels in
//! both objects, and the voxels of the blocks that only one object has.

use vstd::prelude::*;
use rand_pcg::Mcg128Xsl64;
use crate::point::Point;
use crate::random::random_below;
use crate::score::{share, share_of, SCORE_UNIT};

verus! {

/// The first id given to a block that only one object has. Shared blocks
/// have smaller ids.
pub const HALF_ID_BASE: u16 = 10000;

/// One shared block: its id and its voxels in the first and in the second
/// object.
pub type SharedBlock = (u16, Vec<Point>, Vec<Point>);

/// A shared block as a mathematical value.
pub type SharedEntry = (u16, Seq<Point>, Seq<Point>);

/// The shared blocks as mathematical values.
pub open spec fn shared_view(s: Seq<SharedBlock>) -> Seq<SharedEntry> {
    Seq::new(s.len(), |i: int| (s[i].0, s[i].1@, s[i].2@))
}

/// The sum of the shares of the shared blocks.
pub open spec fn sum_shares(s: Seq<SharedEntry>) -> nat
    decreases s.len(),
{
    if s.len() == 0 {
        0
    } else {
        sum_shares(s.drop_last()) + share(s.last().1.len())
    }
}

/// The list after the entry at `i` has been replaced by the last entry and
/// the list shortened by one.
pub open spec fn swap_removed(s: Seq<SharedEntry>, i: int) -> Seq<SharedEntry> {
    s.update(i, s.last()).drop_last()
}

/// The first position at or after `from` of a block with at most `th`
/// voxels, or the length of the list if there is none.
pub open spec fn first_small(s: Seq<SharedEntry>, th: nat, from: int) -> int
    decreases s.len() - from,
{
    if from >= s.len() {
        s.len() as int
    } else if s[from].1.len() <= th {
        from
    } else {
        first_small(s, th, from + 1)
    }
}

/// The mathematical content of a `BlockSet`.
#[verifier::ext_equal]
pub struct BlockSetView {
    pub shared: Seq<SharedEntry>,
    pub stock: Seq<u16>,
    pub half1: Seq<Point>,
    pub half2: Seq<Point>,
    pub next_half_id: u16,
}

impl BlockSetView {
    /// Nothing placed, no id given out yet.
    pub open spec fn empty() -> BlockSetView {
        BlockSetView {
            shared: Seq::empty(),
            stock: Seq::empty(),
            half1: Seq::empty(),
            half2: Seq::empty(),
            next_half_id: HALF_ID_BASE,
        }
    }

    /// The id that the next shared block gets: the id freed last, or the
    /// number of shared blocks plus one if no freed id is in stock.
    pub open spec fn next_shared_id(self) -> int {
        if self.stock.len() > 0 {
            self.stock.last() as int
        } else {
            (self.shared.len() + 1) as int
        }
    }

    /// The state after the next shared id has been handed out.
    pub open spec fn without_next_id(self) -> BlockSetView {
        if self.stock.len() > 0 {
            BlockSetView { stock: self.stock.drop_last(), ..self }
        } else {
            self
        }
    }

    /// The state after the shared block at `i` has been taken out and its id
    /// put in stock.
    pub open spec fn pop_shared(self, i: int) -> BlockSetView {
        BlockSetView {
            shared: swap_removed(self.shared, i),
            stock: self.stock.push(self.shared[i].0),
            ..self
        }
    }

    /// The ids of the shared blocks and the ids in stock are, all together,
    /// distinct numbers from 1 to their count, which stays below
    /// `HALF_ID_BASE`; `pending` counts an id that has been handed out for a
    /// block that is not yet pushed.
    pub open spec fn ids_dense(self, pending: Option<u16>) -> bool {
        let n = self.shared.len() + self.stock.len() + if pending is Some {
            1int
        } else {
            0int
        };
        &&& n < HALF_ID_BASE
        &&& forall|i: int| 0 <= i < self.shared.len() ==> 1 <= (#[trigger] self.shared[i]).0 <= n
        &&& forall|j: int| 0 <= j < self.stock.len() ==> 1 <= #[trigger] self.stock[j] <= n
        &&& forall|i: int, k: int|
            0 <= i < k < self.shared.len() ==> (#[trigger] self.shared[i]).0 != (
            #[trigger] self.shared[k]).0
        &&& forall|j: int, k: int|
            0 <= j < k < self.stock.len() ==> #[trigger] self.stock[j] != #[trigger] self.stock[k]
        &&& forall|i: int, j: int|
            0 <= i < self.shared.len() && 0 <= j < self.stock.len() ==> (
            #[trigger] self.shared[i]).0 != #[trigger] self.stock[j]
        &&& match pending {
            Some(id) => {
                &&& 1 <= id <= n
                &&& forall|i: int|
                    0 <= i < self.shared.len() ==> (#[trigger] self.shared[i]).0 != id
                &&& forall|j: int| 0 <= j < self.stock.len() ==> #[trigger] self.stock[j] != id
            },
            None => true,
        }
    }

    /// The ids are dense and the ids of single-object blocks start at
    /// `HALF_ID_BASE`.
    pub open spec fn wf(self) -> bool {
        self.ids_dense(None) && self.next_half_id >= HALF_ID_BASE
    }

    /// Like `wf`, with the id `id` handed out for a shared block that is
    /// still to be pushed.
    pub open spec fn wf_pending(self, id: u16) -> bool {
        self.ids_dense(Some(id)) && self.next_half_id >= HALF_ID_BASE
    }
}

/// The placed blocks of a solution.
#[derive(Clone)]
pub struct BlockSet {
    pub shared: Vec<SharedBlock>,
    pub shared_id_stock: Vec<u16>,
    pub half1: Vec<Point>,
    pub half2: Vec<Point>,
    pub next_half_id: u16,
}

impl View for BlockSet {
    type V = BlockSetView;

    open spec fn view(&self) -> BlockSetView {
        BlockSetView {
            shared: shared_view(self.shared@),
            stock: self.shared_id_stock@,
            half1: self.half1@,
            half2: self.half2@,
            next_half_id: self.next_half_id,
        }
    }
}

impl Default for BlockSet {
    fn default() -> (r: BlockSet)
        ensures
            r@ == BlockSetView::empty(),
    {
        let r = BlockSet {
            shared: Vec::new(),
            shared_id_stock: Vec::new(),
            half1: Vec::new(),
            half2: Vec::new(),
            next_half_id: HALF_ID_BASE,
        };
        assert(r@.shared =~= Seq::empty());
        r
    }
}

impl BlockSet {
    /// The empty catalogue.
    pub fn new() -> (r: BlockSet)
        ensures
            r@ == BlockSetView::empty(),
            r@.wf(),
    {
        let r = BlockSet {
            shared: Vec::new(),
            shared_id_stock: Vec::new(),
            half1: Vec::new(),
            half2: Vec::new(),
            next_half_id: HALF_ID_BASE,
        };
        assert(r@.shared =~= Seq::empty());
        r
    }

    /// Forgets every block and every id.
    pub fn reset(&mut self)
        ensures
            final(self)@ == BlockSetView::empty(),
            final(self)@.wf(),
    {
        self.shared.clear();
        self.shared_id_stock.clear();
        self.half1.clear();
        self.half2.clear();
        self.next_half_id = HALF_ID_BASE;
        assert(self@.shared =~= Seq::empty());
    }

    /// The sum of the shares of the shared blocks.
    pub fn shared_only_score(&self) -> (score: u64)
        requires
            self@.shared.len() < HALF_ID_BASE,
            forall|i: int| 0 <= i < self@.shared.len() ==> (#[trigger] self@.shared[i]).1.len() > 0,
        ensures
            score == sum_shares(self@.shared),
            score <= self@.shared.len() * SCORE_UNIT,
    {
        let mut score: u64 = 0;
        let mut i: usize = 0;
        assert(self@.shared.take(0) =~= Seq::empty());
        while i < self.shared.len()
            invariant
                i <= self.shared@.len(),
                self@.shared.len() == self.shared@.len(),
                self.shared@.len() < HALF_ID_BASE,
                forall|k: int|
                    0 <= k < self@.shared.len() ==> (#[trigger] self@.shared[k]).1.len() > 0,
                score == sum_shares(self@.shared.take(i as int)),
                score <= i * SCORE_UNIT,
            decreases self.shared@.len() - i,
        {
            proof {
                assert(self@.shared.take(i + 1).drop_last() =~= self@.shared.take(i as int));
                assert(self@.shared.take(i + 1).last() == self@.shared[i as int]);
                assert(self@.shared[i as int].1 == self.shared@[i as int].1@);
                assert((i + 1) * SCORE_UNIT == i * SCORE_UNIT + SCORE_UNIT) by (nonlinear_arith);
                assert(i * SCORE_UNIT <= 10000 * SCORE_UNIT) by (nonlinear_arith)
                    requires
                        i <= 10000,
                ;
            }
            score = score + share_of(self.shared[i].1.len());
            i += 1;
        }
        assert(self@.shared.take(self.shared@.len() as int) =~= self@.shared);
        score
    }

    /// Hands out the id for the next shared block: the id that was freed
    /// last, or else the number of shared blocks plus one.
    pub fn gen_shared_block_id(&mut self) -> (id: u16)
        requires
            old(self)@.shared.len() < 0xFFFF,
        ensures
            id == old(self)@.next_shared_id(),
            final(self)@ == old(self)@.without_next_id(),
            old(self)@.wf() && old(self)@.shared.len() + old(self)@.stock.len() + 1 < HALF_ID_BASE
                ==> final(self)@.wf_pending(id),
    {
        let ghost before = self@;
        let r = self.shared_id_stock.pop();
        let id: u16 = match r {
            Some(id) => id,
            None => (self.shared.len() + 1) as u16,
        };
        proof {
            if before.wf() && before.shared.len() + before.stock.len() + 1 < HALF_ID_BASE {
                let after = self@;
                assert(after.shared == before.shared);
                if before.stock.len() > 0 {
                    assert(id == before.stock[before.stock.len() - 1]);
                    assert forall|j: int| 0 <= j < after.stock.len() implies #[trigger] after.stock[j]
                        != id by {
                        assert(after.stock[j] == before.stock[j]);
                    }
                }
                assert(after.ids_dense(Some(id)));
            }
        }
        id
    }

    /// Hands out the id for the next block that only one object has.
    pub fn gen_half_block_id(&mut self) -> (id: u16)
        requires
            old(self).next_half_id < 0xFFFF,
        ensures
            id == old(self).next_half_id,
            final(self)@ == (BlockSetView { next_half_id: (id + 1) as u16, ..old(self)@ }),
    {
        let id: u16 = self.next_half_id;
        self.next_half_id += 1;
        id
    }

    /// Adds a shared block with its voxels in both objects.
    pub fn push_shared(&mut self, block_id: u16, p1: Vec<Point>, p2: Vec<Point>)
        ensures
            final(self)@ == (BlockSetView {
                shared: old(self)@.shared.push((block_id, p1@, p2@)),
                ..old(self)@
            }),
            old(self)@.wf_pending(block_id) ==> final(self)@.wf(),
    {
        let ghost before = self@;
        self.shared.push((block_id, p1, p2));
        proof {
            assert(self@.shared =~= before.shared.push((block_id, p1@, p2@)));
            if before.wf_pending(block_id) {
                assert(self@.ids_dense(None));
            }
        }
    }

    /// Takes the shared block at `i` out, puts its id in stock and returns
    /// its voxels in both objects. The last block takes the place of the one
    /// removed.
    pub fn pop_shared(&mut self, i: usize) -> (r: (Vec<Point>, Vec<Point>))
        requires
            i < old(self)@.shared.len(),
        ensures
            r.0@ == old(self)@.shared[i as int].1,
            r.1@ == old(self)@.shared[i as int].2,
            final(self)@ == old(self)@.pop_shared(i as int),
            old(self)@.wf() ==> final(self)@.wf(),
    {
        let ghost before = self@;
        let (id, s1, s2) = self.shared.swap_remove(i);
        self.shared_id_stock.push(id);
        proof {
            assert(self@.shared =~= swap_removed(before.shared, i as int));
            if before.wf() {
                let after = self@;
                assert forall|a: int, k: int| 0 <= a < k < after.shared.len() implies (
                #[trigger] after.shared[a]).0 != (#[trigger] after.shared[k]).0 by {
                    let b1 = if a == i {
                        before.shared.len() - 1
                    } else {
                        a
                    };
                    let b2 = if k == i {
                        before.shared.len() - 1
                    } else {
                        k
                    };
                    assert(before.shared[b1] == after.shared[a]);
                    assert(before.shared[b2] == after.shared[k]);
                }
                assert forall|a: int| 0 <= a < after.shared.len() implies 1 <= (
                #[trigger] after.shared[a]).0 <= after.shared.len() + after.stock.len() && after.shared[a].0 != id by {
                    let b = if a == i {
                        before.shared.len() - 1
                    } else {
                        a
                    };
                    assert(before.shared[b] == after.shared[a]);
                    assert(before.shared[i as int].0 == id);
                }
                assert forall|j: int, k: int| 0 <= j < k < after.stock.len() implies #[trigger] after.stock[j]
                    != #[trigger] after.stock[k] by {
                    assert(before.shared[i as int].0 == id);
                    if k < before.stock.len() {
                        assert(after.stock[j] == before.stock[j]);
                        assert(after.stock[k] == before.stock[k]);
                    } else {
                        assert(after.stock[j] == before.stock[j]);
                    }
                }
                assert forall|a: int, j: int|
                    0 <= a < after.shared.len() && 0 <= j < after.stock.len() implies (
                #[trigger] after.shared[a]).0 != #[trigger] after.stock[j] by {
                    let b = if a == i {
                        before.shared.len() - 1
                    } else {
                        a
                    };
                    assert(before.shared[b] == after.shared[a]);
                    if j < before.stock.len() {
                        assert(after.stock[j] == before.stock[j]);
                    }
                }
                assert forall|j: int| 0 <= j < after.stock.len() implies 1 <= #[trigger] after.stock[j]
                    <= after.shared.len() + after.stock.len() by {
                    assert(before.shared[i as int].0 == id);
                    if j < before.stock.len() {
                        assert(after.stock[j] == before.stock[j]);
                    }
                }
                assert(after.ids_dense(None));
            }
        }
        (s1, s2)
    }

    /// Takes a random shared block out and returns its voxels.
    pub fn pop_random(&mut self, rng: &mut Mcg128Xsl64) -> (r: (Vec<Point>, Vec<Point>))
        requires
            old(self)@.shared.len() > 0,
        ensures
            exists|i: int|
                0 <= i < old(self)@.shared.len() && r.0@ == (#[trigger] old(self)@.shared[i]).1
                    && r.1@ == old(self)@.shared[i].2 && final(self)@ == old(self)@.pop_shared(i),
            old(self)@.wf() ==> final(self)@.wf(),
    {
        let i: usize = random_below(rng, self.shared.len());
        self.pop_shared(i)
    }

    /// Takes out the first shared block with at most `th` voxels and returns
    /// its voxels, if there is one.
    pub fn pop_small(&mut self, th: usize) -> (r: Option<(Vec<Point>, Vec<Point>)>)
        ensures
            ({
                let i = first_small(old(self)@.shared, th as nat, 0);
                if i < old(self)@.shared.len() {
                    &&& r matches Some(pair)
                    &&& pair.0@ == old(self)@.shared[i].1
                    &&& pair.1@ == old(self)@.shared[i].2
                    &&& final(self)@ == old(self)@.pop_shared(i)
                } else {
                    r is None && final(self)@ == old(self)@
                }
            }),
            old(self)@.wf() ==> final(self)@.wf(),
    {
        let mut i: usize = 0;
        while i < self.shared.len()
            invariant
                i <= self.shared@.len(),
                *self == *old(self),
                first_small(self@.shared, th as nat, 0) == first_small(
                    self@.shared,
                    th as nat,
                    i as int,
                ),
            decreases self.shared@.len() - i,
        {
            assert(self@.shared[i as int].1 == self.shared@[i as int].1@);
            if self.shared[i].1.len() <= th {
                return Some(self.pop_shared(i));
            }
            i += 1;
        }
        None
    }

    /// Records voxel `p` of a block that only the first object (`place` 1)
    /// or only the second object (any other `place`) has.
    pub fn push_half(&mut self, place: u8, p: Point)
        ensures
            place == 1 ==> final(self)@ == (BlockSetView {
                half1: old(self)@.half1.push(p),
                ..old(self)@
            }),
            place != 1 ==> final(self)@ == (BlockSetView {
                half2: old(self)@.half2.push(p),
                ..old(self)@
            }),
    {
        if place == 1 {
            self.half1.push(p);
        } else {
            self.half2.push(p);
        }
    }

    /// Forgets the blocks that only one object has and starts their ids
    /// again at `HALF_ID_BASE`.
    pub fn half_reset(&mut self)
        ensures
            final(self)@ == (BlockSetView {
                half1: Seq::empty(),
                half2: Seq::empty(),
                next_half_id: HALF_ID_BASE,
                ..old(self)@
            }),
    {
        self.half1.clear();
        self.half2.clear();
        self.next_half_id = HALF_ID_BASE;
    }
}

} // verus!
