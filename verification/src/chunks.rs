//! Splitting a run of blocks into full lane groups and a tail.
use vstd::prelude::*;
use crate::buffer::{Block, InOutBuf};

verus! {

/// The number of full groups of `lane` blocks in a run of `n` blocks.
pub open spec fn full_groups(n: int, lane: int) -> int
    recommends
        lane >= 1,
{
    n / lane
}

/// The number of blocks left over after the full groups.
pub open spec fn tail_len(n: int, lane: int) -> int
    recommends
        lane >= 1,
{
    n % lane
}

/// Group `k` of a run: `lane` consecutive elements from position `k * lane`.
pub open spec fn group_of<T>(run: Seq<T>, lane: int, k: int) -> Seq<T> {
    run.subrange(k * lane, k * lane + lane)
}

/// What follows the last full group.
pub open spec fn tail_of<T>(run: Seq<T>, lane: int) -> Seq<T> {
    run.subrange(full_groups(run.len() as int, lane) * lane, run.len() as int)
}

/// The first `k` groups of a run, one after the other.
pub open spec fn groups_joined<T>(run: Seq<T>, lane: int, k: int) -> Seq<T>
    decreases k,
{
    if k <= 0 {
        Seq::empty()
    } else {
        groups_joined(run, lane, k - 1) + group_of(run, lane, k - 1)
    }
}

/// The partition of `n` blocks for lane width `lane`: the count of full
/// groups and the length of the tail, which is shorter than a lane group.
pub fn chunk_partition(n: usize, lane: usize) -> (r: (usize, usize))
    requires
        lane >= 1,
    ensures
        r.0 == full_groups(n as int, lane as int),
        r.1 == tail_len(n as int, lane as int),
        r.0 * lane + r.1 == n,
        r.1 < lane,
{
    proof {
        vstd::arithmetic::div_mod::lemma_fundamental_div_mod(n as int, lane as int);
        vstd::arithmetic::div_mod::lemma_mod_bound(n as int, lane as int);
        assert((n as int / lane as int) * lane == lane * (n as int / lane as int))
            by (nonlinear_arith);
    }
    (n / lane, n % lane)
}

/// Position arithmetic of the partition: every full group lies inside the
/// run, and the groups end where the tail begins.
pub proof fn lemma_group_bounds(n: int, lane: int, k: int)
    requires
        n >= 0,
        lane >= 1,
        0 <= k < full_groups(n, lane),
    ensures
        k * lane + lane <= full_groups(n, lane) * lane,
        full_groups(n, lane) * lane + tail_len(n, lane) == n,
        tail_len(n, lane) < lane,
{
    vstd::arithmetic::div_mod::lemma_fundamental_div_mod(n, lane);
    vstd::arithmetic::div_mod::lemma_mod_bound(n, lane);
    assert((k + 1) * lane <= (n / lane) * lane) by (nonlinear_arith)
        requires
            k + 1 <= n / lane,
            lane >= 1,
    ;
    assert((k + 1) * lane == k * lane + lane) by (nonlinear_arith);
    assert((n / lane) * lane == lane * (n / lane)) by (nonlinear_arith);
}

/// Joining the first `k` groups gives the first `k * lane` elements.
pub proof fn lemma_groups_joined_prefix<T>(run: Seq<T>, lane: int, k: int)
    requires
        lane >= 1,
        0 <= k <= full_groups(run.len() as int, lane),
    ensures
        k * lane <= run.len(),
        groups_joined(run, lane, k) == run.subrange(0, k * lane),
    decreases k,
{
    vstd::arithmetic::div_mod::lemma_fundamental_div_mod(run.len() as int, lane);
    vstd::arithmetic::div_mod::lemma_mod_bound(run.len() as int, lane);
    let n = run.len() as int;
    assert(k * lane <= (n / lane) * lane) by (nonlinear_arith)
        requires
            k <= n / lane,
            lane >= 1,
    ;
    assert((n / lane) * lane == lane * (n / lane)) by (nonlinear_arith);
    if k == 0 {
        assert(k * lane == 0) by (nonlinear_arith)
            requires
                k == 0,
        ;
        assert(run.subrange(0, 0) =~= Seq::<T>::empty());
    } else {
        lemma_groups_joined_prefix(run, lane, k - 1);
        assert((k - 1) * lane + lane == k * lane) by (nonlinear_arith);
        assert(0 <= (k - 1) * lane) by (nonlinear_arith)
            requires
                k >= 1,
                lane >= 1,
        ;
        assert(group_of(run, lane, k - 1) == run.subrange((k - 1) * lane, k * lane));
        assert(run.subrange(0, (k - 1) * lane) + run.subrange((k - 1) * lane, k * lane)
            =~= run.subrange(0, k * lane));
    }
}

/// The full groups in order, followed by the tail, are the run itself:
/// grouping reorders nothing and loses nothing.
pub proof fn lemma_chunks_cover<T>(run: Seq<T>, lane: int)
    requires
        lane >= 1,
    ensures
        groups_joined(run, lane, full_groups(run.len() as int, lane)) + tail_of(run, lane) == run,
        tail_of(run, lane).len() == tail_len(run.len() as int, lane),
        tail_of(run, lane).len() < lane,
{
    let g = full_groups(run.len() as int, lane);
    lemma_groups_joined_prefix(run, lane, g);
    vstd::arithmetic::div_mod::lemma_fundamental_div_mod(run.len() as int, lane);
    vstd::arithmetic::div_mod::lemma_mod_bound(run.len() as int, lane);
    let n = run.len() as int;
    assert((n / lane) * lane == lane * (n / lane)) by (nonlinear_arith);
    assert(run.subrange(0, g * lane) + run.subrange(g * lane, run.len() as int) =~= run);
}

impl<'a> InOutBuf<'a, Block> {
    /// Splits the view into its full groups of `lane` pairs, in order, and
    /// the tail that is left over.
    pub fn into_chunks(self, lane: usize) -> (r: (Vec<InOutBuf<'a, Block>>, InOutBuf<'a, Block>))
        requires
            self.wf(),
            lane >= 1,
        ensures
            r.0@.len() == full_groups(self.in_seq().len() as int, lane as int),
            forall|k: int|
                0 <= k < r.0@.len() ==> {
                    &&& (#[trigger] r.0@[k]).wf()
                    &&& r.0@[k].is_in_place() == self.is_in_place()
                    &&& r.0@[k].in_seq() == group_of(self.in_seq(), lane as int, k)
                    &&& r.0@[k].out_seq() == group_of(self.out_seq(), lane as int, k)
                },
            r.1.wf(),
            r.1.is_in_place() == self.is_in_place(),
            r.1.in_seq() == tail_of(self.in_seq(), lane as int),
            r.1.out_seq() == tail_of(self.out_seq(), lane as int),
    {
        let mut rest = self;
        let n: usize = rest.len();
        let (groups, tail) = chunk_partition(n, lane);
        let mut chunks: Vec<InOutBuf<'a, Block>> = Vec::new();
        let mut k: usize = 0;
        proof {
            self.lemma_sides();
        }
        while k < groups
            invariant
                k <= groups,
                lane >= 1,
                groups * lane + tail == n,
                groups == full_groups(n as int, lane as int),
                n == self.in_seq().len(),
                n == self.out_seq().len(),
                rest.wf(),
                rest.is_in_place() == self.is_in_place(),
                rest.in_seq().len() == n,
                rest.out_seq().len() == n,
                chunks@.len() == k,
                forall|j: int| k * lane <= j < n ==> rest.out_seq()[j] == self.out_seq()[j],
                forall|j: int| k * lane <= j < n ==> rest.in_seq()[j] == self.in_seq()[j],
                forall|i: int|
                    0 <= i < k ==> {
                        &&& (#[trigger] chunks@[i]).wf()
                        &&& chunks@[i].is_in_place() == self.is_in_place()
                        &&& chunks@[i].in_seq() == group_of(self.in_seq(), lane as int, i)
                        &&& chunks@[i].out_seq() == group_of(self.out_seq(), lane as int, i)
                    },
            decreases groups - k,
        {
            proof {
                assert(k * lane + lane <= groups * lane) by (nonlinear_arith)
                    requires
                        k + 1 <= groups,
                        lane >= 1,
                ;
                assert((k + 1) * lane == k * lane + lane) by (nonlinear_arith);
                rest.lemma_sides();
            }
            let chunk = rest.take_chunk(k * lane, lane);
            proof {
                rest.lemma_sides();
                assert(chunk.in_seq() =~= group_of(self.in_seq(), lane as int, k as int));
                assert(chunk.out_seq() =~= group_of(self.out_seq(), lane as int, k as int));
            }
            chunks.push(chunk);
            k += 1;
        }
        proof {
            rest.lemma_sides();
        }
        let last = rest.take_chunk(groups * lane, tail);
        proof {
            assert(last.in_seq() =~= tail_of(self.in_seq(), lane as int));
            assert(last.out_seq() =~= tail_of(self.out_seq(), lane as int));
        }
        (chunks, last)
    }
}

} // verus!
