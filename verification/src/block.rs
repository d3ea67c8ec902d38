//! Block-cipher traits: backends that transform blocks, closures that say
//! which blocks to transform, and the encryption and decryption surfaces
//! built from the two.
use vstd::prelude::*;
use crate::buffer::{all_sized, check_lengths, rows, Block, InOut, InOutBuf};
use crate::errors::LengthMismatch;
use crate::chunks::{
    chunk_partition, full_groups, group_of, lemma_group_bounds, lemma_groups_joined_prefix, tail_of,
};
use crate::sizes::{BlockSizeUser, ParBlocksSizeUser};

verus! {

/// Marker for block ciphers.
pub trait BlockCipher: BlockSizeUser {

}

/// The mathematical model of a backend: what it writes for a block, and
/// the state it is in afterwards.
pub trait BlockTransform: Sized {
    /// The block that is written for `input` in this state.
    spec fn block_output(&self, input: Seq<u8>) -> Seq<u8>;

    /// The state that transforming `input` leaves.
    spec fn block_next(&self, input: Seq<u8>) -> Self;
}

/// How blocks are transformed: one at a time, and optionally a whole lane
/// group at once.
pub trait BlockBackend: ParBlocksSizeUser + BlockTransform {
    /// Transforms one block: reads the input side of `block` and writes
    /// the output side.
    fn proc_block(&mut self, block: &mut InOut<'_, Block>)
        requires
            old(block).in_val()@.len() == old(self).spec_block_size(),
        ensures
            final(block).out_val()@ == old(self).block_output(old(block).in_val()@),
            final(block).out_val()@.len() == old(self).spec_block_size(),
            final(block).is_in_place() == old(block).is_in_place(),
            !old(block).is_in_place() ==> final(block).in_val() == old(block).in_val(),
            *final(self) == old(self).block_next(old(block).in_val()@),
            final(self).spec_block_size() == old(self).spec_block_size(),
            final(self).spec_par_blocks_size() == old(self).spec_par_blocks_size(),
    ;

    /// Transforms every block of `blocks` with `proc_block`, in order.
    fn proc_each_block(&mut self, blocks: &mut InOutBuf<'_, Block>)
        requires
            old(blocks).wf(),
            all_sized(old(blocks).in_blocks(), old(self).spec_block_size()),
        ensures
            final(blocks).wf(),
            final(blocks).is_in_place() == old(blocks).is_in_place(),
            !old(blocks).is_in_place() ==> final(blocks).in_seq() == old(blocks).in_seq(),
            final(blocks).out_blocks() == run_outputs(*old(self), old(blocks).in_blocks()),
            all_sized(final(blocks).out_blocks(), old(self).spec_block_size()),
            *final(self) == state_after(*old(self), old(blocks).in_blocks()),
            final(self).spec_block_size() == old(self).spec_block_size(),
            final(self).spec_par_blocks_size() == old(self).spec_par_blocks_size(),
    {
        let ghost inputs = blocks.in_blocks();
        let ghost start = *self;
        let n: usize = blocks.len();
        let mut i: usize = 0;
        proof {
            assert(inputs.take(0) =~= Seq::<Seq<u8>>::empty());
        }
        while i < n
            invariant
                i <= n,
                n == inputs.len(),
                inputs == old(blocks).in_blocks(),
                start == *old(self),
                all_sized(inputs, start.spec_block_size()),
                blocks.wf(),
                blocks.is_in_place() == old(blocks).is_in_place(),
                !blocks.is_in_place() ==> blocks.in_seq() == old(blocks).in_seq(),
                blocks.out_seq().len() == n,
                blocks.in_seq().len() == n,
                *self == state_after(start, inputs.take(i as int)),
                self.spec_block_size() == start.spec_block_size(),
                self.spec_par_blocks_size() == start.spec_par_blocks_size(),
                forall|j: int| 0 <= j < i ==>
                    (#[trigger] blocks.out_seq()[j])@ == run_outputs(start, inputs)[j],
                forall|j: int| 0 <= j < i ==>
                    (#[trigger] blocks.out_seq()[j])@.len() == start.spec_block_size(),
                forall|j: int| i <= j < n ==> (#[trigger] blocks.in_seq()[j])@ == inputs[j],
            decreases n - i,
        {
            let ghost before = *blocks;
            proof {
                before.lemma_sides();
            }
            let mut pair = blocks.take_block(i);
            let ghost taken = *blocks;
            self.proc_block(&mut pair);
            blocks.put_block(i, pair);
            proof {
                taken.lemma_sides();
                blocks.lemma_sides();
                assert(inputs.take(i + 1).drop_last() =~= inputs.take(i as int));
                assert(inputs.take(i + 1).last() == inputs[i as int]);
            }
            i += 1;
        }
        proof {
            assert(inputs.take(n as int) =~= inputs);
            assert(blocks.out_blocks() =~= run_outputs(start, inputs));
        }
    }

    /// Transforms one full lane group. The result is that of `proc_block`
    /// on each block in order; an override may only be faster.
    fn proc_par_blocks(&mut self, blocks: &mut InOutBuf<'_, Block>)
        requires
            old(blocks).wf(),
            old(blocks).in_seq().len() == old(self).spec_par_blocks_size(),
            all_sized(old(blocks).in_blocks(), old(self).spec_block_size()),
        ensures
            final(blocks).wf(),
            final(blocks).is_in_place() == old(blocks).is_in_place(),
            !old(blocks).is_in_place() ==> final(blocks).in_seq() == old(blocks).in_seq(),
            final(blocks).out_blocks() == run_outputs(*old(self), old(blocks).in_blocks()),
            all_sized(final(blocks).out_blocks(), old(self).spec_block_size()),
            *final(self) == state_after(*old(self), old(blocks).in_blocks()),
            final(self).spec_block_size() == old(self).spec_block_size(),
            final(self).spec_par_blocks_size() == old(self).spec_par_blocks_size(),
    {
        self.proc_each_block(blocks);
    }

    /// Transforms a tail: a run shorter than one lane group, block by
    /// block in order.
    fn proc_tail_blocks(&mut self, blocks: &mut InOutBuf<'_, Block>)
        requires
            old(blocks).wf(),
            old(blocks).in_seq().len() < old(self).spec_par_blocks_size(),
            all_sized(old(blocks).in_blocks(), old(self).spec_block_size()),
        ensures
            final(blocks).wf(),
            final(blocks).is_in_place() == old(blocks).is_in_place(),
            !old(blocks).is_in_place() ==> final(blocks).in_seq() == old(blocks).in_seq(),
            final(blocks).out_blocks() == run_outputs(*old(self), old(blocks).in_blocks()),
            all_sized(final(blocks).out_blocks(), old(self).spec_block_size()),
            *final(self) == state_after(*old(self), old(blocks).in_blocks()),
            final(self).spec_block_size() == old(self).spec_block_size(),
            final(self).spec_par_blocks_size() == old(self).spec_par_blocks_size(),
    {
        self.proc_each_block(blocks);
    }
}

/// The state of `backend` after it has transformed `inputs` one block at a
/// time, in order.
pub open spec fn state_after<B: BlockTransform>(backend: B, inputs: Seq<Seq<u8>>) -> B
    decreases inputs.len(),
{
    if inputs.len() == 0 {
        backend
    } else {
        state_after(backend, inputs.drop_last()).block_next(inputs.last())
    }
}

/// What `backend` writes for `inputs` when it transforms them one block at
/// a time, in order: block `i` is transformed in the state that the blocks
/// before it have left.
pub open spec fn run_outputs<B: BlockTransform>(backend: B, inputs: Seq<Seq<u8>>) -> Seq<Seq<u8>> {
    Seq::new(
        inputs.len(),
        |i: int| state_after(backend, inputs.take(i)).block_output(inputs[i]),
    )
}

/// Transforming `xs` and then `ys` leaves the state of transforming
/// `xs + ys`.
pub proof fn lemma_state_after_concat<B: BlockTransform>(backend: B, xs: Seq<Seq<u8>>, ys: Seq<Seq<u8>>)
    ensures
        state_after(backend, xs + ys) == state_after(state_after(backend, xs), ys),
    decreases ys.len(),
{
    if ys.len() == 0 {
        assert(xs + ys =~= xs);
    } else {
        lemma_state_after_concat(backend, xs, ys.drop_last());
        assert((xs + ys).drop_last() =~= xs + ys.drop_last());
        assert((xs + ys).last() == ys.last());
    }
}

/// A run may be cut anywhere: the outputs of `xs + ys` are those of `xs`
/// followed by those of `ys` from the state that `xs` has left.
pub proof fn lemma_run_outputs_concat<B: BlockTransform>(backend: B, xs: Seq<Seq<u8>>, ys: Seq<Seq<u8>>)
    ensures
        run_outputs(backend, xs + ys) == run_outputs(backend, xs) + run_outputs(
            state_after(backend, xs),
            ys,
        ),
{
    let whole = run_outputs(backend, xs + ys);
    let parts = run_outputs(backend, xs) + run_outputs(state_after(backend, xs), ys);
    assert(whole.len() == parts.len());
    assert forall|i: int| 0 <= i < whole.len() implies whole[i] == parts[i] by {
        if i < xs.len() {
            assert((xs + ys).take(i) =~= xs.take(i));
        } else {
            let j = i - xs.len();
            assert((xs + ys).take(i) =~= xs + ys.take(j));
            lemma_state_after_concat(backend, xs, ys.take(j));
        }
    }
    assert(whole =~= parts);
}

/// The outputs of a prefix of a run are a prefix of the outputs of the
/// run.
pub proof fn lemma_run_outputs_prefix<B: BlockTransform>(backend: B, inputs: Seq<Seq<u8>>, m: int)
    requires
        0 <= m <= inputs.len(),
    ensures
        run_outputs(backend, inputs.take(m)) == run_outputs(backend, inputs).take(m),
{
    let short = run_outputs(backend, inputs.take(m));
    let long = run_outputs(backend, inputs).take(m);
    assert forall|i: int| 0 <= i < m implies short[i] == long[i] by {
        assert(inputs.take(m).take(i) =~= inputs.take(i));
    }
    assert(short =~= long);
}

/// A run of one block is transformed in the state the backend is in.
pub proof fn lemma_run_outputs_single<B: BlockTransform>(backend: B, input: Seq<u8>)
    ensures
        run_outputs(backend, seq![input]) == seq![backend.block_output(input)],
        state_after(backend, seq![input]) == backend.block_next(input),
{
    let one = seq![input];
    assert(one.take(0) =~= Seq::<Seq<u8>>::empty());
    assert(one.drop_last() =~= Seq::<Seq<u8>>::empty());
    assert(state_after(backend, one.drop_last()) == backend);
    assert(run_outputs(backend, one) =~= seq![backend.block_output(input)]);
}

/// The first `done` blocks of `blocks` hold what `start` writes for
/// `inputs`, the blocks after them still hold their input, and `backend`
/// is in the state that those first blocks have left.
pub open spec fn progressed<B: BlockBackend>(
    blocks: InOutBuf<'_, Block>,
    backend: B,
    start: B,
    inputs: Seq<Seq<u8>>,
    done: int,
) -> bool {
    &&& blocks.wf()
    &&& blocks.out_seq().len() == inputs.len()
    &&& blocks.in_seq().len() == inputs.len()
    &&& 0 <= done <= inputs.len()
    &&& all_sized(inputs, start.spec_block_size())
    &&& backend == state_after(start, inputs.take(done))
    &&& backend.spec_block_size() == start.spec_block_size()
    &&& backend.spec_par_blocks_size() == start.spec_par_blocks_size()
    &&& forall|j: int|
        0 <= j < done ==> (#[trigger] blocks.out_seq()[j])@ == run_outputs(start, inputs)[j]
    &&& forall|j: int|
        0 <= j < done ==> (#[trigger] blocks.out_seq()[j])@.len() == start.spec_block_size()
    &&& forall|j: int| done <= j < inputs.len() ==> (#[trigger] blocks.in_seq()[j])@ == inputs[j]
}

/// Transforms the `count` blocks from `from` on as one group: a full lane
/// group through `proc_par_blocks`, a shorter one through
/// `proc_tail_blocks`.
fn proc_group<B: BlockBackend>(
    backend: &mut B,
    blocks: &mut InOutBuf<'_, Block>,
    from: usize,
    count: usize,
    Ghost(start): Ghost<B>,
    Ghost(inputs): Ghost<Seq<Seq<u8>>>,
)
    requires
        progressed(*old(blocks), *old(backend), start, inputs, from as int),
        from + count <= inputs.len(),
        count <= start.spec_par_blocks_size(),
    ensures
        progressed(*final(blocks), *final(backend), start, inputs, from + count),
        final(blocks).is_in_place() == old(blocks).is_in_place(),
        !old(blocks).is_in_place() ==> final(blocks).in_seq() == old(blocks).in_seq(),
{
    let ghost before = *blocks;
    let ghost entry = *backend;
    proof {
        before.lemma_sides();
    }
    let lane = backend.par_blocks_size();
    let mut chunk = blocks.take_chunk(from, count);
    let ghost taken = *blocks;
    let ghost part = inputs.subrange(from as int, from + count);
    proof {
        taken.lemma_sides();
        assert(chunk.in_blocks() =~= part);
    }
    if count == lane {
        backend.proc_par_blocks(&mut chunk);
    } else {
        backend.proc_tail_blocks(&mut chunk);
    }
    let ghost outs = chunk.out_blocks();
    proof {
        assert(outs.len() == part.len());
        assert(chunk.out_seq().len() == outs.len());
    }
    blocks.put_chunk(from, chunk);
    proof {
        blocks.lemma_sides();
        assert(inputs.take(from as int) + part =~= inputs.take(from + count));
        lemma_state_after_concat(start, inputs.take(from as int), part);
        lemma_run_outputs_concat(start, inputs.take(from as int), part);
        lemma_run_outputs_prefix(start, inputs, from + count);
        assert forall|j: int| from <= j < from + count implies (#[trigger] blocks.out_seq()[j])@
            == run_outputs(start, inputs)[j] && blocks.out_seq()[j]@.len()
            == start.spec_block_size() by {
            assert(blocks.out_seq()[j]@ == outs[j - from]);
            assert(run_outputs(start, inputs).take(from + count)[j] == (run_outputs(
                start,
                inputs.take(from as int),
            ) + run_outputs(entry, part))[j]);
        }
    }
}

/// Batching changes nothing: lane group `k` of a run, transformed as a
/// group from the state that the groups before it have left, yields
/// exactly the blocks that the one-at-a-time run yields at the group's
/// positions.
pub proof fn lemma_group_outputs<B: BlockTransform>(
    backend: B,
    inputs: Seq<Seq<u8>>,
    lane: int,
    k: int,
)
    requires
        lane >= 1,
        0 <= k < full_groups(inputs.len() as int, lane),
    ensures
        0 <= k * lane,
        k * lane + lane <= inputs.len(),
        run_outputs(state_after(backend, inputs.take(k * lane)), group_of(inputs, lane, k))
            == run_outputs(backend, inputs).subrange(k * lane, k * lane + lane),
{
    lemma_group_bounds(inputs.len() as int, lane, k);
    assert(0 <= k * lane) by (nonlinear_arith)
        requires
            k >= 0,
            lane >= 1,
    ;
    let from = k * lane;
    let group = group_of(inputs, lane, k);
    assert(inputs.take(from) + group =~= inputs.take(from + lane));
    lemma_run_outputs_concat(backend, inputs.take(from), group);
    lemma_run_outputs_prefix(backend, inputs, from + lane);
    let head = run_outputs(backend, inputs.take(from));
    let part = run_outputs(state_after(backend, inputs.take(from)), group);
    let all = run_outputs(backend, inputs);
    assert(head + part == all.take(from + lane));
    assert forall|i: int| 0 <= i < lane implies part[i] == all[from + i] by {
        assert((head + part)[from + i] == part[i]);
        assert(all.take(from + lane)[from + i] == all[from + i]);
    }
    assert(part =~= all.subrange(from, from + lane));
}

/// The tail of a run, transformed from the state that the full groups
/// have left, yields the last blocks of the one-at-a-time run.
pub proof fn lemma_tail_outputs<B: BlockTransform>(backend: B, inputs: Seq<Seq<u8>>, lane: int)
    requires
        lane >= 1,
    ensures
        0 <= full_groups(inputs.len() as int, lane) * lane <= inputs.len(),
        run_outputs(
            state_after(backend, inputs.take(full_groups(inputs.len() as int, lane) * lane)),
            tail_of(inputs, lane),
        ) == run_outputs(backend, inputs).subrange(
            full_groups(inputs.len() as int, lane) * lane,
            inputs.len() as int,
        ),
{
    let n = inputs.len() as int;
    let from = full_groups(n, lane) * lane;
    lemma_groups_joined_prefix(inputs, lane, full_groups(n, lane));
    assert(0 <= from) by (nonlinear_arith)
        requires
            from == (n / lane) * lane,
            n >= 0,
            lane >= 1,
    ;
    let tail = tail_of(inputs, lane);
    assert(inputs.take(from) + tail =~= inputs);
    lemma_run_outputs_concat(backend, inputs.take(from), tail);
    assert(run_outputs(state_after(backend, inputs.take(from)), tail) =~= run_outputs(
        backend,
        inputs,
    ).subrange(from, n));
}

/// Decryption undoes encryption over whole runs, for a pair of backends
/// that keep no state from block to block and of which the second undoes
/// the first on every single block.
pub proof fn lemma_round_trip<E: BlockTransform, D: BlockTransform>(
    enc: E,
    dec: D,
    blocks: Seq<Seq<u8>>,
)
    requires
        forall|x: Seq<u8>| #[trigger] enc.block_next(x) == enc,
        forall|x: Seq<u8>| #[trigger] dec.block_next(x) == dec,
        forall|x: Seq<u8>| dec.block_output(#[trigger] enc.block_output(x)) == x,
    ensures
        run_outputs(dec, run_outputs(enc, blocks)) == blocks,
{
    let sealed = run_outputs(enc, blocks);
    let opened = run_outputs(dec, sealed);
    assert forall|i: int| 0 <= i < blocks.len() implies opened[i] == blocks[i] by {
        lemma_stateless(enc, blocks.take(i));
        lemma_stateless(dec, sealed.take(i));
    }
    assert(opened =~= blocks);
}

/// A backend that keeps no state from block to block is in its initial
/// state after any run.
pub proof fn lemma_stateless<B: BlockTransform>(backend: B, inputs: Seq<Seq<u8>>)
    requires
        forall|x: Seq<u8>| #[trigger] backend.block_next(x) == backend,
    ensures
        state_after(backend, inputs) == backend,
    decreases inputs.len(),
{
    if inputs.len() > 0 {
        lemma_stateless(backend, inputs.drop_last());
    }
}

/// What memory to transform. A closure is handed a backend and drives its
/// blocks through it in order.
pub trait BlockClosure: BlockSizeUser {
    /// The closure holds a well-formed view whose input blocks all have the
    /// closure's block size.
    spec fn ready(&self) -> bool;

    /// The closure's view reads and writes the same memory.
    spec fn in_place(&self) -> bool;

    /// The bytes of the blocks on the input side.
    spec fn in_blocks(&self) -> Seq<Seq<u8>>;

    /// The bytes of the blocks on the output side.
    spec fn out_blocks(&self) -> Seq<Seq<u8>>;

    /// Drives the closure's blocks through `backend`. Whatever the lane
    /// width, the output is what `backend` writes when it transforms the
    /// blocks one at a time, in order.
    fn call<B: BlockBackend>(&mut self, backend: &mut B)
        requires
            old(self).ready(),
            old(backend).spec_block_size() == old(self).spec_block_size(),
            old(backend).spec_par_blocks_size() >= 1,
        ensures
            final(self).ready(),
            final(self).in_place() == old(self).in_place(),
            !old(self).in_place() ==> final(self).in_blocks() == old(self).in_blocks(),
            final(self).out_blocks() == run_outputs(*old(backend), old(self).in_blocks()),
            all_sized(final(self).out_blocks(), old(self).spec_block_size()),
            final(self).spec_block_size() == old(self).spec_block_size(),
            *final(backend) == state_after(*old(backend), old(self).in_blocks()),
            final(backend).spec_block_size() == old(backend).spec_block_size(),
            final(backend).spec_par_blocks_size() == old(backend).spec_par_blocks_size(),
    ;
}

/// The closure over one block.
pub struct BlockCtx<'a> {
    pub block_size: usize,
    pub block: InOut<'a, Block>,
}

impl<'a> BlockSizeUser for BlockCtx<'a> {
    open spec fn spec_block_size(&self) -> nat {
        self.block_size as nat
    }

    fn block_size(&self) -> (n: usize) {
        self.block_size
    }
}

impl<'a> BlockClosure for BlockCtx<'a> {
    open spec fn ready(&self) -> bool {
        self.block.in_val()@.len() == self.block_size
    }

    open spec fn in_place(&self) -> bool {
        self.block.is_in_place()
    }

    open spec fn in_blocks(&self) -> Seq<Seq<u8>> {
        seq![self.block.in_val()@]
    }

    open spec fn out_blocks(&self) -> Seq<Seq<u8>> {
        seq![self.block.out_val()@]
    }

    fn call<B: BlockBackend>(&mut self, backend: &mut B) {
        proof {
            lemma_run_outputs_single(*backend, self.block.in_val()@);
        }
        backend.proc_block(&mut self.block);
        proof {
            self.block.lemma_aliasing();
        }
    }
}

/// The closure over a run of blocks.
pub struct BlocksCtx<'a> {
    pub block_size: usize,
    pub blocks: InOutBuf<'a, Block>,
}

impl<'a> BlockSizeUser for BlocksCtx<'a> {
    open spec fn spec_block_size(&self) -> nat {
        self.block_size as nat
    }

    fn block_size(&self) -> (n: usize) {
        self.block_size
    }
}

impl<'a> BlockClosure for BlocksCtx<'a> {
    open spec fn ready(&self) -> bool {
        self.blocks.wf() && all_sized(self.blocks.in_blocks(), self.block_size as nat)
    }

    open spec fn in_place(&self) -> bool {
        self.blocks.is_in_place()
    }

    open spec fn in_blocks(&self) -> Seq<Seq<u8>> {
        self.blocks.in_blocks()
    }

    open spec fn out_blocks(&self) -> Seq<Seq<u8>> {
        self.blocks.out_blocks()
    }

    fn call<B: BlockBackend>(&mut self, backend: &mut B) {
        let lane = backend.par_blocks_size();
        if lane > 1 {
            let ghost start = *backend;
            let ghost inputs = self.blocks.in_blocks();
            let n: usize = self.blocks.len();
            let (groups, tail) = chunk_partition(n, lane);
            let mut k: usize = 0;
            proof {
                self.blocks.lemma_sides();
                assert(inputs.take(0) =~= Seq::<Seq<u8>>::empty());
                assert(0 * lane == 0) by (nonlinear_arith);
            }
            while k < groups
                invariant
                    k <= groups,
                    lane >= 1,
                    lane == start.spec_par_blocks_size(),
                    groups * lane + tail == n,
                    n == inputs.len(),
                    self.block_size == old(self).block_size,
                    progressed(self.blocks, *backend, start, inputs, k * lane),
                    !self.blocks.is_in_place() ==>
                        self.blocks.in_seq() == old(self).blocks.in_seq(),
                    self.blocks.is_in_place() == old(self).blocks.is_in_place(),
                decreases groups - k,
            {
                proof {
                    assert(k * lane + lane <= groups * lane) by (nonlinear_arith)
                        requires
                            k + 1 <= groups,
                            lane >= 1,
                    ;
                    assert((k + 1) * lane == k * lane + lane) by (nonlinear_arith);
                }
                proc_group(backend, &mut self.blocks, k * lane, lane, Ghost(start), Ghost(inputs));
                k += 1;
            }
            proc_group(backend, &mut self.blocks, groups * lane, tail, Ghost(start), Ghost(inputs));
            proof {
                assert(inputs.take(n as int) =~= inputs);
                assert(self.blocks.out_blocks() =~= run_outputs(start, inputs));
            }
        } else {
            backend.proc_each_block(&mut self.blocks);
        }
        proof {
            self.blocks.lemma_sides();
        }
    }
}

/// Encryption for block ciphers that work through shared access.
pub trait BlockEncrypt: BlockSizeUser + Sized {
    /// The backend that `encrypt_with_backend` hands to its closure.
    type EncBackend: BlockBackend;

    /// The backend, in its initial state, that a call on this cipher
    /// state works with.
    spec fn enc_backend(&self) -> Self::EncBackend;

    /// Hands the encryption backend to `f`, which drives its blocks
    /// through it.
    fn encrypt_with_backend<C: BlockClosure>(&self, f: &mut C)
        requires
            old(f).ready(),
            old(f).spec_block_size() == self.spec_block_size(),
        ensures
            final(f).ready(),
            final(f).in_place() == old(f).in_place(),
            !old(f).in_place() ==> final(f).in_blocks() == old(f).in_blocks(),
            final(f).out_blocks() == run_outputs(self.enc_backend(), old(f).in_blocks()),
            all_sized(final(f).out_blocks(), self.spec_block_size()),
            final(f).spec_block_size() == old(f).spec_block_size(),
    ;

    /// Encrypts one block pair: reads the input side, writes the output
    /// side.
    fn encrypt_block_inout<'a>(&self, block: InOut<'a, Block>) -> (r: InOut<'a, Block>)
        requires
            block.in_val()@.len() == self.spec_block_size(),
        ensures
            r.is_in_place() == block.is_in_place(),
            !block.is_in_place() ==> r.in_val()@ == block.in_val()@,
            r.out_val()@ == self.enc_backend().block_output(block.in_val()@),
            r.out_val()@.len() == self.spec_block_size(),
    {
        let ghost input = block.in_val()@;
        let mut ctx = BlockCtx { block_size: self.block_size(), block };
        proof {
            lemma_run_outputs_single(self.enc_backend(), input);
        }
        self.encrypt_with_backend(&mut ctx);
        proof {
            assert(ctx.out_blocks()[0] == ctx.block.out_val()@);
            assert(ctx.in_blocks()[0] == ctx.block.in_val()@);
        }
        ctx.block
    }

    /// Encrypts a run of block pairs in order.
    fn encrypt_blocks_inout<'a>(&self, blocks: InOutBuf<'a, Block>) -> (r: InOutBuf<'a, Block>)
        requires
            blocks.wf(),
            all_sized(blocks.in_blocks(), self.spec_block_size()),
        ensures
            r.wf(),
            r.is_in_place() == blocks.is_in_place(),
            !blocks.is_in_place() ==> r.in_blocks() == blocks.in_blocks(),
            r.out_blocks() == run_outputs(self.enc_backend(), blocks.in_blocks()),
            all_sized(r.out_blocks(), self.spec_block_size()),
    {
        let mut ctx = BlocksCtx { block_size: self.block_size(), blocks };
        self.encrypt_with_backend(&mut ctx);
        ctx.blocks
    }

    /// Encrypts one block in place.
    fn encrypt_block(&self, block: &mut Block)
        requires
            old(block)@.len() == self.spec_block_size(),
        ensures
            final(block)@ == self.enc_backend().block_output(old(block)@),
            final(block)@.len() == self.spec_block_size(),
    {
        let mut taken: Block = Vec::new();
        core::mem::swap(block, &mut taken);
        let pair = InOut::from_mut(taken);
        proof {
            pair.lemma_aliasing();
        }
        let done = self.encrypt_block_inout(pair);
        *block = done.into_out();
    }

    /// Encrypts `in_block` and writes the result to `out_block`.
    fn encrypt_block_b2b(&self, in_block: &Block, out_block: &mut Block)
        requires
            in_block@.len() == self.spec_block_size(),
        ensures
            final(out_block)@ == self.enc_backend().block_output(in_block@),
            final(out_block)@.len() == self.spec_block_size(),
    {
        let mut taken: Block = Vec::new();
        core::mem::swap(out_block, &mut taken);
        let done = self.encrypt_block_inout(InOut::new(in_block, taken));
        *out_block = done.into_out();
    }

    /// Encrypts blocks in place. The result is that of encrypting them
    /// one at a time, in order, whatever the lane width.
    fn encrypt_blocks(&self, blocks: &mut Vec<Block>)
        requires
            all_sized(rows(old(blocks)@), self.spec_block_size()),
        ensures
            rows(final(blocks)@) == run_outputs(self.enc_backend(), rows(old(blocks)@)),
            all_sized(rows(final(blocks)@), self.spec_block_size()),
    {
        let mut taken: Vec<Block> = Vec::new();
        core::mem::swap(blocks, &mut taken);
        let done = self.encrypt_blocks_inout(InOutBuf::from_mut(taken));
        *blocks = done.into_out();
    }

    /// Encrypts blocks buffer to buffer. Fails, with `out_blocks`
    /// untouched, exactly when the two buffers differ in length;
    /// otherwise `out_blocks` holds what in-place encryption of a copy of
    /// `in_blocks` would hold.
    fn encrypt_blocks_b2b(&self, in_blocks: &[Block], out_blocks: &mut Vec<Block>) -> (r: Result<
        (),
        LengthMismatch,
    >)
        requires
            all_sized(rows(in_blocks@), self.spec_block_size()),
        ensures
            r.is_ok() <==> in_blocks@.len() == old(out_blocks)@.len(),
            r.is_ok() ==> rows(final(out_blocks)@) == run_outputs(
                self.enc_backend(),
                rows(in_blocks@),
            ),
            r.is_err() ==> final(out_blocks)@ == old(out_blocks)@,
    {
        match check_lengths(in_blocks, out_blocks) {
            Err(e) => {
                return Err(e);
            },
            Ok(_) => {},
        }
        let mut taken: Vec<Block> = Vec::new();
        core::mem::swap(out_blocks, &mut taken);
        match InOutBuf::new(in_blocks, taken) {
            Ok(view) => {
                let done = self.encrypt_blocks_inout(view);
                *out_blocks = done.into_out();
                Ok(())
            },
            Err(e) => Err(e),
        }
    }
}

/// Decryption for block ciphers that work through shared access.
pub trait BlockDecrypt: BlockSizeUser + Sized {
    /// The backend that `decrypt_with_backend` hands to its closure.
    type DecBackend: BlockBackend;

    /// The backend, in its initial state, that a call on this cipher
    /// state works with.
    spec fn dec_backend(&self) -> Self::DecBackend;

    /// Hands the decryption backend to `f`, which drives its blocks
    /// through it.
    fn decrypt_with_backend<C: BlockClosure>(&self, f: &mut C)
        requires
            old(f).ready(),
            old(f).spec_block_size() == self.spec_block_size(),
        ensures
            final(f).ready(),
            final(f).in_place() == old(f).in_place(),
            !old(f).in_place() ==> final(f).in_blocks() == old(f).in_blocks(),
            final(f).out_blocks() == run_outputs(self.dec_backend(), old(f).in_blocks()),
            all_sized(final(f).out_blocks(), self.spec_block_size()),
            final(f).spec_block_size() == old(f).spec_block_size(),
    ;

    /// Decrypts one block pair: reads the input side, writes the output
    /// side.
    fn decrypt_block_inout<'a>(&self, block: InOut<'a, Block>) -> (r: InOut<'a, Block>)
        requires
            block.in_val()@.len() == self.spec_block_size(),
        ensures
            r.is_in_place() == block.is_in_place(),
            !block.is_in_place() ==> r.in_val()@ == block.in_val()@,
            r.out_val()@ == self.dec_backend().block_output(block.in_val()@),
            r.out_val()@.len() == self.spec_block_size(),
    {
        let ghost input = block.in_val()@;
        let mut ctx = BlockCtx { block_size: self.block_size(), block };
        proof {
            lemma_run_outputs_single(self.dec_backend(), input);
        }
        self.decrypt_with_backend(&mut ctx);
        proof {
            assert(ctx.out_blocks()[0] == ctx.block.out_val()@);
            assert(ctx.in_blocks()[0] == ctx.block.in_val()@);
        }
        ctx.block
    }

    /// Decrypts a run of block pairs in order.
    fn decrypt_blocks_inout<'a>(&self, blocks: InOutBuf<'a, Block>) -> (r: InOutBuf<'a, Block>)
        requires
            blocks.wf(),
            all_sized(blocks.in_blocks(), self.spec_block_size()),
        ensures
            r.wf(),
            r.is_in_place() == blocks.is_in_place(),
            !blocks.is_in_place() ==> r.in_blocks() == blocks.in_blocks(),
            r.out_blocks() == run_outputs(self.dec_backend(), blocks.in_blocks()),
            all_sized(r.out_blocks(), self.spec_block_size()),
    {
        let mut ctx = BlocksCtx { block_size: self.block_size(), blocks };
        self.decrypt_with_backend(&mut ctx);
        ctx.blocks
    }

    /// Decrypts one block in place.
    fn decrypt_block(&self, block: &mut Block)
        requires
            old(block)@.len() == self.spec_block_size(),
        ensures
            final(block)@ == self.dec_backend().block_output(old(block)@),
            final(block)@.len() == self.spec_block_size(),
    {
        let mut taken: Block = Vec::new();
        core::mem::swap(block, &mut taken);
        let pair = InOut::from_mut(taken);
        proof {
            pair.lemma_aliasing();
        }
        let done = self.decrypt_block_inout(pair);
        *block = done.into_out();
    }

    /// Decrypts `in_block` and writes the result to `out_block`.
    fn decrypt_block_b2b(&self, in_block: &Block, out_block: &mut Block)
        requires
            in_block@.len() == self.spec_block_size(),
        ensures
            final(out_block)@ == self.dec_backend().block_output(in_block@),
            final(out_block)@.len() == self.spec_block_size(),
    {
        let mut taken: Block = Vec::new();
        core::mem::swap(out_block, &mut taken);
        let done = self.decrypt_block_inout(InOut::new(in_block, taken));
        *out_block = done.into_out();
    }

    /// Decrypts blocks in place. The result is that of decrypting them
    /// one at a time, in order, whatever the lane width.
    fn decrypt_blocks(&self, blocks: &mut Vec<Block>)
        requires
            all_sized(rows(old(blocks)@), self.spec_block_size()),
        ensures
            rows(final(blocks)@) == run_outputs(self.dec_backend(), rows(old(blocks)@)),
            all_sized(rows(final(blocks)@), self.spec_block_size()),
    {
        let mut taken: Vec<Block> = Vec::new();
        core::mem::swap(blocks, &mut taken);
        let done = self.decrypt_blocks_inout(InOutBuf::from_mut(taken));
        *blocks = done.into_out();
    }

    /// Decrypts blocks buffer to buffer. Fails, with `out_blocks`
    /// untouched, exactly when the two buffers differ in length;
    /// otherwise `out_blocks` holds what in-place decryption of a copy of
    /// `in_blocks` would hold.
    fn decrypt_blocks_b2b(&self, in_blocks: &[Block], out_blocks: &mut Vec<Block>) -> (r: Result<
        (),
        LengthMismatch,
    >)
        requires
            all_sized(rows(in_blocks@), self.spec_block_size()),
        ensures
            r.is_ok() <==> in_blocks@.len() == old(out_blocks)@.len(),
            r.is_ok() ==> rows(final(out_blocks)@) == run_outputs(
                self.dec_backend(),
                rows(in_blocks@),
            ),
            r.is_err() ==> final(out_blocks)@ == old(out_blocks)@,
    {
        match check_lengths(in_blocks, out_blocks) {
            Err(e) => {
                return Err(e);
            },
            Ok(_) => {},
        }
        let mut taken: Vec<Block> = Vec::new();
        core::mem::swap(out_blocks, &mut taken);
        match InOutBuf::new(in_blocks, taken) {
            Ok(view) => {
                let done = self.decrypt_blocks_inout(view);
                *out_blocks = done.into_out();
                Ok(())
            },
            Err(e) => Err(e),
        }
    }
}

/// Encryption for ciphers and modes that need exclusive access to their state.
pub trait BlockEncryptMut: BlockSizeUser + Sized {
    /// The backend that `encrypt_with_backend_mut` hands to its closure.
    type EncBackendMut: BlockBackend;

    /// The backend, in its initial state, that a call on this cipher
    /// state works with.
    spec fn enc_backend_mut(&self) -> Self::EncBackendMut;

    /// The cipher state once its backend has reached the state `backend`.
    spec fn enc_resume(&self, backend: Self::EncBackendMut) -> Self;

    /// Hands the encryption backend to `f`, which drives its blocks
    /// through it.
    fn encrypt_with_backend_mut<C: BlockClosure>(&mut self, f: &mut C)
        requires
            old(f).ready(),
            old(f).spec_block_size() == old(self).spec_block_size(),
        ensures
            final(f).ready(),
            final(f).in_place() == old(f).in_place(),
            !old(f).in_place() ==> final(f).in_blocks() == old(f).in_blocks(),
            final(f).out_blocks() == run_outputs(old(self).enc_backend_mut(), old(f).in_blocks()),
            all_sized(final(f).out_blocks(), old(self).spec_block_size()),
            final(f).spec_block_size() == old(f).spec_block_size(),
            *final(self) == old(self).enc_resume(
                state_after(old(self).enc_backend_mut(), old(f).in_blocks()),
            ),
            final(self).spec_block_size() == old(self).spec_block_size(),
    ;

    /// Encrypts one block pair: reads the input side, writes the output
    /// side.
    fn encrypt_block_inout_mut<'a>(&mut self, block: InOut<'a, Block>) -> (r: InOut<'a, Block>)
        requires
            block.in_val()@.len() == old(self).spec_block_size(),
        ensures
            r.is_in_place() == block.is_in_place(),
            !block.is_in_place() ==> r.in_val()@ == block.in_val()@,
            r.out_val()@ == old(self).enc_backend_mut().block_output(block.in_val()@),
            r.out_val()@.len() == old(self).spec_block_size(),
            *final(self) == old(self).enc_resume(
                old(self).enc_backend_mut().block_next(block.in_val()@),
            ),
            final(self).spec_block_size() == old(self).spec_block_size(),
    {
        let ghost input = block.in_val()@;
        let mut ctx = BlockCtx { block_size: self.block_size(), block };
        proof {
            lemma_run_outputs_single(self.enc_backend_mut(), input);
        }
        self.encrypt_with_backend_mut(&mut ctx);
        proof {
            assert(ctx.out_blocks()[0] == ctx.block.out_val()@);
            assert(ctx.in_blocks()[0] == ctx.block.in_val()@);
        }
        ctx.block
    }

    /// Encrypts a run of block pairs in order.
    fn encrypt_blocks_inout_mut<'a>(&mut self, blocks: InOutBuf<'a, Block>) -> (r: InOutBuf<'a, Block>)
        requires
            blocks.wf(),
            all_sized(blocks.in_blocks(), old(self).spec_block_size()),
        ensures
            r.wf(),
            r.is_in_place() == blocks.is_in_place(),
            !blocks.is_in_place() ==> r.in_blocks() == blocks.in_blocks(),
            r.out_blocks() == run_outputs(old(self).enc_backend_mut(), blocks.in_blocks()),
            all_sized(r.out_blocks(), old(self).spec_block_size()),
            *final(self) == old(self).enc_resume(
                state_after(old(self).enc_backend_mut(), blocks.in_blocks()),
            ),
            final(self).spec_block_size() == old(self).spec_block_size(),
    {
        let mut ctx = BlocksCtx { block_size: self.block_size(), blocks };
        self.encrypt_with_backend_mut(&mut ctx);
        ctx.blocks
    }

    /// Encrypts one block in place.
    fn encrypt_block_mut(&mut self, block: &mut Block)
        requires
            old(block)@.len() == old(self).spec_block_size(),
        ensures
            final(block)@ == old(self).enc_backend_mut().block_output(old(block)@),
            final(block)@.len() == old(self).spec_block_size(),
            *final(self) == old(self).enc_resume(
                old(self).enc_backend_mut().block_next(old(block)@),
            ),
            final(self).spec_block_size() == old(self).spec_block_size(),
    {
        let mut taken: Block = Vec::new();
        core::mem::swap(block, &mut taken);
        let pair = InOut::from_mut(taken);
        proof {
            pair.lemma_aliasing();
        }
        let done = self.encrypt_block_inout_mut(pair);
        *block = done.into_out();
    }

    /// Encrypts `in_block` and writes the result to `out_block`.
    fn encrypt_block_b2b_mut(&mut self, in_block: &Block, out_block: &mut Block)
        requires
            in_block@.len() == old(self).spec_block_size(),
        ensures
            final(out_block)@ == old(self).enc_backend_mut().block_output(in_block@),
            final(out_block)@.len() == old(self).spec_block_size(),
            *final(self) == old(self).enc_resume(old(self).enc_backend_mut().block_next(in_block@)),
            final(self).spec_block_size() == old(self).spec_block_size(),
    {
        let mut taken: Block = Vec::new();
        core::mem::swap(out_block, &mut taken);
        let done = self.encrypt_block_inout_mut(InOut::new(in_block, taken));
        *out_block = done.into_out();
    }

    /// Encrypts blocks in place. The result is that of encrypting them
    /// one at a time, in order, whatever the lane width.
    fn encrypt_blocks_mut(&mut self, blocks: &mut Vec<Block>)
        requires
            all_sized(rows(old(blocks)@), old(self).spec_block_size()),
        ensures
            rows(final(blocks)@) == run_outputs(old(self).enc_backend_mut(), rows(old(blocks)@)),
            all_sized(rows(final(blocks)@), old(self).spec_block_size()),
            *final(self) == old(self).enc_resume(
                state_after(old(self).enc_backend_mut(), rows(old(blocks)@)),
            ),
            final(self).spec_block_size() == old(self).spec_block_size(),
    {
        let mut taken: Vec<Block> = Vec::new();
        core::mem::swap(blocks, &mut taken);
        let done = self.encrypt_blocks_inout_mut(InOutBuf::from_mut(taken));
        *blocks = done.into_out();
    }

    /// Encrypts blocks buffer to buffer. Fails, with `out_blocks`
    /// untouched, exactly when the two buffers differ in length;
    /// otherwise `out_blocks` holds what in-place encryption of a copy of
    /// `in_blocks` would hold.
    fn encrypt_blocks_b2b_mut(&mut self, in_blocks: &[Block], out_blocks: &mut Vec<Block>) -> (r: Result<
        (),
        LengthMismatch,
    >)
        requires
            all_sized(rows(in_blocks@), old(self).spec_block_size()),
        ensures
            r.is_ok() <==> in_blocks@.len() == old(out_blocks)@.len(),
            r.is_ok() ==> rows(final(out_blocks)@) == run_outputs(
                old(self).enc_backend_mut(),
                rows(in_blocks@),
            ),
            r.is_err() ==> final(out_blocks)@ == old(out_blocks)@,
            r.is_ok() ==>
                *final(self) == old(self).enc_resume(state_after(old(self).enc_backend_mut(), rows(in_blocks@))),
            r.is_err() ==> *final(self) == *old(self),
            final(self).spec_block_size() == old(self).spec_block_size(),
    {
        match check_lengths(in_blocks, out_blocks) {
            Err(e) => {
                return Err(e);
            },
            Ok(_) => {},
        }
        let mut taken: Vec<Block> = Vec::new();
        core::mem::swap(out_blocks, &mut taken);
        match InOutBuf::new(in_blocks, taken) {
            Ok(view) => {
                let done = self.encrypt_blocks_inout_mut(view);
                *out_blocks = done.into_out();
                Ok(())
            },
            Err(e) => Err(e),
        }
    }
}

/// Decryption for ciphers and modes that need exclusive access to their state.
pub trait BlockDecryptMut: BlockSizeUser + Sized {
    /// The backend that `decrypt_with_backend_mut` hands to its closure.
    type DecBackendMut: BlockBackend;

    /// The backend, in its initial state, that a call on this cipher
    /// state works with.
    spec fn dec_backend_mut(&self) -> Self::DecBackendMut;

    /// The cipher state once its backend has reached the state `backend`.
    spec fn dec_resume(&self, backend: Self::DecBackendMut) -> Self;

    /// Hands the decryption backend to `f`, which drives its blocks
    /// through it.
    fn decrypt_with_backend_mut<C: BlockClosure>(&mut self, f: &mut C)
        requires
            old(f).ready(),
            old(f).spec_block_size() == old(self).spec_block_size(),
        ensures
            final(f).ready(),
            final(f).in_place() == old(f).in_place(),
            !old(f).in_place() ==> final(f).in_blocks() == old(f).in_blocks(),
            final(f).out_blocks() == run_outputs(old(self).dec_backend_mut(), old(f).in_blocks()),
            all_sized(final(f).out_blocks(), old(self).spec_block_size()),
            final(f).spec_block_size() == old(f).spec_block_size(),
            *final(self) == old(self).dec_resume(
                state_after(old(self).dec_backend_mut(), old(f).in_blocks()),
            ),
            final(self).spec_block_size() == old(self).spec_block_size(),
    ;

    /// Decrypts one block pair: reads the input side, writes the output
    /// side.
    fn decrypt_block_inout_mut<'a>(&mut self, block: InOut<'a, Block>) -> (r: InOut<'a, Block>)
        requires
            block.in_val()@.len() == old(self).spec_block_size(),
        ensures
            r.is_in_place() == block.is_in_place(),
            !block.is_in_place() ==> r.in_val()@ == block.in_val()@,
            r.out_val()@ == old(self).dec_backend_mut().block_output(block.in_val()@),
            r.out_val()@.len() == old(self).spec_block_size(),
            *final(self) == old(self).dec_resume(
                old(self).dec_backend_mut().block_next(block.in_val()@),
            ),
            final(self).spec_block_size() == old(self).spec_block_size(),
    {
        let ghost input = block.in_val()@;
        let mut ctx = BlockCtx { block_size: self.block_size(), block };
        proof {
            lemma_run_outputs_single(self.dec_backend_mut(), input);
        }
        self.decrypt_with_backend_mut(&mut ctx);
        proof {
            assert(ctx.out_blocks()[0] == ctx.block.out_val()@);
            assert(ctx.in_blocks()[0] == ctx.block.in_val()@);
        }
        ctx.block
    }

    /// Decrypts a run of block pairs in order.
    fn decrypt_blocks_inout_mut<'a>(&mut self, blocks: InOutBuf<'a, Block>) -> (r: InOutBuf<'a, Block>)
        requires
            blocks.wf(),
            all_sized(blocks.in_blocks(), old(self).spec_block_size()),
        ensures
            r.wf(),
            r.is_in_place() == blocks.is_in_place(),
            !blocks.is_in_place() ==> r.in_blocks() == blocks.in_blocks(),
            r.out_blocks() == run_outputs(old(self).dec_backend_mut(), blocks.in_blocks()),
            all_sized(r.out_blocks(), old(self).spec_block_size()),
            *final(self) == old(self).dec_resume(
                state_after(old(self).dec_backend_mut(), blocks.in_blocks()),
            ),
            final(self).spec_block_size() == old(self).spec_block_size(),
    {
        let mut ctx = BlocksCtx { block_size: self.block_size(), blocks };
        self.decrypt_with_backend_mut(&mut ctx);
        ctx.blocks
    }

    /// Decrypts one block in place.
    fn decrypt_block_mut(&mut self, block: &mut Block)
        requires
            old(block)@.len() == old(self).spec_block_size(),
        ensures
            final(block)@ == old(self).dec_backend_mut().block_output(old(block)@),
            final(block)@.len() == old(self).spec_block_size(),
            *final(self) == old(self).dec_resume(
                old(self).dec_backend_mut().block_next(old(block)@),
            ),
            final(self).spec_block_size() == old(self).spec_block_size(),
    {
        let mut taken: Block = Vec::new();
        core::mem::swap(block, &mut taken);
        let pair = InOut::from_mut(taken);
        proof {
            pair.lemma_aliasing();
        }
        let done = self.decrypt_block_inout_mut(pair);
        *block = done.into_out();
    }

    /// Decrypts `in_block` and writes the result to `out_block`.
    fn decrypt_block_b2b_mut(&mut self, in_block: &Block, out_block: &mut Block)
        requires
            in_block@.len() == old(self).spec_block_size(),
        ensures
            final(out_block)@ == old(self).dec_backend_mut().block_output(in_block@),
            final(out_block)@.len() == old(self).spec_block_size(),
            *final(self) == old(self).dec_resume(old(self).dec_backend_mut().block_next(in_block@)),
            final(self).spec_block_size() == old(self).spec_block_size(),
    {
        let mut taken: Block = Vec::new();
        core::mem::swap(out_block, &mut taken);
        let done = self.decrypt_block_inout_mut(InOut::new(in_block, taken));
        *out_block = done.into_out();
    }

    /// Decrypts blocks in place. The result is that of decrypting them
    /// one at a time, in order, whatever the lane width.
    fn decrypt_blocks_mut(&mut self, blocks: &mut Vec<Block>)
        requires
            all_sized(rows(old(blocks)@), old(self).spec_block_size()),
        ensures
            rows(final(blocks)@) == run_outputs(old(self).dec_backend_mut(), rows(old(blocks)@)),
            all_sized(rows(final(blocks)@), old(self).spec_block_size()),
            *final(self) == old(self).dec_resume(
                state_after(old(self).dec_backend_mut(), rows(old(blocks)@)),
            ),
            final(self).spec_block_size() == old(self).spec_block_size(),
    {
        let mut taken: Vec<Block> = Vec::new();
        core::mem::swap(blocks, &mut taken);
        let done = self.decrypt_blocks_inout_mut(InOutBuf::from_mut(taken));
        *blocks = done.into_out();
    }

    /// Decrypts blocks buffer to buffer. Fails, with `out_blocks`
    /// untouched, exactly when the two buffers differ in length;
    /// otherwise `out_blocks` holds what in-place decryption of a copy of
    /// `in_blocks` would hold.
    fn decrypt_blocks_b2b_mut(&mut self, in_blocks: &[Block], out_blocks: &mut Vec<Block>) -> (r: Result<
        (),
        LengthMismatch,
    >)
        requires
            all_sized(rows(in_blocks@), old(self).spec_block_size()),
        ensures
            r.is_ok() <==> in_blocks@.len() == old(out_blocks)@.len(),
            r.is_ok() ==> rows(final(out_blocks)@) == run_outputs(
                old(self).dec_backend_mut(),
                rows(in_blocks@),
            ),
            r.is_err() ==> final(out_blocks)@ == old(out_blocks)@,
            r.is_ok() ==>
                *final(self) == old(self).dec_resume(state_after(old(self).dec_backend_mut(), rows(in_blocks@))),
            r.is_err() ==> *final(self) == *old(self),
            final(self).spec_block_size() == old(self).spec_block_size(),
    {
        match check_lengths(in_blocks, out_blocks) {
            Err(e) => {
                return Err(e);
            },
            Ok(_) => {},
        }
        let mut taken: Vec<Block> = Vec::new();
        core::mem::swap(out_blocks, &mut taken);
        match InOutBuf::new(in_blocks, taken) {
            Ok(view) => {
                let done = self.decrypt_blocks_inout_mut(view);
                *out_blocks = done.into_out();
                Ok(())
            },
            Err(e) => Err(e),
        }
    }
}

/// Shared access is the stronger capability: a cipher that encrypts
/// through `&self` also encrypts through `&mut self`, and its state stays
/// as it is.
impl<Alg: BlockEncrypt> BlockEncryptMut for Alg {
    type EncBackendMut = Alg::EncBackend;

    open spec fn enc_backend_mut(&self) -> Self::EncBackendMut {
        self.enc_backend()
    }

    open spec fn enc_resume(&self, backend: Self::EncBackendMut) -> Self {
        *self
    }

    fn encrypt_with_backend_mut<C: BlockClosure>(&mut self, f: &mut C) {
        self.encrypt_with_backend(f);
    }
}

/// Shared access is the stronger capability: a cipher that decrypts
/// through `&self` also decrypts through `&mut self`, and its state stays
/// as it is.
impl<Alg: BlockDecrypt> BlockDecryptMut for Alg {
    type DecBackendMut = Alg::DecBackend;

    open spec fn dec_backend_mut(&self) -> Self::DecBackendMut {
        self.dec_backend()
    }

    open spec fn dec_resume(&self, backend: Self::DecBackendMut) -> Self {
        *self
    }

    fn decrypt_with_backend_mut<C: BlockClosure>(&mut self, f: &mut C) {
        self.decrypt_with_backend(f);
    }
}

} // verus!
