//! Paired input/output views over blocks or bytes.
//!
//! A view either reads and writes one region (in place) or reads from a
//! borrowed region and writes to a second one of the same length. In the
//! in-place form the input side *is* the output side: an element that has
//! been written can no longer be read as input.
use vstd::prelude::*;
use crate::errors::LengthMismatch;
use inout::NotEqualError;

verus! {

/// A fixed-length byte unit handled atomically by a primitive.
pub type Block = Vec<u8>;

/// `inout::NotEqualError`, the error with which `inout::InOutBuf::new`
/// refuses two buffers of different lengths. Nothing is claimed of it.
#[verifier::external_type_specification]
#[verifier::external_body]
pub struct ExNotEqualError(NotEqualError);

/// The byte contents of a sequence of blocks.
pub open spec fn rows(blocks: Seq<Block>) -> Seq<Seq<u8>> {
    blocks.map_values(|b: Block| b@)
}

/// Every block of `blocks` is `size` bytes long.
pub open spec fn all_sized(blocks: Seq<Seq<u8>>, size: nat) -> bool {
    forall|i: int| 0 <= i < blocks.len() ==> (#[trigger] blocks[i]).len() == size
}

/// Tells whether every block of `blocks` is `size` bytes long.
pub fn blocks_have_size(blocks: &[Block], size: usize) -> (ok: bool)
    ensures
        ok == all_sized(rows(blocks@), size as nat),
{
    let n: usize = blocks.len();
    let mut i: usize = 0;
    while i < n
        invariant
            i <= n,
            n == blocks@.len(),
            forall|k: int| 0 <= k < i ==> (#[trigger] rows(blocks@)[k]).len() == size,
        decreases n - i,
    {
        if blocks[i].len() != size {
            assert(rows(blocks@)[i as int] == blocks@[i as int]@);
            return false;
        }
        assert(rows(blocks@)[i as int] == blocks@[i as int]@);
        i += 1;
    }
    true
}

/// Calls `inout::InOutBuf::new` on the two buffers and drops the view it
/// builds. That constructor fails exactly when the two lengths differ and
/// writes to neither buffer.
#[verifier::external_body]
fn check_pair<T>(in_buf: &[T], out_buf: &mut Vec<T>) -> (r: Result<(), NotEqualError>)
    ensures
        r.is_ok() <==> in_buf@.len() == old(out_buf)@.len(),
        final(out_buf)@ == old(out_buf)@,
{
    match inout::InOutBuf::new(in_buf, out_buf.as_mut_slice()) {
        Ok(_) => Ok(()),
        Err(e) => Err(e),
    }
}

/// Tells whether `in_buf` and `out_buf` can be paired: `Ok` exactly when
/// their lengths agree. `out_buf` is never written.
pub fn check_lengths<T>(in_buf: &[T], out_buf: &mut Vec<T>) -> (r: Result<(), LengthMismatch>)
    ensures
        r.is_ok() <==> in_buf@.len() == old(out_buf)@.len(),
        final(out_buf)@ == old(out_buf)@,
{
    match check_pair(in_buf, out_buf) {
        Ok(_) => Ok(()),
        Err(_) => Err(LengthMismatch),
    }
}

/// One input element paired with one output element.
pub struct InOut<'a, T> {
    input: Option<&'a T>,
    output: T,
}

impl<'a, T> InOut<'a, T> {
    /// The view reads and writes the same element.
    pub closed spec fn is_in_place(&self) -> bool {
        self.input is None
    }

    /// The element on the input side.
    pub closed spec fn in_val(&self) -> T {
        match self.input {
            Some(r) => *r,
            None => self.output,
        }
    }

    /// The element on the output side.
    pub closed spec fn out_val(&self) -> T {
        self.output
    }

    /// In place, the input side is the output side.
    pub proof fn lemma_aliasing(&self)
        ensures
            self.is_in_place() ==> self.in_val() == self.out_val(),
    {
    }

    /// An in-place view of `val`.
    pub fn from_mut(val: T) -> (r: Self)
        ensures
            r.is_in_place(),
            r.out_val() == val,
    {
        InOut { input: None, output: val }
    }

    /// A view that reads `in_val` and writes over `out_val`.
    pub fn new(in_val: &'a T, out_val: T) -> (r: Self)
        ensures
            !r.is_in_place(),
            r.in_val() == *in_val,
            r.out_val() == out_val,
    {
        InOut { input: Some(in_val), output: out_val }
    }

    /// Reads the input side.
    pub fn get_in(&self) -> (r: &T)
        ensures
            *r == self.in_val(),
    {
        match self.input {
            Some(r) => r,
            None => &self.output,
        }
    }

    /// Reads the output side.
    pub fn get_out(&self) -> (r: &T)
        ensures
            *r == self.out_val(),
    {
        &self.output
    }

    /// Writes the output side. Of a view that is not in place the input
    /// side stays as it was.
    pub fn set_out(&mut self, val: T)
        ensures
            final(self).out_val() == val,
            final(self).is_in_place() == old(self).is_in_place(),
            !old(self).is_in_place() ==> final(self).in_val() == old(self).in_val(),
    {
        self.output = val;
    }

    /// Ends the view and hands back the output side.
    pub fn into_out(self) -> (r: T)
        ensures
            r == self.out_val(),
    {
        self.output
    }
}

/// A run of input elements paired with as many output elements.
pub struct InOutBuf<'a, T> {
    input: Option<&'a [T]>,
    output: Vec<T>,
}

impl<'a, T> InOutBuf<'a, T> {
    /// Both sides have the same length.
    pub closed spec fn wf(&self) -> bool {
        match self.input {
            Some(s) => s@.len() == self.output@.len(),
            None => true,
        }
    }

    /// The view reads and writes the same region.
    pub closed spec fn is_in_place(&self) -> bool {
        self.input is None
    }

    /// The elements on the input side.
    pub closed spec fn in_seq(&self) -> Seq<T> {
        match self.input {
            Some(s) => s@,
            None => self.output@,
        }
    }

    /// The elements on the output side.
    pub closed spec fn out_seq(&self) -> Seq<T> {
        self.output@
    }

    /// Both sides are equally long, and in place they are one sequence.
    pub proof fn lemma_sides(&self)
        requires
            self.wf(),
        ensures
            self.in_seq().len() == self.out_seq().len(),
            self.is_in_place() ==> self.in_seq() == self.out_seq(),
    {
    }

    /// Pairs `in_buf` with `out_buf`. Fails, before anything is written,
    /// exactly when the two lengths differ.
    pub fn new(in_buf: &'a [T], out_buf: Vec<T>) -> (r: Result<Self, LengthMismatch>)
        ensures
            r.is_ok() <==> in_buf@.len() == out_buf@.len(),
            match r {
                Ok(buf) => buf.wf() && !buf.is_in_place() && buf.in_seq() == in_buf@
                    && buf.out_seq() == out_buf@,
                Err(_) => true,
            },
    {
        let mut out_buf = out_buf;
        match check_lengths(in_buf, &mut out_buf) {
            Ok(_) => Ok(InOutBuf { input: Some(in_buf), output: out_buf }),
            Err(e) => Err(e),
        }
    }

    /// An in-place view of `buf`.
    pub fn from_mut(buf: Vec<T>) -> (r: Self)
        ensures
            r.wf(),
            r.is_in_place(),
            r.in_seq() == buf@,
            r.out_seq() == buf@,
    {
        InOutBuf { input: None, output: buf }
    }

    /// The number of element pairs.
    pub fn len(&self) -> (n: usize)
        requires
            self.wf(),
        ensures
            n == self.in_seq().len(),
            n == self.out_seq().len(),
    {
        self.output.len()
    }

    /// Whether the view holds no element.
    pub fn is_empty(&self) -> (r: bool)
        requires
            self.wf(),
        ensures
            r == (self.in_seq().len() == 0),
    {
        self.output.len() == 0
    }

    /// Reads input element `pos`.
    pub fn get_in(&self, pos: usize) -> (r: &T)
        requires
            self.wf(),
            pos < self.in_seq().len(),
        ensures
            *r == self.in_seq()[pos as int],
    {
        match self.input {
            Some(s) => &s[pos],
            None => &self.output[pos],
        }
    }

    /// Reads output element `pos`.
    pub fn get_out(&self, pos: usize) -> (r: &T)
        requires
            self.wf(),
            pos < self.out_seq().len(),
        ensures
            *r == self.out_seq()[pos as int],
    {
        &self.output[pos]
    }

    /// Writes output element `pos`. Of a view that is not in place the
    /// input side stays as it was.
    pub fn set_out(&mut self, pos: usize, val: T)
        requires
            old(self).wf(),
            pos < old(self).out_seq().len(),
        ensures
            final(self).wf(),
            final(self).is_in_place() == old(self).is_in_place(),
            final(self).out_seq() == old(self).out_seq().update(pos as int, val),
            !old(self).is_in_place() ==> final(self).in_seq() == old(self).in_seq(),
    {
        self.output.set(pos, val);
    }

    /// Reads the whole output side.
    pub fn out_ref(&self) -> (r: &Vec<T>)
        ensures
            r@ == self.out_seq(),
    {
        &self.output
    }

    /// Ends the view and hands back the output side.
    pub fn into_out(self) -> (r: Vec<T>)
        ensures
            r@ == self.out_seq(),
    {
        self.output
    }
}

impl<'a> InOutBuf<'a, Block> {
    /// The bytes of the blocks on the input side.
    pub open spec fn in_blocks(&self) -> Seq<Seq<u8>> {
        rows(self.in_seq())
    }

    /// The bytes of the blocks on the output side.
    pub open spec fn out_blocks(&self) -> Seq<Seq<u8>> {
        rows(self.out_seq())
    }

    /// Moves the pair at `pos` out of the view. The output slot it leaves
    /// behind holds no meaningful block until `put_block` fills it again.
    pub fn take_block(&mut self, pos: usize) -> (pair: InOut<'a, Block>)
        requires
            old(self).wf(),
            pos < old(self).out_seq().len(),
        ensures
            pair.is_in_place() == old(self).is_in_place(),
            pair.in_val() == old(self).in_seq()[pos as int],
            pair.out_val() == old(self).out_seq()[pos as int],
            final(self).wf(),
            final(self).is_in_place() == old(self).is_in_place(),
            final(self).out_seq().len() == old(self).out_seq().len(),
            forall|j: int|
                0 <= j < old(self).out_seq().len() && j != pos ==>
                    final(self).out_seq()[j] == old(self).out_seq()[j],
            !old(self).is_in_place() ==> final(self).in_seq() == old(self).in_seq(),
    {
        self.output.push(Vec::new());
        let block = self.output.swap_remove(pos);
        match self.input {
            Some(s) => InOut { input: Some(&s[pos]), output: block },
            None => InOut { input: None, output: block },
        }
    }

    /// Moves the output side of `pair` into slot `pos`.
    pub fn put_block(&mut self, pos: usize, pair: InOut<'a, Block>)
        requires
            old(self).wf(),
            pos < old(self).out_seq().len(),
        ensures
            final(self).wf(),
            final(self).is_in_place() == old(self).is_in_place(),
            final(self).out_seq() == old(self).out_seq().update(pos as int, pair.out_val()),
            !old(self).is_in_place() ==> final(self).in_seq() == old(self).in_seq(),
    {
        self.output.set(pos, pair.output);
    }

    /// Moves the `n` pairs from `start` on out of the view, as a view of
    /// their own. The output slots they leave behind hold no meaningful
    /// blocks until `put_chunk` fills them again.
    pub fn take_chunk(&mut self, start: usize, n: usize) -> (chunk: InOutBuf<'a, Block>)
        requires
            old(self).wf(),
            start + n <= old(self).out_seq().len(),
        ensures
            chunk.wf(),
            chunk.is_in_place() == old(self).is_in_place(),
            chunk.in_seq() == old(self).in_seq().subrange(start as int, start + n),
            chunk.out_seq() == old(self).out_seq().subrange(start as int, start + n),
            final(self).wf(),
            final(self).is_in_place() == old(self).is_in_place(),
            final(self).out_seq().len() == old(self).out_seq().len(),
            forall|j: int|
                0 <= j < old(self).out_seq().len() && !(start <= j < start + n) ==>
                    final(self).out_seq()[j] == old(self).out_seq()[j],
            !old(self).is_in_place() ==> final(self).in_seq() == old(self).in_seq(),
    {
        let total: usize = self.output.len();
        let mut taken: Vec<Block> = Vec::new();
        let mut i: usize = 0;
        while i < n
            invariant
                i <= n,
                start + n <= total,
                total == old(self).output@.len(),
                self.output@.len() == old(self).output@.len(),
                self.input == old(self).input,
                taken@ == old(self).output@.subrange(start as int, start + i),
                forall|j: int|
                    0 <= j < self.output@.len() && !(start <= j < start + i) ==> self.output@[j]
                        == old(self).output@[j],
            decreases n - i,
        {
            self.output.push(Vec::new());
            let block = self.output.swap_remove(start + i);
            taken.push(block);
            assert(taken@ =~= old(self).output@.subrange(start as int, start + i + 1));
            i += 1;
        }
        match self.input {
            Some(s) => {
                let part = vstd::slice::slice_subrange(s, start, start + n);
                InOutBuf { input: Some(part), output: taken }
            },
            None => InOutBuf { input: None, output: taken },
        }
    }

    /// Moves the output side of `chunk` back into the slots from `start`
    /// on.
    pub fn put_chunk(&mut self, start: usize, chunk: InOutBuf<'a, Block>)
        requires
            old(self).wf(),
            chunk.wf(),
            start + chunk.out_seq().len() <= old(self).out_seq().len(),
        ensures
            final(self).wf(),
            final(self).is_in_place() == old(self).is_in_place(),
            final(self).out_seq().len() == old(self).out_seq().len(),
            forall|j: int|
                start <= j < start + chunk.out_seq().len() ==> final(self).out_seq()[j]
                    == chunk.out_seq()[j - start],
            forall|j: int|
                0 <= j < old(self).out_seq().len() && !(start <= j < start + chunk.out_seq().len())
                    ==> final(self).out_seq()[j] == old(self).out_seq()[j],
            !old(self).is_in_place() ==> final(self).in_seq() == old(self).in_seq(),
    {
        let total: usize = self.output.len();
        let mut rest = chunk.output;
        let ghost all = rest@;
        let mut i: usize = rest.len();
        while i > 0
            invariant
                i == rest@.len(),
                i <= all.len(),
                start + all.len() <= total,
                total == old(self).output@.len(),
                rest@ == all.subrange(0, i as int),
                self.output@.len() == old(self).output@.len(),
                self.input == old(self).input,
                forall|j: int| start + i <= j < start + all.len() ==>
                    self.output@[j] == all[j - start],
                forall|j: int|
                    0 <= j < self.output@.len() && !(start + i <= j < start + all.len())
                        ==> self.output@[j] == old(self).output@[j],
            decreases i,
        {
            let block = rest.pop().unwrap();
            i -= 1;
            self.output.set(start + i, block);
            assert(rest@ =~= all.subrange(0, i as int));
        }
    }
}

} // verus!
