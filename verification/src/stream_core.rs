//! Block-level stream ciphers: keystream generation, its application to
//! blocks and to byte runs that end inside a block, and seeking.
use vstd::prelude::*;
use crate::buffer::{all_sized, rows, Block, InOutBuf};
use crate::chunks::chunk_partition;
use crate::errors::StreamCipherError;
use crate::sizes::{BlockSizeUser, ParBlocksSizeUser};

verus! {

/// The mathematical model of a keystream generator: the block it yields
/// next, and the state it is in after that.
pub trait KeystreamModel: Sized {
    /// The keystream block that is generated next.
    spec fn next_block(&self) -> Seq<u8>;

    /// The state after one keystream block has been generated.
    spec fn advance(&self) -> Self;
}

/// The state after `n` keystream blocks have been generated.
pub open spec fn advanced<S: KeystreamModel>(state: S, n: nat) -> S
    decreases n,
{
    if n == 0 {
        state
    } else {
        advanced(state, (n - 1) as nat).advance()
    }
}

/// The next `n` keystream blocks.
pub open spec fn keystream<S: KeystreamModel>(state: S, n: nat) -> Seq<Seq<u8>> {
    Seq::new(n, |i: int| advanced(state, i as nat).next_block())
}

/// The next `len` keystream bytes, for blocks of `block_size` bytes.
pub open spec fn keystream_bytes<S: KeystreamModel>(state: S, block_size: int, len: nat) -> Seq<u8> {
    Seq::new(len, |j: int| advanced(state, (j / block_size) as nat).next_block()[j % block_size])
}

/// Byte-wise exclusive or of `data` with `key`.
pub open spec fn xor_bytes(data: Seq<u8>, key: Seq<u8>) -> Seq<u8> {
    Seq::new(data.len(), |j: int| data[j] ^ key[j])
}

/// Block-wise, byte-wise exclusive or of `data` with `key`.
pub open spec fn xor_blocks(data: Seq<Seq<u8>>, key: Seq<Seq<u8>>) -> Seq<Seq<u8>> {
    Seq::new(data.len(), |i: int| xor_bytes(data[i], key[i]))
}

/// The number of blocks that `len` bytes occupy: `len / block_size`,
/// rounded up.
pub open spec fn blocks_needed(len: int, block_size: int) -> int {
    if len % block_size == 0 {
        len / block_size
    } else {
        len / block_size + 1
    }
}

/// Generating `m` and then `n` blocks is generating `m + n`.
pub proof fn lemma_advanced_add<S: KeystreamModel>(state: S, m: nat, n: nat)
    ensures
        advanced(advanced(state, m), n) == advanced(state, m + n),
    decreases n,
{
    if n > 0 {
        lemma_advanced_add(state, m, (n - 1) as nat);
        assert(((m + n) - 1) as nat == m + (n - 1) as nat);
    }
}

/// A keystream run may be cut anywhere.
pub proof fn lemma_keystream_concat<S: KeystreamModel>(state: S, m: nat, n: nat)
    ensures
        keystream(state, m + n) == keystream(state, m) + keystream(advanced(state, m), n),
{
    let whole = keystream(state, m + n);
    let parts = keystream(state, m) + keystream(advanced(state, m), n);
    assert forall|i: int| 0 <= i < whole.len() implies whole[i] == parts[i] by {
        if i >= m {
            lemma_advanced_add(state, m, (i - m) as nat);
        }
    }
    assert(whole =~= parts);
}

/// Exclusive or with the same key twice gives the data back.
pub proof fn lemma_xor_bytes_twice(data: Seq<u8>, key: Seq<u8>)
    ensures
        xor_bytes(xor_bytes(data, key), key) == data,
{
    let once = xor_bytes(data, key);
    let twice = xor_bytes(once, key);
    assert forall|j: int| 0 <= j < data.len() implies twice[j] == data[j] by {
        let a: u8 = data[j];
        let b: u8 = key[j];
        assert((a ^ b) ^ b == a) by (bit_vector);
    }
    assert(twice =~= data);
}

/// Applying the same keystream twice gives the blocks back: applying
/// keystream from one position is its own inverse.
pub proof fn lemma_apply_keystream_twice<S: KeystreamModel>(state: S, data: Seq<Seq<u8>>)
    ensures
        xor_blocks(xor_blocks(data, keystream(state, data.len())), keystream(state, data.len()))
            == data,
{
    let ks = keystream(state, data.len());
    let once = xor_blocks(data, ks);
    let twice = xor_blocks(once, ks);
    assert forall|i: int| 0 <= i < data.len() implies twice[i] == data[i] by {
        lemma_xor_bytes_twice(data[i], ks[i]);
    }
    assert(twice =~= data);
}

/// Applying the same keystream twice to a run of bytes gives the bytes
/// back.
pub proof fn lemma_apply_keystream_bytes_twice<S: KeystreamModel>(
    state: S,
    block_size: int,
    data: Seq<u8>,
)
    ensures
        xor_bytes(
            xor_bytes(data, keystream_bytes(state, block_size, data.len())),
            keystream_bytes(state, block_size, data.len()),
        ) == data,
{
    lemma_xor_bytes_twice(data, keystream_bytes(state, block_size, data.len()));
}

/// Counter types usable with a seekable stream cipher.
pub trait Counter:
    TryFrom<i32>
    + TryFrom<u32>
    + TryFrom<u64>
    + TryFrom<u128>
    + TryFrom<usize>
    + TryInto<i32>
    + TryInto<u32>
    + TryInto<u64>
    + TryInto<u128>
    + TryInto<usize>
{

}

impl Counter for u32 {

}

impl Counter for u64 {

}

impl Counter for u128 {

}

/// Combines each block of `blocks` with the keystream block at the same
/// position: reads the input side, writes the exclusive or to the output
/// side. Every input element is read before the element at its position
/// is written, and none is read afterwards, so the view may be in place.
pub fn apply_ks(blocks: &mut InOutBuf<'_, Block>, ks: &Vec<Block>)
    requires
        old(blocks).wf(),
        old(blocks).in_seq().len() == ks@.len(),
        forall|i: int|
            0 <= i < ks@.len() ==> (#[trigger] old(blocks).in_blocks()[i]).len() == ks@[i]@.len(),
    ensures
        final(blocks).wf(),
        final(blocks).is_in_place() == old(blocks).is_in_place(),
        final(blocks).out_blocks() == xor_blocks(old(blocks).in_blocks(), rows(ks@)),
        !old(blocks).is_in_place() ==> final(blocks).in_seq() == old(blocks).in_seq(),
{
    let ghost inputs = blocks.in_blocks();
    let n: usize = blocks.len();
    let mut i: usize = 0;
    while i < n
        invariant
            i <= n,
            n == ks@.len(),
            inputs == old(blocks).in_blocks(),
            inputs.len() == n,
            forall|k: int| 0 <= k < n ==> (#[trigger] inputs[k]).len() == ks@[k]@.len(),
            blocks.wf(),
            blocks.is_in_place() == old(blocks).is_in_place(),
            !blocks.is_in_place() ==> blocks.in_seq() == old(blocks).in_seq(),
            blocks.out_seq().len() == n,
            blocks.in_seq().len() == n,
            forall|k: int|
                0 <= k < i ==> (#[trigger] blocks.out_seq()[k])@ == xor_bytes(inputs[k], ks@[k]@),
            forall|k: int| i <= k < n ==> (#[trigger] blocks.in_seq()[k])@ == inputs[k],
        decreases n - i,
    {
        proof {
            blocks.lemma_sides();
        }
        let a = blocks.get_in(i);
        let b = &ks[i];
        let width: usize = a.len();
        let mut res: Block = Vec::new();
        let mut j: usize = 0;
        while j < width
            invariant
                j <= width,
                width == a@.len(),
                width == b@.len(),
                res@.len() == j,
                forall|t: int| 0 <= t < j ==> res@[t] == a@[t] ^ b@[t],
            decreases width - j,
        {
            res.push(a[j] ^ b[j]);
            j += 1;
        }
        proof {
            assert(res@ =~= xor_bytes(inputs[i as int], ks@[i as int]@));
        }
        blocks.set_out(i, res);
        proof {
            blocks.lemma_sides();
        }
        i += 1;
    }
    proof {
        assert(blocks.out_blocks() =~= xor_blocks(inputs, rows(ks@)));
    }
}

/// The request for `len` bytes does not fit a bounded budget of
/// `remaining` blocks.
pub open spec fn exceeds_budget(remaining: Option<usize>, len: int, block_size: int) -> bool {
    match remaining {
        Some(rem) => blocks_needed(len, block_size) > rem,
        None => false,
    }
}

/// Byte `t` of block `i` is byte `i * block_size + t` of the run.
pub proof fn lemma_block_index(block_size: int, i: int, t: int)
    requires
        block_size > 0,
        i >= 0,
        0 <= t < block_size,
    ensures
        (i * block_size + t) / block_size == i,
        (i * block_size + t) % block_size == t,
{
    vstd::arithmetic::div_mod::lemma_fundamental_div_mod_converse(
        i * block_size + t,
        block_size,
        i,
        t,
    );
}

/// Checks a request for `len` bytes of keystream against the remaining
/// budget: an error exactly when the budget is bounded and smaller than
/// the number of blocks that `len` bytes occupy.
pub fn check_budget(remaining: Option<usize>, len: usize, block_size: usize) -> (r: Result<
    (),
    StreamCipherError,
>)
    requires
        block_size >= 1,
    ensures
        r.is_err() <==> exceeds_budget(remaining, len as int, block_size as int),
{
    match remaining {
        Some(rem) => {
            let whole: usize = len / block_size;
            let part: usize = len % block_size;
            proof {
                vstd::arithmetic::div_mod::lemma_fundamental_div_mod(len as int, block_size as int);
                assert(part != 0 ==> whole < len) by (nonlinear_arith)
                    requires
                        len == block_size * whole + part,
                        block_size >= 1,
                        0 <= whole,
                        0 <= part,
                ;
            }
            let blocks: usize = if part == 0 {
                whole
            } else {
                whole + 1
            };
            if blocks > rem {
                Err(StreamCipherError)
            } else {
                Ok(())
            }
        },
        None => Ok(()),
    }
}

/// Copies `count` input bytes from `start` on into a fresh block of
/// `width` bytes; the bytes after them are zero.
pub fn read_padded(buf: &InOutBuf<'_, u8>, start: usize, count: usize, width: usize) -> (block: Block)
    requires
        buf.wf(),
        start + count <= buf.in_seq().len(),
        count <= width,
    ensures
        block@.len() == width,
        forall|t: int| 0 <= t < count ==> block@[t] == buf.in_seq()[start + t],
        forall|t: int| count <= t < width ==> block@[t] == 0u8,
{
    let total: usize = buf.len();
    let mut block: Block = Vec::new();
    let mut t: usize = 0;
    while t < width
        invariant
            t <= width,
            count <= width,
            buf.wf(),
            total == buf.in_seq().len(),
            start + count <= total,
            block@.len() == t,
            forall|k: int| 0 <= k < t && k < count ==> block@[k] == buf.in_seq()[start + k],
            forall|k: int| count <= k < t ==> block@[k] == 0u8,
        decreases width - t,
    {
        if t < count {
            block.push(*buf.get_in(start + t));
        } else {
            block.push(0u8);
        }
        t += 1;
    }
    block
}

/// Copies the first `count` bytes of `src` to the output side, from
/// `start` on. Nothing else is written.
pub fn write_bytes(buf: &mut InOutBuf<'_, u8>, start: usize, src: &Block, count: usize)
    requires
        old(buf).wf(),
        start + count <= old(buf).out_seq().len(),
        count <= src@.len(),
    ensures
        final(buf).wf(),
        final(buf).is_in_place() == old(buf).is_in_place(),
        final(buf).out_seq().len() == old(buf).out_seq().len(),
        forall|t: int| 0 <= t < count ==> final(buf).out_seq()[start + t] == src@[t],
        forall|j: int|
            0 <= j < old(buf).out_seq().len() && !(start <= j < start + count) ==>
                final(buf).out_seq()[j] == old(buf).out_seq()[j],
        !old(buf).is_in_place() ==> final(buf).in_seq() == old(buf).in_seq(),
{
    let total: usize = buf.len();
    let mut t: usize = 0;
    while t < count
        invariant
            t <= count,
            count <= src@.len(),
            buf.wf(),
            buf.is_in_place() == old(buf).is_in_place(),
            total == buf.out_seq().len(),
            total == old(buf).out_seq().len(),
            start + count <= total,
            forall|k: int| 0 <= k < t ==> buf.out_seq()[start + k] == src@[k],
            forall|j: int|
                0 <= j < total && !(start <= j < start + t) ==>
                    buf.out_seq()[j] == old(buf).out_seq()[j],
            !old(buf).is_in_place() ==> buf.in_seq() == old(buf).in_seq(),
        decreases count - t,
    {
        buf.set_out(start + t, src[t]);
        t += 1;
    }
}

/// Byte `j` of a run of `len` bytes lies in one of the blocks that the run
/// occupies, at offset `j % block_size`.
pub proof fn lemma_block_of_byte(len: int, block_size: int, j: int)
    requires
        block_size >= 1,
        0 <= j < len,
    ensures
        0 <= j / block_size < blocks_needed(len, block_size),
        0 <= j % block_size < block_size,
        (j / block_size) * block_size + j % block_size == j,
{
    vstd::arithmetic::div_mod::lemma_fundamental_div_mod(j, block_size);
    vstd::arithmetic::div_mod::lemma_mod_bound(j, block_size);
    vstd::arithmetic::div_mod::lemma_fundamental_div_mod(len, block_size);
    vstd::arithmetic::div_mod::lemma_mod_bound(len, block_size);
    let q = j / block_size;
    let w = len / block_size;
    assert(block_size * q == q * block_size) by (nonlinear_arith);
    assert(0 <= q) by (nonlinear_arith)
        requires
            q * block_size + j % block_size == j,
            0 <= j,
            j % block_size < block_size,
            block_size >= 1,
    ;
    assert(q <= w) by (nonlinear_arith)
        requires
            q * block_size + j % block_size == j,
            block_size * w + len % block_size == len,
            j < len,
            0 <= j % block_size,
            len % block_size < block_size,
            block_size >= 1,
    ;
    if q == w {
        assert(len % block_size != 0);
    }
}

/// Reads the input side as blocks of `block_size` bytes. A last block that
/// the input does not fill is padded with zeros.
pub fn gather_blocks(buf: &InOutBuf<'_, u8>, block_size: usize) -> (blocks: Vec<Block>)
    requires
        buf.wf(),
        block_size >= 1,
    ensures
        blocks@.len() == blocks_needed(buf.in_seq().len() as int, block_size as int),
        all_sized(rows(blocks@), block_size as nat),
        forall|k: int, t: int|
            0 <= k < blocks@.len() && 0 <= t < block_size ==> (#[trigger] blocks@[k]@[t]) == (if k
                * block_size + t < buf.in_seq().len() {
                buf.in_seq()[k * block_size + t]
            } else {
                0u8
            }),
{
    let len: usize = buf.len();
    let (full, tail) = chunk_partition(len, block_size);
    let ghost data = buf.in_seq();
    let mut blocks: Vec<Block> = Vec::new();
    let mut i: usize = 0;
    let mut pos: usize = 0;
    proof {
        assert(0 * block_size == 0) by (nonlinear_arith);
    }
    while i < full
        invariant
            i <= full,
            block_size >= 1,
            full * block_size + tail == len,
            pos == i * block_size,
            buf.wf(),
            buf.in_seq() == data,
            data.len() == len,
            blocks@.len() == i,
            forall|k: int| 0 <= k < i ==> (#[trigger] blocks@[k])@.len() == block_size,
            forall|k: int, t: int|
                0 <= k < i && 0 <= t < block_size ==> (#[trigger] blocks@[k]@[t]) == data[k
                    * block_size + t],
        decreases full - i,
    {
        proof {
            assert(i * block_size + block_size <= full * block_size) by (nonlinear_arith)
                requires
                    i + 1 <= full,
                    block_size >= 1,
            ;
            assert((i + 1) * block_size == i * block_size + block_size) by (nonlinear_arith);
        }
        let block = read_padded(buf, pos, block_size, block_size);
        blocks.push(block);
        i += 1;
        pos += block_size;
    }
    if tail > 0 {
        let scratch = read_padded(buf, pos, tail, block_size);
        blocks.push(scratch);
    }
    proof {
        assert forall|k: int, t: int|
            0 <= k < blocks@.len() && 0 <= t < block_size implies (#[trigger] blocks@[k]@[t]) == (
        if k * block_size + t < len {
            data[k * block_size + t]
        } else {
            0u8
        }) by {
            if k < full {
                assert(k * block_size + t < full * block_size) by (nonlinear_arith)
                    requires
                        0 <= k,
                        k + 1 <= full,
                        0 <= t < block_size,
                ;
            }
        }
        assert forall|k: int| 0 <= k < rows(blocks@).len() implies (#[trigger] rows(
            blocks@,
        )[k]).len() == block_size by {
            assert(rows(blocks@)[k] == blocks@[k]@);
        }
    }
    blocks
}

/// Writes the leading bytes of `blocks`, taken as one run of bytes, to the
/// output side. What the last block holds beyond the end of the view is
/// discarded.
pub fn scatter_blocks(buf: &mut InOutBuf<'_, u8>, blocks: &Vec<Block>, block_size: usize)
    requires
        old(buf).wf(),
        block_size >= 1,
        blocks@.len() == blocks_needed(old(buf).out_seq().len() as int, block_size as int),
        all_sized(rows(blocks@), block_size as nat),
    ensures
        final(buf).wf(),
        final(buf).is_in_place() == old(buf).is_in_place(),
        final(buf).out_seq().len() == old(buf).out_seq().len(),
        forall|j: int|
            0 <= j < old(buf).out_seq().len() ==> final(buf).out_seq()[j] == blocks@[j
                / block_size as int]@[j % block_size as int],
        !old(buf).is_in_place() ==> final(buf).in_seq() == old(buf).in_seq(),
{
    let len: usize = buf.len();
    let (full, tail) = chunk_partition(len, block_size);
    let mut i: usize = 0;
    let mut pos: usize = 0;
    proof {
        assert(0 * block_size == 0) by (nonlinear_arith);
        assert forall|k: int| 0 <= k < blocks@.len() implies (#[trigger] blocks@[k])@.len()
            == block_size by {
            assert(rows(blocks@)[k] == blocks@[k]@);
        }
    }
    while i < full
        invariant
            i <= full,
            block_size >= 1,
            full * block_size + tail == len,
            pos == i * block_size,
            buf.wf(),
            buf.is_in_place() == old(buf).is_in_place(),
            buf.out_seq().len() == len,
            old(buf).out_seq().len() == len,
            blocks@.len() >= full,
            tail > 0 ==> blocks@.len() > full,
            forall|k: int| 0 <= k < blocks@.len() ==> (#[trigger] blocks@[k])@.len() == block_size,
            forall|j: int|
                0 <= j < pos ==> buf.out_seq()[j] == blocks@[j / block_size as int]@[j
                    % block_size as int],
            !old(buf).is_in_place() ==> buf.in_seq() == old(buf).in_seq(),
        decreases full - i,
    {
        proof {
            assert(i * block_size + block_size <= full * block_size) by (nonlinear_arith)
                requires
                    i + 1 <= full,
                    block_size >= 1,
            ;
            assert((i + 1) * block_size == i * block_size + block_size) by (nonlinear_arith);
        }
        write_bytes(buf, pos, &blocks[i], block_size);
        proof {
            assert forall|j: int| pos <= j < pos + block_size implies buf.out_seq()[j]
                == blocks@[j / block_size as int]@[j % block_size as int] by {
                let t = j - pos;
                lemma_block_index(block_size as int, i as int, t);
                assert(buf.out_seq()[pos + t] == blocks@[i as int]@[t]);
            }
        }
        i += 1;
        pos += block_size;
    }
    if tail > 0 {
        write_bytes(buf, pos, &blocks[full], tail);
        proof {
            assert forall|j: int| pos <= j < pos + tail implies buf.out_seq()[j] == blocks@[j
                / block_size as int]@[j % block_size as int] by {
                let t = j - pos;
                lemma_block_index(block_size as int, full as int, t);
                assert(buf.out_seq()[pos + t] == blocks@[full as int]@[t]);
            }
        }
    }
}

/// Block-level synchronous stream ciphers.
pub trait StreamCipherCore: ParBlocksSizeUser + KeystreamModel {
    /// The number of keystream blocks left before the counter wraps
    /// around, or `None` where there is no such bound or it does not fit
    /// the machine's word.
    spec fn spec_remaining_blocks(&self) -> Option<usize>;

    /// Returns the number of keystream blocks left before the cipher wraps
    /// around; `None` if there is no bound.
    fn remaining_blocks(&self) -> (r: Option<usize>)
        ensures
            r == self.spec_remaining_blocks(),
    ;

    /// Generates the next keystream block and advances by one block. A
    /// bounded budget that is not used up shrinks by one; an unbounded one
    /// stays unbounded.
    fn gen_ks_block(&mut self) -> (ks: Block)
        ensures
            ks@ == old(self).next_block(),
            ks@.len() == old(self).spec_block_size(),
            *final(self) == old(self).advance(),
            final(self).spec_block_size() == old(self).spec_block_size(),
            final(self).spec_par_blocks_size() == old(self).spec_par_blocks_size(),
            match old(self).spec_remaining_blocks() {
                Some(rem) => rem > 0 ==> final(self).spec_remaining_blocks() == Some(
                    (rem - 1) as usize,
                ),
                None => final(self).spec_remaining_blocks() is None,
            },
    ;

    /// Generates the keystream for one full lane group. The blocks are
    /// those that `gen_ks_block` yields one after the other; an override
    /// may only be faster.
    fn gen_par_ks_blocks(&mut self) -> (ks: Vec<Block>)
        ensures
            rows(ks@) == keystream(*old(self), old(self).spec_par_blocks_size()),
            all_sized(rows(ks@), old(self).spec_block_size()),
            *final(self) == advanced(*old(self), old(self).spec_par_blocks_size()),
            final(self).spec_block_size() == old(self).spec_block_size(),
            final(self).spec_par_blocks_size() == old(self).spec_par_blocks_size(),
    {
        let ghost start = *self;
        let lane: usize = self.par_blocks_size();
        let mut ks: Vec<Block> = Vec::new();
        let mut i: usize = 0;
        while i < lane
            invariant
                i <= lane,
                lane == start.spec_par_blocks_size(),
                ks@.len() == i,
                *self == advanced(start, i as nat),
                self.spec_block_size() == start.spec_block_size(),
                self.spec_par_blocks_size() == start.spec_par_blocks_size(),
                forall|k: int| 0 <= k < i ==>
                    (#[trigger] ks@[k])@ == keystream(start, lane as nat)[k],
                forall|k: int| 0 <= k < i ==> (#[trigger] ks@[k])@.len() == start.spec_block_size(),
            decreases lane - i,
        {
            let block = self.gen_ks_block();
            ks.push(block);
            i += 1;
        }
        proof {
            assert(rows(ks@) =~= keystream(start, lane as nat));
        }
        ks
    }

    /// Generates the next `n` keystream blocks: full lane groups first,
    /// then the blocks of the tail one by one. The remaining budget is not
    /// checked.
    fn process_with_keystream_blocks(&mut self, n: usize) -> (ks: Vec<Block>)
        ensures
            rows(ks@) == keystream(*old(self), n as nat),
            all_sized(rows(ks@), old(self).spec_block_size()),
            *final(self) == advanced(*old(self), n as nat),
            final(self).spec_block_size() == old(self).spec_block_size(),
            final(self).spec_par_blocks_size() == old(self).spec_par_blocks_size(),
    {
        let ghost start = *self;
        let lane: usize = self.par_blocks_size();
        let (groups, tail) = chunk_partition(n, lane);
        let mut ks: Vec<Block> = Vec::new();
        let mut k: usize = 0;
        proof {
            assert(0 * lane == 0) by (nonlinear_arith);
        }
        while k < groups
            invariant
                k <= groups,
                lane >= 1,
                lane == start.spec_par_blocks_size(),
                groups * lane + tail == n,
                ks@.len() == k * lane,
                *self == advanced(start, (k * lane) as nat),
                self.spec_block_size() == start.spec_block_size(),
                self.spec_par_blocks_size() == start.spec_par_blocks_size(),
                rows(ks@) == keystream(start, (k * lane) as nat),
                all_sized(rows(ks@), start.spec_block_size()),
            decreases groups - k,
        {
            let ghost before = ks@;
            let mut group = self.gen_par_ks_blocks();
            let ghost fresh = group@;
            proof {
                assert(k * lane + lane <= groups * lane) by (nonlinear_arith)
                    requires
                        k + 1 <= groups,
                        lane >= 1,
                ;
                assert((k + 1) * lane == k * lane + lane) by (nonlinear_arith);
                lemma_keystream_concat(start, (k * lane) as nat, lane as nat);
                lemma_advanced_add(start, (k * lane) as nat, lane as nat);
                assert(rows(fresh).len() == lane);
            }
            ks.append(&mut group);
            proof {
                assert(rows(ks@) =~= rows(before) + rows(fresh));
            }
            k += 1;
        }
        let mut i: usize = 0;
        let ghost base = (groups * lane) as nat;
        while i < tail
            invariant
                i <= tail,
                base + tail == n,
                ks@.len() == base + i,
                *self == advanced(start, base + i as nat),
                self.spec_block_size() == start.spec_block_size(),
                self.spec_par_blocks_size() == start.spec_par_blocks_size(),
                rows(ks@) == keystream(start, base + i as nat),
                all_sized(rows(ks@), start.spec_block_size()),
            decreases tail - i,
        {
            let ghost before = ks@;
            let block = self.gen_ks_block();
            ks.push(block);
            proof {
                let longer = keystream(start, base + i as nat + 1);
                assert forall|k: int| 0 <= k < ks@.len() implies (#[trigger] rows(ks@)[k])
                    == longer[k] && rows(ks@)[k].len() == start.spec_block_size() by {
                    if k < base + i {
                        assert(ks@[k] == before[k]);
                        assert(rows(before)[k] == keystream(start, base + i as nat)[k]);
                    }
                }
                assert(rows(ks@) =~= longer);
            }
            i += 1;
        }
        ks
    }

    /// Combines `blocks` with freshly generated keystream, chunk by chunk:
    /// full lane groups first, then the tail. Each chunk is combined block
    /// by block and byte by byte, and `post_fn` is called once per chunk on
    /// its combined output. The remaining budget is not checked.
    fn apply_keystream_blocks<F: Fn(&Vec<Block>)>(
        &mut self,
        blocks: &mut InOutBuf<'_, Block>,
        post_fn: F,
    )
        requires
            old(blocks).wf(),
            all_sized(old(blocks).in_blocks(), old(self).spec_block_size()),
            forall|out: &Vec<Block>| call_requires(post_fn, (out,)),
        ensures
            final(blocks).wf(),
            final(blocks).is_in_place() == old(blocks).is_in_place(),
            final(blocks).out_blocks() == xor_blocks(
                old(blocks).in_blocks(),
                keystream(*old(self), old(blocks).in_seq().len()),
            ),
            !old(blocks).is_in_place() ==> final(blocks).in_seq() == old(blocks).in_seq(),
            *final(self) == advanced(*old(self), old(blocks).in_seq().len()),
            final(self).spec_block_size() == old(self).spec_block_size(),
            final(self).spec_par_blocks_size() == old(self).spec_par_blocks_size(),
    {
        let ghost start = *self;
        let ghost inputs = blocks.in_blocks();
        let n: usize = blocks.len();
        let lane: usize = self.par_blocks_size();
        let mut from: usize = 0;
        while from < n
            invariant
                from <= n,
                lane >= 1,
                lane == start.spec_par_blocks_size(),
                n == inputs.len(),
                all_sized(inputs, start.spec_block_size()),
                blocks.wf(),
                blocks.is_in_place() == old(blocks).is_in_place(),
                !blocks.is_in_place() ==> blocks.in_seq() == old(blocks).in_seq(),
                blocks.out_seq().len() == n,
                blocks.in_seq().len() == n,
                *self == advanced(start, from as nat),
                self.spec_block_size() == start.spec_block_size(),
                self.spec_par_blocks_size() == start.spec_par_blocks_size(),
                forall|j: int|
                    0 <= j < from ==> (#[trigger] blocks.out_seq()[j])@ == xor_bytes(
                        inputs[j],
                        advanced(start, j as nat).next_block(),
                    ),
                forall|j: int| from <= j < n ==> (#[trigger] blocks.in_seq()[j])@ == inputs[j],
                forall|out: &Vec<Block>| call_requires(post_fn, (out,)),
            decreases n - from,
        {
            let ghost entry = *self;
            let count: usize = if n - from >= lane {
                lane
            } else {
                n - from
            };
            let ks = if count == lane {
                self.gen_par_ks_blocks()
            } else {
                self.process_with_keystream_blocks(count)
            };
            proof {
                blocks.lemma_sides();
                assert(rows(ks@).len() == count);
            }
            let mut chunk = blocks.take_chunk(from, count);
            let ghost taken = *blocks;
            let ghost part = chunk.in_blocks();
            proof {
                taken.lemma_sides();
                assert forall|i: int| 0 <= i < count implies (#[trigger] part[i]) == inputs[from
                    + i] && part[i].len() == ks@[i]@.len() by {
                    assert(rows(ks@)[i] == ks@[i]@);
                    assert(inputs[from + i].len() == start.spec_block_size());
                }
            }
            apply_ks(&mut chunk, &ks);
            post_fn(chunk.out_ref());
            let ghost outs = chunk.out_blocks();
            proof {
                assert(outs.len() == count);
                assert(chunk.out_seq().len() == count);
            }
            blocks.put_chunk(from, chunk);
            proof {
                blocks.lemma_sides();
                lemma_advanced_add(start, from as nat, count as nat);
                assert forall|j: int| from <= j < from + count implies (
                #[trigger] blocks.out_seq()[j])@ == xor_bytes(
                    inputs[j],
                    advanced(start, j as nat).next_block(),
                ) by {
                    let i = j - from;
                    lemma_advanced_add(start, from as nat, i as nat);
                    assert(outs[i] == xor_bytes(part[i], rows(ks@)[i]));
                    assert(rows(ks@)[i] == keystream(entry, count as nat)[i]);
                }
            }
            from += count;
        }
        proof {
            assert(blocks.out_blocks() =~= xor_blocks(inputs, keystream(start, n as nat)));
        }
    }

    /// Writes the next keystream blocks over the blocks of `buf`. The
    /// remaining budget is not checked.
    fn write_keystream_blocks(&mut self, buf: &mut Vec<Block>)
        ensures
            rows(final(buf)@) == keystream(*old(self), old(buf)@.len()),
            all_sized(rows(final(buf)@), old(self).spec_block_size()),
            *final(self) == advanced(*old(self), old(buf)@.len()),
            final(self).spec_block_size() == old(self).spec_block_size(),
            final(self).spec_par_blocks_size() == old(self).spec_par_blocks_size(),
    {
        let n: usize = buf.len();
        let mut ks = self.process_with_keystream_blocks(n);
        let ghost all = ks@;
        let mut i: usize = n;
        proof {
            assert(rows(all).len() == n);
        }
        while i > 0
            invariant
                i <= n,
                n == all.len(),
                buf@.len() == n,
                ks@ == all.subrange(0, i as int),
                forall|k: int| i <= k < n ==> buf@[k] == all[k],
            decreases i,
        {
            let block = ks.pop().unwrap();
            i -= 1;
            buf.set(i, block);
            assert(ks@ =~= all.subrange(0, i as int));
        }
        proof {
            assert(buf@ =~= all);
        }
    }

    /// Applies keystream to bytes that need not fill whole blocks.
    ///
    /// The budget is checked before any byte is read or written: on an
    /// error `buf` is as it was. Otherwise the whole leading blocks are
    /// combined with one keystream block each, and a shorter last run is
    /// combined with the leading bytes of one more keystream block, whose
    /// other bytes are discarded. The cipher is consumed for that reason.
    fn try_apply_keystream_partial(self, buf: &mut InOutBuf<'_, u8>) -> (r: Result<
        (),
        StreamCipherError,
    >)
        requires
            old(buf).wf(),
            self.spec_block_size() >= 1,
        ensures
            final(buf).wf(),
            final(buf).is_in_place() == old(buf).is_in_place(),
            r.is_err() <==> exceeds_budget(
                self.spec_remaining_blocks(),
                old(buf).in_seq().len() as int,
                self.spec_block_size() as int,
            ),
            r.is_err() ==>
                final(buf).out_seq() == old(buf).out_seq() && final(buf).in_seq() == old(buf).in_seq(),
            r.is_ok() ==> final(buf).out_seq() == xor_bytes(
                old(buf).in_seq(),
                keystream_bytes(self, self.spec_block_size() as int, old(buf).in_seq().len()),
            ),
            !old(buf).is_in_place() ==> final(buf).in_seq() == old(buf).in_seq(),
    {
        let ghost start = self;
        let ghost data = buf.in_seq();
        let mut cipher = self;
        let bs: usize = cipher.block_size();
        let len: usize = buf.len();
        match check_budget(cipher.remaining_blocks(), len, bs) {
            Err(e) => {
                return Err(e);
            },
            Ok(_) => {},
        }
        // Every input byte is read before the first output byte is written.
        let blocks = gather_blocks(buf, bs);
        let ghost held = blocks@;
        let mut view = InOutBuf::from_mut(blocks);
        let hook = |_out: &Vec<Block>| {};
        cipher.apply_keystream_blocks(&mut view, hook);
        let outs = view.into_out();
        proof {
            assert(rows(outs@).len() == held.len());
            assert forall|k: int| 0 <= k < rows(outs@).len() implies (#[trigger] rows(
                outs@,
            )[k]).len() == bs by {
                assert(rows(held)[k] == held[k]@);
            }
        }
        scatter_blocks(buf, &outs, bs);
        proof {
            let ks = keystream(start, held.len());
            let wanted = xor_bytes(data, keystream_bytes(start, bs as int, len as nat));
            assert forall|j: int| 0 <= j < len implies buf.out_seq()[j] == wanted[j] by {
                lemma_block_of_byte(len as int, bs as int, j);
                let k = j / bs as int;
                let t = j % bs as int;
                assert(rows(outs@)[k] == outs@[k]@);
                assert(rows(held)[k] == held[k]@);
                assert(xor_blocks(rows(held), ks)[k] == xor_bytes(rows(held)[k], ks[k]));
                assert(held[k]@[t] == data[k * bs + t]);
            }
            assert(buf.out_seq() =~= wanted);
        }
        Ok(())
    }

    /// Applies keystream to bytes that need not fill whole blocks, for a
    /// caller who has made sure that the remaining budget covers them.
    fn apply_keystream_partial(self, buf: &mut InOutBuf<'_, u8>)
        requires
            old(buf).wf(),
            self.spec_block_size() >= 1,
            !exceeds_budget(
                self.spec_remaining_blocks(),
                old(buf).in_seq().len() as int,
                self.spec_block_size() as int,
            ),
        ensures
            final(buf).wf(),
            final(buf).is_in_place() == old(buf).is_in_place(),
            final(buf).out_seq() == xor_bytes(
                old(buf).in_seq(),
                keystream_bytes(self, self.spec_block_size() as int, old(buf).in_seq().len()),
            ),
            !old(buf).is_in_place() ==> final(buf).in_seq() == old(buf).in_seq(),
    {
        let _ = self.try_apply_keystream_partial(buf);
    }
}

/// Block-level seeking for stream ciphers. The keystream block at a
/// position depends on the key and the position alone: generating and
/// seeking move the position and leave the key as it is.
pub trait StreamCipherSeekCore: StreamCipherCore {
    /// The counter type that the cipher positions itself by.
    type Counter: Counter;

    /// The index of the keystream block that is generated next.
    spec fn spec_block_pos(&self) -> Self::Counter;

    /// The state that a seek to `pos` leaves.
    spec fn seek(&self, pos: Self::Counter) -> Self;

    /// The keystream block that the cipher's key yields at position `pos`.
    spec fn block_at(&self, pos: Self::Counter) -> Seq<u8>;

    /// The block generated next is the one at the current position.
    proof fn lemma_next_block_at_pos(&self)
        ensures
            self.next_block() == self.block_at(self.spec_block_pos()),
    ;

    /// Generating a block leaves the key as it is.
    proof fn lemma_advance_keeps_key(&self, pos: Self::Counter)
        ensures
            self.advance().block_at(pos) == self.block_at(pos),
    ;

    /// Where generating a block moves the position depends on the position
    /// alone.
    proof fn lemma_advance_moves_by_pos(&self, other: &Self)
        requires
            self.spec_block_pos() == other.spec_block_pos(),
        ensures
            self.advance().spec_block_pos() == other.advance().spec_block_pos(),
    ;

    /// Seeking sets the position and leaves the key as it is.
    proof fn lemma_seek_keeps_key(&self, to: Self::Counter, pos: Self::Counter)
        ensures
            self.seek(to).spec_block_pos() == to,
            self.seek(to).block_at(pos) == self.block_at(pos),
    ;

    /// Returns the current block position.
    fn get_block_pos(&self) -> (pos: Self::Counter)
        ensures
            pos == self.spec_block_pos(),
    ;

    /// Sets the block position, whatever has been generated before.
    fn set_block_pos(&mut self, pos: Self::Counter)
        ensures
            *final(self) == old(self).seek(pos),
            final(self).spec_block_pos() == pos,
            final(self).spec_block_size() == old(self).spec_block_size(),
            final(self).spec_par_blocks_size() == old(self).spec_par_blocks_size(),
    ;
}

/// Generating any number of blocks leaves the key as it is.
pub proof fn lemma_advanced_keeps_key<S: StreamCipherSeekCore>(state: S, n: nat, pos: S::Counter)
    ensures
        advanced(state, n).block_at(pos) == state.block_at(pos),
    decreases n,
{
    if n > 0 {
        lemma_advanced_keeps_key(state, (n - 1) as nat, pos);
        advanced(state, (n - 1) as nat).lemma_advance_keeps_key(pos);
    }
}

/// Two cipher states stand at the same position under the same key.
pub open spec fn same_stream<S: StreamCipherSeekCore>(a: S, b: S) -> bool {
    &&& a.spec_block_pos() == b.spec_block_pos()
    &&& forall|pos: S::Counter| #[trigger] a.block_at(pos) == b.block_at(pos)
}

/// States at the same position under the same key generate the same
/// keystream.
pub proof fn lemma_same_stream<S: StreamCipherSeekCore>(a: S, b: S, n: nat)
    requires
        same_stream(a, b),
    ensures
        same_stream(advanced(a, n), advanced(b, n)),
        keystream(a, n) == keystream(b, n),
    decreases n,
{
    if n > 0 {
        let m = (n - 1) as nat;
        lemma_same_stream(a, b, m);
        let x = advanced(a, m);
        let y = advanced(b, m);
        x.lemma_advance_moves_by_pos(&y);
        assert forall|pos: S::Counter| #[trigger]
            x.advance().block_at(pos) == y.advance().block_at(pos) by {
            x.lemma_advance_keeps_key(pos);
            y.lemma_advance_keeps_key(pos);
        }
        x.lemma_next_block_at_pos();
        y.lemma_next_block_at_pos();
        assert forall|i: int| 0 <= i < n implies keystream(a, n)[i] == keystream(b, n)[i] by {
            if i < m {
                assert(keystream(a, m)[i] == keystream(b, m)[i]);
            }
        }
    }
    assert(keystream(a, n) =~= keystream(b, n));
}

/// Seeking is deterministic: after `n` blocks have been generated, a seek
/// to the position at which block `i` of that run was generated makes the
/// cipher generate the run again from that block on.
pub proof fn lemma_seek_determinism<S: StreamCipherSeekCore>(state: S, n: nat, i: nat)
    requires
        i < n,
    ensures
        same_stream(advanced(state, n).seek(advanced(state, i).spec_block_pos()), advanced(state, i)),
        advanced(state, n).seek(advanced(state, i).spec_block_pos()).next_block() == keystream(
            state,
            n,
        )[i as int],
{
    let then = advanced(state, i);
    let late = advanced(state, n);
    let pos = then.spec_block_pos();
    let back = late.seek(pos);
    late.lemma_seek_keeps_key(pos, pos);
    assert forall|p: S::Counter| #[trigger] back.block_at(p) == then.block_at(p) by {
        late.lemma_seek_keeps_key(pos, p);
        lemma_advanced_keeps_key(state, n, p);
        lemma_advanced_keeps_key(state, i, p);
    }
    back.lemma_next_block_at_pos();
    then.lemma_next_block_at_pos();
}

/// Applying keystream is its own inverse: after keystream has been applied
/// to `data`, a seek back to the position at which that began and a second
/// application give `data` again.
pub proof fn lemma_seek_round_trip<S: StreamCipherSeekCore>(state: S, data: Seq<Seq<u8>>)
    ensures
        xor_blocks(
            xor_blocks(data, keystream(state, data.len())),
            keystream(advanced(state, data.len()).seek(state.spec_block_pos()), data.len()),
        ) == data,
{
    let n = data.len();
    let late = advanced(state, n);
    let back = late.seek(state.spec_block_pos());
    late.lemma_seek_keeps_key(state.spec_block_pos(), state.spec_block_pos());
    assert forall|p: S::Counter| #[trigger] back.block_at(p) == state.block_at(p) by {
        late.lemma_seek_keeps_key(state.spec_block_pos(), p);
        lemma_advanced_keeps_key(state, n, p);
    }
    lemma_same_stream(back, state, n);
    lemma_apply_keystream_twice(state, data);
}

} // verus!
