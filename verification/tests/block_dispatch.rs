use cipher::block::{BlockBackend, BlockClosure, BlockTransform, BlocksCtx};
use cipher::buffer::{Block, InOut, InOutBuf};
use cipher::sizes::{BlockSizeUser, ParBlocksSizeUser};

/// Adds `key + counter` to every byte and counts the blocks it has seen.
struct AddBackend {
    key: u8,
    seen: u8,
    lanes: usize,
}

impl BlockSizeUser for AddBackend {
    fn spec_block_size(&self) -> vstd::prelude::nat {
        unreachable!()
    }

    fn block_size(&self) -> usize {
        4
    }
}

impl ParBlocksSizeUser for AddBackend {
    fn spec_par_blocks_size(&self) -> vstd::prelude::nat {
        unreachable!()
    }

    fn par_blocks_size(&self) -> usize {
        self.lanes
    }
}

impl BlockTransform for AddBackend {
    fn block_output(&self, _: vstd::seq::Seq<u8>) -> vstd::seq::Seq<u8> {
        unreachable!()
    }

    fn block_next(&self, _: vstd::seq::Seq<u8>) -> Self {
        unreachable!()
    }
}

impl BlockBackend for AddBackend {
    fn proc_block(&mut self, block: &mut InOut<'_, Block>) {
        let out: Block = block
            .get_in()
            .iter()
            .map(|b| b.wrapping_add(self.key).wrapping_add(self.seen))
            .collect();
        block.set_out(out);
        self.seen = self.seen.wrapping_add(1);
    }
}

fn sample(n: usize) -> Vec<Block> {
    (0..n).map(|i| vec![i as u8, 2 * i as u8, 3 * i as u8, 7]).collect()
}

fn run(lanes: usize, n: usize) -> Vec<Block> {
    let mut backend = AddBackend { key: 9, seen: 0, lanes };
    let mut ctx = BlocksCtx { block_size: 4, blocks: InOutBuf::from_mut(sample(n)) };
    ctx.call(&mut backend);
    assert_eq!(backend.seen as usize, n);
    ctx.blocks.into_out()
}

#[test]
fn batched_run_equals_scalar_run() {
    for n in 0..12 {
        let scalar = run(1, n);
        assert_eq!(run(4, n), scalar);
        assert_eq!(run(3, n), scalar);
    }
}

#[test]
fn blocks_are_processed_in_order() {
    let out = run(4, 10);
    let input = sample(10);
    for i in 0..10 {
        let want: Block = input[i].iter().map(|b| b.wrapping_add(9).wrapping_add(i as u8)).collect();
        assert_eq!(out[i], want);
    }
}
