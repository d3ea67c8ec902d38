use cipher::block::{
    BlockBackend, BlockCipher, BlockClosure, BlockDecrypt, BlockDecryptMut, BlockEncrypt,
    BlockEncryptMut, BlockTransform,
};
use cipher::buffer::{Block, InOut, InOutBuf};
use cipher::errors::LengthMismatch;
use cipher::sizes::{BlockSizeUser, ParBlocksSizeUser};
use vstd::prelude::nat;
use vstd::seq::Seq;

const SIZE: usize = 4;

/// Rotates the block by one byte and adds the key to every byte.
struct Toy {
    key: u8,
    lanes: usize,
}

struct ToyBackend {
    key: u8,
    lanes: usize,
    forward: bool,
}

impl BlockSizeUser for Toy {
    fn spec_block_size(&self) -> nat {
        unreachable!()
    }

    fn block_size(&self) -> usize {
        SIZE
    }
}

impl BlockCipher for Toy {}

impl BlockSizeUser for ToyBackend {
    fn spec_block_size(&self) -> nat {
        unreachable!()
    }

    fn block_size(&self) -> usize {
        SIZE
    }
}

impl ParBlocksSizeUser for ToyBackend {
    fn spec_par_blocks_size(&self) -> nat {
        unreachable!()
    }

    fn par_blocks_size(&self) -> usize {
        self.lanes
    }
}

impl BlockTransform for ToyBackend {
    fn block_output(&self, _: Seq<u8>) -> Seq<u8> {
        unreachable!()
    }

    fn block_next(&self, _: Seq<u8>) -> Self {
        unreachable!()
    }
}

fn seal(key: u8, input: &[u8]) -> Block {
    (0..SIZE).map(|i| input[(i + 1) % SIZE].wrapping_add(key)).collect()
}

fn open(key: u8, input: &[u8]) -> Block {
    (0..SIZE).map(|i| input[(i + SIZE - 1) % SIZE].wrapping_sub(key)).collect()
}

impl BlockBackend for ToyBackend {
    fn proc_block(&mut self, block: &mut InOut<'_, Block>) {
        let out = if self.forward {
            seal(self.key, block.get_in())
        } else {
            open(self.key, block.get_in())
        };
        block.set_out(out);
    }
}

impl BlockEncrypt for Toy {
    type EncBackend = ToyBackend;

    fn enc_backend(&self) -> ToyBackend {
        unreachable!()
    }

    fn encrypt_with_backend<C: BlockClosure>(&self, f: &mut C) {
        f.call(&mut ToyBackend { key: self.key, lanes: self.lanes, forward: true });
    }
}

impl BlockDecrypt for Toy {
    type DecBackend = ToyBackend;

    fn dec_backend(&self) -> ToyBackend {
        unreachable!()
    }

    fn decrypt_with_backend<C: BlockClosure>(&self, f: &mut C) {
        f.call(&mut ToyBackend { key: self.key, lanes: self.lanes, forward: false });
    }
}

fn sample(n: usize) -> Vec<Block> {
    (0..n).map(|i| vec![i as u8, 0x20 + i as u8, 0x40 + i as u8, 0xf0 + i as u8]).collect()
}

#[test]
fn encrypt_block_gives_the_exact_block() {
    let toy = Toy { key: 3, lanes: 1 };
    let mut block = vec![1u8, 2, 3, 255];
    toy.encrypt_block(&mut block);
    assert_eq!(block, vec![5u8, 6, 2, 4]);
}

#[test]
fn encrypt_block_b2b_leaves_input_and_fills_output() {
    let toy = Toy { key: 3, lanes: 1 };
    let input = vec![1u8, 2, 3, 255];
    let mut output = vec![0u8; 4];
    toy.encrypt_block_b2b(&input, &mut output);
    assert_eq!(input, vec![1u8, 2, 3, 255]);
    assert_eq!(output, vec![5u8, 6, 2, 4]);
    let mut back = vec![0u8; 4];
    toy.decrypt_block_b2b(&output, &mut back);
    assert_eq!(back, input);
}

#[test]
fn encrypt_block_inout_both_forms() {
    let toy = Toy { key: 1, lanes: 2 };
    let done = toy.encrypt_block_inout(InOut::from_mut(vec![1u8, 2, 3, 4]));
    assert_eq!(done.into_out(), vec![3u8, 4, 5, 2]);
    let src = vec![1u8, 2, 3, 4];
    let done = toy.decrypt_block_inout(InOut::new(&src, vec![9u8; 4]));
    assert_eq!(done.into_out(), vec![3u8, 0, 1, 2]);
}

#[test]
fn in_place_equals_buffer_to_buffer() {
    for lanes in [1usize, 2, 4] {
        for n in 0..11 {
            let toy = Toy { key: 0x5a, lanes };
            let input = sample(n);
            let mut in_place = input.clone();
            toy.encrypt_blocks(&mut in_place);
            let mut out = vec![vec![0u8; SIZE]; n];
            assert_eq!(toy.encrypt_blocks_b2b(&input, &mut out), Ok(()));
            assert_eq!(in_place, out);
            let expected: Vec<Block> = input.iter().map(|b| seal(0x5a, b)).collect();
            assert_eq!(out, expected);
        }
    }
}

#[test]
fn batched_encryption_equals_block_by_block() {
    for n in 0..13 {
        let input = sample(n);
        let mut one = input.clone();
        Toy { key: 7, lanes: 1 }.encrypt_blocks(&mut one);
        let mut four = input.clone();
        Toy { key: 7, lanes: 4 }.encrypt_blocks(&mut four);
        assert_eq!(one, four);
        let mut single = input.clone();
        for block in single.iter_mut() {
            Toy { key: 7, lanes: 4 }.encrypt_block(block);
        }
        assert_eq!(single, four);
    }
}

#[test]
fn decrypt_undoes_encrypt() {
    for key in [0u8, 1, 0x80, 0xff] {
        let toy = Toy { key, lanes: 4 };
        let input = sample(10);
        let mut work = input.clone();
        toy.encrypt_blocks(&mut work);
        assert_ne!(work, input);
        toy.decrypt_blocks(&mut work);
        assert_eq!(work, input);
        let mut block = vec![9u8, 8, 7, 6];
        toy.encrypt_block(&mut block);
        toy.decrypt_block(&mut block);
        assert_eq!(block, vec![9u8, 8, 7, 6]);
    }
}

#[test]
fn length_mismatch_leaves_output_unmodified() {
    let toy = Toy { key: 7, lanes: 4 };
    let input = sample(5);
    let mut output = vec![vec![0xabu8; SIZE]; 4];
    assert_eq!(toy.encrypt_blocks_b2b(&input, &mut output), Err(LengthMismatch));
    assert_eq!(output, vec![vec![0xabu8; SIZE]; 4]);
    assert_eq!(toy.decrypt_blocks_b2b(&input, &mut output), Err(LengthMismatch));
    assert_eq!(output, vec![vec![0xabu8; SIZE]; 4]);
}

#[test]
fn blocks_inout_views() {
    let toy = Toy { key: 2, lanes: 4 };
    let input = sample(6);
    let view = InOutBuf::new(&input, vec![Vec::new(); 6]).unwrap();
    let sealed = toy.encrypt_blocks_inout(view).into_out();
    let expected: Vec<Block> = input.iter().map(|b| seal(2, b)).collect();
    assert_eq!(sealed, expected);
    let opened = toy.decrypt_blocks_inout(InOutBuf::from_mut(sealed)).into_out();
    assert_eq!(opened, input);
}

#[test]
fn shared_access_cipher_offers_exclusive_access_surface() {
    let mut toy = Toy { key: 0x11, lanes: 4 };
    let input = sample(9);
    let mut shared = input.clone();
    toy.encrypt_blocks(&mut shared);
    let mut exclusive = input.clone();
    toy.encrypt_blocks_mut(&mut exclusive);
    assert_eq!(shared, exclusive);
    let mut out = vec![vec![0u8; SIZE]; 9];
    assert_eq!(toy.decrypt_blocks_b2b_mut(&exclusive, &mut out), Ok(()));
    assert_eq!(out, input);
    let mut short = vec![vec![1u8; SIZE]; 8];
    assert_eq!(toy.encrypt_blocks_b2b_mut(&input, &mut short), Err(LengthMismatch));
    assert_eq!(short, vec![vec![1u8; SIZE]; 8]);
    let mut block = vec![1u8, 2, 3, 4];
    toy.encrypt_block_mut(&mut block);
    assert_eq!(block, vec![0x13u8, 0x14, 0x15, 0x12]);
    toy.decrypt_block_mut(&mut block);
    assert_eq!(block, vec![1u8, 2, 3, 4]);
    let mut copy = vec![0u8; 4];
    toy.encrypt_block_b2b_mut(&block, &mut copy);
    assert_eq!(copy, vec![0x13u8, 0x14, 0x15, 0x12]);
    toy.decrypt_block_b2b_mut(&copy, &mut block);
    assert_eq!(block, vec![1u8, 2, 3, 4]);
    let done = toy.encrypt_block_inout_mut(InOut::from_mut(vec![0u8; 4]));
    assert_eq!(done.into_out(), vec![0x11u8; 4]);
    let done = toy.decrypt_block_inout_mut(InOut::from_mut(vec![0x11u8; 4]));
    assert_eq!(done.into_out(), vec![0u8; 4]);
    let run = toy.encrypt_blocks_inout_mut(InOutBuf::from_mut(input.clone())).into_out();
    assert_eq!(run, shared);
    let back = toy.decrypt_blocks_inout_mut(InOutBuf::from_mut(run)).into_out();
    assert_eq!(back, input);
    toy.decrypt_blocks_mut(&mut exclusive);
    assert_eq!(exclusive, input);
}
