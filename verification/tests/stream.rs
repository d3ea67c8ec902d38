use cipher::buffer::{Block, InOutBuf};
use cipher::errors::StreamCipherError;
use cipher::sizes::{BlockSizeUser, ParBlocksSizeUser};
use cipher::stream_core::{
    apply_ks, check_budget, gather_blocks, read_padded, scatter_blocks, write_bytes,
    KeystreamModel, StreamCipherCore, StreamCipherSeekCore,
};
use std::cell::RefCell;
use vstd::prelude::nat;
use vstd::seq::Seq;

/// Keystream byte `j` of block `pos` is `key + 16 * pos + j`; the counter
/// wraps after `limit` blocks.
#[derive(Clone)]
struct Ctr {
    key: u8,
    pos: u32,
    limit: Option<u32>,
    size: usize,
    lanes: usize,
}

impl Ctr {
    fn new(key: u8) -> Self {
        Ctr { key, pos: 0, limit: None, size: 16, lanes: 4 }
    }

    fn block_at(&self, pos: u32) -> Block {
        (0..self.size)
            .map(|j| self.key.wrapping_add((pos as u8).wrapping_mul(16)).wrapping_add(j as u8))
            .collect()
    }
}

impl BlockSizeUser for Ctr {
    fn spec_block_size(&self) -> nat {
        unreachable!()
    }

    fn block_size(&self) -> usize {
        self.size
    }
}

impl ParBlocksSizeUser for Ctr {
    fn spec_par_blocks_size(&self) -> nat {
        unreachable!()
    }

    fn par_blocks_size(&self) -> usize {
        self.lanes
    }
}

impl KeystreamModel for Ctr {
    fn next_block(&self) -> Seq<u8> {
        unreachable!()
    }

    fn advance(&self) -> Self {
        unreachable!()
    }
}

impl StreamCipherCore for Ctr {
    fn spec_remaining_blocks(&self) -> Option<usize> {
        unreachable!()
    }

    fn remaining_blocks(&self) -> Option<usize> {
        self.limit.map(|limit| (limit - self.pos) as usize)
    }

    fn gen_ks_block(&mut self) -> Block {
        let block = self.block_at(self.pos);
        self.pos = match self.limit {
            Some(limit) if self.pos + 1 >= limit => 0,
            _ => self.pos + 1,
        };
        block
    }
}

impl StreamCipherSeekCore for Ctr {
    type Counter = u32;

    fn spec_block_pos(&self) -> u32 {
        unreachable!()
    }

    fn seek(&self, _: u32) -> Self {
        unreachable!()
    }

    fn block_at(&self, _: u32) -> Seq<u8> {
        unreachable!()
    }

    fn lemma_next_block_at_pos(&self) {}

    fn lemma_advance_keeps_key(&self, _: u32) {}

    fn lemma_advance_moves_by_pos(&self, _: &Self) {}

    fn lemma_seek_keeps_key(&self, _: u32, _: u32) {}

    fn get_block_pos(&self) -> u32 {
        self.pos
    }

    fn set_block_pos(&mut self, pos: u32) {
        self.pos = pos;
    }
}

fn data(n: usize) -> Vec<u8> {
    (0..n).map(|i| (i as u8).wrapping_mul(3).wrapping_add(1)).collect()
}

fn stream_byte(key: u8, j: usize) -> u8 {
    key.wrapping_add(((j / 16) as u8).wrapping_mul(16)).wrapping_add((j % 16) as u8)
}

#[test]
fn seek_reproduces_the_block_of_the_first_run() {
    let mut ctr = Ctr::new(0x33);
    let mut run = vec![Vec::new(); 10];
    ctr.write_keystream_blocks(&mut run);
    assert_eq!(ctr.get_block_pos(), 10);
    ctr.set_block_pos(5);
    assert_eq!(ctr.get_block_pos(), 5);
    let mut one = vec![Vec::new(); 1];
    ctr.write_keystream_blocks(&mut one);
    assert_eq!(one[0], run[5]);
    assert_eq!(ctr.get_block_pos(), 6);
}

#[test]
fn write_keystream_blocks_gives_the_exact_blocks() {
    let mut ctr = Ctr::new(1);
    let mut run = vec![vec![0u8; 16]; 6];
    ctr.write_keystream_blocks(&mut run);
    for (i, block) in run.iter().enumerate() {
        let want: Block = (0..16).map(|j| stream_byte(1, 16 * i + j)).collect();
        assert_eq!(block, &want);
    }
    let mut none: Vec<Block> = Vec::new();
    ctr.write_keystream_blocks(&mut none);
    assert_eq!(ctr.get_block_pos(), 6);
}

#[test]
fn lane_width_does_not_change_the_keystream() {
    for n in 0..11 {
        let mut wide = Ctr::new(9);
        let mut narrow = Ctr::new(9);
        narrow.lanes = 1;
        assert_eq!(wide.process_with_keystream_blocks(n), narrow.process_with_keystream_blocks(n));
        assert_eq!(wide.get_block_pos(), n as u32);
    }
    let mut ctr = Ctr::new(9);
    let group = ctr.gen_par_ks_blocks();
    assert_eq!(group.len(), 4);
    assert_eq!(group[3], Ctr::new(9).block_at(3));
}

#[test]
fn apply_ks_combines_with_exclusive_or() {
    let ks = vec![vec![0xffu8, 0x0f], vec![0x01, 0x00]];
    let mut buf = InOutBuf::from_mut(vec![vec![0x12u8, 0x34], vec![0x56, 0x78]]);
    apply_ks(&mut buf, &ks);
    assert_eq!(buf.into_out(), vec![vec![0xedu8, 0x3b], vec![0x57, 0x78]]);
    let input = vec![vec![0x12u8, 0x34], vec![0x56, 0x78]];
    let mut pair = InOutBuf::new(&input, vec![Vec::new(), Vec::new()]).unwrap();
    apply_ks(&mut pair, &ks);
    assert_eq!(pair.into_out(), vec![vec![0xedu8, 0x3b], vec![0x57, 0x78]]);
}

#[test]
fn applying_keystream_twice_restores_the_blocks() {
    let plain: Vec<Block> = (0..10).map(|i| data(16).iter().map(|b| b ^ i).collect()).collect();
    let mut ctr = Ctr::new(0x42);
    let mut buf = InOutBuf::from_mut(plain.clone());
    ctr.apply_keystream_blocks(&mut buf, |_: &Vec<Block>| {});
    let sealed = buf.into_out();
    assert_ne!(sealed, plain);
    assert_eq!(sealed[2][5], plain[2][5] ^ stream_byte(0x42, 37));
    ctr.set_block_pos(0);
    let mut buf = InOutBuf::new(&sealed, vec![Vec::new(); 10]).unwrap();
    ctr.apply_keystream_blocks(&mut buf, |_: &Vec<Block>| {});
    assert_eq!(buf.into_out(), plain);
}

#[test]
fn hook_sees_every_chunk_once_and_in_order() {
    let plain: Vec<Block> = (0..10).map(|i| vec![i as u8; 16]).collect();
    let seen: RefCell<Vec<Vec<Block>>> = RefCell::new(Vec::new());
    let mut ctr = Ctr::new(0);
    let mut buf = InOutBuf::from_mut(plain);
    ctr.apply_keystream_blocks(&mut buf, |chunk: &Vec<Block>| seen.borrow_mut().push(chunk.clone()));
    let out = buf.into_out();
    let seen = seen.into_inner();
    let sizes: Vec<usize> = seen.iter().map(|c| c.len()).collect();
    assert_eq!(sizes, vec![4, 4, 2]);
    assert_eq!(seen.concat(), out);
}

#[test]
fn budget_of_two_blocks_covers_17_bytes_but_not_33() {
    assert_eq!(check_budget(Some(2), 17, 16), Ok(()));
    assert_eq!(check_budget(Some(2), 33, 16), Err(StreamCipherError));
    let mut ctr = Ctr::new(5);
    ctr.limit = Some(2);
    let mut buf = InOutBuf::from_mut(data(17));
    assert_eq!(ctr.clone().try_apply_keystream_partial(&mut buf), Ok(()));
    let want: Vec<u8> = data(17).iter().enumerate().map(|(j, b)| b ^ stream_byte(5, j)).collect();
    assert_eq!(buf.into_out(), want);
    let mut buf = InOutBuf::from_mut(data(33));
    assert_eq!(ctr.try_apply_keystream_partial(&mut buf), Err(StreamCipherError));
    assert_eq!(buf.into_out(), data(33));
}

#[test]
fn budget_counts_blocks_rounded_up() {
    assert_eq!(check_budget(Some(0), 0, 16), Ok(()));
    assert_eq!(check_budget(Some(0), 1, 16), Err(StreamCipherError));
    assert_eq!(check_budget(Some(1), 16, 16), Ok(()));
    assert_eq!(check_budget(Some(2), 32, 16), Ok(()));
    assert_eq!(check_budget(Some(1), 32, 16), Err(StreamCipherError));
    assert_eq!(check_budget(Some(3), 33, 16), Ok(()));
    assert_eq!(check_budget(None, usize::MAX, 16), Ok(()));
    assert_eq!(check_budget(Some(usize::MAX), usize::MAX, 1), Ok(()));
}

#[test]
fn failed_partial_application_touches_neither_buffer() {
    let mut ctr = Ctr::new(5);
    ctr.limit = Some(4);
    ctr.set_block_pos(3);
    let input = data(20);
    let mut buf = InOutBuf::new(&input, vec![0xeeu8; 20]).unwrap();
    assert_eq!(ctr.try_apply_keystream_partial(&mut buf), Err(StreamCipherError));
    assert_eq!(buf.into_out(), vec![0xeeu8; 20]);
    assert_eq!(input, data(20));
}

#[test]
fn partial_application_for_every_short_length() {
    for n in 0..50 {
        let input = data(n);
        let want: Vec<u8> = input.iter().enumerate().map(|(j, b)| b ^ stream_byte(0x77, j)).collect();
        let mut buf = InOutBuf::from_mut(input.clone());
        assert_eq!(Ctr::new(0x77).try_apply_keystream_partial(&mut buf), Ok(()));
        assert_eq!(buf.into_out(), want);
        let mut buf = InOutBuf::new(&input, vec![0u8; n]).unwrap();
        Ctr::new(0x77).apply_keystream_partial(&mut buf);
        assert_eq!(buf.into_out(), want);
        let mut back = InOutBuf::from_mut(want);
        Ctr::new(0x77).apply_keystream_partial(&mut back);
        assert_eq!(back.into_out(), input);
    }
}

#[test]
fn unbounded_cipher_reports_no_remaining_count() {
    let ctr = Ctr::new(0);
    assert_eq!(ctr.remaining_blocks(), None);
    let mut bounded = Ctr::new(0);
    bounded.limit = Some(8);
    assert_eq!(bounded.remaining_blocks(), Some(8));
    let _ = bounded.gen_ks_block();
    assert_eq!(bounded.remaining_blocks(), Some(7));
}

#[test]
fn scratch_block_is_zero_padded() {
    let input = vec![1u8, 2, 3, 4, 5];
    let buf = InOutBuf::new(&input, vec![0u8; 5]).unwrap();
    assert_eq!(read_padded(&buf, 3, 2, 4), vec![4u8, 5, 0, 0]);
    assert_eq!(read_padded(&buf, 0, 0, 3), vec![0u8, 0, 0]);
    assert_eq!(read_padded(&buf, 1, 4, 4), vec![2u8, 3, 4, 5]);
}

#[test]
fn only_the_leading_bytes_are_copied_back() {
    let mut buf = InOutBuf::from_mut(vec![0u8; 6]);
    write_bytes(&mut buf, 2, &vec![9u8, 8, 7, 6], 3);
    assert_eq!(buf.into_out(), vec![0u8, 0, 9, 8, 7, 0]);
}

#[test]
fn gather_pads_the_last_block_with_zeros() {
    let buf = InOutBuf::from_mut(vec![1u8, 2, 3, 4, 5]);
    assert_eq!(gather_blocks(&buf, 2), vec![vec![1u8, 2], vec![3, 4], vec![5, 0]]);
    assert_eq!(gather_blocks(&buf, 5), vec![vec![1u8, 2, 3, 4, 5]]);
    assert_eq!(gather_blocks(&buf, 8), vec![vec![1u8, 2, 3, 4, 5, 0, 0, 0]]);
    let input = vec![7u8, 8, 9, 10];
    let pair = InOutBuf::new(&input, vec![0u8; 4]).unwrap();
    assert_eq!(gather_blocks(&pair, 2), vec![vec![7u8, 8], vec![9, 10]]);
    let empty = InOutBuf::from_mut(Vec::<u8>::new());
    assert_eq!(gather_blocks(&empty, 4), Vec::<Block>::new());
}

#[test]
fn scatter_discards_what_lies_beyond_the_end() {
    let mut buf = InOutBuf::from_mut(vec![0u8; 5]);
    scatter_blocks(&mut buf, &vec![vec![1u8, 2], vec![3, 4], vec![5, 6]], 2);
    assert_eq!(buf.into_out(), vec![1u8, 2, 3, 4, 5]);
    let input = vec![9u8; 4];
    let mut pair = InOutBuf::new(&input, vec![0u8; 4]).unwrap();
    scatter_blocks(&mut pair, &vec![vec![1u8, 2], vec![3, 4]], 2);
    assert_eq!(*pair.get_in(0), 9);
    assert_eq!(pair.into_out(), vec![1u8, 2, 3, 4]);
}
