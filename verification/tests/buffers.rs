use cipher::buffer::{blocks_have_size, check_lengths, Block, InOut, InOutBuf};
use cipher::chunks::chunk_partition;
use cipher::errors::LengthMismatch;

fn blocks(n: usize) -> Vec<Block> {
    (0..n).map(|i| vec![i as u8, 0x10 + i as u8]).collect()
}

#[test]
fn pair_of_unequal_lengths_is_refused() {
    let input = blocks(5);
    let output = blocks(4);
    assert!(matches!(InOutBuf::new(&input, output), Err(LengthMismatch)));
}

#[test]
fn check_lengths_leaves_output_untouched() {
    let input = vec![1u8, 2, 3, 4, 5];
    let mut output = vec![9u8, 8, 7, 6];
    assert_eq!(check_lengths(&input, &mut output), Err(LengthMismatch));
    assert_eq!(output, vec![9u8, 8, 7, 6]);
    let mut same = vec![0u8; 5];
    assert_eq!(check_lengths(&input, &mut same), Ok(()));
    assert_eq!(same, vec![0u8; 5]);
}

#[test]
fn pair_of_equal_lengths_reads_input_and_writes_output() {
    let input = vec![1u8, 2, 3];
    let mut buf = InOutBuf::new(&input, vec![0u8; 3]).unwrap();
    assert_eq!(buf.len(), 3);
    assert!(!buf.is_empty());
    assert_eq!(*buf.get_in(1), 2);
    assert_eq!(*buf.get_out(1), 0);
    buf.set_out(1, 7);
    assert_eq!(*buf.get_in(1), 2);
    assert_eq!(buf.into_out(), vec![0u8, 7, 0]);
}

#[test]
fn empty_pair_is_accepted() {
    let input: Vec<u8> = Vec::new();
    let buf = InOutBuf::new(&input, Vec::new()).unwrap();
    assert!(buf.is_empty());
    assert_eq!(buf.len(), 0);
}

#[test]
fn in_place_view_reads_what_was_written() {
    let mut buf = InOutBuf::from_mut(vec![1u8, 2, 3]);
    assert_eq!(*buf.get_in(2), 3);
    buf.set_out(2, 9);
    assert_eq!(*buf.get_in(2), 9);
    assert_eq!(buf.out_ref(), &vec![1u8, 2, 9]);
}

#[test]
fn single_pair_in_place_and_buffer_to_buffer() {
    let mut a = InOut::from_mut(5u8);
    assert_eq!(*a.get_in(), 5);
    a.set_out(6);
    assert_eq!(*a.get_in(), 6);
    assert_eq!(a.into_out(), 6);
    let src = 1u8;
    let mut b = InOut::new(&src, 2u8);
    assert_eq!(*b.get_out(), 2);
    b.set_out(3);
    assert_eq!(*b.get_in(), 1);
    assert_eq!(b.into_out(), 3);
}

#[test]
fn partition_of_ten_blocks_in_lanes_of_four() {
    assert_eq!(chunk_partition(10, 4), (2, 2));
}

#[test]
fn partition_edge_cases() {
    assert_eq!(chunk_partition(0, 4), (0, 0));
    assert_eq!(chunk_partition(8, 4), (2, 0));
    assert_eq!(chunk_partition(3, 4), (0, 3));
    assert_eq!(chunk_partition(7, 1), (7, 0));
}

#[test]
fn chunks_of_ten_blocks_in_lanes_of_four() {
    let plain = blocks(10);
    let zeros = vec![vec![0u8; 2]; 10];
    let (groups, tail) = InOutBuf::new(&plain, zeros).unwrap().into_chunks(4);
    assert_eq!(groups.len(), 2);
    assert_eq!(tail.len(), 2);
    let mut joined: Vec<Block> = Vec::new();
    for group in groups.iter() {
        assert_eq!(group.len(), 4);
        for i in 0..group.len() {
            joined.push(group.get_in(i).clone());
            assert_eq!(group.get_out(i), &vec![0u8; 2]);
        }
    }
    for i in 0..tail.len() {
        joined.push(tail.get_in(i).clone());
    }
    assert_eq!(joined, plain);
}

#[test]
fn chunks_of_an_exact_multiple_and_of_lane_one() {
    let (groups, tail) = InOutBuf::from_mut(blocks(8)).into_chunks(4);
    assert_eq!((groups.len(), tail.len()), (2, 0));
    assert_eq!(groups[1].out_ref(), &blocks(8)[4..].to_vec());
    let (groups, tail) = InOutBuf::from_mut(blocks(3)).into_chunks(1);
    assert_eq!((groups.len(), tail.len()), (3, 0));
    let (groups, tail) = InOutBuf::from_mut(blocks(3)).into_chunks(4);
    assert_eq!((groups.len(), tail.len()), (0, 3));
    assert_eq!(tail.into_out(), blocks(3));
}

#[test]
fn groups_and_tail_reproduce_the_block_order() {
    let plain = blocks(10);
    let mut buf = InOutBuf::from_mut(plain.clone());
    let (groups, tail) = chunk_partition(buf.len(), 4);
    let mut joined: Vec<Block> = Vec::new();
    let mut parts = Vec::new();
    for k in 0..groups {
        let chunk = buf.take_chunk(k * 4, 4);
        assert_eq!(chunk.len(), 4);
        joined.extend(chunk.out_ref().iter().cloned());
        parts.push((k * 4, chunk));
    }
    let rest = buf.take_chunk(groups * 4, tail);
    assert_eq!(rest.len(), 2);
    joined.extend(rest.out_ref().iter().cloned());
    parts.push((groups * 4, rest));
    assert_eq!(joined, plain);
    for (at, chunk) in parts {
        buf.put_chunk(at, chunk);
    }
    assert_eq!(buf.into_out(), plain);
}

#[test]
fn taken_block_goes_back_to_its_slot() {
    let input = blocks(3);
    let mut buf = InOutBuf::new(&input, vec![vec![0u8; 2]; 3]).unwrap();
    let mut pair = buf.take_block(1);
    assert_eq!(pair.get_in(), &vec![1u8, 0x11]);
    assert_eq!(pair.get_out(), &vec![0u8, 0]);
    pair.set_out(vec![7, 7]);
    buf.put_block(1, pair);
    assert_eq!(buf.into_out(), vec![vec![0u8, 0], vec![7, 7], vec![0, 0]]);
}

#[test]
fn block_sizes_are_told_apart() {
    assert!(blocks_have_size(&blocks(4), 2));
    assert!(!blocks_have_size(&blocks(4), 3));
    assert!(blocks_have_size(&[], 16));
    assert!(!blocks_have_size(&[vec![0u8; 2], vec![0u8; 1]], 2));
}
