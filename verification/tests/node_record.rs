use vector_store::atomic_array::FANOUT;
use vector_store::buffered_io::{BufIoError, BufferManager, BufferManagerFactory};
use vector_store::node::{
    decode_flags, encode_flags, InvertedIndexIDFNode, CHILDREN_OFFSET, DATA_OFFSET, NODE_SIZE,
};
use vector_store::node_data::{DATA_CHUNK_BYTES, INVERTED_INDEX_DATA_CHUNK_SIZE};
use vector_store::types::{FileOffset, IndexError, OffsetCounter};

fn fresh_node(dim_index: u32, implicit: bool, bits: u8, offset: u32) -> InvertedIndexIDFNode {
    InvertedIndexIDFNode::new(dim_index, implicit, bits, FileOffset(offset)).unwrap()
}

#[test]
fn layout_constants_follow_the_chunk_size() {
    assert_eq!(DATA_CHUNK_BYTES, INVERTED_INDEX_DATA_CHUNK_SIZE * 6 + 6);
    assert_eq!(CHILDREN_OFFSET, INVERTED_INDEX_DATA_CHUNK_SIZE * 6 + 11);
    assert_eq!(NODE_SIZE, INVERTED_INDEX_DATA_CHUNK_SIZE * 6 + 75);
    assert_eq!(DATA_OFFSET, 5);
    assert_eq!(FANOUT, 16);
}

#[test]
fn flags_byte_round_trips_for_all_seven_bit_values() {
    for bits in 0u8..=127 {
        for implicit in [false, true] {
            let byte = encode_flags(bits, implicit);
            assert_eq!(decode_flags(byte), (bits, implicit));
        }
    }
}

#[test]
fn flags_byte_packs_implicit_in_the_high_bit() {
    assert_eq!(encode_flags(5, true), 0x85);
    assert_eq!(encode_flags(5, false), 0x05);
    assert_eq!(encode_flags(0, true), 0x80);
    assert_eq!(encode_flags(0x85, false), 0x05);
}

#[test]
fn header_byte_0x80_is_implicit_with_zero_bits() {
    assert_eq!(decode_flags(0x80), (0, true));
}

#[test]
fn cold_serialize_writes_the_header() {
    let mut node = fresh_node(42, true, 5, 1024);
    let mut dim = BufferManager::new();
    let mut data = BufferManagerFactory::new();
    let mut counter = OffsetCounter::new(0);
    let cursor = dim.open_cursor();
    let offset = node.serialize(&mut dim, &mut data, &mut counter, 4, cursor).unwrap();
    assert_eq!(offset, 1024);
    let bytes = dim.contents();
    assert_eq!(bytes.len(), 1024 + NODE_SIZE);
    assert_eq!(bytes[1024 + 4], 0x85);
    assert_eq!(&bytes[1024..1028], &42u32.to_le_bytes());
    assert!(bytes[..1024].iter().all(|b| *b == 0));
    assert!(bytes[1029..].iter().all(|b| *b == 0));
    assert!(node.is_serialized);
    assert!(node.is_dirty);
    assert_eq!(dim.cursor_position(cursor), Ok((1024 + NODE_SIZE) as u64));
}

#[test]
fn deserialize_reads_back_the_same_record() {
    let mut node = fresh_node(42, true, 5, 1024);
    let mut dim = BufferManager::new();
    let mut data = BufferManagerFactory::new();
    let mut counter = OffsetCounter::new(0);
    let cursor = dim.open_cursor();
    node.serialize(&mut dim, &mut data, &mut counter, 4, cursor).unwrap();
    let read = InvertedIndexIDFNode::deserialize(&mut dim, &mut data, FileOffset(1024), 4).unwrap();
    assert_eq!(read.dim_index, 42);
    assert!(read.implicit);
    assert_eq!(read.quantization_bits, 5);
    assert_eq!(read.file_offset, FileOffset(1024));
    assert_eq!(read.data.len(), 0);
    for i in 0..FANOUT {
        assert_eq!(read.children.get(i), None);
    }
    assert!(read.is_serialized);
    assert!(!read.is_dirty);
}

#[test]
fn new_refuses_too_many_quantization_bits() {
    assert_eq!(
        InvertedIndexIDFNode::new(1, false, 64, FileOffset(0)).err(),
        Some(IndexError::InvalidParams)
    );
    assert!(InvertedIndexIDFNode::new(1, false, 63, FileOffset(0)).is_ok());
}

#[test]
fn serialize_with_unknown_cursor_changes_nothing() {
    let mut node = fresh_node(7, false, 3, 0);
    let mut dim = BufferManager::new();
    let mut data = BufferManagerFactory::new();
    let mut counter = OffsetCounter::new(0);
    let r = node.serialize(&mut dim, &mut data, &mut counter, 2, 9);
    assert_eq!(r, Err(BufIoError::InvalidCursor(9)));
    assert!(!node.is_serialized);
    assert_eq!(dim.file_len(), 0);
}

fn written_node(
    dim_index: u32,
    bits: u8,
    offset: u32,
    entries: &[(u16, u32)],
    parts: u8,
) -> (InvertedIndexIDFNode, BufferManager, BufferManagerFactory, OffsetCounter, u64) {
    let mut node = fresh_node(dim_index, false, bits, offset);
    for (quotient, head) in entries {
        node.insert(*quotient, FileOffset(*head)).unwrap();
    }
    let mut dim = BufferManager::new();
    let mut data = BufferManagerFactory::new();
    let mut counter = OffsetCounter::new(0);
    let cursor = dim.open_cursor();
    node.serialize(&mut dim, &mut data, &mut counter, parts, cursor).unwrap();
    (node, dim, data, counter, cursor)
}

#[test]
fn second_serialize_is_warm_dirty_and_third_is_clean() {
    let (mut node, mut dim, mut data, mut counter, cursor) = written_node(3, 4, 0, &[(1, 10)], 2);
    assert!(node.is_serialized && node.is_dirty);
    node.serialize(&mut dim, &mut data, &mut counter, 2, cursor).unwrap();
    assert!(node.is_serialized && !node.is_dirty);
    node.serialize(&mut dim, &mut data, &mut counter, 2, cursor).unwrap();
    assert!(node.is_serialized && !node.is_dirty);
}

#[test]
fn second_serialize_rewrites_the_children_region() {
    let (mut node, mut dim, mut data, mut counter, cursor) = written_node(3, 4, 200, &[], 2);
    node.set_child(0, FileOffset(4000)).unwrap();
    node.serialize(&mut dim, &mut data, &mut counter, 2, cursor).unwrap();
    let bytes = dim.contents();
    let at = 200 + CHILDREN_OFFSET;
    assert_eq!(&bytes[at..at + 4], &4000u32.to_le_bytes());
    assert!(bytes[at + 4..200 + NODE_SIZE].iter().all(|b| *b == 0));
}

#[test]
fn clean_serialize_writes_only_the_child_slots() {
    let (mut node, mut dim, mut data, mut counter, cursor) =
        written_node(9, 6, 300, &[(7, 70), (8, 80)], 3);
    node.serialize(&mut dim, &mut data, &mut counter, 3, cursor).unwrap();
    assert!(!node.is_dirty);
    // Scribble over the header and the posting map: a clean flush must not
    // mend them, since it does not write there.
    dim.seek_with_cursor(cursor, 300).unwrap();
    dim.update_with_cursor(cursor, &[0xEE; 59]).unwrap();
    let before = dim.contents().clone();
    let counter_before = counter.load();
    node.set_child(3, FileOffset(1111)).unwrap();
    node.set_child(11, FileOffset(2222)).unwrap();
    let offset = node.serialize(&mut dim, &mut data, &mut counter, 3, cursor).unwrap();
    assert_eq!(offset, 300);
    let after = dim.contents();
    let start = 300 + CHILDREN_OFFSET;
    let end = 300 + NODE_SIZE;
    assert_eq!(after.len(), before.len());
    assert_eq!(&after[..start], &before[..start]);
    assert_eq!(&after[end..], &before[end..]);
    for slot in 0..FANOUT {
        let at = start + 4 * slot;
        let expected: u32 = match slot {
            3 => 1111,
            11 => 2222,
            _ => 0,
        };
        assert_eq!(&after[at..at + 4], &expected.to_le_bytes());
    }
    assert_eq!(counter.load(), counter_before);
    assert_eq!(dim.cursor_position(cursor), Ok(end as u64));
}

#[test]
fn set_child_refuses_a_taken_slot() {
    let mut node = fresh_node(1, false, 1, 0);
    assert_eq!(node.set_child(5, FileOffset(77)), Ok(()));
    assert_eq!(node.set_child(5, FileOffset(88)), Err(IndexError::AlreadyPresent));
    assert_eq!(node.children.get(5), Some(FileOffset(77)));
    assert_eq!(node.children.get(4), None);
}

#[test]
fn insert_refuses_duplicates_and_overflow_of_the_quantization() {
    let mut node = fresh_node(1, false, 1, 0);
    assert_eq!(node.insert(0, FileOffset(5)), Ok(()));
    assert_eq!(node.insert(0, FileOffset(6)), Err(IndexError::DuplicateQuotient));
    assert_eq!(node.insert(1, FileOffset(6)), Ok(()));
    assert_eq!(node.insert(2, FileOffset(7)), Err(IndexError::CapacityExceeded));
    assert_eq!(node.data.len(), 2);
    assert_eq!(node.data.entry(0), (0, FileOffset(5)));
    assert_eq!(node.data.entry(1), (1, FileOffset(6)));
    assert_eq!(node.data.get(1), Some(FileOffset(6)));
    assert_eq!(node.data.get(9), None);
}

#[test]
fn insert_marks_a_clean_node_dirty() {
    let (mut node, mut dim, mut data, mut counter, cursor) = written_node(3, 4, 0, &[(1, 10)], 2);
    node.serialize(&mut dim, &mut data, &mut counter, 2, cursor).unwrap();
    assert!(!node.is_dirty);
    node.insert(2, FileOffset(20)).unwrap();
    assert!(node.is_dirty);
    node.serialize(&mut dim, &mut data, &mut counter, 2, cursor).unwrap();
    let read = InvertedIndexIDFNode::deserialize(&mut dim, &mut data, FileOffset(0), 2).unwrap();
    assert_eq!(read.data.len(), 2);
    assert_eq!(read.data.entry(1), (2, FileOffset(20)));
}

#[test]
fn long_posting_map_continues_in_its_data_partition() {
    let entries: Vec<(u16, u32)> = (0..12).map(|i| (100 + i as u16, 1000 + i as u32)).collect();
    let (node, mut dim, mut data, counter, _) = written_node(5, 16, 64, &entries, 4);
    // dim_index 5 with 4 partitions: partition 1.
    assert_eq!(data.get(0).file_len(), 0);
    assert_eq!(data.get(2).file_len(), 0);
    assert_eq!(data.get(3).file_len(), 0);
    let chunk_at = 1usize;
    assert_eq!(data.get(1).file_len(), chunk_at + DATA_CHUNK_BYTES);
    assert_eq!(counter.load() as usize, chunk_at + DATA_CHUNK_BYTES);
    let first = 64 + DATA_OFFSET;
    let dim_bytes = dim.contents().clone();
    assert_eq!(&dim_bytes[first..first + 2], &12u16.to_le_bytes());
    let next_at = first + 2 + 6 * INVERTED_INDEX_DATA_CHUNK_SIZE;
    assert_eq!(&dim_bytes[next_at..next_at + 4], &(chunk_at as u32).to_le_bytes());
    let chunk = data.get(1).contents().clone();
    assert_eq!(&chunk[chunk_at..chunk_at + 2], &4u16.to_le_bytes());
    assert_eq!(&chunk[chunk_at + 2..chunk_at + 4], &108u16.to_le_bytes());
    assert_eq!(&chunk[chunk_at + 4..chunk_at + 8], &1008u32.to_le_bytes());
    let last_next = chunk_at + 2 + 6 * INVERTED_INDEX_DATA_CHUNK_SIZE;
    assert_eq!(&chunk[last_next..last_next + 4], &0u32.to_le_bytes());
    let read = InvertedIndexIDFNode::deserialize(&mut dim, &mut data, FileOffset(64), 4).unwrap();
    assert_eq!(read.data.len(), 12);
    for (i, (quotient, head)) in entries.iter().enumerate() {
        assert_eq!(read.data.entry(i), (*quotient, FileOffset(*head)));
    }
    assert_eq!(node.data.len(), 12);
}

#[test]
fn growing_posting_map_keeps_its_chunks_and_adds_new_ones() {
    let entries: Vec<(u16, u32)> = (0..9).map(|i| (i as u16, 500 + i as u32)).collect();
    let (mut node, mut dim, mut data, mut counter, cursor) = written_node(2, 16, 0, &entries, 1);
    assert_eq!(counter.load() as usize, 1 + DATA_CHUNK_BYTES);
    // Another writer takes the next range of the data file.
    counter.fetch_add(10).unwrap();
    for i in 9..20u32 {
        node.insert(i as u16, FileOffset(500 + i)).unwrap();
    }
    node.serialize(&mut dim, &mut data, &mut counter, 1, cursor).unwrap();
    assert_eq!(counter.load() as usize, 1 + DATA_CHUNK_BYTES + 10 + DATA_CHUNK_BYTES);
    let file = data.get(0).contents().clone();
    let second = 1 + DATA_CHUNK_BYTES + 10;
    assert_eq!(&file[1..3], &12u16.to_le_bytes());
    let link = 1 + 2 + 6 * INVERTED_INDEX_DATA_CHUNK_SIZE;
    assert_eq!(&file[link..link + 4], &(second as u32).to_le_bytes());
    assert_eq!(&file[second..second + 2], &4u16.to_le_bytes());
    let read = InvertedIndexIDFNode::deserialize(&mut dim, &mut data, FileOffset(0), 1).unwrap();
    assert_eq!(read.data.len(), 20);
    for i in 0..20usize {
        assert_eq!(read.data.entry(i), (i as u16, FileOffset(500 + i as u32)));
    }
}

#[test]
fn serialize_fails_without_change_when_offsets_run_out() {
    let mut node = fresh_node(1, false, 16, 0);
    for i in 0..9u32 {
        node.insert(i as u16, FileOffset(i + 1)).unwrap();
    }
    let mut dim = BufferManager::new();
    let mut data = BufferManagerFactory::new();
    let mut counter = OffsetCounter::new(u32::MAX - 10);
    let cursor = dim.open_cursor();
    let r = node.serialize(&mut dim, &mut data, &mut counter, 1, cursor);
    assert_eq!(r, Err(BufIoError::Io));
    assert!(!node.is_serialized);
    assert_eq!(dim.file_len(), 0);
    assert_eq!(counter.load(), u32::MAX - 10);
    assert_eq!(dim.cursor_position(cursor), Ok(0));
}

#[test]
fn deserialize_beyond_the_file_is_out_of_bounds() {
    let (_, mut dim, mut data, _, _) = written_node(3, 4, 0, &[], 2);
    let r = InvertedIndexIDFNode::deserialize(&mut dim, &mut data, FileOffset(1), 2);
    assert_eq!(r.err(), Some(BufIoError::OutOfBounds));
    let r = InvertedIndexIDFNode::deserialize(&mut dim, &mut data, FileOffset(u32::MAX), 2);
    assert_eq!(r.err(), Some(BufIoError::OutOfBounds));
}

#[test]
fn deserialize_refuses_quantization_bits_out_of_range() {
    let (_, mut dim, mut data, _, cursor) = written_node(3, 4, 0, &[], 2);
    dim.seek_with_cursor(cursor, 4).unwrap();
    dim.update_u8_with_cursor(cursor, 0x80 | 64).unwrap();
    let r = InvertedIndexIDFNode::deserialize(&mut dim, &mut data, FileOffset(0), 2);
    assert_eq!(r.err(), Some(BufIoError::CorruptHeader));
    dim.seek_with_cursor(cursor, 4).unwrap();
    dim.update_u8_with_cursor(cursor, 0x80 | 63).unwrap();
    let read = InvertedIndexIDFNode::deserialize(&mut dim, &mut data, FileOffset(0), 2).unwrap();
    assert_eq!(read.quantization_bits, 63);
    assert!(read.implicit);
}

#[test]
fn deserialize_refuses_more_entries_than_the_quantization_allows() {
    let (_, mut dim, mut data, _, cursor) = written_node(3, 4, 0, &[(1, 1), (2, 2), (3, 3)], 2);
    dim.seek_with_cursor(cursor, 4).unwrap();
    dim.update_u8_with_cursor(cursor, 1).unwrap();
    let r = InvertedIndexIDFNode::deserialize(&mut dim, &mut data, FileOffset(0), 2);
    assert_eq!(r.err(), Some(BufIoError::CorruptHeader));
}

#[test]
fn deserialize_refuses_a_chain_that_leaves_the_file() {
    let entries: Vec<(u16, u32)> = (0..9).map(|i| (i as u16, 1)).collect();
    let (_, mut dim, mut data, _, cursor) = written_node(0, 16, 0, &entries, 1);
    let link = (DATA_OFFSET + 2 + 6 * INVERTED_INDEX_DATA_CHUNK_SIZE) as u64;
    dim.seek_with_cursor(cursor, link).unwrap();
    dim.update_u32_with_cursor(cursor, 5000).unwrap();
    let r = InvertedIndexIDFNode::deserialize(&mut dim, &mut data, FileOffset(0), 1);
    assert_eq!(r.err(), Some(BufIoError::CorruptChain));
    dim.seek_with_cursor(cursor, link).unwrap();
    dim.update_u32_with_cursor(cursor, 0).unwrap();
    let r = InvertedIndexIDFNode::deserialize(&mut dim, &mut data, FileOffset(0), 1);
    assert_eq!(r.err(), Some(BufIoError::CorruptChain));
}

#[test]
fn deserialize_refuses_a_chain_that_turns_back() {
    let entries: Vec<(u16, u32)> = (0..20).map(|i| (i as u16, 1)).collect();
    let (_, mut dim, mut data, _, _) = written_node(0, 16, 0, &entries, 1);
    // Two chunks follow, at 1 and at 1 + DATA_CHUNK_BYTES.  Let the first
    // point to itself, with the count that its successor would have.
    let file = data.get(0);
    let cursor = file.open_cursor();
    file.seek_with_cursor(cursor, 1).unwrap();
    file.update_u16_with_cursor(cursor, 12).unwrap();
    let link = (1 + 2 + 6 * INVERTED_INDEX_DATA_CHUNK_SIZE) as u64;
    file.seek_with_cursor(cursor, link).unwrap();
    file.update_u32_with_cursor(cursor, 1).unwrap();
    let r = InvertedIndexIDFNode::deserialize(&mut dim, &mut data, FileOffset(0), 1);
    assert_eq!(r.err(), Some(BufIoError::CorruptChain));
}

#[test]
fn deserialize_refuses_a_quotient_that_stands_twice() {
    let (_, mut dim, mut data, _, cursor) = written_node(3, 4, 0, &[(1, 1), (2, 2)], 2);
    dim.seek_with_cursor(cursor, (DATA_OFFSET + 2 + 6) as u64).unwrap();
    dim.update_u16_with_cursor(cursor, 1).unwrap();
    let r = InvertedIndexIDFNode::deserialize(&mut dim, &mut data, FileOffset(0), 2);
    assert_eq!(r.err(), Some(BufIoError::CorruptChain));
}
