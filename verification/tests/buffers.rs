use vector_store::atomic_array::{AtomicArray, CHILDREN_BYTES, FANOUT};
use vector_store::buffered_io::{BufIoError, BufferManager, BufferManagerFactory, MAX_FILE_LEN};
use vector_store::bytes::{push_u16_le, push_u32_le, read_u16_le, read_u32_le};
use vector_store::node_data::{
    decode_entries, encode_chunk, has_distinct_quotients, InvertedIndexIDFNodeData,
    DATA_CHUNK_BYTES, MAX_ENTRIES,
};
use vector_store::types::{FileOffset, IndexError, OffsetCounter};

#[test]
fn integers_are_little_endian() {
    let mut out = Vec::new();
    push_u16_le(&mut out, 0xABCD);
    push_u32_le(&mut out, 0x0123_4567);
    assert_eq!(out, vec![0xCD, 0xAB, 0x67, 0x45, 0x23, 0x01]);
    assert_eq!(read_u16_le(&out, 0), 0xABCD);
    assert_eq!(read_u32_le(&out, 2), 0x0123_4567);
    assert_eq!(&out[2..], &0x0123_4567u32.to_le_bytes());
}

#[test]
fn writes_advance_the_cursor_and_fill_gaps_with_zeros() {
    let mut file = BufferManager::new();
    let cursor = file.open_cursor();
    file.seek_with_cursor(cursor, 3).unwrap();
    file.update_u32_with_cursor(cursor, 0xDEAD_BEEF).unwrap();
    file.update_u8_with_cursor(cursor, 7).unwrap();
    file.update_u16_with_cursor(cursor, 0x0102).unwrap();
    assert_eq!(file.contents(), &vec![0, 0, 0, 0xEF, 0xBE, 0xAD, 0xDE, 7, 2, 1]);
    assert_eq!(file.cursor_position(cursor), Ok(10));
    file.seek_with_cursor(cursor, 4).unwrap();
    file.update_u8_with_cursor(cursor, 0x55).unwrap();
    assert_eq!(file.contents(), &vec![0, 0, 0, 0xEF, 0x55, 0xAD, 0xDE, 7, 2, 1]);
    assert_eq!(file.file_len(), 10);
}

#[test]
fn reads_advance_the_cursor_and_stop_at_the_end() {
    let mut file = BufferManager::from_bytes(vec![1, 2, 3, 4, 5, 6, 7]);
    let cursor = file.open_cursor();
    assert_eq!(file.read_u8_with_cursor(cursor), Ok(1));
    assert_eq!(file.read_u16_with_cursor(cursor), Ok(0x0302));
    assert_eq!(file.read_u32_with_cursor(cursor), Ok(0x0706_0504));
    assert_eq!(file.read_u8_with_cursor(cursor), Err(BufIoError::OutOfBounds));
    assert_eq!(file.cursor_position(cursor), Ok(7));
    file.seek_with_cursor(cursor, 5).unwrap();
    assert_eq!(file.read_u32_with_cursor(cursor), Err(BufIoError::OutOfBounds));
    assert_eq!(file.cursor_position(cursor), Ok(5));
    assert_eq!(file.read_with_cursor(cursor, 2), Ok(vec![6, 7]));
    assert_eq!(file.read_with_cursor(cursor, 0), Ok(vec![]));
}

#[test]
fn cursors_are_independent() {
    let mut file = BufferManager::from_bytes(vec![9, 8, 7]);
    let a = file.open_cursor();
    let b = file.open_cursor();
    assert_ne!(a, b);
    file.seek_with_cursor(a, 2).unwrap();
    assert_eq!(file.read_u8_with_cursor(b), Ok(9));
    assert_eq!(file.read_u8_with_cursor(a), Ok(7));
    assert_eq!(file.cursor_position(b), Ok(1));
}

#[test]
fn closed_and_unknown_cursors_are_invalid() {
    let mut file = BufferManager::new();
    let cursor = file.open_cursor();
    assert_eq!(file.close_cursor(cursor), Ok(()));
    assert_eq!(file.close_cursor(cursor), Err(BufIoError::InvalidCursor(cursor)));
    assert_eq!(file.seek_with_cursor(cursor, 0), Err(BufIoError::InvalidCursor(cursor)));
    assert_eq!(file.read_u8_with_cursor(cursor), Err(BufIoError::InvalidCursor(cursor)));
    assert_eq!(file.update_u8_with_cursor(cursor, 1), Err(BufIoError::InvalidCursor(cursor)));
    assert_eq!(file.cursor_position(44), Err(BufIoError::InvalidCursor(44)));
    assert_eq!(file.open_cursor(), cursor + 1);
}

#[test]
fn writes_beyond_the_largest_file_fail() {
    let mut file = BufferManager::new();
    let cursor = file.open_cursor();
    file.seek_with_cursor(cursor, MAX_FILE_LEN - 3).unwrap();
    assert_eq!(file.update_u32_with_cursor(cursor, 1), Err(BufIoError::Io));
    file.seek_with_cursor(cursor, u64::MAX).unwrap();
    assert_eq!(file.update_u8_with_cursor(cursor, 1), Err(BufIoError::Io));
    assert_eq!(file.file_len(), 0);
}

#[test]
fn factory_makes_files_on_first_use() {
    let mut factory = BufferManagerFactory::new();
    {
        let file = factory.get(3);
        let cursor = file.open_cursor();
        file.update_u8_with_cursor(cursor, 42).unwrap();
    }
    assert_eq!(factory.get(3).contents(), &vec![42]);
    assert_eq!(factory.get(0).file_len(), 0);
    assert_eq!(factory.get(200).file_len(), 0);
    assert_eq!(factory.get(3).contents(), &vec![42]);
}

#[test]
fn offset_counter_hands_out_disjoint_ranges() {
    let mut counter = OffsetCounter::new(0);
    assert_eq!(counter.load(), 1);
    let sizes = [54u32, 1, 0, 4096, 54];
    let mut ranges = Vec::new();
    for size in sizes {
        let start = counter.fetch_add(size).unwrap();
        ranges.push((start, start + size));
    }
    assert_eq!(ranges[0], (1, 55));
    assert_eq!(counter.load(), 1 + 54 + 1 + 4096 + 54);
    for (i, a) in ranges.iter().enumerate() {
        for b in &ranges[i + 1..] {
            assert!(a.1 <= b.0);
        }
    }
}

#[test]
fn offset_counter_does_not_wrap() {
    let mut counter = OffsetCounter::new(u32::MAX - 5);
    assert_eq!(counter.fetch_add(6), Err(BufIoError::Io));
    assert_eq!(counter.load(), u32::MAX - 5);
    assert_eq!(counter.fetch_add(5), Ok(u32::MAX - 5));
    assert_eq!(counter.load(), u32::MAX);
    assert_eq!(counter.fetch_add(1), Err(BufIoError::Io));
    assert_eq!(counter.fetch_add(0), Ok(u32::MAX));
}

#[test]
fn offset_counter_starts_where_told() {
    assert_eq!(OffsetCounter::new(77).load(), 77);
}

#[test]
fn child_slots_round_trip_through_a_file() {
    let mut array = AtomicArray::new();
    array.set(0, FileOffset(1)).unwrap();
    array.set(15, FileOffset(0xAABB_CCDD)).unwrap();
    let bytes = array.to_bytes();
    assert_eq!(bytes.len(), CHILDREN_BYTES);
    assert_eq!(&bytes[0..4], &[1, 0, 0, 0]);
    assert_eq!(&bytes[60..64], &[0xDD, 0xCC, 0xBB, 0xAA]);
    let mut file = BufferManager::new();
    let cursor = file.open_cursor();
    file.seek_with_cursor(cursor, 10).unwrap();
    array.serialize(&mut file, cursor).unwrap();
    assert_eq!(file.file_len(), 10 + CHILDREN_BYTES);
    let read = AtomicArray::deserialize(&mut file, 10).unwrap();
    for i in 0..FANOUT {
        assert_eq!(read.get(i), array.get(i));
    }
    assert_eq!(read.get(15), Some(FileOffset(0xAABB_CCDD)));
    assert_eq!(AtomicArray::deserialize(&mut file, 11).err(), Some(BufIoError::OutOfBounds));
}

#[test]
fn child_slot_is_set_once() {
    let mut array = AtomicArray::new();
    assert_eq!(array.get(2), None);
    assert_eq!(array.set(2, FileOffset(9)), Ok(()));
    assert_eq!(array.set(2, FileOffset(10)), Err(IndexError::AlreadyPresent));
    assert_eq!(array.get(2), Some(FileOffset(9)));
    assert_eq!(array.set(3, FileOffset(0)), Ok(()));
    assert_eq!(array.get(3), None);
}

#[test]
fn chunk_has_len_slots_and_next() {
    let entries = vec![(1u16, 2u32), (0x0304, 0x0506_0708), (9, 9)];
    let bytes = encode_chunk(11, &entries, 0, 2, 0x1122_3344);
    assert_eq!(bytes.len(), DATA_CHUNK_BYTES);
    assert_eq!(&bytes[0..2], &[11, 0]);
    assert_eq!(&bytes[2..8], &[1, 0, 2, 0, 0, 0]);
    assert_eq!(&bytes[8..14], &[4, 3, 8, 7, 6, 5]);
    assert!(bytes[14..50].iter().all(|b| *b == 0));
    assert_eq!(&bytes[50..54], &[0x44, 0x33, 0x22, 0x11]);
    let mut out = vec![(7u16, 7u32)];
    decode_entries(&bytes, 0, 2, &mut out);
    assert_eq!(out, vec![(7, 7), (1, 2), (0x0304, 0x0506_0708)]);
}

#[test]
fn distinct_quotients_are_told_from_repeated_ones() {
    assert!(has_distinct_quotients(&vec![]));
    assert!(has_distinct_quotients(&vec![(1, 5), (2, 5), (65535, 5), (0, 5)]));
    assert!(!has_distinct_quotients(&vec![(1, 5), (2, 6), (1, 7)]));
}

#[test]
fn posting_map_keeps_insertion_order() {
    let mut data = InvertedIndexIDFNodeData::new();
    assert_eq!(data.insert(30, FileOffset(3)), Ok(()));
    assert_eq!(data.insert(10, FileOffset(1)), Ok(()));
    assert_eq!(data.insert(20, FileOffset(2)), Ok(()));
    assert_eq!(data.insert(10, FileOffset(9)), Err(IndexError::DuplicateQuotient));
    assert_eq!(data.len(), 3);
    assert_eq!(data.entry(0), (30, FileOffset(3)));
    assert_eq!(data.entry(1), (10, FileOffset(1)));
    assert_eq!(data.entry(2), (20, FileOffset(2)));
    assert_eq!(data.get(20), Some(FileOffset(2)));
    assert_eq!(data.get(21), None);
}

#[test]
fn posting_map_is_full_at_the_largest_count() {
    let mut data = InvertedIndexIDFNodeData::new();
    for quotient in 0..MAX_ENTRIES {
        data.insert(quotient as u16, FileOffset(1)).unwrap();
    }
    assert_eq!(data.insert(0xFFFF, FileOffset(1)), Err(IndexError::CapacityExceeded));
    assert_eq!(data.insert(5, FileOffset(1)), Err(IndexError::DuplicateQuotient));
    assert_eq!(data.len(), MAX_ENTRIES);
}

#[test]
fn posting_map_round_trips_through_its_chain() {
    let mut data = InvertedIndexIDFNodeData::new();
    for i in 0..30u32 {
        data.insert((3 * i) as u16, FileOffset(i + 1)).unwrap();
    }
    let mut dim = BufferManager::new();
    let mut files = BufferManagerFactory::new();
    let mut counter = OffsetCounter::new(100);
    let cursor = dim.open_cursor();
    dim.seek_with_cursor(cursor, 20).unwrap();
    data.serialize(&mut dim, &mut files, &mut counter, 2, cursor).unwrap();
    assert_eq!(dim.file_len(), 20 + DATA_CHUNK_BYTES);
    assert_eq!(counter.load() as usize, 100 + 3 * DATA_CHUNK_BYTES);
    assert_eq!(files.get(2).file_len(), 100 + 3 * DATA_CHUNK_BYTES);
    let read = InvertedIndexIDFNodeData::deserialize(&mut dim, &mut files, 20, 2).unwrap();
    assert_eq!(read.len(), 30);
    for i in 0..30usize {
        assert_eq!(read.entry(i), data.entry(i));
    }
    let wrong = InvertedIndexIDFNodeData::deserialize(&mut dim, &mut files, 20, 1);
    assert_eq!(wrong.err(), Some(BufIoError::CorruptChain));
    let short = InvertedIndexIDFNodeData::deserialize(&mut dim, &mut files, 21, 2);
    assert_eq!(short.err(), Some(BufIoError::OutOfBounds));
}

#[test]
fn posting_map_does_not_allocate_behind_its_chunks() {
    let mut data = InvertedIndexIDFNodeData::new();
    for i in 0..9u32 {
        data.insert(i as u16, FileOffset(1)).unwrap();
    }
    let mut counter = OffsetCounter::new(500);
    data.allocate_chunks(&mut counter).unwrap();
    for i in 9..17u32 {
        data.insert(i as u16, FileOffset(1)).unwrap();
    }
    let mut rewound = OffsetCounter::new(100);
    assert_eq!(data.allocate_chunks(&mut rewound), Err(BufIoError::Io));
    assert_eq!(rewound.load(), 100);
    assert_eq!(data.allocate_chunks(&mut counter), Ok(()));
    assert_eq!(counter.load() as usize, 500 + 2 * DATA_CHUNK_BYTES);
}
