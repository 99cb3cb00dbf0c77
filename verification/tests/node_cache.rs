use vector_store::buffered_io::{BufIoError, BufferManager, BufferManagerFactory};
use vector_store::cache::InvertedIndexIDFCache;
use vector_store::index::InvertedIndexIDF;
use vector_store::node::{InvertedIndexIDFNode, NODE_SIZE};
use vector_store::types::{FileOffset, IndexError, OffsetCounter};

/// The files of a tree with a root and three children, and an allocator
/// behind them.
fn written_tree() -> (BufferManager, BufferManagerFactory, OffsetCounter, u64) {
    let mut index = InvertedIndexIDF::new(100, 16, 2).unwrap();
    for slot in 0..3 {
        let child = index.add_child(0, slot, 101 + slot as u32, false).unwrap();
        index.insert(child, slot as u16, FileOffset(7)).unwrap();
    }
    let mut dim = BufferManager::new();
    let mut data = BufferManagerFactory::new();
    let mut counter = OffsetCounter::new(0);
    let cursor = dim.open_cursor();
    index.serialize(&mut dim, &mut data, &mut counter, cursor).unwrap();
    (dim, data, counter, cursor)
}

fn key(i: usize) -> FileOffset {
    FileOffset((i * NODE_SIZE) as u32)
}

#[test]
fn cache_needs_room_for_a_node() {
    assert!(InvertedIndexIDFCache::new(0).is_none());
    assert_eq!(InvertedIndexIDFCache::new(1).unwrap().len(), 0);
}

#[test]
fn node_is_read_once_and_then_served_from_the_cache() {
    let (mut dim, mut data, mut counter, cursor) = written_tree();
    let mut cache = InvertedIndexIDFCache::new(4).unwrap();
    assert!(!cache.contains(key(1)));
    let node = cache.get_or_load(key(1), &mut dim, &mut data, &mut counter, 2, cursor).unwrap();
    assert_eq!(node.dim_index, 101);
    assert_eq!(node.data.entry(0), (0, FileOffset(7)));
    assert!(cache.contains(key(1)));
    // With the file gone the node is still there.
    let mut empty = BufferManager::new();
    let node = cache.get_or_load(key(1), &mut empty, &mut data, &mut counter, 2, cursor).unwrap();
    assert_eq!(node.dim_index, 101);
    assert_eq!(empty.open_cursor(), 0);
    assert_eq!(cache.len(), 1);
}

#[test]
fn least_recently_used_node_makes_room() {
    let (mut dim, mut data, mut counter, cursor) = written_tree();
    let mut cache = InvertedIndexIDFCache::new(2).unwrap();
    cache.get_or_load(key(1), &mut dim, &mut data, &mut counter, 2, cursor).unwrap();
    cache.get_or_load(key(2), &mut dim, &mut data, &mut counter, 2, cursor).unwrap();
    cache.get_or_load(key(1), &mut dim, &mut data, &mut counter, 2, cursor).unwrap();
    assert_eq!(cache.entry(0).file_offset, key(2));
    assert_eq!(cache.entry(1).file_offset, key(1));
    cache.get_or_load(key(3), &mut dim, &mut data, &mut counter, 2, cursor).unwrap();
    assert_eq!(cache.len(), 2);
    assert!(!cache.contains(key(2)));
    assert!(cache.contains(key(1)));
    assert!(cache.contains(key(3)));
    assert_eq!(cache.entry(1).file_offset, key(3));
}

#[test]
fn node_that_cannot_be_read_leaves_the_cache_alone() {
    let (mut dim, mut data, mut counter, cursor) = written_tree();
    let mut cache = InvertedIndexIDFCache::new(1).unwrap();
    cache.get_or_load(key(1), &mut dim, &mut data, &mut counter, 2, cursor).unwrap();
    let missing = cache.get_or_load(key(40), &mut dim, &mut data, &mut counter, 2, cursor);
    assert_eq!(missing.err(), Some(BufIoError::OutOfBounds));
    assert!(cache.contains(key(1)));
    assert_eq!(cache.len(), 1);
}

#[test]
fn dirty_node_is_written_back_when_it_makes_room() {
    let (mut dim, mut data, mut counter, cursor) = written_tree();
    let mut cache = InvertedIndexIDFCache::new(1).unwrap();
    cache.get_or_load(key(1), &mut dim, &mut data, &mut counter, 2, cursor).unwrap();
    assert_eq!(cache.insert(key(1), 55, FileOffset(8)), Ok(()));
    assert_eq!(cache.insert(key(1), 55, FileOffset(9)), Err(IndexError::DuplicateQuotient));
    assert_eq!(cache.insert(key(2), 55, FileOffset(9)), Err(IndexError::InvalidParams));
    assert_eq!(cache.set_child(key(1), 4, FileOffset(4000)), Ok(()));
    assert_eq!(cache.set_child(key(1), 4, FileOffset(1)), Err(IndexError::AlreadyPresent));
    assert_eq!(cache.set_child(key(1), 16, FileOffset(1)), Err(IndexError::InvalidParams));
    assert!(cache.entry(0).is_dirty);
    let on_disk = InvertedIndexIDFNode::deserialize(&mut dim, &mut data, key(1), 2).unwrap();
    assert_eq!(on_disk.data.len(), 1);
    cache.get_or_load(key(2), &mut dim, &mut data, &mut counter, 2, cursor).unwrap();
    assert!(!cache.contains(key(1)));
    let on_disk = InvertedIndexIDFNode::deserialize(&mut dim, &mut data, key(1), 2).unwrap();
    assert_eq!(on_disk.data.len(), 2);
    assert_eq!(on_disk.data.entry(1), (55, FileOffset(8)));
    assert_eq!(on_disk.children.get(4), Some(FileOffset(4000)));
}

#[test]
fn clean_node_is_dropped_without_a_write() {
    let (mut dim, mut data, mut counter, cursor) = written_tree();
    let mut cache = InvertedIndexIDFCache::new(1).unwrap();
    cache.get_or_load(key(1), &mut dim, &mut data, &mut counter, 2, cursor).unwrap();
    let before = dim.contents().clone();
    // The cursor is closed, so that any flush would fail.
    dim.close_cursor(cursor).unwrap();
    assert!(cache.get_or_load(key(2), &mut dim, &mut data, &mut counter, 2, cursor).is_ok());
    assert_eq!(dim.contents(), &before);
}

#[test]
fn failed_write_back_keeps_the_dirty_node() {
    let (mut dim, mut data, mut counter, cursor) = written_tree();
    let mut cache = InvertedIndexIDFCache::new(1).unwrap();
    cache.get_or_load(key(1), &mut dim, &mut data, &mut counter, 2, cursor).unwrap();
    cache.insert(key(1), 55, FileOffset(8)).unwrap();
    dim.close_cursor(cursor).unwrap();
    let r = cache.get_or_load(key(2), &mut dim, &mut data, &mut counter, 2, cursor);
    assert_eq!(r.err(), Some(BufIoError::InvalidCursor(cursor)));
    assert!(cache.contains(key(1)));
    assert!(cache.entry(0).is_dirty);
    assert_eq!(cache.entry(0).data.len(), 2);
}
