use vector_store::atomic_array::FANOUT;
use vector_store::buffered_io::{BufIoError, BufferManager, BufferManagerFactory};
use vector_store::index::InvertedIndexIDF;
use vector_store::node::{InvertedIndexIDFNode, NODE_SIZE};
use vector_store::node_data::DATA_CHUNK_BYTES;
use vector_store::page_pool::PagePool;
use vector_store::types::{FileOffset, IndexError, OffsetCounter};

fn read_node(
    dim: &mut BufferManager,
    data: &mut BufferManagerFactory,
    offset: u32,
    parts: u8,
) -> Result<InvertedIndexIDFNode, BufIoError> {
    InvertedIndexIDFNode::deserialize(dim, data, FileOffset(offset), parts)
}

/// Every child slot of every record that can be read leads to a record that
/// can be read.
fn children_on_disk_are_readable(
    dim: &mut BufferManager,
    data: &mut BufferManagerFactory,
    parts: u8,
    nodes: usize,
) {
    for i in 0..nodes {
        let Ok(node) = read_node(dim, data, (i * NODE_SIZE) as u32, parts) else {
            continue;
        };
        for slot in 0..FANOUT {
            if let Some(child) = node.children.get(slot) {
                assert!(read_node(dim, data, child.0, parts).is_ok());
            }
        }
    }
}

#[test]
fn new_tree_has_a_root() {
    let index = InvertedIndexIDF::new(7, 6, 4).unwrap();
    assert_eq!(index.len(), 1);
    assert_eq!(index.node(0).dim_index, 7);
    assert_eq!(index.node(0).quantization_bits, 6);
    assert_eq!(index.node(0).file_offset, FileOffset(0));
    assert!(!index.node(0).is_serialized);
    assert_eq!(InvertedIndexIDF::new(7, 64, 4).err(), Some(IndexError::InvalidParams));
    assert_eq!(InvertedIndexIDF::new(7, 6, 0).err(), Some(IndexError::InvalidParams));
}

#[test]
fn children_are_numbered_and_placed_in_order() {
    let mut index = InvertedIndexIDF::new(0, 6, 2).unwrap();
    assert_eq!(index.add_child(0, 3, 30, false), Ok(1));
    assert_eq!(index.add_child(0, 11, 110, true), Ok(2));
    assert_eq!(index.add_child(1, 0, 31, false), Ok(3));
    assert_eq!(index.len(), 4);
    assert_eq!(index.node(0).children.get(3), Some(FileOffset(NODE_SIZE as u32)));
    assert_eq!(index.node(0).children.get(11), Some(FileOffset(2 * NODE_SIZE as u32)));
    assert_eq!(index.node(1).children.get(0), Some(FileOffset(3 * NODE_SIZE as u32)));
    assert_eq!(index.node(3).file_offset, FileOffset(3 * NODE_SIZE as u32));
    assert_eq!(index.node(2).dim_index, 110);
    assert!(index.node(2).implicit);
    assert_eq!(index.node(3).quantization_bits, 6);
}

#[test]
fn add_child_refuses_bad_places() {
    let mut index = InvertedIndexIDF::new(0, 6, 2).unwrap();
    assert_eq!(index.add_child(1, 0, 1, false), Err(IndexError::InvalidParams));
    assert_eq!(index.add_child(0, 16, 1, false), Err(IndexError::InvalidParams));
    assert_eq!(index.add_child(0, 5, 1, false), Ok(1));
    assert_eq!(index.add_child(0, 5, 2, false), Err(IndexError::AlreadyPresent));
    assert_eq!(index.len(), 2);
}

#[test]
fn tree_insert_reaches_the_node() {
    let mut index = InvertedIndexIDF::new(0, 1, 2).unwrap();
    index.add_child(0, 0, 1, false).unwrap();
    assert_eq!(index.insert(1, 0, FileOffset(50)), Ok(()));
    assert_eq!(index.insert(1, 0, FileOffset(51)), Err(IndexError::DuplicateQuotient));
    assert_eq!(index.insert(1, 1, FileOffset(52)), Ok(()));
    assert_eq!(index.insert(1, 2, FileOffset(53)), Err(IndexError::CapacityExceeded));
    assert_eq!(index.insert(2, 0, FileOffset(50)), Err(IndexError::InvalidParams));
    assert_eq!(index.node(1).data.len(), 2);
    assert_eq!(index.node(0).data.len(), 0);
}

#[test]
fn driver_writes_every_node_so_that_it_reads_back() {
    let parts = 3u8;
    let mut index = InvertedIndexIDF::new(10, 16, parts).unwrap();
    let a = index.add_child(0, 3, 11, false).unwrap();
    let b = index.add_child(0, 11, 12, true).unwrap();
    let c = index.add_child(a, 15, 13, false).unwrap();
    for i in 0..20u32 {
        index.insert(a, i as u16, FileOffset(1000 + i)).unwrap();
    }
    for i in 0..3u32 {
        index.insert(c, (7 * i) as u16, FileOffset(2000 + i)).unwrap();
    }
    for i in 0..9u32 {
        index.insert(b, (2 * i) as u16, FileOffset(3000 + i)).unwrap();
    }
    let mut dim = BufferManager::new();
    let mut data = BufferManagerFactory::new();
    let mut counter = OffsetCounter::new(0);
    let cursor = dim.open_cursor();
    assert_eq!(index.serialize(&mut dim, &mut data, &mut counter, cursor), Ok(()));
    assert_eq!(dim.file_len(), 4 * NODE_SIZE);
    // Node b needs one chunk, node a two; b is written first.
    assert_eq!(counter.load() as usize, 1 + 3 * DATA_CHUNK_BYTES);
    for i in 0..index.len() {
        let held = index.node(i);
        assert!(held.is_serialized);
        let read = read_node(&mut dim, &mut data, held.file_offset.0, parts).unwrap();
        assert_eq!(read.dim_index, held.dim_index);
        assert_eq!(read.implicit, held.implicit);
        assert_eq!(read.quantization_bits, held.quantization_bits);
        assert_eq!(read.data.len(), held.data.len());
        for e in 0..held.data.len() {
            assert_eq!(read.data.entry(e), held.data.entry(e));
        }
        for slot in 0..FANOUT {
            assert_eq!(read.children.get(slot), held.children.get(slot));
        }
    }
    children_on_disk_are_readable(&mut dim, &mut data, parts, 4);
}

#[test]
fn driver_flushes_again_what_changed() {
    let parts = 1u8;
    let mut index = InvertedIndexIDF::new(10, 16, parts).unwrap();
    let a = index.add_child(0, 1, 11, false).unwrap();
    let mut dim = BufferManager::new();
    let mut data = BufferManagerFactory::new();
    let mut counter = OffsetCounter::new(0);
    let cursor = dim.open_cursor();
    index.serialize(&mut dim, &mut data, &mut counter, cursor).unwrap();
    index.serialize(&mut dim, &mut data, &mut counter, cursor).unwrap();
    assert!(!index.node(0).is_dirty && !index.node(a).is_dirty);
    let b = index.add_child(a, 2, 12, false).unwrap();
    index.insert(0, 5, FileOffset(9)).unwrap();
    assert!(index.node(0).is_dirty);
    index.serialize(&mut dim, &mut data, &mut counter, cursor).unwrap();
    assert_eq!(dim.file_len(), 3 * NODE_SIZE);
    let root = read_node(&mut dim, &mut data, 0, parts).unwrap();
    assert_eq!(root.data.len(), 1);
    assert_eq!(root.data.entry(0), (5, FileOffset(9)));
    let read_a = read_node(&mut dim, &mut data, index.node(a).file_offset.0, parts).unwrap();
    assert_eq!(read_a.children.get(2), Some(index.node(b).file_offset));
    assert!(read_node(&mut dim, &mut data, index.node(b).file_offset.0, parts).is_ok());
    children_on_disk_are_readable(&mut dim, &mut data, parts, 3);
}

#[test]
fn driver_that_runs_out_of_offsets_leaves_readable_children() {
    let parts = 1u8;
    // No room for any chunk.
    let start = u32::MAX - 10;
    let mut index = InvertedIndexIDF::new(10, 16, parts).unwrap();
    let a = index.add_child(0, 1, 11, false).unwrap();
    let b = index.add_child(a, 2, 12, false).unwrap();
    for i in 0..9u32 {
        index.insert(a, i as u16, FileOffset(1 + i)).unwrap();
    }
    index.insert(b, 4, FileOffset(1)).unwrap();
    let mut dim = BufferManager::new();
    let mut data = BufferManagerFactory::new();
    let mut counter = OffsetCounter::new(start);
    let cursor = dim.open_cursor();
    assert_eq!(index.serialize(&mut dim, &mut data, &mut counter, cursor), Err(BufIoError::Io));
    // The last node needs no chunk and is written; its parent needs one and
    // is not, nor is the root, which was never reached.
    assert!(index.node(b).is_serialized);
    assert!(!index.node(a).is_serialized);
    assert!(!index.node(0).is_serialized);
    assert_eq!(dim.file_len(), 3 * NODE_SIZE);
    let read = read_node(&mut dim, &mut data, index.node(b).file_offset.0, parts).unwrap();
    assert_eq!(read.data.entry(0), (4, FileOffset(1)));
    assert!(dim.contents()[..2 * NODE_SIZE].iter().all(|byte| *byte == 0));
    children_on_disk_are_readable(&mut dim, &mut data, parts, 3);
    assert_eq!(counter.load(), start);
}

#[test]
fn driver_needs_an_open_cursor() {
    let mut index = InvertedIndexIDF::new(10, 16, 1).unwrap();
    let mut dim = BufferManager::new();
    let mut data = BufferManagerFactory::new();
    let mut counter = OffsetCounter::new(0);
    assert_eq!(
        index.serialize(&mut dim, &mut data, &mut counter, 0),
        Err(BufIoError::InvalidCursor(0))
    );
    assert_eq!(counter.load(), 1);
    assert!(!index.node(0).is_serialized);
    assert_eq!(dim.file_len(), 0);
}

#[test]
fn posting_lists_share_the_data_files_with_the_tree() {
    let parts = 1u8;
    let mut index = InvertedIndexIDF::new(0, 16, parts).unwrap();
    let mut dim = BufferManager::new();
    let mut data = BufferManagerFactory::new();
    let mut counter = OffsetCounter::new(0);
    let cursor = dim.open_cursor();
    let mut lists = Vec::new();
    for quotient in 0..10u16 {
        let mut list = PagePool::create(data.get(0), &mut counter).unwrap();
        list.push(data.get(0), &mut counter, 1000 + quotient as u32).unwrap();
        index.insert(0, quotient, list.head).unwrap();
        lists.push(list);
    }
    index.serialize(&mut dim, &mut data, &mut counter, cursor).unwrap();
    for (quotient, list) in lists.iter_mut().enumerate() {
        list.push(data.get(0), &mut counter, 2000 + quotient as u32).unwrap();
    }
    let root = read_node(&mut dim, &mut data, 0, parts).unwrap();
    assert_eq!(root.data.len(), 10);
    for quotient in 0..10u16 {
        let head = root.data.get(quotient).unwrap();
        assert_eq!(
            PagePool::collect(data.get(0), head),
            Ok(vec![1000 + quotient as u32, 2000 + quotient as u32])
        );
        assert_eq!(root.documents(&mut data, parts, quotient).unwrap().unwrap().len(), 2);
    }
}
