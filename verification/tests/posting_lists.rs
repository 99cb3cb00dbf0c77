use vector_store::buffered_io::{BufIoError, BufferManager, BufferManagerFactory};
use vector_store::node::InvertedIndexIDFNode;
use vector_store::page_pool::{decode_ids, encode_page, PagePool, PAGE_BYTES, PAGE_CAP, PAGE_NEXT_AT};
use vector_store::postings::PostingError;
use vector_store::types::{FileOffset, IndexError, OffsetCounter};

#[test]
fn page_layout_adds_up() {
    assert_eq!(PAGE_BYTES, 4 + 4 * PAGE_CAP + 4);
    assert_eq!(PAGE_NEXT_AT, 4 + 4 * PAGE_CAP);
}

#[test]
fn page_has_len_ids_and_next() {
    let bytes = encode_page(&vec![7, 0x0102_0304], 0x0A0B_0C0D);
    assert_eq!(bytes.len(), PAGE_BYTES);
    assert_eq!(&bytes[0..4], &[2, 0, 0, 0]);
    assert_eq!(&bytes[4..8], &[7, 0, 0, 0]);
    assert_eq!(&bytes[8..12], &[4, 3, 2, 1]);
    assert!(bytes[12..PAGE_NEXT_AT].iter().all(|b| *b == 0));
    assert_eq!(&bytes[PAGE_NEXT_AT..], &[0x0D, 0x0C, 0x0B, 0x0A]);
    let mut ids = vec![1];
    decode_ids(&bytes, 2, &mut ids);
    assert_eq!(ids, vec![1, 7, 0x0102_0304]);
}

#[test]
fn new_list_is_one_empty_page() {
    let mut file = BufferManager::new();
    let mut counter = OffsetCounter::new(10);
    let pool = PagePool::create(&mut file, &mut counter).unwrap();
    assert_eq!(pool, PagePool { head: FileOffset(10), tail: FileOffset(10), tail_len: 0 });
    assert_eq!(counter.load() as usize, 10 + PAGE_BYTES);
    assert_eq!(file.file_len(), 10 + PAGE_BYTES);
    assert!(file.contents().iter().all(|b| *b == 0));
    assert_eq!(PagePool::collect(&mut file, pool.head), Ok(vec![]));
}

#[test]
fn ids_come_back_in_the_order_pushed() {
    let mut file = BufferManager::new();
    let mut counter = OffsetCounter::new(0);
    let mut pool = PagePool::create(&mut file, &mut counter).unwrap();
    let ids: Vec<u32> = (0..(2 * PAGE_CAP as u32 + 5)).map(|i| 1000 - i).collect();
    for (i, id) in ids.iter().enumerate() {
        pool.push(&mut file, &mut counter, *id).unwrap();
        assert_eq!(PagePool::collect(&mut file, pool.head).unwrap().len(), i + 1);
    }
    assert_eq!(PagePool::collect(&mut file, pool.head), Ok(ids));
    assert_eq!(pool.head, FileOffset(1));
    assert_eq!(pool.tail, FileOffset(1 + 2 * PAGE_BYTES as u32));
    assert_eq!(pool.tail_len, 5);
    assert_eq!(counter.load() as usize, 1 + 3 * PAGE_BYTES);
    let bytes = file.contents();
    let link = 1 + PAGE_NEXT_AT;
    assert_eq!(&bytes[link..link + 4], &(1 + PAGE_BYTES as u32).to_le_bytes());
    assert_eq!(&bytes[1..5], &(PAGE_CAP as u32).to_le_bytes());
    assert_eq!(&bytes[5..9], &1000u32.to_le_bytes());
}

#[test]
fn a_page_is_full_before_the_next_is_linked() {
    let mut file = BufferManager::new();
    let mut counter = OffsetCounter::new(0);
    let mut pool = PagePool::create(&mut file, &mut counter).unwrap();
    for id in 0..PAGE_CAP as u32 {
        pool.push(&mut file, &mut counter, id).unwrap();
    }
    assert_eq!(pool.tail, pool.head);
    assert_eq!(pool.tail_len, PAGE_CAP as u32);
    assert_eq!(file.file_len(), 1 + PAGE_BYTES);
    pool.push(&mut file, &mut counter, 99).unwrap();
    assert_ne!(pool.tail, pool.head);
    assert_eq!(pool.tail_len, 1);
    assert_eq!(file.file_len(), 1 + 2 * PAGE_BYTES);
}

#[test]
fn lists_share_a_file_without_touching_each_other() {
    let mut file = BufferManager::new();
    let mut counter = OffsetCounter::new(0);
    let mut a = PagePool::create(&mut file, &mut counter).unwrap();
    let mut b = PagePool::create(&mut file, &mut counter).unwrap();
    for id in 0..40u32 {
        a.push(&mut file, &mut counter, id).unwrap();
        b.push(&mut file, &mut counter, 100 + id).unwrap();
    }
    assert_eq!(PagePool::collect(&mut file, a.head), Ok((0..40).collect::<Vec<u32>>()));
    assert_eq!(PagePool::collect(&mut file, b.head), Ok((100..140).collect::<Vec<u32>>()));
}

#[test]
fn list_is_found_again_from_its_head() {
    let mut file = BufferManager::new();
    let mut counter = OffsetCounter::new(0);
    let mut pool = PagePool::create(&mut file, &mut counter).unwrap();
    for id in 0..(PAGE_CAP as u32 + 3) {
        pool.push(&mut file, &mut counter, id).unwrap();
    }
    let mut found = PagePool::open(&mut file, pool.head).unwrap();
    assert_eq!(found, pool);
    found.push(&mut file, &mut counter, 77).unwrap();
    let ids = PagePool::collect(&mut file, pool.head).unwrap();
    assert_eq!(ids.len(), PAGE_CAP + 4);
    assert_eq!(ids.last(), Some(&77));
}

#[test]
fn broken_chains_are_refused() {
    let mut file = BufferManager::new();
    let mut counter = OffsetCounter::new(0);
    let mut pool = PagePool::create(&mut file, &mut counter).unwrap();
    for id in 0..(PAGE_CAP as u32 + 1) {
        pool.push(&mut file, &mut counter, id).unwrap();
    }
    assert_eq!(PagePool::collect(&mut file, FileOffset(5000)), Err(BufIoError::CorruptChain));
    assert_eq!(PagePool::open(&mut file, FileOffset(5000)).err(), Some(BufIoError::CorruptChain));
    let cursor = file.open_cursor();
    // The first page points to itself.
    file.seek_with_cursor(cursor, (1 + PAGE_NEXT_AT) as u64).unwrap();
    file.update_u32_with_cursor(cursor, 1).unwrap();
    assert_eq!(PagePool::collect(&mut file, pool.head), Err(BufIoError::CorruptChain));
    // The first page points on without being full.
    file.seek_with_cursor(cursor, (1 + PAGE_NEXT_AT) as u64).unwrap();
    file.update_u32_with_cursor(cursor, pool.tail.0).unwrap();
    assert!(PagePool::collect(&mut file, pool.head).is_ok());
    file.seek_with_cursor(cursor, 1).unwrap();
    file.update_u32_with_cursor(cursor, 3).unwrap();
    assert_eq!(PagePool::collect(&mut file, pool.head), Err(BufIoError::CorruptChain));
    // A page counts more ids than it has room for.
    file.seek_with_cursor(cursor, 1).unwrap();
    file.update_u32_with_cursor(cursor, PAGE_CAP as u32 + 1).unwrap();
    assert_eq!(PagePool::collect(&mut file, pool.head), Err(BufIoError::CorruptChain));
}

#[test]
fn push_fails_without_change_when_no_page_can_be_had() {
    let mut file = BufferManager::new();
    let mut counter = OffsetCounter::new(0);
    let mut pool = PagePool::create(&mut file, &mut counter).unwrap();
    for id in 0..PAGE_CAP as u32 {
        pool.push(&mut file, &mut counter, id).unwrap();
    }
    let before = file.contents().clone();
    let mut exhausted = OffsetCounter::new(u32::MAX - 5);
    assert_eq!(pool.push(&mut file, &mut exhausted, 1), Err(BufIoError::Io));
    let mut rewound = OffsetCounter::new(2);
    assert_eq!(pool.push(&mut file, &mut rewound, 1), Err(BufIoError::Io));
    assert_eq!(rewound.load(), 2);
    assert_eq!(file.contents(), &before);
    assert_eq!(pool.tail_len, PAGE_CAP as u32);
    let mut none = BufferManager::new();
    assert_eq!(PagePool::create(&mut none, &mut exhausted).err(), Some(BufIoError::Io));
    assert_eq!(none.file_len(), 0);
}

#[test]
fn documents_of_a_node_are_kept_by_quotient() {
    let mut node = InvertedIndexIDFNode::new(6, false, 1, FileOffset(0)).unwrap();
    let mut data = BufferManagerFactory::new();
    let mut counter = OffsetCounter::new(0);
    assert_eq!(node.documents(&mut data, 4, 0), Ok(None));
    assert_eq!(node.add_document(&mut data, &mut counter, 4, 0, 500), Ok(()));
    assert_eq!(node.add_document(&mut data, &mut counter, 4, 1, 600), Ok(()));
    assert_eq!(node.add_document(&mut data, &mut counter, 4, 0, 501), Ok(()));
    assert!(node.is_dirty);
    assert_eq!(node.data.len(), 2);
    assert_eq!(node.data.entry(0), (0, FileOffset(1)));
    assert_eq!(node.data.entry(1), (1, FileOffset(1 + PAGE_BYTES as u32)));
    assert_eq!(node.documents(&mut data, 4, 0), Ok(Some(vec![500, 501])));
    assert_eq!(node.documents(&mut data, 4, 1), Ok(Some(vec![600])));
    // One quantization bit: two quotients at most.
    assert_eq!(
        node.add_document(&mut data, &mut counter, 4, 2, 700),
        Err(PostingError::Index(IndexError::CapacityExceeded))
    );
    assert_eq!(node.documents(&mut data, 4, 2), Ok(None));
    // Dimension 6 with 4 data files: the lists stand in file 2.
    assert_eq!(data.get(2).file_len(), 1 + 2 * PAGE_BYTES);
    assert_eq!(data.get(0).file_len(), 0);
    assert_eq!(counter.load() as usize, 1 + 2 * PAGE_BYTES);
}

#[test]
fn long_list_of_a_node_grows_by_pages() {
    let mut node = InvertedIndexIDFNode::new(0, false, 8, FileOffset(0)).unwrap();
    let mut data = BufferManagerFactory::new();
    let mut counter = OffsetCounter::new(0);
    let ids: Vec<u32> = (0..100).collect();
    for id in &ids {
        node.add_document(&mut data, &mut counter, 1, 9, *id).unwrap();
    }
    assert_eq!(node.documents(&mut data, 1, 9), Ok(Some(ids)));
    assert_eq!(node.data.len(), 1);
    assert_eq!(counter.load() as usize, 1 + 4 * PAGE_BYTES);
}

#[test]
fn document_is_refused_when_its_list_is_broken_or_no_page_is_left() {
    let mut node = InvertedIndexIDFNode::new(0, false, 8, FileOffset(0)).unwrap();
    let mut data = BufferManagerFactory::new();
    let mut exhausted = OffsetCounter::new(u32::MAX - 3);
    assert_eq!(
        node.add_document(&mut data, &mut exhausted, 1, 9, 1),
        Err(PostingError::File(BufIoError::Io))
    );
    assert_eq!(node.data.len(), 0);
    assert_eq!(data.get(0).file_len(), 0);
    let mut counter = OffsetCounter::new(0);
    node.add_document(&mut data, &mut counter, 1, 9, 1).unwrap();
    // Another set of files knows nothing of the list.
    let mut other = BufferManagerFactory::new();
    assert_eq!(
        node.add_document(&mut other, &mut counter, 1, 9, 2),
        Err(PostingError::File(BufIoError::CorruptChain))
    );
    assert_eq!(node.documents(&mut other, 1, 9), Err(BufIoError::CorruptChain));
    assert_eq!(node.documents(&mut data, 1, 9), Ok(Some(vec![1])));
}
