//! The posting lists of a node: for each quotient of its posting map, the
//! ids of the documents that have it, in a chain of pages in the node's data
//! file.

use vstd::prelude::*;
use crate::buffered_io::{BufIoError, BufferManagerFactory, MAX_FILE_LEN};
use crate::bytes::overwrite;
use crate::node::{partition_of, quotient_capacity, InvertedIndexIDFNode, NodeImage};
use crate::node_data::{head_of, lemma_head_of};
use crate::page_pool::{
    page_bytes,
    page_len_at,
    parse_pool,
    PagePool,
    PAGE_BYTES,
};
use crate::types::{ByteRange, FileOffset, IndexError, OffsetCounter};

verus! {

/// Why a document could not be added to a posting list.
#[derive(Debug, Clone, Copy, PartialEq, Eq, Structural)]
pub enum PostingError {
    /// The posting map has no room for the quotient.
    Index(IndexError),
    /// The data file could not be read or written.
    File(BufIoError),
}

/// The handle of the list whose first page stands at `head` in `file`.
pub open spec fn pool_at(file: Seq<u8>, head: FileOffset) -> PagePool {
    PagePool {
        head,
        tail: FileOffset(parse_pool(file, head.0).unwrap().pages.last()),
        tail_len: page_len_at(file, parse_pool(file, head.0).unwrap().pages.last() as int),
    }
}

/// The data file after a list with the one id `doc_id` was made at `at`.
pub open spec fn file_with_new_list(file: Seq<u8>, at: u32, doc_id: u32) -> Seq<u8> {
    (PagePool { head: FileOffset(at), tail: FileOffset(at), tail_len: 0 }).file_after_push(
        overwrite(file, at as int, page_bytes(Seq::empty(), 0)),
        (at + PAGE_BYTES) as u32,
        doc_id,
    )
}

impl InvertedIndexIDFNode {
    /// Records that the document `doc_id` has the quotient `quotient`.  If
    /// the posting map holds the quotient, the id is appended to its list;
    /// else a list is made for it at a place that `offset_counter` hands
    /// out, and the quotient enters the map, which makes the node dirty.
    /// The lists stand in the data file `dim_index % data_file_parts`.
    /// Either all of this is done or, on an error, no byte and no entry
    /// changes.
    pub fn add_document(
        &mut self,
        data_bufmans: &mut BufferManagerFactory,
        offset_counter: &mut OffsetCounter,
        data_file_parts: u8,
        quotient: u16,
        doc_id: u32,
    ) -> (r: Result<(), PostingError>)
        requires
            old(self).wf(),
            old(offset_counter).wf(),
            data_file_parts > 0,
        ensures
            final(self).wf(),
            final(offset_counter).wf(),
            final(self).file_offset == old(self).file_offset,
            final(self).is_serialized == old(self).is_serialized,
            final(self).data.chunk_offsets() == old(self).data.chunk_offsets(),
            forall|other: u8|
                other != partition_of(old(self).dim_index, data_file_parts)
                    ==> final(data_bufmans).file(other) == old(data_bufmans).file(other),
            r is Err ==> {
                &&& final(self).image() == old(self).image()
                &&& final(self).is_dirty == old(self).is_dirty
                &&& final(data_bufmans).file(
                    partition_of(old(self).dim_index, data_file_parts),
                ).bytes == old(data_bufmans).file(
                    partition_of(old(self).dim_index, data_file_parts),
                ).bytes
                &&& final(offset_counter).value() == old(offset_counter).value()
                &&& final(offset_counter).granted() == old(offset_counter).granted()
            },
            // The quotient has a list: the id is appended to it.
            head_of(old(self).data@, quotient) matches Some(head) ==> {
                let file = old(data_bufmans).file(
                    partition_of(old(self).dim_index, data_file_parts),
                ).bytes;
                let after = final(data_bufmans).file(
                    partition_of(old(self).dim_index, data_file_parts),
                ).bytes;
                let value = old(offset_counter).value();
                &&& r is Ok <==> parse_pool(file, head.0) is Ok && pool_at(file, head).can_push(
                    value,
                )
                &&& r is Ok ==> {
                    &&& final(self).image() == old(self).image()
                    &&& final(self).is_dirty == old(self).is_dirty
                    &&& after == pool_at(file, head).file_after_push(file, value, doc_id)
                    &&& parse_pool(after, head.0) is Ok
                    &&& parse_pool(after, head.0).unwrap().ids == parse_pool(
                        file,
                        head.0,
                    ).unwrap().ids.push(doc_id)
                    &&& final(offset_counter).value() == if pool_at(file, head).tail_len
                        < crate::page_pool::PAGE_CAP {
                        value as int
                    } else {
                        value + PAGE_BYTES
                    }
                }
                &&& r matches Err(e) ==> e == PostingError::File(
                    if parse_pool(file, head.0) is Ok {
                        BufIoError::Io
                    } else {
                        BufIoError::CorruptChain
                    },
                )
            },
            // The quotient has none: a list is made and enters the map.
            head_of(old(self).data@, quotient) is None ==> {
                let file = old(data_bufmans).file(
                    partition_of(old(self).dim_index, data_file_parts),
                ).bytes;
                let after = final(data_bufmans).file(
                    partition_of(old(self).dim_index, data_file_parts),
                ).bytes;
                let value = old(offset_counter).value();
                &&& r is Ok <==> old(self).data@.len() < quotient_capacity(
                    old(self).quantization_bits,
                ) && value + PAGE_BYTES <= MAX_FILE_LEN
                &&& r is Ok ==> {
                    &&& final(self).image() == (NodeImage {
                        entries: old(self).data@.push((quotient, value)),
                        ..old(self).image()
                    })
                    &&& final(self).is_dirty
                    &&& after == file_with_new_list(file, value, doc_id)
                    &&& parse_pool(after, value) is Ok
                    &&& parse_pool(after, value).unwrap().ids == seq![doc_id]
                    &&& final(offset_counter).value() == value + PAGE_BYTES
                    &&& final(offset_counter).granted() == old(offset_counter).granted().push(
                        ByteRange { start: value as int, size: PAGE_BYTES as int },
                    )
                }
                &&& r matches Err(e) ==> e == if old(self).data@.len() >= quotient_capacity(
                    old(self).quantization_bits,
                ) {
                    PostingError::Index(IndexError::CapacityExceeded)
                } else {
                    PostingError::File(BufIoError::Io)
                }
            },
    {
        let part = (self.dim_index % data_file_parts as u32) as u8;
        proof {
            lemma_head_of(self.data@, quotient);
            crate::page_pool::lemma_parse_pool_errors(
                data_bufmans.file(part).bytes,
                match head_of(self.data@, quotient) {
                    Some(head) => head.0,
                    None => 0,
                },
            );
        }
        match self.data.get(quotient) {
            Some(head) => {
                let bufman = data_bufmans.get(part);
                let mut pool = match PagePool::open(bufman, head) {
                    Ok(pool) => pool,
                    Err(e) => { return Err(PostingError::File(e)); },
                };
                match pool.push(bufman, offset_counter, doc_id) {
                    Ok(()) => Ok(()),
                    Err(e) => Err(PostingError::File(e)),
                }
            },
            None => {
                if self.data.len() >= crate::node::capacity_for(self.quantization_bits) {
                    return Err(PostingError::Index(IndexError::CapacityExceeded));
                }
                let bufman = data_bufmans.get(part);
                let mut pool = match PagePool::create(bufman, offset_counter) {
                    Ok(pool) => pool,
                    Err(e) => { return Err(PostingError::File(e)); },
                };
                let pushed = pool.push(bufman, offset_counter, doc_id);
                assert(pushed is Ok);
                let inserted = self.insert(quotient, pool.head);
                assert(inserted is Ok);
                Ok(())
            },
        }
    }

    /// The ids of the documents that have the quotient `quotient`, in the
    /// order in which they were added; `None` if the posting map does not
    /// hold the quotient.
    pub fn documents(
        &self,
        data_bufmans: &mut BufferManagerFactory,
        data_file_parts: u8,
        quotient: u16,
    ) -> (r: Result<Option<Vec<u32>>, BufIoError>)
        requires
            data_file_parts > 0,
        ensures
            forall|other: u8| #[trigger]
                final(data_bufmans).file(other).bytes == old(data_bufmans).file(other).bytes,
            match head_of(self.data@, quotient) {
                None => r matches Ok(None),
                Some(head) => match parse_pool(
                    old(data_bufmans).file(partition_of(self.dim_index, data_file_parts)).bytes,
                    head.0,
                ) {
                    Ok(image) => r matches Ok(Some(ids)) && ids@ == image.ids,
                    Err(_) => r matches Err(e) && e == BufIoError::CorruptChain,
                },
            },
    {
        let part = (self.dim_index % data_file_parts as u32) as u8;
        match self.data.get(quotient) {
            None => Ok(None),
            Some(head) => {
                match PagePool::collect(data_bufmans.get(part), head) {
                    Ok(ids) => Ok(Some(ids)),
                    Err(e) => Err(e),
                }
            },
        }
    }
}

} // verus!
