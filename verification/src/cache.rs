//! A bounded cache of nodes read from the index files.
//!
//! The cache holds each node under the offset of its record, the least
//! recently used first.  A node that is asked for and not held is read from
//! the files; when the cache is full, the node that was used least recently
//! makes room, and is written back first if its posting map has changed.

use vstd::prelude::*;
use crate::atomic_array::FANOUT;
use crate::buffered_io::{BufIoError, BufferManager, BufferManagerFactory, BufferState};
use crate::node::{
    partition_of,
    read_at,
    quotient_capacity,
    InvertedIndexIDFNode,
    NodeImage,
};
use crate::node_data::DATA_CHUNK_BYTES;
use crate::types::{FileOffset, IndexError, OffsetCounter};

verus! {

/// The first place from `from` on at which `nodes` holds the node with the
/// record at `key`.
pub open spec fn place_of(nodes: Seq<InvertedIndexIDFNode>, key: u32, from: int) -> Option<int>
    decreases nodes.len() - from,
{
    if from < 0 || from >= nodes.len() {
        None
    } else if nodes[from].file_offset.0 == key {
        Some(from)
    } else {
        place_of(nodes, key, from + 1)
    }
}

/// What [`place_of`] finds is a place of the key, the first one from `from`
/// on; it finds none only where there is none.
pub proof fn lemma_place_of(nodes: Seq<InvertedIndexIDFNode>, key: u32, from: int)
    requires
        0 <= from,
    ensures
        place_of(nodes, key, from) matches Some(i) ==> from <= i < nodes.len()
            && nodes[i].file_offset.0 == key,
        place_of(nodes, key, from) is None ==> forall|k: int|
            from <= k < nodes.len() ==> (#[trigger] nodes[k]).file_offset.0 != key,
    decreases nodes.len() - from,
{
    if from < nodes.len() && nodes[from].file_offset.0 != key {
        lemma_place_of(nodes, key, from + 1);
    }
}

/// No two nodes have their record at the same offset.
pub open spec fn distinct_keys(nodes: Seq<InvertedIndexIDFNode>) -> bool {
    forall|i: int, j: int|
        0 <= i < j < nodes.len() ==> (#[trigger] nodes[i]).file_offset != (
        #[trigger] nodes[j]).file_offset
}

/// A bounded cache of nodes, the least recently used first.
pub struct InvertedIndexIDFCache {
    capacity: usize,
    entries: Vec<InvertedIndexIDFNode>,
}

impl View for InvertedIndexIDFCache {
    type V = Seq<InvertedIndexIDFNode>;

    closed spec fn view(&self) -> Seq<InvertedIndexIDFNode> {
        self.entries@
    }
}

impl InvertedIndexIDFCache {
    /// How many nodes the cache holds at most.
    pub closed spec fn capacity(&self) -> usize {
        self.capacity
    }

    /// The cache holds no more nodes than it may, each of them well formed,
    /// and none twice.
    pub open spec fn wf(&self) -> bool {
        &&& 1 <= self.capacity()
        &&& self@.len() <= self.capacity()
        &&& distinct_keys(self@)
        &&& forall|i: int| 0 <= i < self@.len() ==> (#[trigger] self@[i]).wf()
    }

    /// An empty cache for at most `capacity` nodes, at least one.
    pub fn new(capacity: usize) -> (r: Option<InvertedIndexIDFCache>)
        ensures
            r is Some <==> capacity >= 1,
            r matches Some(cache) ==> cache.wf() && cache.capacity() == capacity && cache@
                == Seq::<InvertedIndexIDFNode>::empty(),
    {
        if capacity == 0 {
            return None;
        }
        Some(InvertedIndexIDFCache { capacity, entries: Vec::new() })
    }

    /// How many nodes the cache holds.
    pub fn len(&self) -> (n: usize)
        ensures
            n == self@.len(),
    {
        self.entries.len()
    }

    /// Where the cache holds the node with the record at `key`, if it does.
    fn find(&self, key: FileOffset) -> (place: Option<usize>)
        ensures
            place is Some <==> place_of(self@, key.0, 0) is Some,
            place matches Some(i) ==> place_of(self@, key.0, 0) == Some(i as int) && i
                < self@.len(),
    {
        let mut i: usize = 0;
        while i < self.entries.len()
            invariant
                i <= self.entries@.len(),
                place_of(self@, key.0, 0) == place_of(self@, key.0, i as int),
            decreases self.entries@.len() - i,
        {
            if self.entries[i].file_offset.0 == key.0 {
                return Some(i);
            }
            i = i + 1;
        }
        None
    }

    /// Tells whether the cache holds the node with the record at `key`.
    pub fn contains(&self, key: FileOffset) -> (held: bool)
        ensures
            held == place_of(self@, key.0, 0) is Some,
    {
        self.find(key).is_some()
    }

    /// The node in place `i`, counted from the least recently used.
    pub fn entry(&self, i: usize) -> (node: &InvertedIndexIDFNode)
        requires
            i < self@.len(),
        ensures
            *node == self@[i as int],
    {
        &self.entries[i]
    }

    /// Appends the entry `(quotient, head)` to the posting map of the node
    /// with the record at `key`, which the cache must hold.  The node
    /// becomes dirty; its place in the cache stays.
    pub fn insert(&mut self, key: FileOffset, quotient: u16, head: FileOffset) -> (r: Result<
        (),
        IndexError,
    >)
        requires
            old(self).wf(),
        ensures
            final(self).wf(),
            final(self).capacity() == old(self).capacity(),
            final(self)@.len() == old(self)@.len(),
            place_of(old(self)@, key.0, 0) is None ==> r == (Err::<(), IndexError>(
                IndexError::InvalidParams,
            )) && final(self)@ == old(self)@,
            place_of(old(self)@, key.0, 0) matches Some(i) ==> {
                let node = old(self)@[i];
                &&& forall|k: int|
                    0 <= k < old(self)@.len() && k != i ==> #[trigger] final(self)@[k] == old(self)@[k]
                &&& final(self)@[i].file_offset == node.file_offset
                &&& final(self)@[i].is_serialized == node.is_serialized
                &&& r is Ok <==> node.data@.len() < quotient_capacity(node.quantization_bits)
                    && forall|e: int| 0 <= e < node.data@.len() ==> node.data@[e].0 != quotient
                &&& r is Ok ==> final(self)@[i].is_dirty && final(self)@[i].image() == (NodeImage {
                    entries: node.data@.push((quotient, head.0)),
                    ..node.image()
                })
                &&& r matches Err(e) ==> final(self)@[i].is_dirty == node.is_dirty
                    && final(self)@[i].image() == node.image() && e == if exists|e: int|
                    0 <= e < node.data@.len() && node.data@[e].0 == quotient {
                    IndexError::DuplicateQuotient
                } else {
                    IndexError::CapacityExceeded
                }
            },
    {
        proof {
            lemma_place_of(self@, key.0, 0);
        }
        let i = match self.find(key) {
            Some(i) => i,
            None => { return Err(IndexError::InvalidParams); },
        };
        assert(old(self)@[i as int].wf());
        let r = self.entries[i].insert(quotient, head);
        proof {
            let before = old(self)@;
            let after = self@;
            assert forall|a: int, b: int| 0 <= a < b < after.len() implies (
            #[trigger] after[a]).file_offset != (#[trigger] after[b]).file_offset by {
                assert(before[a].file_offset != before[b].file_offset);
            }
            assert forall|a: int| 0 <= a < after.len() implies (#[trigger] after[a]).wf() by {
                if a != i {
                    assert(before[a].wf());
                }
            }
        }
        r
    }

    /// Puts the record offset of a child into slot `slot` of the node with
    /// the record at `key`, which the cache must hold, if the slot is empty.
    pub fn set_child(&mut self, key: FileOffset, slot: usize, offset: FileOffset) -> (r: Result<
        (),
        IndexError,
    >)
        requires
            old(self).wf(),
        ensures
            final(self).wf(),
            final(self).capacity() == old(self).capacity(),
            final(self)@.len() == old(self)@.len(),
            place_of(old(self)@, key.0, 0) is None || slot >= FANOUT ==> r == (Err::<
                (),
                IndexError,
            >(IndexError::InvalidParams)) && final(self)@ == old(self)@,
            slot < FANOUT ==> (place_of(old(self)@, key.0, 0) matches Some(i) ==> {
                let node = old(self)@[i];
                &&& forall|k: int|
                    0 <= k < old(self)@.len() && k != i ==> #[trigger] final(self)@[k] == old(self)@[k]
                &&& final(self)@[i].file_offset == node.file_offset
                &&& final(self)@[i].is_serialized == node.is_serialized
                &&& final(self)@[i].is_dirty == node.is_dirty
                &&& r is Ok <==> node.children@[slot as int] == 0
                &&& r is Ok ==> final(self)@[i].image() == (NodeImage {
                    children: node.children@.update(slot as int, offset.0),
                    ..node.image()
                })
                &&& r matches Err(e) ==> e == IndexError::AlreadyPresent
                    && final(self)@[i].image() == node.image()
            }),
    {
        proof {
            lemma_place_of(self@, key.0, 0);
        }
        if slot >= FANOUT {
            return Err(IndexError::InvalidParams);
        }
        let i = match self.find(key) {
            Some(i) => i,
            None => { return Err(IndexError::InvalidParams); },
        };
        assert(old(self)@[i as int].wf());
        let r = self.entries[i].set_child(slot, offset);
        proof {
            let before = old(self)@;
            let after = self@;
            assert forall|a: int, b: int| 0 <= a < b < after.len() implies (
            #[trigger] after[a]).file_offset != (#[trigger] after[b]).file_offset by {
                assert(before[a].file_offset != before[b].file_offset);
            }
            assert forall|a: int| 0 <= a < after.len() implies (#[trigger] after[a]).wf() by {
                if a != i {
                    assert(before[a].wf());
                }
            }
        }
        r
    }

    /// The state of a dim file after a node was read from it: the bytes are
    /// as they were, and the cursor that was used is closed.
    pub open spec fn after_load(dim: BufferState) -> BufferState {
        BufferState { bytes: dim.bytes, cursors: dim.cursors.push(None) }
    }

    /// Whether taking in one more node means writing back the node that was
    /// used least recently.
    pub open spec fn writes_back(&self) -> bool {
        self@.len() == self.capacity() && self@[0].is_dirty
    }

    /// The nodes that stay when one more node is taken in.
    pub open spec fn kept(&self) -> Seq<InvertedIndexIDFNode> {
        if self@.len() == self.capacity() {
            self@.drop_first()
        } else {
            self@
        }
    }

    /// The node with the record at `key`: from the cache if it is held, and
    /// then it becomes the most recently used; else read from the index
    /// files and taken in.  When the cache is full, the node that was used
    /// least recently is dropped for it, after it has been written back if
    /// its posting map has changed; `cursor`, a cursor of the dim file, and
    /// `offset_counter` serve that flush.  A node that cannot be read, or a
    /// write-back that fails, leaves the cache as it was.
    pub fn get_or_load(
        &mut self,
        key: FileOffset,
        dim_bufman: &mut BufferManager,
        data_bufmans: &mut BufferManagerFactory,
        offset_counter: &mut OffsetCounter,
        data_file_parts: u8,
        cursor: u64,
    ) -> (r: Result<&InvertedIndexIDFNode, BufIoError>)
        requires
            old(self).wf(),
            old(offset_counter).wf(),
            data_file_parts > 0,
        ensures
            final(self).wf(),
            final(self).capacity() == old(self).capacity(),
            final(offset_counter).wf(),
            r matches Ok(node) ==> final(self)@.len() >= 1 && *node == final(self)@.last()
                && node.file_offset == key,
            forall|part: u8| #[trigger]
                final(data_bufmans).file(part).bytes.len() >= old(data_bufmans).file(
                    part,
                ).bytes.len(),
            // A node that is held is promoted; no file is touched.
            place_of(old(self)@, key.0, 0) matches Some(i) ==> {
                &&& r is Ok
                &&& final(self)@ == old(self)@.remove(i).push(old(self)@[i])
                &&& final(dim_bufman)@ == old(dim_bufman)@
                &&& forall|part: u8| #[trigger]
                    final(data_bufmans).file(part) == old(data_bufmans).file(part)
                &&& final(offset_counter).value() == old(offset_counter).value()
                &&& final(offset_counter).granted() == old(offset_counter).granted()
            },
            // A node that is not held and cannot be read.
            place_of(old(self)@, key.0, 0) is None ==> (read_at(
                old(dim_bufman)@.bytes,
                *old(data_bufmans),
                data_file_parts,
                key.0 as int,
            ) matches Err(e) ==> {
                &&& r matches Err(err) && err == e
                &&& final(self)@ == old(self)@
                &&& final(dim_bufman)@ == Self::after_load(old(dim_bufman)@)
                &&& forall|part: u8| #[trigger]
                    final(data_bufmans).file(part).bytes == old(data_bufmans).file(part).bytes
                &&& final(offset_counter).value() == old(offset_counter).value()
                &&& final(offset_counter).granted() == old(offset_counter).granted()
            }),
            // A node that is read and taken in without a write-back.
            place_of(old(self)@, key.0, 0) is None && !old(self).writes_back() ==> (read_at(
                old(dim_bufman)@.bytes,
                *old(data_bufmans),
                data_file_parts,
                key.0 as int,
            ) matches Ok(image) ==> {
                &&& r is Ok
                &&& final(self)@ == old(self).kept().push(final(self)@.last())
                &&& final(self)@.last().image() == image
                &&& final(self)@.last().is_serialized
                &&& !final(self)@.last().is_dirty
                &&& final(dim_bufman)@ == Self::after_load(old(dim_bufman)@)
                &&& forall|part: u8| #[trigger]
                    final(data_bufmans).file(part).bytes == old(data_bufmans).file(part).bytes
                &&& final(offset_counter).value() == old(offset_counter).value()
                &&& final(offset_counter).granted() == old(offset_counter).granted()
            }),
            // A node that is read and taken in after a write-back.
            place_of(old(self)@, key.0, 0) is None && old(self).writes_back() ==> (read_at(
                old(dim_bufman)@.bytes,
                *old(data_bufmans),
                data_file_parts,
                key.0 as int,
            ) matches Ok(image) ==> {
                let victim = old(self)@[0];
                let loaded = Self::after_load(old(dim_bufman)@);
                let value = old(offset_counter).value();
                let part = partition_of(victim.dim_index, data_file_parts);
                &&& r is Ok <==> victim.can_flush(loaded, value, cursor)
                &&& r is Ok ==> {
                    &&& final(self)@ == old(self).kept().push(final(self)@.last())
                    &&& final(self)@.last().image() == image
                    &&& final(self)@.last().is_serialized
                    &&& !final(self)@.last().is_dirty
                    &&& final(dim_bufman)@ == loaded.moved(cursor, victim.flush_start()).written(
                        cursor,
                        victim.flush_bytes(victim.offsets_after_flush(value)),
                    )
                    &&& final(data_bufmans).file(part).bytes == victim.data_after_flush(
                        old(data_bufmans).file(part).bytes,
                        value,
                    )
                    &&& forall|other: u8|
                        other != part ==> (#[trigger] final(data_bufmans).file(other)).bytes
                            == old(data_bufmans).file(other).bytes
                    &&& final(offset_counter).value() == value + victim.data.missing_chunks()
                        * DATA_CHUNK_BYTES
                    &&& final(offset_counter).granted() == old(offset_counter).granted()
                        + victim.data.ranges_after(value)
                }
                &&& r matches Err(e) ==> {
                    &&& e == loaded.write_error(cursor)
                    &&& final(self)@.len() == old(self)@.len()
                    &&& forall|i: int|
                        1 <= i < old(self)@.len() ==> #[trigger] final(self)@[i] == old(self)@[i]
                    &&& final(self)@[0].image() == victim.image()
                    &&& final(self)@[0].is_dirty
                    &&& final(self)@[0].is_serialized == victim.is_serialized
                    &&& final(dim_bufman)@ == loaded
                    &&& forall|part: u8| #[trigger]
                        final(data_bufmans).file(part).bytes == old(data_bufmans).file(
                            part,
                        ).bytes
                    &&& final(offset_counter).value() == value
                    &&& final(offset_counter).granted() == old(offset_counter).granted()
                }
            }),
    {
        proof {
            lemma_place_of(self@, key.0, 0);
        }
        match self.find(key) {
            Some(i) => {
                let node = self.entries.remove(i);
                self.entries.push(node);
                proof {
                    let before = old(self)@;
                    let after = self@;
                    assert(after =~= before.remove(i as int).push(before[i as int]));
                    assert forall|a: int, b: int| 0 <= a < b < after.len() implies (
                    #[trigger] after[a]).file_offset != (#[trigger] after[b]).file_offset by {
                        let from_a = if a < i {
                            a
                        } else {
                            a + 1
                        };
                        let from_b = if b == after.len() - 1 {
                            i as int
                        } else if b < i {
                            b
                        } else {
                            b + 1
                        };
                        assert(after[a] == before[from_a] && after[b] == before[from_b]);
                    }
                    assert forall|a: int| 0 <= a < after.len() implies (#[trigger] after[a]).wf() by {
                        let from_a = if a == after.len() - 1 {
                            i as int
                        } else if a < i {
                            a
                        } else {
                            a + 1
                        };
                        assert(after[a] == before[from_a]);
                        assert(before[from_a].wf());
                    }
                }
            },
            None => {
                let ghost dim = dim_bufman@;
                let ghost data = *data_bufmans;
                let node = match InvertedIndexIDFNode::deserialize(
                    dim_bufman,
                    data_bufmans,
                    key,
                    data_file_parts,
                ) {
                    Ok(node) => node,
                    Err(e) => {
                        assert(dim_bufman@ =~= Self::after_load(dim));
                        return Err(e);
                    },
                };
                assert(dim_bufman@ =~= Self::after_load(dim));
                let ghost loaded_data = *data_bufmans;
                if self.entries.len() >= self.capacity {
                    assert(old(self)@[0].wf());
                    if self.entries[0].is_dirty {
                        match self.entries[0].serialize(
                            dim_bufman,
                            data_bufmans,
                            offset_counter,
                            data_file_parts,
                            cursor,
                        ) {
                            Ok(_) => {
                                proof {
                                    let victim = old(self)@[0];
                                    let part = partition_of(victim.dim_index, data_file_parts);
                                    assert(loaded_data.file(part).bytes == data.file(part).bytes);
                                    crate::node_data::lemma_continuations_no_shorter(
                                        data.file(part).bytes,
                                        victim.data@,
                                        self@[0].data.chunk_offsets(),
                                        self@[0].data.chunk_offsets().len(),
                                    );
                                }
                            },
                            Err(e) => {
                                proof {
                                    let before = old(self)@;
                                    let after = self@;
                                    assert forall|a: int, b: int|
                                        0 <= a < b < after.len() implies (
                                    #[trigger] after[a]).file_offset != (
                                    #[trigger] after[b]).file_offset by {
                                        assert(before[a].file_offset != before[b].file_offset);
                                    }
                                    assert forall|a: int| 0 <= a < after.len() implies (
                                    #[trigger] after[a]).wf() by {
                                        if a > 0 {
                                            assert(before[a].wf());
                                        }
                                    }
                                }
                                return Err(e);
                            },
                        }
                    }
                    self.entries.remove(0);
                }
                self.entries.push(node);
                proof {
                    let before = old(self)@;
                    let after = self@;
                    let kept = old(self).kept();
                    let shift: int = if before.len() == old(self).capacity() {
                        1
                    } else {
                        0
                    };
                    assert(after.len() == kept.len() + 1);
                    assert forall|a: int| 0 <= a < kept.len() implies (#[trigger] after[a]).wf()
                        && after[a].file_offset == before[a + shift].file_offset && (a + shift
                        > 0 ==> after[a] == kept[a]) by {
                        assert(before[a + shift].wf());
                    }
                    assert(after =~= kept.push(after.last()));
                    assert forall|a: int, b: int| 0 <= a < b < after.len() implies (
                    #[trigger] after[a]).file_offset != (#[trigger] after[b]).file_offset by {
                        if b < kept.len() {
                            assert(before[a + shift].file_offset != before[b + shift].file_offset);
                        } else {
                            assert(before[a + shift].file_offset.0 != key.0);
                        }
                    }
                    assert forall|a: int| 0 <= a < after.len() implies (#[trigger] after[a]).wf() by {}
                }
            },
        }
        let last = self.entries.len() - 1;
        Ok(&self.entries[last])
    }
}

} // verus!
