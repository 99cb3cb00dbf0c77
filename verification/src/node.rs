//! The trie node of the inverted index and its record in the dim file.
//!
//! A record takes [`NODE_SIZE`] bytes at the node's file offset:
//!
//! ```text
//! +0    4   dim_index
//! +4    1   implicit << 7 | quantization_bits
//! +5   54   first chunk of the posting map
//! +59  64   child slots
//! ```
//!
//! A flush writes as little of it as the node's two flags allow: the whole
//! record the first time, the posting map and the child slots after a change
//! to the map, and the child slots alone otherwise.

use vstd::prelude::*;
use vstd::arithmetic::power2::{lemma2_to64, lemma_pow2_unfold, pow2};
use crate::atomic_array::{
    children_at,
    children_bytes,
    lemma_children_round_trip,
    AtomicArray,
    CHILDREN_BYTES,
    FANOUT,
};
use crate::buffered_io::{BufIoError, BufferManager, BufferManagerFactory, BufferState, MAX_FILE_LEN};
use crate::bytes::{
    lemma_overwrite_reads_back,
    lemma_overwrite_twice,
    overwrite,
    u32_at,
    u32_le_bytes,
};
use crate::node_data::{
    chunk_image,
    continuation_count,
    lemma_data_round_trip,
    lemma_parse_data_local,
    parse_data,
    with_continuations,
    DataImage,
    InvertedIndexIDFNodeData,
    DATA_CHUNK_BYTES,
    INVERTED_INDEX_DATA_CHUNK_SIZE,
    MAX_ENTRIES,
};
use crate::types::{FileOffset, IndexError, OffsetCounter};

verus! {

/// How many bytes the record of a node takes.
pub const NODE_SIZE: usize = 123;

/// Where in the record the posting map begins.
pub const DATA_OFFSET: usize = 5;

/// Where in the record the child slots begin.
pub const CHILDREN_OFFSET: usize = 59;

/// The most quantization bits a node can have.
pub const MAX_QUANTIZATION_BITS: u8 = 63;

/// The layout adds up: the parts of a record follow the chunk size.
pub proof fn lemma_layout()
    ensures
        DATA_CHUNK_BYTES == INVERTED_INDEX_DATA_CHUNK_SIZE * 6 + 6,
        CHILDREN_OFFSET == INVERTED_INDEX_DATA_CHUNK_SIZE * 6 + 11,
        NODE_SIZE == INVERTED_INDEX_DATA_CHUNK_SIZE * 6 + 75,
        CHILDREN_OFFSET == DATA_OFFSET + DATA_CHUNK_BYTES,
        NODE_SIZE == CHILDREN_OFFSET + CHILDREN_BYTES,
        CHILDREN_BYTES == 4 * FANOUT,
{
}

/// The flags byte of a record: the implicit flag in the highest bit, the low
/// seven bits of `quantization_bits` below it.
pub open spec fn pack_flags(quantization_bits: u8, implicit: bool) -> u8 {
    (quantization_bits % 128 + if implicit {
        128int
    } else {
        0int
    }) as u8
}

/// The quantization bits and the implicit flag that a flags byte holds.
pub open spec fn unpack_flags(byte: u8) -> (u8, bool) {
    ((byte % 128) as u8, byte >= 128)
}

/// Packing and unpacking the flags byte loses nothing of seven bits.
pub proof fn lemma_flags_round_trip(quantization_bits: u8, implicit: bool)
    requires
        quantization_bits <= 127,
    ensures
        unpack_flags(pack_flags(quantization_bits, implicit)) == (quantization_bits, implicit),
{
}

/// Packs the flags byte of a record.
pub fn encode_flags(quantization_bits: u8, implicit: bool) -> (byte: u8)
    ensures
        byte == pack_flags(quantization_bits, implicit),
{
    let low: u8 = quantization_bits & 0x7F;
    assert(low == quantization_bits % 128) by (bit_vector)
        requires
            low == quantization_bits & 0x7F,
    ;
    if implicit {
        let byte = low | (1u8 << 7);
        assert(byte == low + 128) by (bit_vector)
            requires
                byte == low | (1u8 << 7),
                low < 128,
        ;
        byte
    } else {
        low
    }
}

/// Unpacks the flags byte of a record.
pub fn decode_flags(byte: u8) -> (flags: (u8, bool))
    ensures
        flags == unpack_flags(byte),
{
    let implicit = (byte & (1u8 << 7)) != 0;
    let quantization_bits = (byte << 1) >> 1;
    assert(implicit == (byte >= 128)) by (bit_vector)
        requires
            implicit == ((byte & (1u8 << 7)) != 0),
    ;
    assert(quantization_bits == byte % 128) by (bit_vector)
        requires
            quantization_bits == (byte << 1) >> 1,
    ;
    (quantization_bits, implicit)
}

/// How many entries the posting map of a node with `quantization_bits` may
/// hold: one for each quotient of that many bits, as far as the `len` field
/// can count them.
pub open spec fn quotient_capacity(quantization_bits: u8) -> nat {
    if quantization_bits < 16 {
        pow2(quantization_bits as nat)
    } else {
        MAX_ENTRIES as nat
    }
}

/// Computes [`quotient_capacity`].
pub fn capacity_for(quantization_bits: u8) -> (capacity: usize)
    ensures
        capacity == quotient_capacity(quantization_bits),
        capacity <= MAX_ENTRIES,
{
    if quantization_bits >= 16 {
        return MAX_ENTRIES;
    }
    let mut capacity: usize = 1;
    let mut i: u8 = 0;
    proof {
        lemma2_to64();
    }
    while i < quantization_bits
        invariant
            i <= quantization_bits < 16,
            capacity == pow2(i as nat),
            pow2(15) == 0x8000,
        decreases quantization_bits - i,
    {
        proof {
            lemma_pow2_unfold((i + 1) as nat);
            if i < 14 {
                vstd::arithmetic::power2::lemma_pow2_strictly_increases((i + 1) as nat, 15);
            }
        }
        capacity = capacity * 2;
        i = i + 1;
    }
    proof {
        if quantization_bits < 15 {
            vstd::arithmetic::power2::lemma_pow2_strictly_increases(quantization_bits as nat, 15);
        }
    }
    capacity
}

/// The data file that holds the chunks of a node with `dim_index` where
/// there are `parts` data files.
pub open spec fn partition_of(dim_index: u32, parts: u8) -> u8 {
    (dim_index % (parts as u32)) as u8
}

/// The first five bytes of a record.
pub open spec fn header_bytes(dim_index: u32, quantization_bits: u8, implicit: bool) -> Seq<u8> {
    u32_le_bytes(dim_index) + seq![pack_flags(quantization_bits, implicit)]
}

/// What a record says of its node.
pub struct NodeImage {
    pub dim_index: u32,
    pub implicit: bool,
    pub quantization_bits: u8,
    pub entries: Seq<(u16, u32)>,
    pub children: Seq<u32>,
}

/// What is read of the node whose record stands at `at` in the dim file
/// `dim`, with `data` the data file of its partition.
pub open spec fn parse_node(dim: Seq<u8>, data: Seq<u8>, at: int) -> Result<NodeImage, BufIoError> {
    if at + NODE_SIZE > dim.len() || at + NODE_SIZE > MAX_FILE_LEN {
        Err(BufIoError::OutOfBounds)
    } else {
        let (quantization_bits, implicit) = unpack_flags(dim[at + 4]);
        if quantization_bits > MAX_QUANTIZATION_BITS {
            Err(BufIoError::CorruptHeader)
        } else {
            match parse_data(dim, data, at + DATA_OFFSET) {
                Err(e) => Err(e),
                Ok(image) => if image.entries.len() > quotient_capacity(quantization_bits) {
                    Err(BufIoError::CorruptHeader)
                } else {
                    Ok(
                        NodeImage {
                            dim_index: u32_at(dim, at),
                            implicit,
                            quantization_bits,
                            entries: image.entries,
                            children: children_at(dim, at + CHILDREN_OFFSET),
                        },
                    )
                },
            }
        }
    }
}

/// What is read of the record at `at` in the files of an index with `parts`
/// data files.
pub open spec fn read_at(dim: Seq<u8>, data: BufferManagerFactory, parts: u8, at: int) -> Result<
    NodeImage,
    BufIoError,
> {
    parse_node(dim, data.file(partition_of(u32_at(dim, at), parts)).bytes, at)
}

/// Whether reading the node at `at` in `dim` follows a chain of chunks into
/// the data file.
pub open spec fn follows_chain(dim: Seq<u8>, at: int) -> bool {
    &&& at + NODE_SIZE <= dim.len()
    &&& at + NODE_SIZE <= MAX_FILE_LEN
    &&& unpack_flags(dim[at + 4]).0 <= MAX_QUANTIZATION_BITS
    &&& crate::node_data::has_continuation(dim, at + DATA_OFFSET)
}

/// What is read of a node depends on the dim file only through the bytes of
/// the record: a copy of the record reads the same.
pub proof fn lemma_parse_node_of_copy(dim: Seq<u8>, data: Seq<u8>, at: int, record: Seq<u8>)
    requires
        0 <= at,
        at + NODE_SIZE <= dim.len(),
        record == dim.subrange(at, at + NODE_SIZE),
    ensures
        u32_at(record, 0) == u32_at(dim, at),
        record[4] == dim[at + 4],
        parse_data(record, data, DATA_OFFSET as int) == parse_data(dim, data, at + DATA_OFFSET),
        crate::node_data::has_continuation(record, DATA_OFFSET as int)
            == crate::node_data::has_continuation(dim, at + DATA_OFFSET),
        children_at(record, CHILDREN_OFFSET as int) == children_at(dim, at + CHILDREN_OFFSET),
{
    assert forall|i: int| 0 <= i < NODE_SIZE implies #[trigger] record[i] == dim[at + i] by {}
    assert(record[0] == dim[at + 0] && record[1] == dim[at + 1] && record[2] == dim[at + 2]
        && record[3] == dim[at + 3]);
    assert(record.subrange(DATA_OFFSET as int, DATA_OFFSET + DATA_CHUNK_BYTES) =~= dim.subrange(
        at + DATA_OFFSET,
        at + DATA_OFFSET + DATA_CHUNK_BYTES,
    ));
    lemma_parse_data_local(record, DATA_OFFSET as int, dim, at + DATA_OFFSET, data);
    assert forall|k: int| 0 <= k < FANOUT implies #[trigger] children_at(
        record,
        CHILDREN_OFFSET as int,
    )[k] == children_at(dim, at + CHILDREN_OFFSET)[k] by {
        let p = CHILDREN_OFFSET + 4 * k;
        assert(record[p + 0] == dim[at + (p + 0)] && record[p + 1] == dim[at + (p + 1)]);
        assert(record[p + 2] == dim[at + (p + 2)] && record[p + 3] == dim[at + (p + 3)]);
    }
    assert(children_at(record, CHILDREN_OFFSET as int) =~= children_at(
        dim,
        at + CHILDREN_OFFSET,
    ));
}

/// What is read of a node depends on the files only through the bytes of
/// its record and of the chunks of its posting map.
pub proof fn lemma_parse_node_frame(
    dim_a: Seq<u8>,
    data_a: Seq<u8>,
    dim_b: Seq<u8>,
    data_b: Seq<u8>,
    at: int,
)
    requires
        0 <= at,
        at + NODE_SIZE <= dim_a.len(),
        at + NODE_SIZE <= dim_b.len(),
        dim_a.subrange(at, at + NODE_SIZE) == dim_b.subrange(at, at + NODE_SIZE),
        parse_data(dim_a, data_a, at + DATA_OFFSET) is Ok,
        data_b.len() >= data_a.len(),
        crate::node_data::same_chunks(
            data_a,
            data_b,
            parse_data(dim_a, data_a, at + DATA_OFFSET).unwrap().offsets,
        ),
    ensures
        parse_node(dim_b, data_b, at) == parse_node(dim_a, data_a, at),
        parse_data(dim_b, data_b, at + DATA_OFFSET) == parse_data(dim_a, data_a, at + DATA_OFFSET),
        u32_at(dim_b, at) == u32_at(dim_a, at),
        children_at(dim_b, at + CHILDREN_OFFSET) == children_at(dim_a, at + CHILDREN_OFFSET),
{
    let record = dim_a.subrange(at, at + NODE_SIZE);
    lemma_parse_node_of_copy(dim_a, data_a, at, record);
    lemma_parse_node_of_copy(dim_b, data_a, at, record);
    assert(dim_a.subrange(at + DATA_OFFSET, at + DATA_OFFSET + DATA_CHUNK_BYTES) =~= dim_b.subrange(
        at + DATA_OFFSET,
        at + DATA_OFFSET + DATA_CHUNK_BYTES,
    )) by {
        assert forall|x: int|
            at + DATA_OFFSET <= x < at + DATA_OFFSET + DATA_CHUNK_BYTES implies dim_a[x]
            == dim_b[x] by {
            assert(record[x - at] == dim_a[x]);
            assert(dim_b.subrange(at, at + NODE_SIZE)[x - at] == dim_b[x]);
        }
    }
    crate::node_data::lemma_parse_data_frame(dim_a, data_a, dim_b, data_b, at + DATA_OFFSET);
}

/// Which part of its record a flush of a node writes.
pub enum FlushMode {
    /// The node was never written: the whole record.
    Cold,
    /// The posting map changed since the last flush: the map and the child
    /// slots.
    WarmDirty,
    /// Nothing but the child slots can have changed: the child slots.
    WarmClean,
}

/// A node of the trie over the sparse dimensions.
pub struct InvertedIndexIDFNode {
    /// Whether the record has been written once.
    pub is_serialized: bool,
    /// Whether the posting map has changed since it was last written.
    pub is_dirty: bool,
    pub dim_index: u32,
    pub implicit: bool,
    /// Where the record stands in the dim file.  It never changes.
    pub file_offset: FileOffset,
    pub quantization_bits: u8,
    pub data: InvertedIndexIDFNodeData,
    pub children: AtomicArray,
}

impl InvertedIndexIDFNode {
    /// The node's fields fit the record, the record lies below
    /// [`MAX_FILE_LEN`], and the posting map is no longer than the
    /// quantization allows.
    pub open spec fn wf(&self) -> bool {
        &&& self.quantization_bits <= MAX_QUANTIZATION_BITS
        &&& self.file_offset.0 + NODE_SIZE <= MAX_FILE_LEN
        &&& self.data.wf()
        &&& self.data@.len() <= quotient_capacity(self.quantization_bits)
        &&& self.children@.len() == FANOUT
    }

    /// What the node's record is to say.
    pub open spec fn image(&self) -> NodeImage {
        NodeImage {
            dim_index: self.dim_index,
            implicit: self.implicit,
            quantization_bits: self.quantization_bits,
            entries: self.data@,
            children: self.children@,
        }
    }

    /// The bytes of the whole record, where `offsets` are the places of the
    /// posting map's chunks in the data file.
    pub open spec fn record_bytes(&self, offsets: Seq<u32>) -> Seq<u8> {
        header_bytes(self.dim_index, self.quantization_bits, self.implicit) + chunk_image(
            self.data@,
            offsets,
            0,
        ) + children_bytes(self.children@)
    }

    /// Which part of the record the next flush writes.
    pub open spec fn flush_mode(&self) -> FlushMode {
        if !self.is_serialized {
            FlushMode::Cold
        } else if self.is_dirty {
            FlushMode::WarmDirty
        } else {
            FlushMode::WarmClean
        }
    }

    /// Where in the dim file the next flush begins to write.
    pub open spec fn flush_start(&self) -> u64 {
        match self.flush_mode() {
            FlushMode::Cold => self.file_offset.0 as u64,
            FlushMode::WarmDirty => (self.file_offset.0 + DATA_OFFSET) as u64,
            FlushMode::WarmClean => (self.file_offset.0 + CHILDREN_OFFSET) as u64,
        }
    }

    /// What the next flush writes to the dim file, given the places of the
    /// posting map's chunks.
    pub open spec fn flush_bytes(&self, offsets: Seq<u32>) -> Seq<u8> {
        match self.flush_mode() {
            FlushMode::Cold => self.record_bytes(offsets),
            FlushMode::WarmDirty => chunk_image(self.data@, offsets, 0) + children_bytes(
                self.children@,
            ),
            FlushMode::WarmClean => children_bytes(self.children@),
        }
    }

    /// Whether the next flush can be done through `cursor` of the dim file
    /// `dim` with an allocator that stands at `next_offset`.
    pub open spec fn can_flush(&self, dim: BufferState, next_offset: u32, cursor: u64) -> bool {
        dim.is_open(cursor) && (self.flush_mode() is WarmClean || self.data.can_allocate(
            next_offset,
        ))
    }

    /// Whether the header of the node's record stands in the dim file `dim`.
    pub open spec fn header_stands(&self, dim: Seq<u8>) -> bool {
        &&& self.file_offset.0 + NODE_SIZE <= dim.len()
        &&& dim.subrange(self.file_offset.0 as int, self.file_offset.0 + DATA_OFFSET)
            == header_bytes(self.dim_index, self.quantization_bits, self.implicit)
    }

    /// Whether the posting map stands in the files as the node holds it.
    pub open spec fn data_stands(&self, dim: Seq<u8>, data: Seq<u8>) -> bool {
        &&& self.file_offset.0 + NODE_SIZE <= dim.len()
        &&& parse_data(dim, data, self.file_offset.0 + DATA_OFFSET) == (Ok::<DataImage, BufIoError>(
            DataImage { entries: self.data@, offsets: self.data.chunk_offsets() },
        ))
    }

    /// The places of the posting map's chunks after a flush with an
    /// allocator that stands at `next_offset`.
    pub open spec fn offsets_after_flush(&self, next_offset: u32) -> Seq<u32> {
        if self.flush_mode() is WarmClean {
            self.data.chunk_offsets()
        } else {
            self.data.offsets_after(next_offset)
        }
    }

    /// The bytes of the dim file after a flush through `cursor`.
    pub open spec fn dim_after_flush(&self, dim: BufferState, next_offset: u32, cursor: u64) -> Seq<
        u8,
    > {
        dim.moved(cursor, self.flush_start()).written(
            cursor,
            self.flush_bytes(self.offsets_after_flush(next_offset)),
        ).bytes
    }

    /// The bytes of the node's data file after a flush.
    pub open spec fn data_after_flush(&self, data: Seq<u8>, next_offset: u32) -> Seq<u8> {
        if self.flush_mode() is WarmClean {
            data
        } else {
            with_continuations(
                data,
                self.data@,
                self.data.offsets_after(next_offset),
                self.data.offsets_after(next_offset).len(),
            )
        }
    }

    /// A record that was written whole is read back as the node that wrote
    /// it: the same dimension, flags, entries and child slots.
    pub proof fn lemma_record_round_trip(self, dim: Seq<u8>, data: Seq<u8>)
        requires
            self.wf(),
            self.data.chunk_offsets().len() == continuation_count(self.data@.len()),
        ensures
            parse_node(
                overwrite(
                    dim,
                    self.file_offset.0 as int,
                    self.record_bytes(self.data.chunk_offsets()),
                ),
                with_continuations(
                    data,
                    self.data@,
                    self.data.chunk_offsets(),
                    self.data.chunk_offsets().len(),
                ),
                self.file_offset.0 as int,
            ) == (Ok::<NodeImage, BufIoError>(self.image())),
    {
        let at = self.file_offset.0 as int;
        let offsets = self.data.chunk_offsets();
        let header = header_bytes(self.dim_index, self.quantization_bits, self.implicit);
        let first = chunk_image(self.data@, offsets, 0);
        let children = children_bytes(self.children@);
        let record = self.record_bytes(offsets);
        let dim_after = overwrite(dim, at, record);
        let data_after = with_continuations(data, self.data@, offsets, offsets.len());
        lemma_overwrite_reads_back(dim, at, record);
        assert forall|i: int| 0 <= i < NODE_SIZE implies #[trigger] dim_after[at + i]
            == record[i] by {}
        self.lemma_stored_fields(dim_after, data_after, offsets);
    }

    /// Where the three parts of the record stand in the dim file and the
    /// posting map's chunks stand in the data file, the node is read back.
    proof fn lemma_stored_fields(self, dim: Seq<u8>, data: Seq<u8>, offsets: Seq<u32>)
        requires
            self.wf(),
            crate::node_data::offsets_ascend(offsets),
            offsets.len() == continuation_count(self.data@.len()),
            self.file_offset.0 + NODE_SIZE <= dim.len(),
            forall|i: int|
                0 <= i < DATA_OFFSET ==> #[trigger] dim[self.file_offset.0 + i] == header_bytes(
                    self.dim_index,
                    self.quantization_bits,
                    self.implicit,
                )[i],
            forall|i: int|
                0 <= i < DATA_CHUNK_BYTES ==> #[trigger] dim[self.file_offset.0 + DATA_OFFSET + i]
                    == chunk_image(self.data@, offsets, 0)[i],
            forall|i: int|
                0 <= i < CHILDREN_BYTES ==> #[trigger] dim[self.file_offset.0 + CHILDREN_OFFSET
                    + i] == children_bytes(self.children@)[i],
            exists|before: Seq<u8>|
                data == with_continuations(before, self.data@, offsets, offsets.len()),
        ensures
            parse_node(dim, data, self.file_offset.0 as int) == (Ok::<NodeImage, BufIoError>(
                self.image(),
            )),
            parse_data(dim, data, self.file_offset.0 + DATA_OFFSET) == (Ok::<DataImage, BufIoError>(
                DataImage { entries: self.data@, offsets },
            )),
    {
        let at = self.file_offset.0 as int;
        let header = header_bytes(self.dim_index, self.quantization_bits, self.implicit);
        let first = chunk_image(self.data@, offsets, 0);
        let children = children_bytes(self.children@);
        assert(dim[at + 0] == header[0] && dim[at + 1] == header[1] && dim[at + 2] == header[2]
            && dim[at + 3] == header[3] && dim[at + 4] == header[4]);
        crate::bytes::lemma_u32_at(dim, at, self.dim_index);
        lemma_flags_round_trip(self.quantization_bits, self.implicit);
        assert(dim.subrange(at + CHILDREN_OFFSET, at + CHILDREN_OFFSET + CHILDREN_BYTES)
            =~= children) by {
            assert forall|i: int| 0 <= i < CHILDREN_BYTES implies dim.subrange(
                at + CHILDREN_OFFSET,
                at + CHILDREN_OFFSET + CHILDREN_BYTES,
            )[i] == children[i] by {
                assert(dim[at + CHILDREN_OFFSET + i] == children[i]);
            }
        }
        self.children.lemma_len();
        lemma_children_round_trip(self.children@, dim, at + CHILDREN_OFFSET);
        let before = choose|before: Seq<u8>|
            data == with_continuations(before, self.data@, offsets, offsets.len());
        lemma_data_round_trip(dim, before, at + DATA_OFFSET, self.data@, offsets);
        let rewritten = overwrite(dim, at + DATA_OFFSET, first);
        assert(rewritten =~= dim) by {
            assert forall|i: int| 0 <= i < dim.len() implies rewritten[i] == dim[i] by {
                if at + DATA_OFFSET <= i < at + DATA_OFFSET + DATA_CHUNK_BYTES {
                    assert(dim[at + DATA_OFFSET + (i - at - DATA_OFFSET)] == first[i - at
                        - DATA_OFFSET]);
                }
            }
        }
    }

    /// Where the header of the record stands and a posting map of fitting
    /// length is read, the record is read as a node with this header, that
    /// map, and the child slots that stand in the file.
    pub proof fn lemma_stored_parses(self, dim: Seq<u8>, data: Seq<u8>)
        requires
            self.wf(),
            self.header_stands(dim),
            parse_data(dim, data, self.file_offset.0 + DATA_OFFSET) is Ok,
            parse_data(dim, data, self.file_offset.0 + DATA_OFFSET).unwrap().entries.len()
                <= quotient_capacity(self.quantization_bits),
        ensures
            u32_at(dim, self.file_offset.0 as int) == self.dim_index,
            parse_node(dim, data, self.file_offset.0 as int) == (Ok::<NodeImage, BufIoError>(
                NodeImage {
                    entries: parse_data(dim, data, self.file_offset.0 + DATA_OFFSET).unwrap().entries,
                    children: children_at(dim, self.file_offset.0 + CHILDREN_OFFSET),
                    ..self.image()
                },
            )),
    {
        let at = self.file_offset.0 as int;
        let header = header_bytes(self.dim_index, self.quantization_bits, self.implicit);
        let stored = dim.subrange(at, at + DATA_OFFSET);
        assert(stored[0] == dim[at + 0] && stored[1] == dim[at + 1] && stored[2] == dim[at + 2]
            && stored[3] == dim[at + 3] && stored[4] == dim[at + 4]);
        crate::bytes::lemma_u32_at(dim, at, self.dim_index);
        lemma_flags_round_trip(self.quantization_bits, self.implicit);
    }

    /// A flush leaves the dim file as it was outside the node's record, and
    /// no shorter.
    pub proof fn lemma_flush_keeps_others(self, dim: BufferState, next_offset: u32, cursor: u64)
        requires
            self.wf(),
            dim.is_open(cursor),
        ensures
            self.dim_after_flush(dim, next_offset, cursor).len() >= dim.bytes.len(),
            forall|i: int|
                0 <= i < dim.bytes.len() && !(self.file_offset.0 <= i < self.file_offset.0
                    + NODE_SIZE) ==> self.dim_after_flush(dim, next_offset, cursor)[i]
                    == dim.bytes[i],
    {
        let written = self.flush_bytes(self.offsets_after_flush(next_offset));
        let start = self.flush_start() as int;
        assert(self.dim_after_flush(dim, next_offset, cursor) == overwrite(
            dim.bytes,
            start,
            written,
        ));
        assert(self.file_offset.0 <= start && start + written.len() == self.file_offset.0
            + NODE_SIZE);
    }

    /// After a flush the child slots stand in the file as the node holds
    /// them.
    pub proof fn lemma_children_after_flush(self, dim: BufferState, next_offset: u32, cursor: u64)
        requires
            self.wf(),
            dim.is_open(cursor),
        ensures
            children_at(
                self.dim_after_flush(dim, next_offset, cursor),
                self.file_offset.0 + CHILDREN_OFFSET,
            ) == self.children@,
    {
        self.lemma_flush_writes_children(dim, next_offset, cursor);
        self.children.lemma_len();
        lemma_children_round_trip(
            self.children@,
            self.dim_after_flush(dim, next_offset, cursor),
            self.file_offset.0 + CHILDREN_OFFSET,
        );
    }

    /// After a flush that wrote the posting map, the header stands and the
    /// map is read from the files with its chunks at their places.
    proof fn lemma_data_after_flush(
        self,
        dim: BufferState,
        data: Seq<u8>,
        next_offset: u32,
        cursor: u64,
    )
        requires
            self.wf(),
            next_offset >= 1,
            self.can_flush(dim, next_offset, cursor),
            !(self.flush_mode() is WarmClean),
            !(self.flush_mode() is Cold) ==> self.header_stands(dim.bytes),
        ensures
            self.header_stands(self.dim_after_flush(dim, next_offset, cursor)),
            parse_data(
                self.dim_after_flush(dim, next_offset, cursor),
                self.data_after_flush(data, next_offset),
                self.file_offset.0 + DATA_OFFSET,
            ) == (Ok::<DataImage, BufIoError>(
                DataImage {
                    entries: self.data@,
                    offsets: self.offsets_after_flush(next_offset),
                },
            )),
    {
        let at = self.file_offset.0 as int;
        let offsets = self.offsets_after_flush(next_offset);
        let header = header_bytes(self.dim_index, self.quantization_bits, self.implicit);
        let first = chunk_image(self.data@, offsets, 0);
        let children = children_bytes(self.children@);
        let dim_after = self.dim_after_flush(dim, next_offset, cursor);
        let data_after = self.data_after_flush(data, next_offset);
        self.data.lemma_offsets_after(next_offset);
        if self.flush_mode() is Cold {
            let record = self.record_bytes(offsets);
            assert(dim_after == overwrite(dim.bytes, at, record));
            lemma_overwrite_reads_back(dim.bytes, at, record);
            assert forall|i: int| 0 <= i < NODE_SIZE implies #[trigger] dim_after[at + i]
                == record[i] by {}
        } else {
            let written = first + children;
            assert(dim_after == overwrite(dim.bytes, at + DATA_OFFSET, written));
            assert forall|i: int| 0 <= i < DATA_OFFSET implies #[trigger] dim_after[at + i]
                == header[i] by {
                assert(dim.bytes.subrange(at, at + DATA_OFFSET)[i] == dim.bytes[at + i]);
            }
            assert forall|i: int| 0 <= i < DATA_CHUNK_BYTES implies #[trigger] dim_after[at
                + DATA_OFFSET + i] == first[i] by {
                assert(written[i] == first[i]);
            }
            assert forall|i: int| 0 <= i < CHILDREN_BYTES implies #[trigger] dim_after[at
                + CHILDREN_OFFSET + i] == children[i] by {
                assert(written[DATA_CHUNK_BYTES + i] == children[i]);
            }
        }
        self.lemma_stored_fields(dim_after, data_after, offsets);
        assert(dim_after.subrange(at, at + DATA_OFFSET) =~= header) by {
            assert forall|i: int| 0 <= i < DATA_OFFSET implies dim_after.subrange(
                at,
                at + DATA_OFFSET,
            )[i] == header[i] by {
                assert(dim_after[at + i] == header[i]);
            }
        }
    }

    /// After a flush that wrote the child slots alone, the header and the
    /// posting map stand as before.
    proof fn lemma_data_after_clean_flush(
        self,
        dim: BufferState,
        data: Seq<u8>,
        next_offset: u32,
        cursor: u64,
    )
        requires
            self.wf(),
            dim.is_open(cursor),
            self.flush_mode() is WarmClean,
            self.header_stands(dim.bytes),
        ensures
            self.header_stands(self.dim_after_flush(dim, next_offset, cursor)),
            parse_data(
                self.dim_after_flush(dim, next_offset, cursor),
                data,
                self.file_offset.0 + DATA_OFFSET,
            ) == parse_data(dim.bytes, data, self.file_offset.0 + DATA_OFFSET),
    {
        let at = self.file_offset.0 as int;
        let children = children_bytes(self.children@);
        let dim_after = self.dim_after_flush(dim, next_offset, cursor);
        assert(dim_after == overwrite(dim.bytes, at + CHILDREN_OFFSET, children));
        assert(dim_after.subrange(at, at + DATA_OFFSET) =~= dim.bytes.subrange(
            at,
            at + DATA_OFFSET,
        ));
        assert(dim_after.subrange(at + DATA_OFFSET, at + DATA_OFFSET + DATA_CHUNK_BYTES)
            =~= dim.bytes.subrange(at + DATA_OFFSET, at + DATA_OFFSET + DATA_CHUNK_BYTES));
        lemma_parse_data_local(dim_after, at + DATA_OFFSET, dim.bytes, at + DATA_OFFSET, data);
    }

    /// After a flush the header stands, the posting map is read from the
    /// files with its chunks at their places, and the child slots stand as
    /// the node holds them.
    pub proof fn lemma_stands_after_flush(
        self,
        dim: BufferState,
        data: Seq<u8>,
        next_offset: u32,
        cursor: u64,
    )
        requires
            self.wf(),
            next_offset >= 1,
            self.can_flush(dim, next_offset, cursor),
            !(self.flush_mode() is Cold) ==> self.header_stands(dim.bytes),
            self.flush_mode() is WarmClean ==> self.data_stands(dim.bytes, data),
        ensures
            self.header_stands(self.dim_after_flush(dim, next_offset, cursor)),
            parse_data(
                self.dim_after_flush(dim, next_offset, cursor),
                self.data_after_flush(data, next_offset),
                self.file_offset.0 + DATA_OFFSET,
            ) == (Ok::<DataImage, BufIoError>(
                DataImage {
                    entries: self.data@,
                    offsets: self.offsets_after_flush(next_offset),
                },
            )),
            children_at(
                self.dim_after_flush(dim, next_offset, cursor),
                self.file_offset.0 + CHILDREN_OFFSET,
            ) == self.children@,
    {
        self.lemma_children_after_flush(dim, next_offset, cursor);
        if self.flush_mode() is WarmClean {
            self.lemma_data_after_clean_flush(dim, data, next_offset, cursor);
        } else {
            self.lemma_data_after_flush(dim, data, next_offset, cursor);
        }
    }

    /// After any flush that succeeds, the record in the files is read back
    /// as the node: the same dimension, flags, entries and child slots.  A
    /// flush that writes only a part of the record leaves the rest as it
    /// stands, so that part must stand as the node holds it.
    pub proof fn lemma_flush_round_trip(
        self,
        dim: BufferState,
        data: Seq<u8>,
        next_offset: u32,
        cursor: u64,
    )
        requires
            self.wf(),
            next_offset >= 1,
            self.can_flush(dim, next_offset, cursor),
            !(self.flush_mode() is Cold) ==> self.header_stands(dim.bytes),
            self.flush_mode() is WarmClean ==> self.data_stands(dim.bytes, data),
        ensures
            parse_node(
                self.dim_after_flush(dim, next_offset, cursor),
                self.data_after_flush(data, next_offset),
                self.file_offset.0 as int,
            ) == (Ok::<NodeImage, BufIoError>(self.image())),
    {
        self.lemma_stands_after_flush(dim, data, next_offset, cursor);
        self.lemma_stored_parses(
            self.dim_after_flush(dim, next_offset, cursor),
            self.data_after_flush(data, next_offset),
        );
    }

    /// Every flush writes the child slots as the node holds them, whatever
    /// its flags are: slots that were set since the last flush reach the
    /// file with the next one.
    pub proof fn lemma_flush_writes_children(self, dim: BufferState, next_offset: u32, cursor: u64)
        requires
            self.wf(),
            dim.is_open(cursor),
        ensures
            self.dim_after_flush(dim, next_offset, cursor).len() >= self.file_offset.0 + NODE_SIZE,
            self.dim_after_flush(dim, next_offset, cursor).subrange(
                self.file_offset.0 + CHILDREN_OFFSET,
                self.file_offset.0 + NODE_SIZE,
            ) == children_bytes(self.children@),
    {
        let at = self.file_offset.0 as int;
        let offsets = self.offsets_after_flush(next_offset);
        let written = self.flush_bytes(offsets);
        let children = children_bytes(self.children@);
        let start = self.flush_start() as int;
        let dim_after = self.dim_after_flush(dim, next_offset, cursor);
        assert(dim_after == overwrite(dim.bytes, start, written));
        assert(start + written.len() == at + NODE_SIZE);
        assert forall|i: int| 0 <= i < CHILDREN_BYTES implies dim_after[at + CHILDREN_OFFSET + i]
            == children[i] by {
            assert(written[at + CHILDREN_OFFSET + i - start] == children[i]);
        }
        assert(dim_after.subrange(at + CHILDREN_OFFSET, at + NODE_SIZE) =~= children);
    }

    /// A node that holds nothing yet and was never written.  The
    /// quantization bits must not exceed [`MAX_QUANTIZATION_BITS`], and the
    /// record must end below [`MAX_FILE_LEN`].
    pub fn new(dim_index: u32, implicit: bool, quantization_bits: u8, file_offset: FileOffset) -> (r:
        Result<InvertedIndexIDFNode, IndexError>)
        ensures
            r is Ok <==> quantization_bits <= MAX_QUANTIZATION_BITS && file_offset.0 + NODE_SIZE
                <= MAX_FILE_LEN,
            r matches Ok(node) ==> {
                &&& node.wf()
                &&& !node.is_serialized
                &&& node.is_dirty
                &&& node.file_offset == file_offset
                &&& node.data.chunk_offsets() == Seq::<u32>::empty()
                &&& node.image() == (NodeImage {
                    dim_index,
                    implicit,
                    quantization_bits,
                    entries: Seq::empty(),
                    children: Seq::new(FANOUT as nat, |i: int| 0u32),
                })
            },
            r matches Err(e) ==> e == IndexError::InvalidParams,
    {
        if quantization_bits > MAX_QUANTIZATION_BITS || file_offset.0 as u64 + NODE_SIZE as u64
            > MAX_FILE_LEN {
            return Err(IndexError::InvalidParams);
        }
        Ok(
            InvertedIndexIDFNode {
                is_serialized: false,
                is_dirty: true,
                dim_index,
                implicit,
                file_offset,
                quantization_bits,
                data: InvertedIndexIDFNodeData::new(),
                children: AtomicArray::new(),
            },
        )
    }

    /// Appends the entry `(quotient, head)` to the posting map and marks the
    /// node dirty.  A quotient that the map holds is refused, and so is any
    /// entry once the map is as long as the quantization allows.
    pub fn insert(&mut self, quotient: u16, head: FileOffset) -> (r: Result<(), IndexError>)
        requires
            old(self).wf(),
        ensures
            final(self).wf(),
            final(self).is_serialized == old(self).is_serialized,
            final(self).file_offset == old(self).file_offset,
            final(self).data.chunk_offsets() == old(self).data.chunk_offsets(),
            r is Ok <==> old(self).data@.len() < quotient_capacity(old(self).quantization_bits)
                && forall|i: int| 0 <= i < old(self).data@.len() ==> old(self).data@[i].0 != quotient,
            r is Ok ==> final(self).is_dirty && final(self).image() == (NodeImage {
                entries: old(self).data@.push((quotient, head.0)),
                ..old(self).image()
            }),
            r matches Err(e) ==> final(self).is_dirty == old(self).is_dirty && final(self).image()
                == old(self).image() && e == if exists|i: int|
                0 <= i < old(self).data@.len() && old(self).data@[i].0 == quotient {
                IndexError::DuplicateQuotient
            } else {
                IndexError::CapacityExceeded
            },
    {
        proof {
            crate::node_data::lemma_head_of(self.data@, quotient);
        }
        if self.data.get(quotient).is_some() {
            return Err(IndexError::DuplicateQuotient);
        }
        if self.data.len() >= capacity_for(self.quantization_bits) {
            return Err(IndexError::CapacityExceeded);
        }
        match self.data.insert(quotient, head) {
            Ok(()) => {
                self.is_dirty = true;
                Ok(())
            },
            Err(e) => {
                assert(false);
                Err(e)
            },
        }
    }

    /// Puts the record offset of a child into slot `i` if the slot is empty.
    /// The next flush writes it, whatever the node's flags are.
    pub fn set_child(&mut self, i: usize, offset: FileOffset) -> (r: Result<(), IndexError>)
        requires
            old(self).wf(),
            i < FANOUT,
        ensures
            final(self).wf(),
            final(self).is_serialized == old(self).is_serialized,
            final(self).is_dirty == old(self).is_dirty,
            final(self).file_offset == old(self).file_offset,
            final(self).data.chunk_offsets() == old(self).data.chunk_offsets(),
            r is Ok <==> old(self).children@[i as int] == 0,
            r is Ok ==> final(self).image() == (NodeImage {
                children: old(self).children@.update(i as int, offset.0),
                ..old(self).image()
            }),
            r matches Err(e) ==> e == IndexError::AlreadyPresent && final(self).image()
                == old(self).image(),
    {
        self.children.set(i, offset)
    }

    /// Writes the node to the index files.  Which part of the record is
    /// written follows from the two flags, see [`FlushMode`]; the posting
    /// map's chunks after the first go to the data file
    /// `dim_index % data_file_parts`, at places that `offset_counter` hands
    /// out.  `cursor` is a cursor of the dim file.  Returns the node's file
    /// offset.  Either all of this is done or, on an error, nothing.
    #[verifier::rlimit(60)]
    pub fn serialize(
        &mut self,
        dim_bufman: &mut BufferManager,
        data_bufmans: &mut BufferManagerFactory,
        offset_counter: &mut OffsetCounter,
        data_file_parts: u8,
        cursor: u64,
    ) -> (r: Result<u32, BufIoError>)
        requires
            old(self).wf(),
            old(offset_counter).wf(),
            data_file_parts > 0,
        ensures
            final(self).wf(),
            final(offset_counter).wf(),
            final(self).file_offset == old(self).file_offset,
            final(self).image() == old(self).image(),
            r is Ok <==> old(self).can_flush(
                old(dim_bufman)@,
                old(offset_counter).value(),
                cursor,
            ),
            r matches Ok(offset) ==> {
                &&& offset == old(self).file_offset.0
                &&& final(self).is_serialized
                &&& final(self).is_dirty == (!old(self).is_serialized && old(self).is_dirty)
                &&& final(dim_bufman)@ == old(dim_bufman)@.moved(
                    cursor,
                    old(self).flush_start(),
                ).written(cursor, old(self).flush_bytes(final(self).data.chunk_offsets()))
            },
            r is Ok && !(old(self).flush_mode() is WarmClean) ==> {
                let idx = partition_of(old(self).dim_index, data_file_parts);
                &&& final(self).data.chunk_offsets() == old(self).data.offsets_after(
                    old(offset_counter).value(),
                )
                &&& final(self).data.chunk_offsets().len() == continuation_count(
                    old(self).data@.len(),
                )
                &&& final(offset_counter).value() == old(offset_counter).value()
                    + old(self).data.missing_chunks() * DATA_CHUNK_BYTES
                &&& final(offset_counter).granted() == old(offset_counter).granted()
                    + old(self).data.ranges_after(old(offset_counter).value())
                &&& final(data_bufmans).file(idx).bytes == with_continuations(
                    old(data_bufmans).file(idx).bytes,
                    old(self).data@,
                    final(self).data.chunk_offsets(),
                    final(self).data.chunk_offsets().len(),
                )
                &&& final(data_bufmans).file(idx).cursors
                    == if final(self).data.chunk_offsets().len() == 0 {
                    old(data_bufmans).file(idx).cursors
                } else {
                    old(data_bufmans).file(idx).cursors.push(None)
                }
                &&& forall|other: u8|
                    other != idx ==> final(data_bufmans).file(other) == old(data_bufmans).file(
                        other,
                    )
            },
            r is Err || old(self).flush_mode() is WarmClean ==> {
                &&& final(self).data.chunk_offsets() == old(self).data.chunk_offsets()
                &&& final(offset_counter).value() == old(offset_counter).value()
                &&& final(offset_counter).granted() == old(offset_counter).granted()
                &&& forall|key: u8| final(data_bufmans).file(key) == old(data_bufmans).file(key)
            },
            r matches Err(e) ==> {
                &&& e == old(dim_bufman)@.write_error(cursor)
                &&& final(self).is_serialized == old(self).is_serialized
                &&& final(self).is_dirty == old(self).is_dirty
                &&& final(dim_bufman)@ == old(dim_bufman)@
            },
            r is Ok && (old(self).flush_mode() is Cold || old(self).header_stands(
                old(dim_bufman)@.bytes,
            )) && (old(self).flush_mode() is WarmClean ==> old(self).data_stands(
                old(dim_bufman)@.bytes,
                old(data_bufmans).file(partition_of(old(self).dim_index, data_file_parts)).bytes,
            )) ==> read_at(
                final(dim_bufman)@.bytes,
                *final(data_bufmans),
                data_file_parts,
                old(self).file_offset.0 as int,
            ) == (Ok::<NodeImage, BufIoError>(old(self).image())),
            r is Ok && old(self).flush_mode() is WarmClean ==> forall|i: int|
                0 <= i < old(dim_bufman)@.bytes.len() && !(old(self).file_offset.0
                    + CHILDREN_OFFSET <= i < old(self).file_offset.0 + NODE_SIZE)
                        ==> final(dim_bufman)@.bytes[i] == old(dim_bufman)@.bytes[i],
    {
        let data_file_idx = (self.dim_index % data_file_parts as u32) as u8;
        let base = self.file_offset.0 as u64;
        if dim_bufman.cursor_position(cursor).is_err() {
            return Err(BufIoError::InvalidCursor(cursor));
        }
        let ghost dim_before = dim_bufman@;
        let ghost file = dim_before.bytes;
        let ghost children = children_bytes(self.children@);
        proof {
            let data_before = data_bufmans.file(data_file_idx).bytes;
            let next_offset = offset_counter.value();
            offset_counter.lemma_value_positive();
            if self.can_flush(dim_before, next_offset, cursor) && (self.flush_mode() is Cold
                || self.header_stands(file)) && (self.flush_mode() is WarmClean
                ==> self.data_stands(file, data_before)) {
                self.lemma_stands_after_flush(dim_before, data_before, next_offset, cursor);
                self.lemma_flush_round_trip(dim_before, data_before, next_offset, cursor);
            }
        }
        if !self.is_serialized {
            match self.data.allocate_chunks(offset_counter) {
                Ok(()) => {},
                Err(e) => { return Err(e); },
            }
            let ghost offsets = self.data.chunk_offsets();
            let ghost counter_value = offset_counter.value();
            let ghost granted = offset_counter.granted();
            let ghost first = chunk_image(self.data@, offsets, 0);
            let sought = dim_bufman.seek_with_cursor(cursor, base);
            assert(sought is Ok);
            let wrote = dim_bufman.update_u32_with_cursor(cursor, self.dim_index);
            assert(wrote is Ok);
            let flags = encode_flags(self.quantization_bits, self.implicit);
            let wrote = dim_bufman.update_u8_with_cursor(cursor, flags);
            assert(wrote is Ok);
            let wrote = self.data.serialize(
                dim_bufman,
                data_bufmans,
                offset_counter,
                data_file_idx,
                cursor,
            );
            assert(wrote is Ok);
            let sought = dim_bufman.seek_with_cursor(cursor, base + CHILDREN_OFFSET as u64);
            assert(sought is Ok);
            let wrote = self.children.serialize(dim_bufman, cursor);
            assert(wrote is Ok);
            self.is_serialized = true;
            proof {
                assert(self.data.chunk_offsets() =~= offsets);
                assert(offset_counter.granted() =~= granted);
                let header = header_bytes(self.dim_index, self.quantization_bits, self.implicit);
                lemma_overwrite_twice(file, base as int, u32_le_bytes(self.dim_index), seq![flags]);
                lemma_overwrite_twice(file, base as int, header, first);
                lemma_overwrite_twice(file, base as int, header + first, children);
                assert(dim_bufman@ =~= dim_before.moved(cursor, base).written(
                    cursor,
                    self.record_bytes(offsets),
                ));
            }
        } else if self.is_dirty {
            match self.data.allocate_chunks(offset_counter) {
                Ok(()) => {},
                Err(e) => { return Err(e); },
            }
            let ghost offsets = self.data.chunk_offsets();
            let ghost granted = offset_counter.granted();
            let ghost first = chunk_image(self.data@, offsets, 0);
            let sought = dim_bufman.seek_with_cursor(cursor, base + DATA_OFFSET as u64);
            assert(sought is Ok);
            let wrote = self.data.serialize(
                dim_bufman,
                data_bufmans,
                offset_counter,
                data_file_idx,
                cursor,
            );
            assert(wrote is Ok);
            let sought = dim_bufman.seek_with_cursor(cursor, base + CHILDREN_OFFSET as u64);
            assert(sought is Ok);
            let wrote = self.children.serialize(dim_bufman, cursor);
            assert(wrote is Ok);
            self.is_dirty = false;
            proof {
                assert(self.data.chunk_offsets() =~= offsets);
                assert(offset_counter.granted() =~= granted);
                lemma_overwrite_twice(file, base + DATA_OFFSET, first, children);
                assert(dim_bufman@ =~= dim_before.moved(
                    cursor,
                    (base + DATA_OFFSET) as u64,
                ).written(cursor, first + children));
            }
        } else {
            let sought = dim_bufman.seek_with_cursor(cursor, base + CHILDREN_OFFSET as u64);
            assert(sought is Ok);
            let wrote = self.children.serialize(dim_bufman, cursor);
            assert(wrote is Ok);
        }
        Ok(self.file_offset.0)
    }

    /// Reads the node whose record stands at `file_offset` in the dim file.
    /// The posting map's chunks are read from the data file
    /// `dim_index % data_file_parts`.  The node comes back as written and
    /// clean.  Reading goes through cursors of its own, which it closes
    /// again, and changes no byte.
    pub fn deserialize(
        dim_bufman: &mut BufferManager,
        data_bufmans: &mut BufferManagerFactory,
        file_offset: FileOffset,
        data_file_parts: u8,
    ) -> (r: Result<InvertedIndexIDFNode, BufIoError>)
        requires
            data_file_parts > 0,
        ensures
            final(dim_bufman)@.bytes == old(dim_bufman)@.bytes,
            final(dim_bufman)@.cursors == old(dim_bufman)@.cursors.push(None),
            forall|key: u8| #[trigger]
                final(data_bufmans).file(key).bytes == old(data_bufmans).file(key).bytes,
            forall|key: u8| #[trigger]
                final(data_bufmans).file(key).cursors == if key == partition_of(
                    u32_at(old(dim_bufman)@.bytes, file_offset.0 as int),
                    data_file_parts,
                ) && follows_chain(old(dim_bufman)@.bytes, file_offset.0 as int) {
                    old(data_bufmans).file(key).cursors.push(None)
                } else {
                    old(data_bufmans).file(key).cursors
                },
            match read_at(
                old(dim_bufman)@.bytes,
                *old(data_bufmans),
                data_file_parts,
                file_offset.0 as int,
            ) {
                Ok(image) => r matches Ok(node) && node.wf() && node.image() == image
                    && node.file_offset == file_offset && node.is_serialized && !node.is_dirty
                    && node.data.chunk_offsets().len() == continuation_count(node.data@.len())
                    && parse_data(
                    old(dim_bufman)@.bytes,
                    old(data_bufmans).file(partition_of(image.dim_index, data_file_parts)).bytes,
                    file_offset.0 + DATA_OFFSET,
                ) == (Ok::<DataImage, BufIoError>(
                    DataImage { entries: node.data@, offsets: node.data.chunk_offsets() },
                )),
                Err(e) => r matches Err(err) && err == e,
            },
    {
        let ghost dim = dim_bufman@.bytes;
        let ghost at = file_offset.0 as int;
        let cursor = dim_bufman.open_cursor();
        let sought = dim_bufman.seek_with_cursor(cursor, file_offset.0 as u64);
        assert(sought is Ok);
        let read = dim_bufman.read_with_cursor(cursor, NODE_SIZE);
        let closed = dim_bufman.close_cursor(cursor);
        assert(closed is Ok);
        assert(dim_bufman@.cursors =~= old(dim_bufman)@.cursors.push(None));
        let record = match read {
            Ok(record) => record,
            Err(e) => { return Err(e); },
        };
        if file_offset.0 as u64 + NODE_SIZE as u64 > MAX_FILE_LEN {
            return Err(BufIoError::OutOfBounds);
        }
        let dim_index = crate::bytes::read_u32_le(record.as_slice(), 0);
        let data_file_idx = (dim_index % data_file_parts as u32) as u8;
        proof {
            lemma_parse_node_of_copy(dim, old(data_bufmans).file(data_file_idx).bytes, at, record@);
        }
        let (quantization_bits, implicit) = decode_flags(record[4]);
        if quantization_bits > MAX_QUANTIZATION_BITS {
            return Err(BufIoError::CorruptHeader);
        }
        let data = match InvertedIndexIDFNodeData::read_from_record(
            record.as_slice(),
            DATA_OFFSET,
            data_bufmans,
            data_file_idx,
        ) {
            Ok(data) => data,
            Err(e) => { return Err(e); },
        };
        if data.len() > capacity_for(quantization_bits) {
            return Err(BufIoError::CorruptHeader);
        }
        let children = AtomicArray::from_bytes(record.as_slice(), CHILDREN_OFFSET);
        Ok(
            InvertedIndexIDFNode {
                is_serialized: true,
                is_dirty: false,
                dim_index,
                implicit,
                file_offset,
                quantization_bits,
                data,
                children,
            },
        )
    }
}

} // verus!
