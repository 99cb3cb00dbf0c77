//! The trie as a whole and the driver that writes it out.
//!
//! The nodes of one index are numbered in the order in which they were made;
//! node `i` has its record at `i * NODE_SIZE` in the dim file, and a child is
//! always made after its parent.  The driver writes the nodes from the last
//! to the first, so that a child is in the files before the record of its
//! parent names it: at every moment, also after a failure half way, each
//! child slot that stands in the dim file leads to a record that can be read.

use vstd::prelude::*;
use crate::atomic_array::{children_at, FANOUT};
use crate::buffered_io::{BufIoError, BufferManager, BufferManagerFactory, BufferState, MAX_FILE_LEN};
use crate::bytes::u32_at;
use crate::node::{
    parse_node,
    read_at,
    partition_of,
    quotient_capacity,
    InvertedIndexIDFNode,
    NodeImage,
    CHILDREN_OFFSET,
    DATA_OFFSET,
    MAX_QUANTIZATION_BITS,
    NODE_SIZE,
};
use crate::node_data::{parse_data, DATA_CHUNK_BYTES};
use crate::types::{FileOffset, IndexError, OffsetCounter};

verus! {

/// Whether a child slot is empty or names a node made after node `i`.
pub open spec fn names_later_node(count: int, i: int, slot: u32) -> bool {
    slot == 0 || (slot as int % (NODE_SIZE as int) == 0 && i < slot as int / (NODE_SIZE as int)
        < count)
}

/// Whether the chunks at `x` and at `y` share no byte.
pub open spec fn apart(x: u32, y: u32) -> bool {
    x + DATA_CHUNK_BYTES <= y || y + DATA_CHUNK_BYTES <= x
}

/// The nodes stand one after the other in the dim file, each child slot is
/// empty or names a later node, and the chunks of all posting maps lie apart
/// and below the allocator's next offset.
pub open spec fn nodes_wf(nodes: Seq<InvertedIndexIDFNode>, next_offset: u32) -> bool {
    &&& nodes.len() >= 1
    &&& forall|i: int|
        0 <= i < nodes.len() ==> (#[trigger] nodes[i]).wf() && nodes[i].file_offset.0 == i
            * NODE_SIZE
    &&& forall|i: int, s: int|
        0 <= i < nodes.len() && 0 <= s < FANOUT ==> names_later_node(
            nodes.len() as int,
            i,
            #[trigger] nodes[i].children@[s],
        )
    &&& forall|i: int, k: int|
        0 <= i < nodes.len() && 0 <= k < nodes[i].data.chunk_offsets().len()
            ==> #[trigger] nodes[i].data.chunk_offsets()[k] + DATA_CHUNK_BYTES <= next_offset
    &&& forall|i: int, j: int, a: int, b: int|
        0 <= i < nodes.len() && 0 <= j < nodes.len() && i != j && 0 <= a
            < nodes[i].data.chunk_offsets().len() && 0 <= b < nodes[j].data.chunk_offsets().len()
            ==> apart(
            #[trigger] nodes[i].data.chunk_offsets()[a],
            #[trigger] nodes[j].data.chunk_offsets()[b],
        )
}

/// The tree is well formed wherever the allocator of its data files stands.
pub open spec fn tree_wf(nodes: Seq<InvertedIndexIDFNode>) -> bool {
    nodes_wf(nodes, 0xFFFF_FFFF)
}

/// The chunks of all posting maps lie below `next_offset`: an allocator that
/// stands there hands out nothing that they hold.
pub open spec fn chunks_below(nodes: Seq<InvertedIndexIDFNode>, next_offset: u32) -> bool {
    forall|i: int, k: int|
        0 <= i < nodes.len() && 0 <= k < nodes[i].data.chunk_offsets().len()
            ==> #[trigger] nodes[i].data.chunk_offsets()[k] + DATA_CHUNK_BYTES <= next_offset
}

/// [`nodes_wf`] says that the tree is well formed and its chunks lie below
/// the allocator.
pub proof fn lemma_nodes_wf_split(nodes: Seq<InvertedIndexIDFNode>, next_offset: u32)
    ensures
        nodes_wf(nodes, next_offset) <==> tree_wf(nodes) && chunks_below(nodes, next_offset),
{
    if nodes_wf(nodes, next_offset) {
        assert forall|i: int, k: int|
            0 <= i < nodes.len() && 0 <= k < nodes[i].data.chunk_offsets().len()
                implies #[trigger] nodes[i].data.chunk_offsets()[k] + DATA_CHUNK_BYTES
            <= 0xFFFF_FFFF by {}
    }
}

/// Whether the child slot `slot`, as it stands in the dim file for slot `s`
/// of node `i`, is empty or names the child that the node holds there, a
/// node that has been written.
pub open spec fn published_ok(nodes: Seq<InvertedIndexIDFNode>, i: int, s: int, slot: u32) -> bool {
    slot == 0 || (slot == nodes[i].children@[s] && nodes[slot as int / (NODE_SIZE
        as int)].is_serialized)
}

/// Whether node `i` stands in the files: its header, a posting map in the
/// chunks that the node knows, which is the node's own map unless the node
/// is dirty, and child slots that are empty or name written nodes.
pub open spec fn stored(
    nodes: Seq<InvertedIndexIDFNode>,
    parts: u8,
    i: int,
    dim: Seq<u8>,
    data: BufferManagerFactory,
) -> bool {
    let node = nodes[i];
    let read = parse_data(
        dim,
        data.file(partition_of(node.dim_index, parts)).bytes,
        node.file_offset.0 + DATA_OFFSET,
    );
    &&& node.header_stands(dim)
    &&& read is Ok
    &&& read.unwrap().offsets == node.data.chunk_offsets()
    &&& read.unwrap().entries.len() <= quotient_capacity(node.quantization_bits)
    &&& !node.is_dirty ==> read.unwrap().entries == node.data@
    &&& forall|s: int|
        0 <= s < FANOUT ==> published_ok(
            nodes,
            i,
            s,
            #[trigger] children_at(dim, node.file_offset.0 + CHILDREN_OFFSET)[s],
        )
}

/// Whether every node that has been written stands in the files.
pub open spec fn nodes_agree(
    nodes: Seq<InvertedIndexIDFNode>,
    parts: u8,
    dim: Seq<u8>,
    data: BufferManagerFactory,
) -> bool {
    forall|i: int|
        0 <= i < nodes.len() && nodes[i].is_serialized ==> #[trigger] stored(
            nodes,
            parts,
            i,
            dim,
            data,
        )
}

/// Whether the record of node `i` is read from the files as the node is.
pub open spec fn in_sync(
    nodes: Seq<InvertedIndexIDFNode>,
    parts: u8,
    i: int,
    dim: Seq<u8>,
    data: BufferManagerFactory,
) -> bool {
    read_at(dim, data, parts, nodes[i].file_offset.0 as int) == (Ok::<NodeImage, BufIoError>(
        nodes[i].image(),
    ))
}

/// How many chunks a flush of `node` takes from the allocator.
pub open spec fn flush_missing(node: InvertedIndexIDFNode) -> nat {
    if node.flush_mode() is WarmClean {
        0
    } else {
        node.data.missing_chunks()
    }
}

/// How many chunks a flush of the nodes from number `from` on takes from
/// the allocator.
pub open spec fn missing_from(nodes: Seq<InvertedIndexIDFNode>, from: int) -> nat
    decreases nodes.len() - from,
{
    if from < 0 || from >= nodes.len() {
        0
    } else {
        flush_missing(nodes[from]) + missing_from(nodes, from + 1)
    }
}

/// A node that stands in the files is read from them, and each child that
/// its record names is read from them too.
pub proof fn lemma_stored_is_readable(
    nodes: Seq<InvertedIndexIDFNode>,
    next_offset: u32,
    parts: u8,
    dim: Seq<u8>,
    data: BufferManagerFactory,
    i: int,
)
    requires
        nodes_wf(nodes, next_offset),
        0 <= i < nodes.len(),
        stored(nodes, parts, i, dim, data),
    ensures
        read_at(dim, data, parts, i * NODE_SIZE) is Ok,
        read_at(dim, data, parts, i * NODE_SIZE).unwrap().children == children_at(
            dim,
            i * NODE_SIZE + CHILDREN_OFFSET,
        ),
        read_at(dim, data, parts, i * NODE_SIZE).unwrap().dim_index == nodes[i].dim_index,
        read_at(dim, data, parts, i * NODE_SIZE).unwrap().implicit == nodes[i].implicit,
        read_at(dim, data, parts, i * NODE_SIZE).unwrap().quantization_bits
            == nodes[i].quantization_bits,
        !nodes[i].is_dirty ==> read_at(dim, data, parts, i * NODE_SIZE).unwrap().entries
            == nodes[i].data@,
{
    let node = nodes[i];
    assert(node.wf());
    node.lemma_stored_parses(dim, data.file(partition_of(node.dim_index, parts)).bytes);
}

/// What a flush of node `k` makes of the nodes and the files: node `k` is
/// written and otherwise as it was, the other nodes are as they were, and
/// the files are what the flush of node `k` leaves.
pub open spec fn flushed(
    before: Seq<InvertedIndexIDFNode>,
    after: Seq<InvertedIndexIDFNode>,
    parts: u8,
    k: int,
    dim: BufferState,
    data: BufferManagerFactory,
    next_offset: u32,
    dim_after: Seq<u8>,
    data_after: BufferManagerFactory,
    cursor: u64,
) -> bool {
    let part = partition_of(before[k].dim_index, parts);
    &&& after.len() == before.len()
    &&& forall|i: int| 0 <= i < before.len() && i != k ==> #[trigger] after[i] == before[i]
    &&& after[k].wf()
    &&& after[k].file_offset == before[k].file_offset
    &&& after[k].image() == before[k].image()
    &&& after[k].is_serialized
    &&& after[k].is_dirty == (!before[k].is_serialized && before[k].is_dirty)
    &&& after[k].data.chunk_offsets() == before[k].offsets_after_flush(next_offset)
    &&& dim_after == before[k].dim_after_flush(dim, next_offset, cursor)
    &&& data_after.file(part).bytes == before[k].data_after_flush(
        data.file(part).bytes,
        next_offset,
    )
    &&& forall|other: u8|
        other != part ==> (#[trigger] data_after.file(other)).bytes == data.file(other).bytes
}

/// The allocator's next offset after a flush of `node`.
pub open spec fn offset_after_flush(node: InvertedIndexIDFNode, next_offset: u32) -> int {
    next_offset + flush_missing(node) * DATA_CHUNK_BYTES
}

/// A flush of one node keeps the tree well formed.
pub proof fn lemma_flush_keeps_wf(
    before: Seq<InvertedIndexIDFNode>,
    after: Seq<InvertedIndexIDFNode>,
    k: int,
    next_offset: u32,
    offset_after: u32,
)
    requires
        nodes_wf(before, next_offset),
        next_offset >= 1,
        0 <= k < before.len(),
        after.len() == before.len(),
        forall|i: int| 0 <= i < before.len() && i != k ==> #[trigger] after[i] == before[i],
        after[k].wf(),
        after[k].file_offset == before[k].file_offset,
        after[k].image() == before[k].image(),
        after[k].data.chunk_offsets() == before[k].offsets_after_flush(next_offset),
        before[k].flush_mode() is WarmClean || before[k].data.can_allocate(next_offset),
        offset_after == offset_after_flush(before[k], next_offset),
    ensures
        nodes_wf(after, offset_after),
{
    let old_offsets = before[k].data.chunk_offsets();
    let new_offsets = after[k].data.chunk_offsets();
    let have = old_offsets.len() as int;
    assert(before[k].wf());
    assert forall|a: int| 0 <= a < new_offsets.len() implies (if a < have {
        new_offsets[a] == old_offsets[a]
    } else {
        new_offsets[a] >= next_offset
    }) && #[trigger] new_offsets[a] + DATA_CHUNK_BYTES <= offset_after by {
        if a < have {
            assert(old_offsets[a] + DATA_CHUNK_BYTES <= next_offset);
        }
    }
    assert forall|i: int| 0 <= i < after.len() implies (#[trigger] after[i]).wf()
        && after[i].file_offset.0 == i * NODE_SIZE by {
        if i != k {
            assert(after[i] == before[i]);
            assert(before[i].wf());
        }
    }
    assert forall|i: int, s: int| 0 <= i < after.len() && 0 <= s < FANOUT implies names_later_node(
        after.len() as int,
        i,
        #[trigger] after[i].children@[s],
    ) by {
        if i != k {
            assert(after[i] == before[i]);
        }
        assert(names_later_node(before.len() as int, i, before[i].children@[s]));
    }
    assert forall|i: int, c: int|
        0 <= i < after.len() && 0 <= c < after[i].data.chunk_offsets().len()
            implies #[trigger] after[i].data.chunk_offsets()[c] + DATA_CHUNK_BYTES
        <= offset_after by {
        if i != k {
            assert(after[i] == before[i]);
            assert(before[i].data.chunk_offsets()[c] + DATA_CHUNK_BYTES <= next_offset);
        }
    }
    assert forall|i: int, j: int, a: int, b: int|
        0 <= i < after.len() && 0 <= j < after.len() && i != j && 0 <= a
            < after[i].data.chunk_offsets().len() && 0 <= b
            < after[j].data.chunk_offsets().len() implies apart(
        #[trigger] after[i].data.chunk_offsets()[a],
        #[trigger] after[j].data.chunk_offsets()[b],
    ) by {
        if i != k {
            assert(after[i] == before[i]);
        }
        if j != k {
            assert(after[j] == before[j]);
        }
        if i == k {
            if a < have {
                assert(apart(before[i].data.chunk_offsets()[a], before[j].data.chunk_offsets()[b]));
            } else {
                assert(before[j].data.chunk_offsets()[b] + DATA_CHUNK_BYTES <= next_offset);
            }
        } else if j == k {
            if b < have {
                assert(apart(before[i].data.chunk_offsets()[a], before[j].data.chunk_offsets()[b]));
            } else {
                assert(before[i].data.chunk_offsets()[a] + DATA_CHUNK_BYTES <= next_offset);
            }
        } else {
            assert(apart(before[i].data.chunk_offsets()[a], before[j].data.chunk_offsets()[b]));
        }
    }
}

/// After its flush, node `k` stands in the files and is read from them as
/// it is.
pub proof fn lemma_flushed_node_stands(
    before: Seq<InvertedIndexIDFNode>,
    after: Seq<InvertedIndexIDFNode>,
    parts: u8,
    k: int,
    dim: BufferState,
    data: BufferManagerFactory,
    next_offset: u32,
    dim_after: Seq<u8>,
    data_after: BufferManagerFactory,
    cursor: u64,
)
    requires
        parts > 0,
        next_offset >= 1,
        nodes_wf(before, next_offset),
        0 <= k < before.len(),
        nodes_agree(before, parts, dim.bytes, data),
        before[k].can_flush(dim, next_offset, cursor),
        forall|j: int| k < j < before.len() ==> (#[trigger] before[j]).is_serialized,
        flushed(before, after, parts, k, dim, data, next_offset, dim_after, data_after, cursor),
    ensures
        stored(after, parts, k, dim_after, data_after),
        in_sync(after, parts, k, dim_after, data_after),
{
    let node = before[k];
    let part = partition_of(node.dim_index, parts);
    let file = data.file(part).bytes;
    assert(node.wf());
    if node.is_serialized {
        assert(stored(before, parts, k, dim.bytes, data));
    }
    node.lemma_stands_after_flush(dim, file, next_offset, cursor);
    let written = after[k];
    assert(written.header_stands(dim_after));
    written.lemma_stored_parses(dim_after, data_after.file(part).bytes);
    assert forall|s: int| 0 <= s < FANOUT implies published_ok(
        after,
        k,
        s,
        #[trigger] children_at(dim_after, written.file_offset.0 + CHILDREN_OFFSET)[s],
    ) by {
        let slot = written.children@[s];
        assert(names_later_node(before.len() as int, k, before[k].children@[s]));
        if slot != 0 {
            let j = slot as int / (NODE_SIZE as int);
            assert(before[j].is_serialized);
            assert(after[j] == before[j]);
        }
    }
}

/// A flush of node `k` leaves every other written node standing in the
/// files, and read from them as before.
pub proof fn lemma_flush_keeps_node(
    before: Seq<InvertedIndexIDFNode>,
    after: Seq<InvertedIndexIDFNode>,
    parts: u8,
    k: int,
    dim: BufferState,
    data: BufferManagerFactory,
    next_offset: u32,
    dim_after: Seq<u8>,
    data_after: BufferManagerFactory,
    cursor: u64,
    i: int,
)
    requires
        parts > 0,
        next_offset >= 1,
        nodes_wf(before, next_offset),
        0 <= k < before.len(),
        nodes_agree(before, parts, dim.bytes, data),
        before[k].can_flush(dim, next_offset, cursor),
        flushed(before, after, parts, k, dim, data, next_offset, dim_after, data_after, cursor),
        0 <= i < before.len(),
        i != k,
        before[i].is_serialized,
    ensures
        stored(after, parts, i, dim_after, data_after),
        read_at(dim_after, data_after, parts, i * NODE_SIZE) == read_at(
            dim.bytes,
            data,
            parts,
            i * NODE_SIZE,
        ),
{
    let node = before[i];
    let flushing = before[k];
    let at = i * NODE_SIZE;
    let part = partition_of(node.dim_index, parts);
    let data_a = data.file(part).bytes;
    let data_b = data_after.file(part).bytes;
    assert(after[i] == node);
    assert(node.wf() && flushing.wf());
    assert(stored(before, parts, i, dim.bytes, data));
    let read = parse_data(dim.bytes, data_a, at + DATA_OFFSET);
    lemma_flush_keeps_wf(
        before,
        after,
        k,
        next_offset,
        offset_after_flush(flushing, next_offset) as u32,
    );
    // The dim file is as it was in the record of node `i`.
    flushing.lemma_flush_keeps_others(dim, next_offset, cursor);
    assert(dim.bytes.subrange(at, at + NODE_SIZE) =~= dim_after.subrange(at, at + NODE_SIZE));
    // The data file is as it was in the chunks of node `i`.
    crate::node_data::lemma_parsed_data_within(dim.bytes, data_a, at + DATA_OFFSET);
    assert(data_b.len() >= data_a.len() && crate::node_data::same_chunks(
        data_a,
        data_b,
        read.unwrap().offsets,
    )) by {
        if part == partition_of(flushing.dim_index, parts) && !(flushing.flush_mode()
            is WarmClean) {
            let offsets = after[k].data.chunk_offsets();
            assert(data_b == crate::node_data::with_continuations(
                data_a,
                flushing.data@,
                offsets,
                offsets.len(),
            ));
            assert forall|m: int| 0
                <= m < read.unwrap().offsets.len() implies crate::node_data::same_range(
            data_a, data_b, #[trigger] read.unwrap().offsets[m] as int, DATA_CHUNK_BYTES as int) by {
                let chunk = node.data.chunk_offsets()[m];
                assert(chunk + DATA_CHUNK_BYTES <= data_a.len());
                assert forall|x: int| chunk <= x < chunk + DATA_CHUNK_BYTES implies data_a[x]
                    == data_b[x] by {
                    assert forall|t: int| 0 <= t < offsets.len() implies x < #[trigger] offsets[t]
                        || x >= offsets[t] + DATA_CHUNK_BYTES by {
                        assert(apart(
                            after[k].data.chunk_offsets()[t],
                            after[i].data.chunk_offsets()[m],
                        ));
                    }
                    crate::node_data::lemma_continuations_keep_others(
                        data_a,
                        flushing.data@,
                        offsets,
                        offsets.len(),
                        x,
                    );
                }
            }
            crate::node_data::lemma_continuations_no_shorter(
                data_a,
                flushing.data@,
                offsets,
                offsets.len(),
            );
        }
    }
    crate::node::lemma_parse_node_frame(dim.bytes, data_a, dim_after, data_b, at);
    node.lemma_stored_parses(dim.bytes, data_a);
    assert(node.header_stands(dim_after)) by {
        assert(dim_after.subrange(at, at + DATA_OFFSET) =~= dim.bytes.subrange(
            at,
            at + DATA_OFFSET,
        )) by {
            assert forall|x: int| at <= x < at + DATA_OFFSET implies dim_after[x]
                == dim.bytes[x] by {
                assert(dim.bytes.subrange(at, at + NODE_SIZE)[x - at] == dim.bytes[x]);
                assert(dim_after.subrange(at, at + NODE_SIZE)[x - at] == dim_after[x]);
            }
        }
    }
    assert forall|s: int| 0 <= s < FANOUT implies published_ok(
        after,
        i,
        s,
        #[trigger] children_at(dim_after, node.file_offset.0 + CHILDREN_OFFSET)[s],
    ) by {
        let slot = children_at(dim.bytes, node.file_offset.0 + CHILDREN_OFFSET)[s];
        assert(published_ok(before, i, s, slot));
        if slot != 0 {
            let j = slot as int / (NODE_SIZE as int);
            assert(names_later_node(before.len() as int, i, before[i].children@[s]));
            if j != k {
                assert(after[j] == before[j]);
            }
        }
    }
}

/// A flush of node `k`, after the nodes behind it, keeps the tree well
/// formed and the files in agreement with it, and leaves node `k` and the
/// nodes behind it read from the files as they are.
pub proof fn lemma_flush_step(
    before: Seq<InvertedIndexIDFNode>,
    after: Seq<InvertedIndexIDFNode>,
    parts: u8,
    k: int,
    dim: BufferState,
    data: BufferManagerFactory,
    next_offset: u32,
    dim_after: Seq<u8>,
    data_after: BufferManagerFactory,
    cursor: u64,
)
    requires
        parts > 0,
        next_offset >= 1,
        nodes_wf(before, next_offset),
        0 <= k < before.len(),
        nodes_agree(before, parts, dim.bytes, data),
        before[k].can_flush(dim, next_offset, cursor),
        forall|j: int|
            k < j < before.len() ==> (#[trigger] before[j]).is_serialized && in_sync(
                before,
                parts,
                j,
                dim.bytes,
                data,
            ),
        flushed(before, after, parts, k, dim, data, next_offset, dim_after, data_after, cursor),
    ensures
        nodes_wf(after, offset_after_flush(before[k], next_offset) as u32),
        nodes_agree(after, parts, dim_after, data_after),
        forall|j: int|
            k <= j < after.len() ==> (#[trigger] after[j]).is_serialized && in_sync(
                after,
                parts,
                j,
                dim_after,
                data_after,
            ),
{
    assert(before[k].wf());
    lemma_flush_keeps_wf(
        before,
        after,
        k,
        next_offset,
        offset_after_flush(before[k], next_offset) as u32,
    );
    lemma_flushed_node_stands(
        before,
        after,
        parts,
        k,
        dim,
        data,
        next_offset,
        dim_after,
        data_after,
        cursor,
    );
    assert forall|i: int| 0 <= i < after.len() && after[i].is_serialized implies #[trigger] stored(
        after,
        parts,
        i,
        dim_after,
        data_after,
    ) by {
        if i != k {
            assert(after[i] == before[i]);
            lemma_flush_keeps_node(
                before,
                after,
                parts,
                k,
                dim,
                data,
                next_offset,
                dim_after,
                data_after,
                cursor,
                i,
            );
        }
    }
    assert forall|j: int| k <= j < after.len() implies (#[trigger] after[j]).is_serialized
        && in_sync(after, parts, j, dim_after, data_after) by {
        if j != k {
            assert(after[j] == before[j]);
            assert(before[j].is_serialized && in_sync(before, parts, j, dim.bytes, data));
            assert(before[j].wf());
            lemma_flush_keeps_node(
                before,
                after,
                parts,
                k,
                dim,
                data,
                next_offset,
                dim_after,
                data_after,
                cursor,
                j,
            );
        }
    }
}

/// The nodes from a later number on take no more chunks than those from an
/// earlier number on.
pub proof fn lemma_missing_from_grows(nodes: Seq<InvertedIndexIDFNode>, from: int, to: int)
    requires
        0 <= from <= to,
    ensures
        missing_from(nodes, from) >= missing_from(nodes, to),
    decreases to - from,
{
    if from < to {
        lemma_missing_from_grows(nodes, from + 1, to);
    }
}

/// Whether `after` is `before` with, at most, entries appended and empty
/// child slots filled: what changes a node without writing it.
pub open spec fn grown(before: InvertedIndexIDFNode, after: InvertedIndexIDFNode) -> bool {
    &&& after.wf()
    &&& after.file_offset == before.file_offset
    &&& after.dim_index == before.dim_index
    &&& after.implicit == before.implicit
    &&& after.quantization_bits == before.quantization_bits
    &&& after.is_serialized == before.is_serialized
    &&& after.data.chunk_offsets() == before.data.chunk_offsets()
    &&& after.is_dirty || (!before.is_dirty && after.data@ == before.data@)
    &&& forall|s: int|
        0 <= s < FANOUT ==> #[trigger] after.children@[s] == before.children@[s]
            || before.children@[s] == 0
}

/// Whether the tree `after` is the tree `before` with nodes grown and new
/// nodes, not written yet, behind them.
pub open spec fn tree_grown(
    before: Seq<InvertedIndexIDFNode>,
    after: Seq<InvertedIndexIDFNode>,
) -> bool {
    &&& after.len() >= before.len()
    &&& forall|i: int| 0 <= i < before.len() ==> grown(before[i], #[trigger] after[i])
    &&& forall|i: int|
        before.len() <= i < after.len() ==> {
            &&& (#[trigger] after[i]).wf()
            &&& !after[i].is_serialized
            &&& after[i].file_offset.0 == i * NODE_SIZE
            &&& after[i].data.chunk_offsets().len() == 0
        }
    &&& forall|i: int, s: int|
        0 <= i < after.len() && 0 <= s < FANOUT ==> names_later_node(
            after.len() as int,
            i,
            #[trigger] after[i].children@[s],
        )
}

/// A tree that has grown is well formed as before.
pub proof fn lemma_growth_keeps_wf(
    before: Seq<InvertedIndexIDFNode>,
    after: Seq<InvertedIndexIDFNode>,
    next_offset: u32,
)
    requires
        nodes_wf(before, next_offset),
        tree_grown(before, after),
    ensures
        nodes_wf(after, next_offset),
{
    assert forall|i: int| 0 <= i < after.len() implies (#[trigger] after[i]).wf()
        && after[i].file_offset.0 == i * NODE_SIZE by {
        if i < before.len() {
            assert(grown(before[i], after[i]));
            assert(before[i].wf());
        }
    }
    assert forall|i: int, c: int|
        0 <= i < after.len() && 0 <= c < after[i].data.chunk_offsets().len()
            implies #[trigger] after[i].data.chunk_offsets()[c] + DATA_CHUNK_BYTES
        <= next_offset by {
        if i < before.len() {
            assert(grown(before[i], after[i]));
            assert(before[i].data.chunk_offsets()[c] + DATA_CHUNK_BYTES <= next_offset);
        } else {
            assert(after[i].wf());
        }
    }
    assert forall|i: int, j: int, a: int, b: int|
        0 <= i < after.len() && 0 <= j < after.len() && i != j && 0 <= a
            < after[i].data.chunk_offsets().len() && 0 <= b
            < after[j].data.chunk_offsets().len() implies apart(
        #[trigger] after[i].data.chunk_offsets()[a],
        #[trigger] after[j].data.chunk_offsets()[b],
    ) by {
        if i < before.len() {
            assert(grown(before[i], after[i]));
        } else {
            assert(after[i].wf());
        }
        if j < before.len() {
            assert(grown(before[j], after[j]));
        } else {
            assert(after[j].wf());
        }
        assert(apart(before[i].data.chunk_offsets()[a], before[j].data.chunk_offsets()[b]));
    }
}

/// The files agree with a tree that has grown as they did before: growth
/// writes nothing, and the record of a node names no child that the node
/// did not hold when it was written.
pub proof fn lemma_growth_keeps_agreement(
    before: Seq<InvertedIndexIDFNode>,
    after: Seq<InvertedIndexIDFNode>,
    next_offset: u32,
    parts: u8,
    dim: Seq<u8>,
    data: BufferManagerFactory,
)
    requires
        nodes_wf(before, next_offset),
        tree_grown(before, after),
        nodes_agree(before, parts, dim, data),
    ensures
        nodes_agree(after, parts, dim, data),
{
    assert forall|i: int| 0 <= i < after.len() && after[i].is_serialized implies #[trigger] stored(
        after,
        parts,
        i,
        dim,
        data,
    ) by {
        if i >= before.len() {
            assert(after[i].wf());
        }
        assert(grown(before[i], after[i]));
        assert(stored(before, parts, i, dim, data));
        assert forall|s: int| 0 <= s < FANOUT implies published_ok(
            after,
            i,
            s,
            #[trigger] children_at(dim, after[i].file_offset.0 + CHILDREN_OFFSET)[s],
        ) by {
            let found = children_at(dim, before[i].file_offset.0 + CHILDREN_OFFSET)[s];
            assert(published_ok(before, i, s, found));
            if found != 0 {
                let j = found as int / (NODE_SIZE as int);
                assert(after[i].children@[s] == before[i].children@[s]);
                assert(names_later_node(before.len() as int, i, before[i].children@[s]));
                assert(grown(before[j], after[j]));
            }
        }
    }
}

/// The files agree with the tree as before when the data files change
/// outside the chunks of its posting maps, and get no shorter: what else
/// shares the data files, such as posting lists, may be written freely.
pub proof fn lemma_agreement_frame(
    nodes: Seq<InvertedIndexIDFNode>,
    parts: u8,
    dim: Seq<u8>,
    data: BufferManagerFactory,
    changed: BufferManagerFactory,
)
    requires
        tree_wf(nodes),
        nodes_agree(nodes, parts, dim, data),
        forall|part: u8| (#[trigger] changed.file(part)).bytes.len() >= data.file(part).bytes.len(),
        forall|i: int, k: int|
            0 <= i < nodes.len() && 0 <= k < nodes[i].data.chunk_offsets().len()
                ==> crate::node_data::same_range(
                data.file(partition_of(nodes[i].dim_index, parts)).bytes,
                changed.file(partition_of(nodes[i].dim_index, parts)).bytes,
                #[trigger] nodes[i].data.chunk_offsets()[k] as int,
                DATA_CHUNK_BYTES as int,
            ),
    ensures
        nodes_agree(nodes, parts, dim, changed),
{
    assert forall|i: int| 0 <= i < nodes.len() && nodes[i].is_serialized implies #[trigger] stored(
        nodes,
        parts,
        i,
        dim,
        changed,
    ) by {
        let node = nodes[i];
        let part = partition_of(node.dim_index, parts);
        let at = node.file_offset.0 + DATA_OFFSET;
        assert(stored(nodes, parts, i, dim, data));
        assert(node.wf());
        assert(changed.file(part).bytes.len() >= data.file(part).bytes.len());
        assert forall|k: int|
            0 <= k < node.data.chunk_offsets().len() implies crate::node_data::same_range(
            data.file(part).bytes,
            changed.file(part).bytes,
            #[trigger] node.data.chunk_offsets()[k] as int,
            DATA_CHUNK_BYTES as int,
        ) by {
            assert(nodes[i].data.chunk_offsets()[k] == node.data.chunk_offsets()[k]);
        }
        crate::node_data::lemma_parse_data_frame(
            dim,
            data.file(part).bytes,
            dim,
            changed.file(part).bytes,
            at,
        );
    }
}

/// A tree of nodes.
pub struct InvertedIndexIDF {
    nodes: Vec<InvertedIndexIDFNode>,
    quantization_bits: u8,
    data_file_parts: u8,
}

impl View for InvertedIndexIDF {
    type V = Seq<InvertedIndexIDFNode>;

    closed spec fn view(&self) -> Seq<InvertedIndexIDFNode> {
        self.nodes@
    }
}

impl InvertedIndexIDF {
    /// How many data files the index has.
    pub closed spec fn parts(&self) -> u8 {
        self.data_file_parts
    }

    /// The quantization bits of every node.
    pub closed spec fn bits(&self) -> u8 {
        self.quantization_bits
    }

    /// The tree is well formed, see [`nodes_wf`].
    pub open spec fn wf(&self) -> bool {
        &&& self.parts() > 0
        &&& self.bits() <= MAX_QUANTIZATION_BITS
        &&& tree_wf(self@)
    }

    /// The chunks of the tree lie below `next_offset`.  An allocator that
    /// serves the tree must stand no lower; one that has only ever handed
    /// out what the tree and its posting lists hold does.
    pub open spec fn below(&self, next_offset: u32) -> bool {
        chunks_below(self@, next_offset)
    }

    /// Whether the files hold the tree as far as it has been written, see
    /// [`nodes_agree`].
    pub open spec fn agrees(&self, dim: Seq<u8>, data: BufferManagerFactory) -> bool {
        nodes_agree(self@, self.parts(), dim, data)
    }

    /// A tree with a root for the dimension `dim_index` and nothing else.
    /// It has `data_file_parts` data files, at least one.
    pub fn new(dim_index: u32, quantization_bits: u8, data_file_parts: u8) -> (r: Result<
        InvertedIndexIDF,
        IndexError,
    >)
        ensures
            r is Ok <==> quantization_bits <= MAX_QUANTIZATION_BITS && data_file_parts > 0,
            r matches Ok(index) ==> {
                &&& index.wf()
                &&& index.parts() == data_file_parts
                &&& index.bits() == quantization_bits
                &&& index@.len() == 1
                &&& !index@[0].is_serialized
                &&& index@[0].image() == (NodeImage {
                    dim_index,
                    implicit: false,
                    quantization_bits,
                    entries: Seq::empty(),
                    children: Seq::new(FANOUT as nat, |i: int| 0u32),
                })
                &&& forall|dim: Seq<u8>, data: BufferManagerFactory| index.agrees(dim, data)
                &&& forall|next_offset: u32| index.below(next_offset)
            },
            r matches Err(e) ==> e == IndexError::InvalidParams,
    {
        if data_file_parts == 0 {
            return Err(IndexError::InvalidParams);
        }
        let root = match InvertedIndexIDFNode::new(
            dim_index,
            false,
            quantization_bits,
            FileOffset(0),
        ) {
            Ok(root) => root,
            Err(e) => { return Err(e); },
        };
        let mut nodes: Vec<InvertedIndexIDFNode> = Vec::new();
        nodes.push(root);
        Ok(InvertedIndexIDF { nodes, quantization_bits, data_file_parts })
    }

    /// How many nodes the tree has.
    pub fn len(&self) -> (n: usize)
        ensures
            n == self@.len(),
    {
        self.nodes.len()
    }

    /// The node with number `i`.
    pub fn node(&self, i: usize) -> (node: &InvertedIndexIDFNode)
        requires
            i < self@.len(),
        ensures
            *node == self@[i as int],
    {
        &self.nodes[i]
    }

    /// Makes a node for the dimension `dim_index` and puts it into slot
    /// `slot` of the node with number `parent`.  Returns the child's number.
    /// Nothing is written: the files agree with the tree as before.
    pub fn add_child(&mut self, parent: usize, slot: usize, dim_index: u32, implicit: bool) -> (r:
        Result<usize, IndexError>)
        requires
            old(self).wf(),
        ensures
            final(self).wf(),
            final(self).parts() == old(self).parts(),
            final(self).bits() == old(self).bits(),
            forall|next_offset: u32| old(self).below(next_offset) ==> final(self).below(next_offset),
            r is Ok <==> parent < old(self)@.len() && slot < FANOUT
                && old(self)@[parent as int].children@[slot as int] == 0 && (old(self)@.len()
                + 1) * NODE_SIZE
                <= MAX_FILE_LEN,
            r matches Ok(child) ==> {
                &&& child == old(self)@.len()
                &&& final(self)@.len() == child + 1
                &&& forall|i: int|
                    0 <= i < child && i != parent ==> #[trigger] final(self)@[i] == old(self)@[i]
                &&& final(self)@[parent as int].image() == (NodeImage {
                    children: old(self)@[parent as int].children@.update(
                        slot as int,
                        (child * NODE_SIZE) as u32,
                    ),
                    ..old(self)@[parent as int].image()
                })
                &&& final(self)@[parent as int].is_serialized == old(self)@[parent as int].is_serialized
                &&& final(self)@[parent as int].is_dirty == old(self)@[parent as int].is_dirty
                &&& !final(self)@[child as int].is_serialized
                &&& final(self)@[child as int].image() == (NodeImage {
                    dim_index,
                    implicit,
                    quantization_bits: old(self).bits(),
                    entries: Seq::empty(),
                    children: Seq::new(FANOUT as nat, |i: int| 0u32),
                })
            },
            r matches Err(e) ==> final(self)@ == old(self)@ && e == if parent >= old(self)@.len()
                || slot >= FANOUT {
                IndexError::InvalidParams
            } else if old(self)@[parent as int].children@[slot as int] != 0 {
                IndexError::AlreadyPresent
            } else {
                IndexError::CapacityExceeded
            },
            forall|dim: Seq<u8>, data: BufferManagerFactory|
                old(self).agrees(dim, data) ==> final(self).agrees(dim, data),
    {
        let count = self.nodes.len();
        if parent >= count || slot >= FANOUT {
            return Err(IndexError::InvalidParams);
        }
        if self.nodes[parent].children.get(slot).is_some() {
            return Err(IndexError::AlreadyPresent);
        }
        assert(old(self)@[count - 1].wf());
        if (count as u64 + 1) * NODE_SIZE as u64 > MAX_FILE_LEN {
            return Err(IndexError::CapacityExceeded);
        }
        let offset = FileOffset((count * NODE_SIZE) as u32);
        let child = match InvertedIndexIDFNode::new(
            dim_index,
            implicit,
            self.quantization_bits,
            offset,
        ) {
            Ok(child) => child,
            Err(e) => {
                assert(false);
                return Err(e);
            },
        };
        assert(old(self)@[parent as int].wf());
        let set = self.nodes[parent].set_child(slot, offset);
        assert(set is Ok);
        self.nodes.push(child);
        proof {
            let before = old(self)@;
            let after = self@;
            let next_offset = 0xFFFF_FFFFu32;
            assert(after.len() == count + 1);
            assert(!after[count as int].is_serialized);
            assert(after[count as int].children@ == Seq::new(FANOUT as nat, |i: int| 0u32));
            assert(before[parent as int].children@[slot as int] == 0);
            assert((count * NODE_SIZE) % (NODE_SIZE as int) == 0 && (count * NODE_SIZE) / (
            NODE_SIZE as int) == count) by (nonlinear_arith);
            assert forall|i: int| 0 <= i < before.len() implies grown(
                before[i],
                #[trigger] after[i],
            ) by {
                assert(before[i].wf());
                if i != parent {
                    assert(after[i] == before[i]);
                }
            }
            assert forall|i: int, s: int|
                0 <= i < after.len() && 0 <= s < FANOUT implies names_later_node(
                after.len() as int,
                i,
                #[trigger] after[i].children@[s],
            ) by {
                if i < count {
                    assert(before[i].wf());
                    assert(names_later_node(before.len() as int, i, before[i].children@[s]));
                    if i != parent {
                        assert(after[i] == before[i]);
                    }
                }
            }
            assert(tree_grown(before, after));
            lemma_growth_keeps_wf(before, after, next_offset);
            assert forall|v: u32| old(self).below(v) implies self.below(v) by {
                lemma_nodes_wf_split(before, v);
                lemma_growth_keeps_wf(before, after, v);
                lemma_nodes_wf_split(after, v);
            }
            assert forall|dim: Seq<u8>, data: BufferManagerFactory|
                old(self).agrees(dim, data) implies self.agrees(dim, data) by {
                lemma_growth_keeps_agreement(before, after, next_offset, self.parts(), dim, data);
            }
        }
        Ok(count)
    }

    /// Appends the entry `(quotient, head)` to the posting map of the node
    /// with number `node`.  Nothing is written: the files agree with the
    /// tree as before.
    pub fn insert(&mut self, node: usize, quotient: u16, head: FileOffset) -> (r: Result<
        (),
        IndexError,
    >)
        requires
            old(self).wf(),
        ensures
            final(self).wf(),
            final(self).parts() == old(self).parts(),
            final(self).bits() == old(self).bits(),
            forall|next_offset: u32| old(self).below(next_offset) ==> final(self).below(next_offset),
            final(self)@.len() == old(self)@.len(),
            forall|i: int|
                0 <= i < old(self)@.len() && i != node ==> #[trigger] final(self)@[i] == old(self)@[i],
            r is Ok <==> node < old(self)@.len() && old(self)@[node as int].data@.len()
                < quotient_capacity(old(self)@[node as int].quantization_bits) && forall|i: int|
                0 <= i < old(self)@[node as int].data@.len()
                    ==> old(self)@[node as int].data@[i].0 != quotient,
            r is Ok ==> final(self)@[node as int].is_dirty && final(self)@[node as int].image() == (
            NodeImage {
                entries: old(self)@[node as int].data@.push((quotient, head.0)),
                ..old(self)@[node as int].image()
            }),
            r matches Err(e) ==> e == if node >= old(self)@.len() {
                IndexError::InvalidParams
            } else if exists|i: int|
                0 <= i < old(self)@[node as int].data@.len()
                    && old(self)@[node as int].data@[i].0 == quotient {
                IndexError::DuplicateQuotient
            } else {
                IndexError::CapacityExceeded
            },
            r is Err && node < old(self)@.len() ==> final(self)@[node as int].image()
                == old(self)@[node as int].image() && final(self)@[node as int].is_dirty
                == old(self)@[node as int].is_dirty,
            forall|dim: Seq<u8>, data: BufferManagerFactory|
                old(self).agrees(dim, data) ==> final(self).agrees(dim, data),
    {
        if node >= self.nodes.len() {
            return Err(IndexError::InvalidParams);
        }
        assert(old(self)@[node as int].wf());
        let r = self.nodes[node].insert(quotient, head);
        proof {
            let before = old(self)@;
            let after = self@;
            let next_offset = 0xFFFF_FFFFu32;
            assert forall|i: int| 0 <= i < before.len() implies grown(
                before[i],
                #[trigger] after[i],
            ) by {
                assert(before[i].wf());
                if i != node {
                    assert(after[i] == before[i]);
                }
            }
            assert forall|i: int, s: int|
                0 <= i < after.len() && 0 <= s < FANOUT implies names_later_node(
                after.len() as int,
                i,
                #[trigger] after[i].children@[s],
            ) by {
                assert(before[i].wf());
                assert(names_later_node(before.len() as int, i, before[i].children@[s]));
                if i != node {
                    assert(after[i] == before[i]);
                }
            }
            assert(tree_grown(before, after));
            lemma_growth_keeps_wf(before, after, next_offset);
            assert forall|v: u32| old(self).below(v) implies self.below(v) by {
                lemma_nodes_wf_split(before, v);
                lemma_growth_keeps_wf(before, after, v);
                lemma_nodes_wf_split(after, v);
            }
            assert forall|dim: Seq<u8>, data: BufferManagerFactory|
                old(self).agrees(dim, data) implies self.agrees(dim, data) by {
                lemma_growth_keeps_agreement(before, after, next_offset, self.parts(), dim, data);
            }
        }
        r
    }

    /// Writes the whole tree to the index files.  The nodes are flushed from
    /// the last to the first, each as its flags ask, so that a child is in
    /// the files before the record of its parent names it.  `cursor` is a
    /// cursor of the dim file; `offset_counter` is the allocator of the data
    /// files, which must stand behind every chunk of the tree.  When it
    /// cannot supply a chunk the driver stops; what has been written stays,
    /// and the files agree with the tree as far as it has been written.
    pub fn serialize(
        &mut self,
        dim_bufman: &mut BufferManager,
        data_bufmans: &mut BufferManagerFactory,
        offset_counter: &mut OffsetCounter,
        cursor: u64,
    ) -> (r: Result<(), BufIoError>)
        requires
            old(self).wf(),
            old(offset_counter).wf(),
            old(self).below(old(offset_counter).value()),
            old(self).agrees(old(dim_bufman)@.bytes, *old(data_bufmans)),
        ensures
            final(self).wf(),
            final(offset_counter).wf(),
            final(self).below(final(offset_counter).value()),
            final(offset_counter).value() >= old(offset_counter).value(),
            final(self).agrees(final(dim_bufman)@.bytes, *final(data_bufmans)),
            final(self).parts() == old(self).parts(),
            final(self).bits() == old(self).bits(),
            final(self)@.len() == old(self)@.len(),
            forall|i: int|
                0 <= i < old(self)@.len() ==> (#[trigger] final(self)@[i]).image()
                    == old(self)@[i].image() && final(self)@[i].file_offset
                    == old(self)@[i].file_offset,
            r is Ok <==> old(dim_bufman)@.is_open(cursor) && old(offset_counter).value()
                + missing_from(old(self)@, 0) * DATA_CHUNK_BYTES <= MAX_FILE_LEN,
            r is Ok ==> final(offset_counter).value() == old(offset_counter).value()
                + missing_from(old(self)@, 0) * DATA_CHUNK_BYTES,
            r is Ok ==> forall|i: int|
                0 <= i < old(self)@.len() ==> {
                    &&& (#[trigger] final(self)@[i]).is_serialized
                    &&& final(self)@[i].is_dirty == (!old(self)@[i].is_serialized
                        && old(self)@[i].is_dirty)
                    &&& in_sync(
                        final(self)@,
                        final(self).parts(),
                        i,
                        final(dim_bufman)@.bytes,
                        *final(data_bufmans),
                    )
                },
            r matches Err(e) ==> e == old(dim_bufman)@.write_error(cursor),
    {
        if dim_bufman.cursor_position(cursor).is_err() {
            return Err(BufIoError::InvalidCursor(cursor));
        }
        proof {
            lemma_nodes_wf_split(self@, offset_counter.value());
        }
        let parts = self.data_file_parts;
        let count = self.nodes.len();
        let ghost first = self.nodes@;
        let ghost start = offset_counter.value();
        let mut k: usize = count;
        while k > 0
            invariant
                0 <= k <= count,
                count == first.len(),
                first == old(self)@,
                start == old(offset_counter).value(),
                nodes_wf(first, start),
                parts > 0,
                self.data_file_parts == parts,
                self.parts() == old(self).parts(),
                self.bits() == old(self).bits(),
                self.bits() <= MAX_QUANTIZATION_BITS,
                offset_counter.wf(),
                self@.len() == count,
                nodes_wf(self@, offset_counter.value()),
                nodes_agree(self@, parts, dim_bufman@.bytes, *data_bufmans),
                dim_bufman@.is_open(cursor),
                old(dim_bufman)@.is_open(cursor),
                forall|i: int| 0 <= i < k ==> #[trigger] self@[i] == first[i],
                forall|i: int|
                    0 <= i < count ==> (#[trigger] self@[i]).image() == first[i].image()
                        && self@[i].file_offset == first[i].file_offset,
                forall|j: int|
                    k <= j < count ==> {
                        &&& (#[trigger] self@[j]).is_serialized
                        &&& self@[j].is_dirty == (!first[j].is_serialized && first[j].is_dirty)
                        &&& in_sync(self@, parts, j, dim_bufman@.bytes, *data_bufmans)
                    },
                offset_counter.value() == start + missing_from(first, k as int)
                    * DATA_CHUNK_BYTES,
            decreases k,
        {
            k = k - 1;
            let ghost before = self.nodes@;
            let ghost dim = dim_bufman@;
            let ghost data = *data_bufmans;
            let ghost value = offset_counter.value();
            proof {
                offset_counter.lemma_value_positive();
                assert(before[k as int].wf());
                assert(before[k as int] == first[k as int]);
            }
            let flushed_node = self.nodes[k].serialize(
                dim_bufman,
                data_bufmans,
                offset_counter,
                parts,
                cursor,
            );
            let ghost after = self.nodes@;
            match flushed_node {
                Ok(_) => {
                    proof {
                        assert(after.len() == before.len());
                        assert forall|i: int|
                            0 <= i < before.len() && i != k implies #[trigger] after[i]
                            == before[i] by {}
                        assert(flushed(
                            before,
                            after,
                            parts,
                            k as int,
                            dim,
                            data,
                            value,
                            dim_bufman@.bytes,
                            *data_bufmans,
                            cursor,
                        ));
                        lemma_flush_step(
                            before,
                            after,
                            parts,
                            k as int,
                            dim,
                            data,
                            value,
                            dim_bufman@.bytes,
                            *data_bufmans,
                            cursor,
                        );
                    }
                },
                Err(e) => {
                    proof {
                        assert forall|i: int| 0 <= i < before.len() implies grown(
                            before[i],
                            #[trigger] after[i],
                        ) by {
                            assert(before[i].wf());
                        }
                        assert forall|i: int, s: int|
                            0 <= i < after.len() && 0 <= s < FANOUT implies names_later_node(
                            after.len() as int,
                            i,
                            #[trigger] after[i].children@[s],
                        ) by {
                            assert(names_later_node(
                                before.len() as int,
                                i,
                                before[i].children@[s],
                            ));
                        }
                        assert(tree_grown(before, after));
                        lemma_growth_keeps_wf(before, after, value);
                        assert forall|i: int|
                            0 <= i < before.len()
                                && before[i].is_serialized implies #[trigger] stored(
                            before,
                            parts,
                            i,
                            dim_bufman@.bytes,
                            *data_bufmans,
                        ) by {
                            assert(stored(before, parts, i, dim.bytes, data));
                            assert(data_bufmans.file(partition_of(before[i].dim_index, parts))
                                == data.file(partition_of(before[i].dim_index, parts)));
                        }
                        lemma_growth_keeps_agreement(
                            before,
                            after,
                            value,
                            parts,
                            dim_bufman@.bytes,
                            *data_bufmans,
                        );
                        assert forall|c: int|
                            0 <= c < before[k as int].data.chunk_offsets().len()
                                implies #[trigger] before[k as int].data.chunk_offsets()[c]
                            + DATA_CHUNK_BYTES <= value by {}
                        lemma_nodes_wf_split(after, value);
                        lemma_missing_from_grows(first, 0, k as int);
                        assert(missing_from(first, k as int) == flush_missing(first[k as int])
                            + missing_from(first, k + 1));
                    }
                    return Err(e);
                },
            }
        }
        proof {
            lemma_nodes_wf_split(self@, offset_counter.value());
        }
        Ok(())
    }

    /// Each child that a written record names is in the files too: where
    /// the files agree with the tree, the record of a written node is read,
    /// and so is the record at every child slot of it that is not empty.
    pub proof fn lemma_published_children_are_readable(
        self,
        dim: Seq<u8>,
        data: BufferManagerFactory,
        i: int,
        s: int,
    )
        requires
            self.wf(),
            self.agrees(dim, data),
            0 <= i < self@.len(),
            self@[i].is_serialized,
            0 <= s < FANOUT,
        ensures
            read_at(dim, data, self.parts(), i * NODE_SIZE) is Ok,
            read_at(dim, data, self.parts(), i * NODE_SIZE).unwrap().children[s] != 0 ==> read_at(
                dim,
                data,
                self.parts(),
                read_at(dim, data, self.parts(), i * NODE_SIZE).unwrap().children[s] as int,
            ) is Ok,
    {
        let nodes = self@;
        let next_offset = 0xFFFF_FFFFu32;
        assert(stored(nodes, self.parts(), i, dim, data));
        lemma_stored_is_readable(nodes, next_offset, self.parts(), dim, data, i);
        assert(nodes[i].file_offset.0 == i * NODE_SIZE);
        let found = children_at(dim, i * NODE_SIZE + CHILDREN_OFFSET)[s];
        assert(published_ok(nodes, i, s, found));
        if found != 0 {
            let j = found as int / (NODE_SIZE as int);
            assert(names_later_node(nodes.len() as int, i, nodes[i].children@[s]));
            assert(stored(nodes, self.parts(), j, dim, data));
            lemma_stored_is_readable(nodes, next_offset, self.parts(), dim, data, j);
        }
    }
}

} // verus!
