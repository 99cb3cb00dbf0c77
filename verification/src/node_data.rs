//! The posting map of a node and its chunked form in the index files.
//!
//! A map is a list of entries `(quotient, page pool head)` in the order in
//! which they were inserted.  In a file it is a chain of chunks.  A chunk is
//!
//! ```text
//! u16  len                                     entries from this chunk on
//! CHUNK x { u16 quotient, u32 page pool head } unused slots are zero
//! u32  next                                    offset of the next chunk, or 0
//! ```
//!
//! A chunk holds the first `min(len, CHUNK)` of the entries that it counts; if
//! `len > CHUNK`, the others follow in the chunk at `next`.  The first chunk
//! of a chain stands inside the node's record in the dim file, the others in
//! one data file, each at a higher offset than the one before.

use vstd::prelude::*;
use crate::buffered_io::{BufIoError, BufferManager, BufferManagerFactory, BufferState, MAX_FILE_LEN};
use crate::bytes::{overwrite, u16_at, u16_le_bytes, u32_at, u32_le_bytes};
use crate::types::{ByteRange, FileOffset, IndexError, OffsetCounter};

verus! {

/// How many entries a chunk has room for.  Readers and writers of one index
/// must agree on it: the files do not record it.
pub const INVERTED_INDEX_DATA_CHUNK_SIZE: usize = 8;

/// How many bytes a chunk takes: two for `len`, six for each slot, four for
/// `next`.
pub const DATA_CHUNK_BYTES: usize = 54;

/// How many entries a map can hold: the count must fit the `len` field.
pub const MAX_ENTRIES: usize = 0xFFFF;

/// Byte `j` of the six bytes of `entry`.
pub open spec fn slot_byte(entry: (u16, u32), j: int) -> u8 {
    if j < 2 {
        u16_le_bytes(entry.0)[j]
    } else {
        u32_le_bytes(entry.1)[j - 2]
    }
}

/// The bytes of a chunk that counts `len` entries, holds `entries` and
/// points to `next`.
pub open spec fn chunk_bytes(len: u16, entries: Seq<(u16, u32)>, next: u32) -> Seq<u8> {
    Seq::new(
        DATA_CHUNK_BYTES as nat,
        |i: int|
            if i < 2 {
                u16_le_bytes(len)[i]
            } else if i < 2 + 6 * INVERTED_INDEX_DATA_CHUNK_SIZE {
                if (i - 2) / 6 < entries.len() {
                    slot_byte(entries[(i - 2) / 6], (i - 2) % 6)
                } else {
                    0u8
                }
            } else {
                u32_le_bytes(next)[i - 2 - 6 * INVERTED_INDEX_DATA_CHUNK_SIZE]
            },
    )
}

/// The `len` field of the chunk at `base`.
pub open spec fn len_at(bytes: Seq<u8>, base: int) -> u16 {
    u16_at(bytes, base)
}

/// The entry in slot `k` of the chunk at `base`.
pub open spec fn entry_at(bytes: Seq<u8>, base: int, k: int) -> (u16, u32) {
    (u16_at(bytes, base + 2 + 6 * k), u32_at(bytes, base + 4 + 6 * k))
}

/// The entries in the first `n` slots of the chunk at `base`.
pub open spec fn entries_at(bytes: Seq<u8>, base: int, n: nat) -> Seq<(u16, u32)> {
    Seq::new(n, |k: int| entry_at(bytes, base, k))
}

/// The `next` field of the chunk at `base`.
pub open spec fn next_at(bytes: Seq<u8>, base: int) -> u32 {
    u32_at(bytes, base + 2 + 6 * INVERTED_INDEX_DATA_CHUNK_SIZE)
}

/// Where each field of a chunk stands in [`chunk_bytes`].
pub proof fn lemma_chunk_bytes_fields(len: u16, entries: Seq<(u16, u32)>, next: u32)
    ensures
        chunk_bytes(len, entries, next).len() == DATA_CHUNK_BYTES,
        forall|j: int| 0 <= j < 2 ==> chunk_bytes(len, entries, next)[j] == u16_le_bytes(len)[j],
        forall|k: int, j: int|
            0 <= k < entries.len() && k < INVERTED_INDEX_DATA_CHUNK_SIZE && 0 <= j < 6
                ==> #[trigger] chunk_bytes(len, entries, next)[2 + 6 * k + j] == slot_byte(
                entries[k],
                j,
            ),
        forall|j: int|
            0 <= j < 4 ==> #[trigger] chunk_bytes(
                len,
                entries,
                next,
            )[2 + 6 * INVERTED_INDEX_DATA_CHUNK_SIZE + j] == u32_le_bytes(next)[j],
{
    assert forall|k: int, j: int|
        0 <= k < entries.len() && k < INVERTED_INDEX_DATA_CHUNK_SIZE && 0 <= j < 6
            implies #[trigger] chunk_bytes(len, entries, next)[2 + 6 * k + j] == slot_byte(
        entries[k],
        j,
    ) by {
        assert((6 * k + j) / 6 == k && (6 * k + j) % 6 == j);
    }
}

/// Reading the fields of a chunk that stands at `base` gives what
/// [`chunk_bytes`] was made of.
pub proof fn lemma_chunk_round_trip(
    bytes: Seq<u8>,
    base: int,
    len: u16,
    entries: Seq<(u16, u32)>,
    next: u32,
)
    requires
        0 <= base,
        base + DATA_CHUNK_BYTES <= bytes.len(),
        entries.len() <= INVERTED_INDEX_DATA_CHUNK_SIZE,
        bytes.subrange(base, base + DATA_CHUNK_BYTES) == chunk_bytes(len, entries, next),
    ensures
        len_at(bytes, base) == len,
        entries_at(bytes, base, entries.len()) == entries,
        next_at(bytes, base) == next,
{
    let part = bytes.subrange(base, base + DATA_CHUNK_BYTES);
    let image = chunk_bytes(len, entries, next);
    lemma_chunk_bytes_fields(len, entries, next);
    assert(len_at(bytes, base) == len) by {
        assert(bytes[base] == part[0] && bytes[base + 1] == part[1]);
        crate::bytes::lemma_u16_at(bytes, base, len);
    }
    assert(next_at(bytes, base) == next) by {
        let at = 2 + 6 * INVERTED_INDEX_DATA_CHUNK_SIZE;
        assert(bytes[base + at] == part[at + 0] && bytes[base + at + 1] == part[at + 1]);
        assert(bytes[base + at + 2] == part[at + 2] && bytes[base + at + 3] == part[at + 3]);
        crate::bytes::lemma_u32_at(bytes, base + at, next);
    }
    assert forall|k: int| 0 <= k < entries.len() implies entry_at(bytes, base, k)
        == entries[k] by {
        let at = 2 + 6 * k;
        assert(bytes[base + at] == part[at + 0] && bytes[base + at + 1] == part[at + 1]);
        assert(bytes[base + at + 2] == part[at + 2] && bytes[base + at + 3] == part[at + 3]);
        assert(bytes[base + at + 4] == part[at + 4] && bytes[base + at + 5] == part[at + 5]);
        crate::bytes::lemma_u16_at(bytes, base + at, entries[k].0);
        crate::bytes::lemma_u32_at(bytes, base + at + 2, entries[k].1);
    }
    assert(entries_at(bytes, base, entries.len()) =~= entries);
}

/// Encodes a chunk that counts `len` entries, holds `entries[from .. to]`
/// and points to `next`.
pub fn encode_chunk(len: u16, entries: &Vec<(u16, u32)>, from: usize, to: usize, next: u32) -> (bytes:
    Vec<u8>)
    requires
        from <= to <= entries@.len(),
        to - from <= INVERTED_INDEX_DATA_CHUNK_SIZE,
    ensures
        bytes@ == chunk_bytes(len, entries@.subrange(from as int, to as int), next),
{
    let ghost held = entries@.subrange(from as int, to as int);
    let ghost image = chunk_bytes(len, held, next);
    let mut bytes: Vec<u8> = Vec::new();
    crate::bytes::push_u16_le(&mut bytes, len);
    let mut k: usize = 0;
    while k < INVERTED_INDEX_DATA_CHUNK_SIZE
        invariant
            k <= INVERTED_INDEX_DATA_CHUNK_SIZE,
            from <= to <= entries@.len(),
            held == entries@.subrange(from as int, to as int),
            image == chunk_bytes(len, held, next),
            bytes@.len() == 2 + 6 * k,
            forall|i: int| 0 <= i < 2 + 6 * k ==> bytes@[i] == image[i],
        decreases INVERTED_INDEX_DATA_CHUNK_SIZE - k,
    {
        let ghost before = bytes@;
        let entry: (u16, u32) = if k < to - from {
            entries[from + k]
        } else {
            (0u16, 0u32)
        };
        crate::bytes::push_u16_le(&mut bytes, entry.0);
        crate::bytes::push_u32_le(&mut bytes, entry.1);
        assert forall|i: int| 0 <= i < 2 + 6 * (k + 1) implies bytes@[i] == image[i] by {
            if i < 2 + 6 * k {
                assert(bytes@[i] == before[i]);
            } else {
                assert((i - 2) / 6 == k);
                assert(bytes@[i] == slot_byte(entry, i - 2 - 6 * k));
                if k < to - from {
                    assert(held[k as int] == entry);
                }
            }
        }
        k = k + 1;
    }
    let ghost before = bytes@;
    crate::bytes::push_u32_le(&mut bytes, next);
    assert forall|i: int| 0 <= i < DATA_CHUNK_BYTES implies bytes@[i] == image[i] by {
        if i < 2 + 6 * INVERTED_INDEX_DATA_CHUNK_SIZE {
            assert(bytes@[i] == before[i]);
        }
    }
    assert(bytes@ =~= image);
    bytes
}

/// Decodes the entries in the first `n` slots of the chunk at `base` and
/// appends them to `out`.
pub fn decode_entries(bytes: &[u8], base: usize, n: usize, out: &mut Vec<(u16, u32)>)
    requires
        n <= INVERTED_INDEX_DATA_CHUNK_SIZE,
        base + DATA_CHUNK_BYTES <= bytes@.len(),
    ensures
        final(out)@ == old(out)@ + entries_at(bytes@, base as int, n as nat),
{
    let total = bytes.len();
    let mut k: usize = 0;
    while k < n
        invariant
            k <= n <= INVERTED_INDEX_DATA_CHUNK_SIZE,
            total == bytes@.len(),
            base + DATA_CHUNK_BYTES <= bytes@.len(),
            out@ == old(out)@ + entries_at(bytes@, base as int, k as nat),
        decreases n - k,
    {
        let quotient = crate::bytes::read_u16_le(bytes, base + 2 + 6 * k);
        let head = crate::bytes::read_u32_le(bytes, base + 4 + 6 * k);
        out.push((quotient, head));
        k = k + 1;
        assert(out@ =~= old(out)@ + entries_at(bytes@, base as int, k as nat));
    }
}

/// How many chunks after the first a chain of `n` entries has.
pub open spec fn continuation_count(n: nat) -> nat {
    if n == 0 {
        0
    } else {
        ((n - 1) / (INVERTED_INDEX_DATA_CHUNK_SIZE as int)) as nat
    }
}

/// No quotient occurs twice in `entries`.
pub open spec fn distinct_quotients(entries: Seq<(u16, u32)>) -> bool {
    forall|i: int, j: int|
        0 <= i < j < entries.len() ==> (#[trigger] entries[i]).0 != (#[trigger] entries[j]).0
}

/// Each offset leaves room for a chunk below [`MAX_FILE_LEN`], none is 0, and
/// each chunk ends before the next begins.
pub open spec fn offsets_ascend(offsets: Seq<u32>) -> bool {
    &&& forall|i: int|
        0 <= i < offsets.len() ==> 1 <= #[trigger] offsets[i] && offsets[i] + DATA_CHUNK_BYTES
            <= MAX_FILE_LEN
    &&& forall|i: int, j: int|
        0 <= i < j < offsets.len() ==> #[trigger] offsets[i] + DATA_CHUNK_BYTES
            <= #[trigger] offsets[j]
}

/// The entries that stand in chunk `k` of the chain of `entries`; chunk 0
/// is the one inside the node's record.
pub open spec fn chunk_entries(entries: Seq<(u16, u32)>, k: int) -> Seq<(u16, u32)> {
    entries.subrange(
        INVERTED_INDEX_DATA_CHUNK_SIZE * k,
        if entries.len() <= INVERTED_INDEX_DATA_CHUNK_SIZE * (k + 1) {
            entries.len() as int
        } else {
            INVERTED_INDEX_DATA_CHUNK_SIZE * (k + 1)
        },
    )
}

/// The bytes of chunk `k` of the chain of `entries`, where `offsets[i]` is
/// the place of chunk `i + 1`.
pub open spec fn chunk_image(entries: Seq<(u16, u32)>, offsets: Seq<u32>, k: int) -> Seq<u8> {
    chunk_bytes(
        (entries.len() - INVERTED_INDEX_DATA_CHUNK_SIZE * k) as u16,
        chunk_entries(entries, k),
        if k < offsets.len() {
            offsets[k]
        } else {
            0u32
        },
    )
}

/// The data file `file` after the chunks `1 ..= upto` of the chain of
/// `entries` have been written at their offsets.
pub open spec fn with_continuations(
    file: Seq<u8>,
    entries: Seq<(u16, u32)>,
    offsets: Seq<u32>,
    upto: nat,
) -> Seq<u8>
    decreases upto,
{
    if upto == 0 {
        file
    } else {
        overwrite(
            with_continuations(file, entries, offsets, (upto - 1) as nat),
            offsets[upto - 1] as int,
            chunk_image(entries, offsets, upto as int),
        )
    }
}

/// What a chain of chunks holds: its entries, and the places of the chunks
/// after the first.
pub struct DataImage {
    pub entries: Seq<(u16, u32)>,
    pub offsets: Seq<u32>,
}

/// The image `rest` with `entries` and `offsets` put in front; an error
/// stays.
pub open spec fn prepend(
    entries: Seq<(u16, u32)>,
    offsets: Seq<u32>,
    rest: Result<DataImage, BufIoError>,
) -> Result<DataImage, BufIoError> {
    match rest {
        Ok(image) => Ok(
            DataImage { entries: entries + image.entries, offsets: offsets + image.offsets },
        ),
        Err(e) => Err(e),
    }
}

/// What is read from the data file `data` by following a chain from the
/// chunk at `at`, which must count `remaining` entries and must not begin
/// before `floor`.  A chunk that begins before `floor`, does not lie within
/// the file and below [`MAX_FILE_LEN`], or counts otherwise, breaks the
/// chain.
pub open spec fn parse_chain(data: Seq<u8>, at: u32, floor: int, remaining: nat) -> Result<
    DataImage,
    BufIoError,
>
    decreases remaining,
{
    if at < floor || at + DATA_CHUNK_BYTES > data.len() || at + DATA_CHUNK_BYTES > MAX_FILE_LEN
        || len_at(data, at as int) != remaining {
        Err(BufIoError::CorruptChain)
    } else if remaining <= INVERTED_INDEX_DATA_CHUNK_SIZE {
        Ok(DataImage { entries: entries_at(data, at as int, remaining), offsets: seq![at] })
    } else {
        prepend(
            entries_at(data, at as int, INVERTED_INDEX_DATA_CHUNK_SIZE as nat),
            seq![at],
            parse_chain(
                data,
                next_at(data, at as int),
                at + DATA_CHUNK_BYTES,
                (remaining - INVERTED_INDEX_DATA_CHUNK_SIZE) as nat,
            ),
        )
    }
}

/// What is read of a posting map whose first chunk stands at `at` in the dim
/// file `dim` and whose other chunks stand in the data file `data`.
pub open spec fn parse_data(dim: Seq<u8>, data: Seq<u8>, at: int) -> Result<DataImage, BufIoError> {
    if at + DATA_CHUNK_BYTES > dim.len() {
        Err(BufIoError::OutOfBounds)
    } else {
        let len = len_at(dim, at) as nat;
        let chain = if len <= INVERTED_INDEX_DATA_CHUNK_SIZE {
            Ok(DataImage { entries: entries_at(dim, at, len), offsets: Seq::empty() })
        } else {
            prepend(
                entries_at(dim, at, INVERTED_INDEX_DATA_CHUNK_SIZE as nat),
                Seq::empty(),
                parse_chain(
                    data,
                    next_at(dim, at),
                    1,
                    (len - INVERTED_INDEX_DATA_CHUNK_SIZE) as nat,
                ),
            )
        };
        match chain {
            Ok(image) => if distinct_quotients(image.entries) {
                Ok(image)
            } else {
                Err(BufIoError::CorruptChain)
            },
            Err(e) => Err(e),
        }
    }
}

/// Whether reading the map at `at` in `dim` follows a chain into the data
/// file.
pub open spec fn has_continuation(dim: Seq<u8>, at: int) -> bool {
    at + DATA_CHUNK_BYTES <= dim.len() && len_at(dim, at) > INVERTED_INDEX_DATA_CHUNK_SIZE
}

/// The fields of a chunk depend on its bytes alone: where two files hold the
/// same bytes at two places, the same fields are read at both.
pub proof fn lemma_same_chunk_same_fields(a: Seq<u8>, at_a: int, b: Seq<u8>, at_b: int)
    requires
        0 <= at_a,
        at_a + DATA_CHUNK_BYTES <= a.len(),
        0 <= at_b,
        at_b + DATA_CHUNK_BYTES <= b.len(),
        a.subrange(at_a, at_a + DATA_CHUNK_BYTES) == b.subrange(at_b, at_b + DATA_CHUNK_BYTES),
    ensures
        len_at(a, at_a) == len_at(b, at_b),
        next_at(a, at_a) == next_at(b, at_b),
        forall|n: nat|
            n <= INVERTED_INDEX_DATA_CHUNK_SIZE ==> #[trigger] entries_at(a, at_a, n)
                == entries_at(b, at_b, n),
{
    let part_a = a.subrange(at_a, at_a + DATA_CHUNK_BYTES);
    let part_b = b.subrange(at_b, at_b + DATA_CHUNK_BYTES);
    assert forall|i: int| 0 <= i < DATA_CHUNK_BYTES implies #[trigger] a[at_a + i] == b[at_b
        + i] by {
        assert(a[at_a + i] == part_a[i]);
        assert(b[at_b + i] == part_b[i]);
    }
    assert forall|n: nat| n <= INVERTED_INDEX_DATA_CHUNK_SIZE implies #[trigger] entries_at(
        a,
        at_a,
        n,
    ) == entries_at(b, at_b, n) by {
        assert forall|k: int| 0 <= k < n implies entry_at(a, at_a, k) == entry_at(b, at_b, k) by {
            let p = 2 + 6 * k;
            assert(a[at_a + (p + 0)] == b[at_b + (p + 0)]);
            assert(a[at_a + (p + 1)] == b[at_b + (p + 1)]);
            assert(a[at_a + (p + 2)] == b[at_b + (p + 2)]);
            assert(a[at_a + (p + 3)] == b[at_b + (p + 3)]);
            assert(a[at_a + (p + 4)] == b[at_b + (p + 4)]);
            assert(a[at_a + (p + 5)] == b[at_b + (p + 5)]);
        }
        assert(entries_at(a, at_a, n) =~= entries_at(b, at_b, n));
    }
    let q = 2 + 6 * INVERTED_INDEX_DATA_CHUNK_SIZE;
    assert(a[at_a + 0] == b[at_b + 0] && a[at_a + 1] == b[at_b + 1]);
    assert(a[at_a + (q + 0)] == b[at_b + (q + 0)] && a[at_a + (q + 1)] == b[at_b + (q + 1)]);
    assert(a[at_a + (q + 2)] == b[at_b + (q + 2)] && a[at_a + (q + 3)] == b[at_b + (q + 3)]);
}

/// The chunk fields read in a copy of the chunk are those read in the file.
pub proof fn lemma_fields_of_copy(file: Seq<u8>, at: int, copy: Seq<u8>)
    requires
        0 <= at,
        at + DATA_CHUNK_BYTES <= file.len(),
        copy == file.subrange(at, at + DATA_CHUNK_BYTES),
    ensures
        len_at(copy, 0) == len_at(file, at),
        next_at(copy, 0) == next_at(file, at),
        forall|n: nat|
            n <= INVERTED_INDEX_DATA_CHUNK_SIZE ==> #[trigger] entries_at(copy, 0, n)
                == entries_at(file, at, n),
{
    assert(copy.subrange(0, DATA_CHUNK_BYTES as int) =~= copy);
    lemma_same_chunk_same_fields(copy, 0, file, at);
}

/// What is read of a posting map depends on the dim file only through the
/// bytes of the first chunk.
pub proof fn lemma_parse_data_local(a: Seq<u8>, at_a: int, b: Seq<u8>, at_b: int, data: Seq<u8>)
    requires
        0 <= at_a,
        at_a + DATA_CHUNK_BYTES <= a.len(),
        0 <= at_b,
        at_b + DATA_CHUNK_BYTES <= b.len(),
        a.subrange(at_a, at_a + DATA_CHUNK_BYTES) == b.subrange(at_b, at_b + DATA_CHUNK_BYTES),
    ensures
        parse_data(a, data, at_a) == parse_data(b, data, at_b),
        has_continuation(a, at_a) == has_continuation(b, at_b),
{
    lemma_same_chunk_same_fields(a, at_a, b, at_b);
    let len = len_at(a, at_a) as nat;
    if len <= INVERTED_INDEX_DATA_CHUNK_SIZE {
        assert(entries_at(a, at_a, len) == entries_at(b, at_b, len));
    } else {
        assert(entries_at(a, at_a, INVERTED_INDEX_DATA_CHUNK_SIZE as nat) == entries_at(
            b,
            at_b,
            INVERTED_INDEX_DATA_CHUNK_SIZE as nat,
        ));
    }
}

/// Tells whether no quotient occurs twice in `entries`.
pub fn has_distinct_quotients(entries: &Vec<(u16, u32)>) -> (distinct: bool)
    ensures
        distinct == distinct_quotients(entries@),
{
    let mut seen: Vec<bool> = Vec::new();
    let mut q: usize = 0;
    while q < 0x1_0000
        invariant
            q <= 0x1_0000,
            seen@.len() == q,
            forall|k: int| 0 <= k < q ==> !seen@[k],
        decreases 0x1_0000 - q,
    {
        seen.push(false);
        q = q + 1;
    }
    let ghost mut first_at: Seq<int> = Seq::new(0x1_0000, |k: int| 0int);
    let mut i: usize = 0;
    while i < entries.len()
        invariant
            i <= entries@.len(),
            seen@.len() == 0x1_0000,
            first_at.len() == 0x1_0000,
            forall|k: int|
                0 <= k < 0x1_0000 && seen@[k] ==> 0 <= #[trigger] first_at[k] < i
                    && entries@[first_at[k]].0 == k,
            forall|k: int| 0 <= k < i ==> seen@[(#[trigger] entries@[k]).0 as int],
            distinct_quotients(entries@.subrange(0, i as int)),
        decreases entries@.len() - i,
    {
        let quotient = entries[i].0 as usize;
        if seen[quotient] {
            proof {
                let earlier = first_at[quotient as int];
                assert(entries@[earlier].0 == entries@[i as int].0);
            }
            return false;
        }
        seen.set(quotient, true);
        proof {
            first_at = first_at.update(quotient as int, i as int);
            let before = entries@.subrange(0, i as int);
            let now = entries@.subrange(0, i + 1);
            assert forall|a: int, b: int| 0 <= a < b < now.len() implies (#[trigger] now[a]).0 != (
            #[trigger] now[b]).0 by {
                if b < i {
                    assert(before[a].0 != before[b].0);
                } else {
                    assert(now[a] == entries@[a]);
                }
            }
        }
        i = i + 1;
    }
    assert(entries@.subrange(0, i as int) =~= entries@);
    true
}

/// Follows a chain in the data file from the chunk at `first`, through the
/// open cursor `cursor`, and appends what it reads to `entries` and `chunks`.
fn read_chain(
    bufman: &mut BufferManager,
    cursor: u64,
    first: u32,
    remaining: usize,
    entries: &mut Vec<(u16, u32)>,
    chunks: &mut Vec<u32>,
) -> (r: Result<(), BufIoError>)
    requires
        old(bufman)@.is_open(cursor),
        1 <= remaining <= MAX_ENTRIES,
        old(chunks)@.len() == 0,
    ensures
        final(bufman)@.bytes == old(bufman)@.bytes,
        final(bufman)@.cursors.len() == old(bufman)@.cursors.len(),
        final(bufman)@.is_open(cursor),
        forall|i: int|
            0 <= i < old(bufman)@.cursors.len() && i != cursor ==> final(bufman)@.cursors[i]
                == old(bufman)@.cursors[i],
        match parse_chain(old(bufman)@.bytes, first, 1, remaining as nat) {
            Ok(image) => r is Ok && final(entries)@ == old(entries)@ + image.entries
                && final(chunks)@ == image.offsets,
            Err(e) => r == (Err::<(), BufIoError>(e)),
        },
        r is Ok ==> offsets_ascend(final(chunks)@) && final(chunks)@.len() == (remaining - 1)
            / (INVERTED_INDEX_DATA_CHUNK_SIZE as int) + 1 && final(entries)@.len()
                == old(entries)@.len() + remaining,
{
    let ghost file = bufman@.bytes;
    let ghost goal = parse_chain(file, first, 1, remaining as nat);
    let ghost mut read_entries: Seq<(u16, u32)> = Seq::empty();
    let mut at: u32 = first;
    let mut floor: u64 = 1;
    let mut rest: usize = remaining;
    loop
        invariant
            bufman@.bytes == file,
            file == old(bufman)@.bytes,
            bufman@.cursors.len() == old(bufman)@.cursors.len(),
            bufman@.is_open(cursor),
            forall|i: int|
                0 <= i < old(bufman)@.cursors.len() && i != cursor ==> bufman@.cursors[i]
                    == old(bufman)@.cursors[i],
            1 <= rest <= remaining <= MAX_ENTRIES,
            1 <= floor <= MAX_FILE_LEN + 1,
            entries@ == old(entries)@ + read_entries,
            read_entries.len() + rest == remaining,
            goal == parse_chain(file, first, 1, remaining as nat),
            goal == prepend(read_entries, chunks@, parse_chain(file, at, floor as int, rest as nat)),
            offsets_ascend(chunks@),
            forall|i: int| 0 <= i < chunks@.len() ==> chunks@[i] + DATA_CHUNK_BYTES <= floor,
            chunks@.len() + (rest - 1) / (INVERTED_INDEX_DATA_CHUNK_SIZE as int) + 1 == (remaining
                - 1) / (INVERTED_INDEX_DATA_CHUNK_SIZE as int) + 1,
        decreases rest,
    {
        if (at as u64) < floor || at as u64 + DATA_CHUNK_BYTES as u64 > MAX_FILE_LEN {
            return Err(BufIoError::CorruptChain);
        }
        let sought = bufman.seek_with_cursor(cursor, at as u64);
        assert(sought is Ok);
        let chunk = match bufman.read_with_cursor(cursor, DATA_CHUNK_BYTES) {
            Ok(chunk) => chunk,
            Err(_) => { return Err(BufIoError::CorruptChain); },
        };
        proof {
            lemma_fields_of_copy(file, at as int, chunk@);
        }
        let counted = crate::bytes::read_u16_le(chunk.as_slice(), 0);
        if counted as usize != rest {
            return Err(BufIoError::CorruptChain);
        }
        let ghost before_chunks = chunks@;
        chunks.push(at);
        proof {
            assert forall|a: int, b: int| 0 <= a < b < chunks@.len() implies #[trigger] chunks@[a]
                + DATA_CHUNK_BYTES <= #[trigger] chunks@[b] by {
                if b < before_chunks.len() {
                    assert(before_chunks[a] + DATA_CHUNK_BYTES <= before_chunks[b]);
                }
            }
        }
        if rest <= INVERTED_INDEX_DATA_CHUNK_SIZE {
            decode_entries(chunk.as_slice(), 0, rest, entries);
            proof {
                let last = entries_at(file, at as int, rest as nat);
                assert(entries@ =~= old(entries)@ + (read_entries + last));
                assert(before_chunks + seq![at] =~= chunks@);
            }
            return Ok(());
        }
        decode_entries(chunk.as_slice(), 0, INVERTED_INDEX_DATA_CHUNK_SIZE, entries);
        let next = crate::bytes::read_u32_le(chunk.as_slice(), 2 + 6 * INVERTED_INDEX_DATA_CHUNK_SIZE);
        proof {
            let held = entries_at(file, at as int, INVERTED_INDEX_DATA_CHUNK_SIZE as nat);
            let further = parse_chain(
                file,
                next,
                at + DATA_CHUNK_BYTES,
                (rest - INVERTED_INDEX_DATA_CHUNK_SIZE) as nat,
            );
            assert(parse_chain(file, at, floor as int, rest as nat) == prepend(
                held,
                seq![at],
                further,
            ));
            match further {
                Ok(image) => {
                    assert((read_entries + held) + image.entries =~= read_entries + (held
                        + image.entries));
                    assert((before_chunks + seq![at]) + image.offsets =~= before_chunks + (seq![at]
                        + image.offsets));
                },
                Err(_) => {},
            }
            assert(before_chunks + seq![at] =~= chunks@);
            assert(entries@ =~= old(entries)@ + (read_entries + held));
            read_entries = read_entries + held;
        }
        floor = at as u64 + DATA_CHUNK_BYTES as u64;
        at = next;
        rest = rest - INVERTED_INDEX_DATA_CHUNK_SIZE;
    }
}

/// Whether `a` and `b` hold the same bytes in `start .. start + n`.
pub open spec fn same_range(a: Seq<u8>, b: Seq<u8>, start: int, n: int) -> bool {
    forall|i: int| start <= i < start + n ==> a[i] == b[i]
}

/// Whether the bytes of the chunks at `offsets` are the same in `a` and `b`.
pub open spec fn same_chunks(a: Seq<u8>, b: Seq<u8>, offsets: Seq<u32>) -> bool {
    forall|k: int|
        0 <= k < offsets.len() ==> same_range(
            a,
            b,
            #[trigger] offsets[k] as int,
            DATA_CHUNK_BYTES as int,
        )
}

/// What is read along a chain depends on the data file only through the
/// bytes of the chain's chunks: a file that is no shorter and holds the same
/// bytes there reads the same.
pub proof fn lemma_parse_chain_local(
    a: Seq<u8>,
    b: Seq<u8>,
    at: u32,
    floor: int,
    remaining: nat,
)
    requires
        parse_chain(a, at, floor, remaining) is Ok,
        b.len() >= a.len(),
        same_chunks(a, b, parse_chain(a, at, floor, remaining).unwrap().offsets),
    ensures
        parse_chain(b, at, floor, remaining) == parse_chain(a, at, floor, remaining),
    decreases remaining,
{
    let image = parse_chain(a, at, floor, remaining).unwrap();
    assert(image.offsets[0] == at);
    assert(same_range(a, b, image.offsets[0] as int, DATA_CHUNK_BYTES as int));
    assert(a.subrange(at as int, at + DATA_CHUNK_BYTES) =~= b.subrange(
        at as int,
        at + DATA_CHUNK_BYTES,
    ));
    lemma_same_chunk_same_fields(a, at as int, b, at as int);
    if remaining <= INVERTED_INDEX_DATA_CHUNK_SIZE {
        assert(entries_at(a, at as int, remaining) == entries_at(b, at as int, remaining));
    } else {
        assert(entries_at(a, at as int, INVERTED_INDEX_DATA_CHUNK_SIZE as nat) == entries_at(
            b,
            at as int,
            INVERTED_INDEX_DATA_CHUNK_SIZE as nat,
        ));
        let next = next_at(a, at as int);
        let rest = (remaining - INVERTED_INDEX_DATA_CHUNK_SIZE) as nat;
        let further = parse_chain(a, next, at + DATA_CHUNK_BYTES, rest).unwrap();
        assert(image.offsets == seq![at] + further.offsets);
        assert forall|k: int| 0 <= k < further.offsets.len() implies same_range(
            a,
            b,
            #[trigger] further.offsets[k] as int,
            DATA_CHUNK_BYTES as int,
        ) by {
            assert(image.offsets[k + 1] == further.offsets[k]);
        }
        lemma_parse_chain_local(a, b, next, at + DATA_CHUNK_BYTES, rest);
    }
}

/// Every chunk of a chain that is read lies within the data file.
pub proof fn lemma_parsed_chain_within(data: Seq<u8>, at: u32, floor: int, remaining: nat)
    requires
        parse_chain(data, at, floor, remaining) is Ok,
    ensures
        forall|k: int|
            0 <= k < parse_chain(data, at, floor, remaining).unwrap().offsets.len()
                ==> #[trigger] parse_chain(data, at, floor, remaining).unwrap().offsets[k]
                + DATA_CHUNK_BYTES <= data.len(),
    decreases remaining,
{
    let image = parse_chain(data, at, floor, remaining).unwrap();
    if remaining > INVERTED_INDEX_DATA_CHUNK_SIZE {
        let next = next_at(data, at as int);
        let rest = (remaining - INVERTED_INDEX_DATA_CHUNK_SIZE) as nat;
        lemma_parsed_chain_within(data, next, at + DATA_CHUNK_BYTES, rest);
        let further = parse_chain(data, next, at + DATA_CHUNK_BYTES, rest).unwrap();
        assert(image.offsets == seq![at] + further.offsets);
        assert forall|k: int| 0 <= k < image.offsets.len() implies #[trigger] image.offsets[k]
            + DATA_CHUNK_BYTES <= data.len() by {
            if k > 0 {
                assert(image.offsets[k] == further.offsets[k - 1]);
            }
        }
    }
}

/// Every chunk of a posting map that is read lies within the data file.
pub proof fn lemma_parsed_data_within(dim: Seq<u8>, data: Seq<u8>, at: int)
    requires
        parse_data(dim, data, at) is Ok,
    ensures
        forall|k: int|
            0 <= k < parse_data(dim, data, at).unwrap().offsets.len() ==> #[trigger] parse_data(
                dim,
                data,
                at,
            ).unwrap().offsets[k] + DATA_CHUNK_BYTES <= data.len(),
{
    let len = len_at(dim, at) as nat;
    if len > INVERTED_INDEX_DATA_CHUNK_SIZE {
        let rest = (len - INVERTED_INDEX_DATA_CHUNK_SIZE) as nat;
        let chain = parse_chain(data, next_at(dim, at), 1, rest);
        lemma_parsed_chain_within(data, next_at(dim, at), 1, rest);
        assert(Seq::<u32>::empty() + chain.unwrap().offsets =~= chain.unwrap().offsets);
    }
}

/// What is read of a posting map depends on the files only through the
/// bytes of its chunks.
pub proof fn lemma_parse_data_frame(
    dim_a: Seq<u8>,
    data_a: Seq<u8>,
    dim_b: Seq<u8>,
    data_b: Seq<u8>,
    at: int,
)
    requires
        0 <= at,
        parse_data(dim_a, data_a, at) is Ok,
        at + DATA_CHUNK_BYTES <= dim_b.len(),
        dim_a.subrange(at, at + DATA_CHUNK_BYTES) == dim_b.subrange(at, at + DATA_CHUNK_BYTES),
        data_b.len() >= data_a.len(),
        same_chunks(data_a, data_b, parse_data(dim_a, data_a, at).unwrap().offsets),
    ensures
        parse_data(dim_b, data_b, at) == parse_data(dim_a, data_a, at),
{
    lemma_parse_data_local(dim_a, at, dim_b, at, data_a);
    let len = len_at(dim_a, at) as nat;
    if len > INVERTED_INDEX_DATA_CHUNK_SIZE {
        let rest = (len - INVERTED_INDEX_DATA_CHUNK_SIZE) as nat;
        let chain = parse_chain(data_a, next_at(dim_a, at), 1, rest);
        assert(chain is Ok);
        assert(Seq::<u32>::empty() + chain.unwrap().offsets =~= chain.unwrap().offsets);
        lemma_parse_chain_local(data_a, data_b, next_at(dim_a, at), 1, rest);
        assert(parse_data(dim_b, data_a, at) == parse_data(dim_a, data_a, at));
        lemma_same_chunk_same_fields(dim_a, at, dim_b, at);
    }
}

/// Follows a chain in the data file from the chunk at `first`, through a
/// cursor of its own, which it closes again.
fn read_continuations(
    bufman: &mut BufferManager,
    first: u32,
    remaining: usize,
    entries: &mut Vec<(u16, u32)>,
    chunks: &mut Vec<u32>,
) -> (r: Result<(), BufIoError>)
    requires
        1 <= remaining <= MAX_ENTRIES,
        old(chunks)@.len() == 0,
    ensures
        final(bufman)@.bytes == old(bufman)@.bytes,
        final(bufman)@.cursors == old(bufman)@.cursors.push(None),
        match parse_chain(old(bufman)@.bytes, first, 1, remaining as nat) {
            Ok(image) => r is Ok && final(entries)@ == old(entries)@ + image.entries
                && final(chunks)@ == image.offsets,
            Err(e) => r == (Err::<(), BufIoError>(e)),
        },
        r is Ok ==> offsets_ascend(final(chunks)@) && final(chunks)@.len() == (remaining - 1)
            / (INVERTED_INDEX_DATA_CHUNK_SIZE as int) + 1 && final(entries)@.len()
                == old(entries)@.len() + remaining,
{
    let cursor = bufman.open_cursor();
    let r = read_chain(bufman, cursor, first, remaining, entries, chunks);
    let closed = bufman.close_cursor(cursor);
    assert(closed is Ok);
    assert(bufman@.cursors =~= old(bufman)@.cursors.push(None));
    r
}

/// Whether chunk `k` of the chain of `entries`, a chunk after the first,
/// stands at its place in the data file `data`.
pub open spec fn chunk_stands(
    data: Seq<u8>,
    entries: Seq<(u16, u32)>,
    offsets: Seq<u32>,
    k: int,
) -> bool {
    &&& offsets[k - 1] + DATA_CHUNK_BYTES <= data.len()
    &&& data.subrange(offsets[k - 1] as int, offsets[k - 1] + DATA_CHUNK_BYTES) == chunk_image(
        entries,
        offsets,
        k,
    )
}

/// Each chunk after the first stands in the data file where
/// [`with_continuations`] wrote it: a later chunk lies beyond it.
pub proof fn lemma_continuation_stands(
    file: Seq<u8>,
    entries: Seq<(u16, u32)>,
    offsets: Seq<u32>,
    upto: nat,
    k: int,
)
    requires
        offsets_ascend(offsets),
        1 <= k <= upto <= offsets.len(),
    ensures
        chunk_stands(with_continuations(file, entries, offsets, upto), entries, offsets, k),
    decreases upto,
{
    let before = with_continuations(file, entries, offsets, (upto - 1) as nat);
    let after = with_continuations(file, entries, offsets, upto);
    let image = chunk_image(entries, offsets, upto as int);
    let place = offsets[upto - 1] as int;
    assert(after == overwrite(before, place, image));
    if k == upto {
        crate::bytes::lemma_overwrite_reads_back(before, place, image);
    } else {
        lemma_continuation_stands(file, entries, offsets, (upto - 1) as nat, k);
        let at = offsets[k - 1] as int;
        assert(at + DATA_CHUNK_BYTES <= place);
        assert(after.subrange(at, at + DATA_CHUNK_BYTES) =~= before.subrange(
            at,
            at + DATA_CHUNK_BYTES,
        ));
    }
}

/// Writing the chunks leaves the data file as it was outside their places,
/// and no shorter.
pub proof fn lemma_continuations_keep_others(
    file: Seq<u8>,
    entries: Seq<(u16, u32)>,
    offsets: Seq<u32>,
    upto: nat,
    i: int,
)
    requires
        upto <= offsets.len(),
        0 <= i < file.len(),
        forall|k: int|
            0 <= k < upto ==> i < #[trigger] offsets[k] || i >= offsets[k] + DATA_CHUNK_BYTES,
    ensures
        with_continuations(file, entries, offsets, upto).len() >= file.len(),
        with_continuations(file, entries, offsets, upto)[i] == file[i],
    decreases upto,
{
    if upto > 0 {
        lemma_continuations_keep_others(file, entries, offsets, (upto - 1) as nat, i);
        assert(i < offsets[upto - 1] || i >= offsets[upto - 1] + DATA_CHUNK_BYTES);
    }
}

/// Writing chunks makes a data file no shorter.
pub proof fn lemma_continuations_no_shorter(
    file: Seq<u8>,
    entries: Seq<(u16, u32)>,
    offsets: Seq<u32>,
    upto: nat,
)
    requires
        upto <= offsets.len(),
    ensures
        with_continuations(file, entries, offsets, upto).len() >= file.len(),
    decreases upto,
{
    if upto > 0 {
        lemma_continuations_no_shorter(file, entries, offsets, (upto - 1) as nat);
    }
}

/// Following the chain from chunk `k` on in a data file that holds every
/// chunk at its place reads the entries from chunk `k` on.
pub proof fn lemma_chain_round_trip(
    data: Seq<u8>,
    entries: Seq<(u16, u32)>,
    offsets: Seq<u32>,
    k: int,
)
    requires
        entries.len() <= MAX_ENTRIES,
        offsets_ascend(offsets),
        offsets.len() == continuation_count(entries.len()),
        1 <= k <= offsets.len(),
        forall|j: int| 1 <= j <= offsets.len() ==> #[trigger] chunk_stands(data, entries, offsets, j),
    ensures
        parse_chain(
            data,
            offsets[k - 1],
            if k == 1 {
                1
            } else {
                offsets[k - 2] + DATA_CHUNK_BYTES
            },
            (entries.len() - INVERTED_INDEX_DATA_CHUNK_SIZE * k) as nat,
        ) == (Ok::<DataImage, BufIoError>(
            DataImage {
                entries: entries.subrange(
                    INVERTED_INDEX_DATA_CHUNK_SIZE * k,
                    entries.len() as int,
                ),
                offsets: offsets.subrange(k - 1, offsets.len() as int),
            },
        )),
    decreases offsets.len() - k,
{
    let n = entries.len() as int;
    let at = offsets[k - 1];
    let remaining = (n - INVERTED_INDEX_DATA_CHUNK_SIZE * k) as nat;
    let held = chunk_entries(entries, k);
    let next = if k < offsets.len() {
        offsets[k]
    } else {
        0u32
    };
    assert(chunk_stands(data, entries, offsets, k));
    lemma_chunk_round_trip(data, at as int, remaining as u16, held, next);
    if k < offsets.len() {
        lemma_chain_round_trip(data, entries, offsets, k + 1);
        assert(held + entries.subrange(INVERTED_INDEX_DATA_CHUNK_SIZE * (k + 1), n)
            =~= entries.subrange(INVERTED_INDEX_DATA_CHUNK_SIZE * k, n));
        assert(seq![at] + offsets.subrange(k, offsets.len() as int) =~= offsets.subrange(
            k - 1,
            offsets.len() as int,
        ));
    } else {
        assert(held =~= entries.subrange(INVERTED_INDEX_DATA_CHUNK_SIZE * k, n));
        assert(seq![at] =~= offsets.subrange(k - 1, offsets.len() as int));
    }
}

/// Reading a posting map back from the files it was written to gives the
/// same entries in the same order, and the places of its chunks.
pub proof fn lemma_data_round_trip(
    dim: Seq<u8>,
    data: Seq<u8>,
    at: int,
    entries: Seq<(u16, u32)>,
    offsets: Seq<u32>,
)
    requires
        0 <= at,
        entries.len() <= MAX_ENTRIES,
        distinct_quotients(entries),
        offsets_ascend(offsets),
        offsets.len() == continuation_count(entries.len()),
    ensures
        parse_data(
            overwrite(dim, at, chunk_image(entries, offsets, 0)),
            with_continuations(data, entries, offsets, offsets.len()),
            at,
        ) == (Ok::<DataImage, BufIoError>(DataImage { entries, offsets })),
{
    let n = entries.len() as int;
    let first = chunk_image(entries, offsets, 0);
    let dim_after = overwrite(dim, at, first);
    let data_after = with_continuations(data, entries, offsets, offsets.len());
    let held = chunk_entries(entries, 0);
    let next = if 0 < offsets.len() {
        offsets[0]
    } else {
        0u32
    };
    crate::bytes::lemma_overwrite_reads_back(dim, at, first);
    lemma_chunk_round_trip(dim_after, at, n as u16, held, next);
    if n <= INVERTED_INDEX_DATA_CHUNK_SIZE {
        assert(held =~= entries);
        assert(offsets =~= Seq::<u32>::empty());
    } else {
        assert forall|j: int| 1 <= j <= offsets.len() implies #[trigger] chunk_stands(
            data_after,
            entries,
            offsets,
            j,
        ) by {
            lemma_continuation_stands(data, entries, offsets, offsets.len(), j);
        }
        lemma_chain_round_trip(data_after, entries, offsets, 1);
        assert(held + entries.subrange(INVERTED_INDEX_DATA_CHUNK_SIZE as int, n) =~= entries);
        assert(Seq::<u32>::empty() + offsets.subrange(0, offsets.len() as int) =~= offsets);
    }
}

/// The first place from `from` on at which `entries` holds `quotient`.
pub open spec fn first_place(entries: Seq<(u16, u32)>, quotient: u16, from: int) -> Option<int>
    decreases entries.len() - from,
{
    if from < 0 || from >= entries.len() {
        None
    } else if entries[from].0 == quotient {
        Some(from)
    } else {
        first_place(entries, quotient, from + 1)
    }
}

/// The page pool head that `entries` gives for `quotient`.
pub open spec fn head_of(entries: Seq<(u16, u32)>, quotient: u16) -> Option<FileOffset> {
    match first_place(entries, quotient, 0) {
        Some(i) => Some(FileOffset(entries[i].1)),
        None => None,
    }
}

/// What [`first_place`] finds is a place of the quotient, the first one from
/// `from` on; it finds none only where there is none.
pub proof fn lemma_first_place(entries: Seq<(u16, u32)>, quotient: u16, from: int)
    requires
        0 <= from,
    ensures
        first_place(entries, quotient, from) matches Some(i) ==> from <= i < entries.len()
            && entries[i].0 == quotient && forall|k: int|
            from <= k < i ==> entries[k].0 != quotient,
        first_place(entries, quotient, from) is None ==> forall|k: int|
            from <= k < entries.len() ==> entries[k].0 != quotient,
    decreases entries.len() - from,
{
    if from < entries.len() && entries[from].0 != quotient {
        lemma_first_place(entries, quotient, from + 1);
    }
}

/// [`head_of`] finds the head of the first entry with the quotient.
pub proof fn lemma_head_of(entries: Seq<(u16, u32)>, quotient: u16)
    ensures
        head_of(entries, quotient) matches Some(head) ==> exists|i: int|
            0 <= i < entries.len() && entries[i] == (quotient, head.0),
        head_of(entries, quotient) is None <==> forall|i: int|
            0 <= i < entries.len() ==> entries[i].0 != quotient,
{
    lemma_first_place(entries, quotient, 0);
    if let Some(i) = first_place(entries, quotient, 0) {
        assert(entries[i] == (quotient, entries[i].1));
    }
}

/// The posting map of one node: for each quotient, the offset of the head of
/// its page pool.  Entries keep the order in which they were inserted.
pub struct InvertedIndexIDFNodeData {
    entries: Vec<(u16, u32)>,
    chunks: Vec<u32>,
}

impl View for InvertedIndexIDFNodeData {
    type V = Seq<(u16, u32)>;

    closed spec fn view(&self) -> Seq<(u16, u32)> {
        self.entries@
    }
}

impl InvertedIndexIDFNodeData {
    /// Where the chunks after the first stand in the data file, as far as
    /// they have been allocated.
    pub closed spec fn chunk_offsets(&self) -> Seq<u32> {
        self.chunks@
    }

    /// The map fits the `len` field, holds no quotient twice, and has no
    /// more chunks allocated than its entries need.
    pub open spec fn wf(&self) -> bool {
        &&& self@.len() <= MAX_ENTRIES
        &&& distinct_quotients(self@)
        &&& offsets_ascend(self.chunk_offsets())
        &&& self.chunk_offsets().len() <= continuation_count(self@.len())
    }

    /// An empty map.
    pub fn new() -> (data: InvertedIndexIDFNodeData)
        ensures
            data.wf(),
            data@ == Seq::<(u16, u32)>::empty(),
            data.chunk_offsets() == Seq::<u32>::empty(),
    {
        InvertedIndexIDFNodeData { entries: Vec::new(), chunks: Vec::new() }
    }

    /// How many entries the map holds.
    pub fn len(&self) -> (n: usize)
        ensures
            n == self@.len(),
    {
        self.entries.len()
    }

    /// The entry at place `i` in insertion order.
    pub fn entry(&self, i: usize) -> (entry: (u16, FileOffset))
        requires
            i < self@.len(),
        ensures
            entry.0 == self@[i as int].0,
            entry.1 == FileOffset(self@[i as int].1),
    {
        let (quotient, head) = self.entries[i];
        (quotient, FileOffset(head))
    }

    /// The first place of `quotient` in the map, if it is there.
    fn position(&self, quotient: u16) -> (place: Option<usize>)
        ensures
            place is Some <==> first_place(self@, quotient, 0) is Some,
            place matches Some(i) ==> first_place(self@, quotient, 0) == Some(i as int) && i
                < self@.len(),
    {
        let mut i: usize = 0;
        while i < self.entries.len()
            invariant
                i <= self.entries@.len(),
                first_place(self@, quotient, 0) == first_place(self@, quotient, i as int),
            decreases self.entries@.len() - i,
        {
            if self.entries[i].0 == quotient {
                return Some(i);
            }
            i = i + 1;
        }
        None
    }

    /// The page pool head of `quotient`, if the map holds it.
    pub fn get(&self, quotient: u16) -> (head: Option<FileOffset>)
        ensures
            head == head_of(self@, quotient),
    {
        proof {
            lemma_head_of(self@, quotient);
        }
        match self.position(quotient) {
            Some(i) => Some(FileOffset(self.entries[i].1)),
            None => None,
        }
    }

    /// Appends the entry `(quotient, head)`.  A quotient that the map holds
    /// is refused, and so is any entry once the map is full.
    pub fn insert(&mut self, quotient: u16, head: FileOffset) -> (r: Result<(), IndexError>)
        requires
            old(self).wf(),
        ensures
            final(self).wf(),
            final(self).chunk_offsets() == old(self).chunk_offsets(),
            r is Ok <==> old(self)@.len() < MAX_ENTRIES && forall|i: int|
                0 <= i < old(self)@.len() ==> old(self)@[i].0 != quotient,
            r is Ok ==> final(self)@ == old(self)@.push((quotient, head.0)),
            r is Err ==> final(self)@ == old(self)@,
            r matches Err(e) ==> e == if exists|i: int|
                0 <= i < old(self)@.len() && old(self)@[i].0 == quotient {
                IndexError::DuplicateQuotient
            } else {
                IndexError::CapacityExceeded
            },
    {
        proof {
            lemma_first_place(self@, quotient, 0);
        }
        if self.position(quotient).is_some() {
            return Err(IndexError::DuplicateQuotient);
        }
        if self.entries.len() >= MAX_ENTRIES {
            return Err(IndexError::CapacityExceeded);
        }
        self.entries.push((quotient, head.0));
        Ok(())
    }

    /// How many chunks the map needs that have no place in the data file yet.
    pub open spec fn missing_chunks(&self) -> nat {
        (continuation_count(self@.len()) - self.chunk_offsets().len()) as nat
    }

    /// Whether an allocator that stands at `next_offset` can give the map the
    /// chunks it is missing: they must fit below [`MAX_FILE_LEN`] and lie
    /// after the chunks that the map has.
    pub open spec fn can_allocate(&self, next_offset: u32) -> bool {
        self.missing_chunks() == 0 || {
            &&& next_offset + self.missing_chunks() * DATA_CHUNK_BYTES <= MAX_FILE_LEN
            &&& self.chunk_offsets().len() > 0 ==> self.chunk_offsets().last() + DATA_CHUNK_BYTES
                <= next_offset
        }
    }

    /// The ranges that an allocator at `next_offset` hands out for the
    /// missing chunks.
    pub open spec fn ranges_after(&self, next_offset: u32) -> Seq<ByteRange> {
        Seq::new(
            self.missing_chunks(),
            |j: int|
                ByteRange {
                    start: next_offset + j * DATA_CHUNK_BYTES,
                    size: DATA_CHUNK_BYTES as int,
                },
        )
    }

    /// The chunk offsets once an allocator at `next_offset` has supplied the
    /// missing ones.
    pub open spec fn offsets_after(&self, next_offset: u32) -> Seq<u32> {
        self.chunk_offsets() + Seq::new(
            self.missing_chunks(),
            |j: int| (next_offset + j * DATA_CHUNK_BYTES) as u32,
        )
    }

    /// The offsets that an allocator supplies keep the chunks apart and in
    /// order, and there are as many as the entries need.
    pub proof fn lemma_offsets_after(self, next_offset: u32)
        requires
            self.wf(),
            self.can_allocate(next_offset),
            next_offset >= 1,
        ensures
            offsets_ascend(self.offsets_after(next_offset)),
            self.offsets_after(next_offset).len() == continuation_count(self@.len()),
    {
        let have = self.chunk_offsets().len() as int;
        let old_offsets = self.chunk_offsets();
        let offsets = self.offsets_after(next_offset);
        assert forall|a: int| 0 <= a < offsets.len() implies 1 <= #[trigger] offsets[a]
            && offsets[a] + DATA_CHUNK_BYTES <= MAX_FILE_LEN by {
            if a < have {
                assert(offsets[a] == old_offsets[a]);
            }
        }
        assert forall|a: int, b: int| 0 <= a < b < offsets.len() implies #[trigger] offsets[a]
            + DATA_CHUNK_BYTES <= #[trigger] offsets[b] by {
            if b < have {
                assert(old_offsets[a] + DATA_CHUNK_BYTES <= old_offsets[b]);
            } else if a < have {
                assert(a == have - 1 || old_offsets[a] + DATA_CHUNK_BYTES <= old_offsets[have
                    - 1]);
            }
        }
    }

    /// Reserves a place in the data file for each chunk that has none.
    /// Reserves nothing where not all of them can be had.
    pub fn allocate_chunks(&mut self, offset_counter: &mut OffsetCounter) -> (r: Result<
        (),
        BufIoError,
    >)
        requires
            old(self).wf(),
            old(offset_counter).wf(),
        ensures
            final(self).wf(),
            final(offset_counter).wf(),
            final(self)@ == old(self)@,
            r is Ok <==> old(self).can_allocate(old(offset_counter).value()),
            r is Ok ==> {
                &&& final(self).chunk_offsets() == old(self).offsets_after(
                    old(offset_counter).value(),
                )
                &&& final(self).chunk_offsets().len() == continuation_count(old(self)@.len())
                &&& final(offset_counter).value() == old(offset_counter).value()
                    + old(self).missing_chunks() * DATA_CHUNK_BYTES
                &&& final(offset_counter).granted() == old(offset_counter).granted()
                    + old(self).ranges_after(old(offset_counter).value())
            },
            r matches Err(e) ==> {
                &&& e == BufIoError::Io
                &&& final(self).chunk_offsets() == old(self).chunk_offsets()
                &&& final(offset_counter).value() == old(offset_counter).value()
                &&& final(offset_counter).granted() == old(offset_counter).granted()
            },
    {
        let n = self.entries.len();
        let total: usize = if n == 0 {
            0
        } else {
            (n - 1) / INVERTED_INDEX_DATA_CHUNK_SIZE
        };
        let have = self.chunks.len();
        let value = offset_counter.load();
        if have >= total {
            assert(self.chunks@ =~= old(self).offsets_after(value));
            assert(offset_counter.granted() =~= old(offset_counter).granted()
                + old(self).ranges_after(value));
            return Ok(());
        }
        let missing = total - have;
        if value as u64 + (missing as u64) * (DATA_CHUNK_BYTES as u64) > MAX_FILE_LEN {
            return Err(BufIoError::Io);
        }
        if have > 0 && self.chunks[have - 1] as u64 + DATA_CHUNK_BYTES as u64 > value as u64 {
            return Err(BufIoError::Io);
        }
        let mut j: usize = 0;
        while j < missing
            invariant
                j <= missing,
                missing == old(self).missing_chunks(),
                have == old(self).chunks@.len(),
                total == have + missing,
                total == continuation_count(old(self)@.len()),
                self.entries@ == old(self).entries@,
                old(self).wf(),
                offset_counter.wf(),
                value == old(offset_counter).value(),
                offset_counter.value() == value + j * DATA_CHUNK_BYTES,
                value + missing * DATA_CHUNK_BYTES <= MAX_FILE_LEN,
                j > 0 ==> value >= 1,
                have > 0 ==> old(self).chunks@[have - 1] + DATA_CHUNK_BYTES <= value,
                self.chunks@.len() == have + j,
                forall|i: int| 0 <= i < have ==> self.chunks@[i] == old(self).chunks@[i],
                forall|i: int|
                    have <= i < have + j ==> self.chunks@[i] == value + (i - have)
                        * DATA_CHUNK_BYTES,
                offset_counter.granted().len() == old(offset_counter).granted().len() + j,
                forall|i: int|
                    0 <= i < old(offset_counter).granted().len() ==> offset_counter.granted()[i]
                        == old(offset_counter).granted()[i],
                forall|i: int|
                    old(offset_counter).granted().len() <= i < old(offset_counter).granted().len()
                        + j ==> offset_counter.granted()[i] == (ByteRange {
                        start: value + (i - old(offset_counter).granted().len())
                            * DATA_CHUNK_BYTES,
                        size: DATA_CHUNK_BYTES as int,
                    }),
            decreases missing - j,
        {
            match offset_counter.fetch_add(DATA_CHUNK_BYTES as u32) {
                Ok(offset) => {
                    self.chunks.push(offset);
                },
                Err(e) => {
                    assert(false);
                    return Err(e);
                },
            }
            j = j + 1;
        }
        proof {
            assert(self.chunks@ =~= old(self).offsets_after(value));
            assert(offset_counter.granted() =~= old(offset_counter).granted()
                + old(self).ranges_after(value));
            assert(offsets_ascend(self.chunks@)) by {
                assert forall|a: int| 0 <= a < self.chunks@.len() implies 1
                    <= #[trigger] self.chunks@[a] && self.chunks@[a] + DATA_CHUNK_BYTES
                    <= MAX_FILE_LEN by {
                    if a < have {
                        assert(1 <= old(self).chunks@[a]);
                    }
                }
                assert forall|a: int, b: int| 0 <= a < b < self.chunks@.len() implies self.chunks@[a]
                    + DATA_CHUNK_BYTES <= self.chunks@[b] by {
                    if b < have {
                        assert(old(self).chunks@[a] + DATA_CHUNK_BYTES <= old(self).chunks@[b]);
                    } else if a < have {
                        assert(a == have - 1 || old(self).chunks@[a] + DATA_CHUNK_BYTES
                            <= old(self).chunks@[have - 1]);
                    }
                }
            }
        }
        Ok(())
    }

    /// Writes the chunks after the first at their places in the data file,
    /// through a cursor of its own, which it closes again.
    fn write_continuations(&self, bufman: &mut BufferManager)
        requires
            self.wf(),
            self.chunk_offsets().len() == continuation_count(self@.len()),
        ensures
            final(bufman)@.bytes == with_continuations(
                old(bufman)@.bytes,
                self@,
                self.chunk_offsets(),
                self.chunk_offsets().len(),
            ),
            final(bufman)@.cursors == old(bufman)@.cursors.push(None),
    {
        let cursor = bufman.open_cursor();
        let n = self.entries.len();
        let total = self.chunks.len();
        let mut k: usize = 1;
        while k <= total
            invariant
                1 <= k <= total + 1,
                n == self.entries@.len(),
                total == self.chunks@.len(),
                self.wf(),
                self.chunk_offsets().len() == continuation_count(self@.len()),
                cursor == old(bufman)@.cursors.len(),
                bufman@.cursors.len() == old(bufman)@.cursors.len() + 1,
                bufman@.is_open(cursor),
                forall|i: int|
                    0 <= i < old(bufman)@.cursors.len() ==> bufman@.cursors[i]
                        == old(bufman)@.cursors[i],
                bufman@.bytes == with_continuations(
                    old(bufman)@.bytes,
                    self@,
                    self.chunk_offsets(),
                    (k - 1) as nat,
                ),
            decreases total + 1 - k,
        {
            let offset = self.chunks[k - 1];
            let sought = bufman.seek_with_cursor(cursor, offset as u64);
            assert(sought is Ok);
            let from = INVERTED_INDEX_DATA_CHUNK_SIZE * k;
            let to = if n - from <= INVERTED_INDEX_DATA_CHUNK_SIZE {
                n
            } else {
                from + INVERTED_INDEX_DATA_CHUNK_SIZE
            };
            let next = if k < total {
                self.chunks[k]
            } else {
                0
            };
            let bytes = encode_chunk((n - from) as u16, &self.entries, from, to, next);
            assert(bytes@ == chunk_image(self@, self.chunk_offsets(), k as int));
            let wrote = bufman.update_with_cursor(cursor, bytes.as_slice());
            assert(wrote is Ok);
            k = k + 1;
        }
        let closed = bufman.close_cursor(cursor);
        assert(closed is Ok);
        assert(bufman@.cursors =~= old(bufman)@.cursors.push(None));
    }

    /// Whether the map can be written at `cursor` of the dim file `dim`
    /// with an allocator that stands at `next_offset`.
    pub open spec fn can_serialize(&self, dim: BufferState, next_offset: u32, cursor: u64) -> bool {
        dim.can_write(cursor, DATA_CHUNK_BYTES as nat) && self.can_allocate(next_offset)
    }

    /// Writes the map: the first chunk at `cursor` in the dim file, the
    /// others in the data file of `data_file_idx`, each at its own place.
    /// Chunks that have no place yet get one from `offset_counter`.  Either
    /// all of this is done or, on an error, nothing.
    pub fn serialize(
        &mut self,
        dim_bufman: &mut BufferManager,
        data_bufmans: &mut BufferManagerFactory,
        offset_counter: &mut OffsetCounter,
        data_file_idx: u8,
        cursor: u64,
    ) -> (r: Result<(), BufIoError>)
        requires
            old(self).wf(),
            old(offset_counter).wf(),
        ensures
            final(self).wf(),
            final(offset_counter).wf(),
            final(self)@ == old(self)@,
            r is Ok <==> old(self).can_serialize(
                old(dim_bufman)@,
                old(offset_counter).value(),
                cursor,
            ),
            r is Ok ==> {
                &&& final(self).chunk_offsets() == old(self).offsets_after(
                    old(offset_counter).value(),
                )
                &&& final(self).chunk_offsets().len() == continuation_count(old(self)@.len())
                &&& final(offset_counter).value() == old(offset_counter).value()
                    + old(self).missing_chunks() * DATA_CHUNK_BYTES
                &&& final(offset_counter).granted() == old(offset_counter).granted()
                    + old(self).ranges_after(old(offset_counter).value())
                &&& final(dim_bufman)@ == old(dim_bufman)@.written(
                    cursor,
                    chunk_image(old(self)@, final(self).chunk_offsets(), 0),
                )
                &&& final(data_bufmans).file(data_file_idx).bytes == with_continuations(
                    old(data_bufmans).file(data_file_idx).bytes,
                    old(self)@,
                    final(self).chunk_offsets(),
                    final(self).chunk_offsets().len(),
                )
                &&& final(data_bufmans).file(data_file_idx).cursors
                    == if final(self).chunk_offsets().len() == 0 {
                    old(data_bufmans).file(data_file_idx).cursors
                } else {
                    old(data_bufmans).file(data_file_idx).cursors.push(None)
                }
                &&& parse_data(
                    final(dim_bufman)@.bytes,
                    final(data_bufmans).file(data_file_idx).bytes,
                    old(dim_bufman)@.position(cursor) as int,
                ) == (Ok::<DataImage, BufIoError>(
                    DataImage { entries: old(self)@, offsets: final(self).chunk_offsets() },
                ))
            },
            r matches Err(e) ==> {
                &&& e == old(dim_bufman)@.write_error(cursor)
                &&& final(self).chunk_offsets() == old(self).chunk_offsets()
                &&& final(offset_counter).value() == old(offset_counter).value()
                &&& final(offset_counter).granted() == old(offset_counter).granted()
                &&& final(dim_bufman)@ == old(dim_bufman)@
                &&& final(data_bufmans).file(data_file_idx) == old(data_bufmans).file(
                    data_file_idx,
                )
            },
            forall|other: u8|
                other != data_file_idx ==> final(data_bufmans).file(other)
                    == old(data_bufmans).file(other),
    {
        let pos = match dim_bufman.cursor_position(cursor) {
            Ok(pos) => pos,
            Err(e) => { return Err(e); },
        };
        if pos > MAX_FILE_LEN - DATA_CHUNK_BYTES as u64 {
            return Err(BufIoError::Io);
        }
        match self.allocate_chunks(offset_counter) {
            Ok(()) => {},
            Err(e) => { return Err(e); },
        }
        let n = self.entries.len();
        let to = if n <= INVERTED_INDEX_DATA_CHUNK_SIZE {
            n
        } else {
            INVERTED_INDEX_DATA_CHUNK_SIZE
        };
        let next = if self.chunks.len() > 0 {
            self.chunks[0]
        } else {
            0
        };
        let bytes = encode_chunk(n as u16, &self.entries, 0, to, next);
        assert(bytes@ == chunk_image(self@, self.chunk_offsets(), 0));
        let wrote = dim_bufman.update_with_cursor(cursor, bytes.as_slice());
        assert(wrote is Ok);
        if self.chunks.len() > 0 {
            self.write_continuations(data_bufmans.get(data_file_idx));
        }
        proof {
            lemma_data_round_trip(
                old(dim_bufman)@.bytes,
                old(data_bufmans).file(data_file_idx).bytes,
                pos as int,
                self@,
                self.chunk_offsets(),
            );
        }
        Ok(())
    }

    /// Reads the map whose first chunk stands at `at` in `record`, a copy of
    /// a part of the dim file, and whose other chunks stand in the data file
    /// of `data_file_idx`.  It follows the chain through a cursor of its own,
    /// which it closes again, and changes no byte.
    pub fn read_from_record(
        record: &[u8],
        at: usize,
        data_bufmans: &mut BufferManagerFactory,
        data_file_idx: u8,
    ) -> (r: Result<InvertedIndexIDFNodeData, BufIoError>)
        requires
            at + DATA_CHUNK_BYTES <= record@.len(),
        ensures
            forall|other: u8|
                other != data_file_idx ==> final(data_bufmans).file(other)
                    == old(data_bufmans).file(other),
            final(data_bufmans).file(data_file_idx).bytes == old(data_bufmans).file(
                data_file_idx,
            ).bytes,
            final(data_bufmans).file(data_file_idx).cursors == if has_continuation(
                record@,
                at as int,
            ) {
                old(data_bufmans).file(data_file_idx).cursors.push(None)
            } else {
                old(data_bufmans).file(data_file_idx).cursors
            },
            match parse_data(
                record@,
                old(data_bufmans).file(data_file_idx).bytes,
                at as int,
            ) {
                Ok(image) => r matches Ok(data) && data.wf() && data@ == image.entries
                    && data.chunk_offsets() == image.offsets && data.chunk_offsets().len()
                    == continuation_count(data@.len()),
                Err(e) => r matches Err(err) && err == e,
            },
    {
        let total = record.len();
        let len = crate::bytes::read_u16_le(record, at) as usize;
        let mut entries: Vec<(u16, u32)> = Vec::new();
        let mut chunks: Vec<u32> = Vec::new();
        if len <= INVERTED_INDEX_DATA_CHUNK_SIZE {
            decode_entries(record, at, len, &mut entries);
        } else {
            decode_entries(record, at, INVERTED_INDEX_DATA_CHUNK_SIZE, &mut entries);
            let next = crate::bytes::read_u32_le(
                record,
                at + 2 + 6 * INVERTED_INDEX_DATA_CHUNK_SIZE,
            );
            let followed = read_continuations(
                data_bufmans.get(data_file_idx),
                next,
                len - INVERTED_INDEX_DATA_CHUNK_SIZE,
                &mut entries,
                &mut chunks,
            );
            proof {
                assert(Seq::<u32>::empty() + chunks@ =~= chunks@);
            }
            match followed {
                Ok(()) => {},
                Err(e) => { return Err(e); },
            }
        }
        if !has_distinct_quotients(&entries) {
            return Err(BufIoError::CorruptChain);
        }
        Ok(InvertedIndexIDFNodeData { entries, chunks })
    }

    /// Reads the map whose first chunk stands at `file_offset` in the dim
    /// file and whose other chunks stand in the data file of
    /// `data_file_idx`.  It reads through cursors of its own, which it closes
    /// again, and changes no byte.
    pub fn deserialize(
        dim_bufman: &mut BufferManager,
        data_bufmans: &mut BufferManagerFactory,
        file_offset: u64,
        data_file_idx: u8,
    ) -> (r: Result<InvertedIndexIDFNodeData, BufIoError>)
        ensures
            final(dim_bufman)@.bytes == old(dim_bufman)@.bytes,
            final(dim_bufman)@.cursors == old(dim_bufman)@.cursors.push(None),
            forall|other: u8|
                other != data_file_idx ==> final(data_bufmans).file(other)
                    == old(data_bufmans).file(other),
            final(data_bufmans).file(data_file_idx).bytes == old(data_bufmans).file(
                data_file_idx,
            ).bytes,
            final(data_bufmans).file(data_file_idx).cursors == if has_continuation(
                old(dim_bufman)@.bytes,
                file_offset as int,
            ) {
                old(data_bufmans).file(data_file_idx).cursors.push(None)
            } else {
                old(data_bufmans).file(data_file_idx).cursors
            },
            match parse_data(
                old(dim_bufman)@.bytes,
                old(data_bufmans).file(data_file_idx).bytes,
                file_offset as int,
            ) {
                Ok(image) => r matches Ok(data) && data.wf() && data@ == image.entries
                    && data.chunk_offsets() == image.offsets && data.chunk_offsets().len()
                    == continuation_count(data@.len()),
                Err(e) => r matches Err(err) && err == e,
            },
    {
        let cursor = dim_bufman.open_cursor();
        let sought = dim_bufman.seek_with_cursor(cursor, file_offset);
        assert(sought is Ok);
        let read = dim_bufman.read_with_cursor(cursor, DATA_CHUNK_BYTES);
        let closed = dim_bufman.close_cursor(cursor);
        assert(closed is Ok);
        assert(dim_bufman@.cursors =~= old(dim_bufman)@.cursors.push(None));
        let first = match read {
            Ok(first) => first,
            Err(e) => { return Err(e); },
        };
        proof {
            assert(first@.subrange(0, DATA_CHUNK_BYTES as int) =~= first@);
            lemma_parse_data_local(
                first@,
                0,
                old(dim_bufman)@.bytes,
                file_offset as int,
                old(data_bufmans).file(data_file_idx).bytes,
            );
        }
        InvertedIndexIDFNodeData::read_from_record(
            first.as_slice(),
            0,
            data_bufmans,
            data_file_idx,
        )
    }
}

} // verus!
