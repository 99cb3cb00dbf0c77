//! The child slots of a node.

use vstd::prelude::*;
use crate::buffered_io::{BufIoError, BufferManager};
use crate::bytes::{u32_at, u32_le_bytes};
use crate::types::{FileOffset, IndexError};

verus! {

/// How many children a node has room for.
pub const FANOUT: usize = 16;

/// How many bytes the child slots take in a file.
pub const CHILDREN_BYTES: usize = 64;

/// The bytes of the child slots `slots`: each as a little-endian `u32`, in
/// the order of the slots.
pub open spec fn children_bytes(slots: Seq<u32>) -> Seq<u8> {
    Seq::new(CHILDREN_BYTES as nat, |i: int| u32_le_bytes(slots[i / 4])[i % 4])
}

/// The child slots whose bytes stand at `base .. base + 64` in `bytes`.
pub open spec fn children_at(bytes: Seq<u8>, base: int) -> Seq<u32> {
    Seq::new(FANOUT as nat, |k: int| u32_at(bytes, base + 4 * k))
}

/// Reading back what [`children_bytes`] describes gives the slots again,
/// wherever in a file the bytes stand.
pub proof fn lemma_children_round_trip(slots: Seq<u32>, bytes: Seq<u8>, base: int)
    requires
        slots.len() == FANOUT,
        0 <= base,
        base + CHILDREN_BYTES <= bytes.len(),
        bytes.subrange(base, base + CHILDREN_BYTES) == children_bytes(slots),
    ensures
        children_at(bytes, base) == slots,
{
    assert forall|k: int| 0 <= k < FANOUT implies u32_at(bytes, base + 4 * k) == slots[k] by {
        let part = bytes.subrange(base, base + CHILDREN_BYTES);
        assert(bytes[base + 4 * k] == part[4 * k]);
        assert(bytes[base + 4 * k + 1] == part[4 * k + 1]);
        assert(bytes[base + 4 * k + 2] == part[4 * k + 2]);
        assert(bytes[base + 4 * k + 3] == part[4 * k + 3]);
    }
    assert(children_at(bytes, base) =~= slots);
}

/// Sixteen child slots.  A slot holds the file offset of the child's record,
/// or `0` while there is no child.
pub struct AtomicArray {
    slots: [u32; 16],
}

impl View for AtomicArray {
    type V = Seq<u32>;

    closed spec fn view(&self) -> Seq<u32> {
        self.slots@
    }
}

impl AtomicArray {
    /// Sixteen empty slots.
    pub fn new() -> (array: AtomicArray)
        ensures
            array@ == Seq::new(FANOUT as nat, |i: int| 0u32),
    {
        let array = AtomicArray { slots: [0u32; 16] };
        assert(array@ =~= Seq::new(FANOUT as nat, |i: int| 0u32));
        array
    }

    /// There are always sixteen slots.
    pub proof fn lemma_len(&self)
        ensures
            self@.len() == FANOUT,
    {
    }

    /// The child in slot `i`, if there is one.
    pub fn get(&self, i: usize) -> (child: Option<FileOffset>)
        requires
            i < FANOUT,
        ensures
            child == if self@[i as int] == 0 {
                None
            } else {
                Some(FileOffset(self@[i as int]))
            },
    {
        let slot = self.slots[i];
        if slot == 0 {
            None
        } else {
            Some(FileOffset(slot))
        }
    }

    /// Puts `offset` into slot `i` if the slot is empty.
    pub fn set(&mut self, i: usize, offset: FileOffset) -> (r: Result<(), IndexError>)
        requires
            i < FANOUT,
        ensures
            r is Ok <==> old(self)@[i as int] == 0,
            r is Ok ==> final(self)@ == old(self)@.update(i as int, offset.0),
            r matches Err(e) ==> e == IndexError::AlreadyPresent && final(self)@ == old(self)@,
    {
        if self.slots[i] != 0 {
            return Err(IndexError::AlreadyPresent);
        }
        self.slots[i] = offset.0;
        assert(self@ =~= old(self)@.update(i as int, offset.0));
        Ok(())
    }

    /// The slots as they stand in a file.
    pub fn to_bytes(&self) -> (bytes: Vec<u8>)
        ensures
            bytes@ == children_bytes(self@),
    {
        let mut bytes: Vec<u8> = Vec::new();
        let mut k: usize = 0;
        while k < FANOUT
            invariant
                k <= FANOUT,
                bytes@.len() == 4 * k,
                forall|i: int| 0 <= i < 4 * k ==> bytes@[i] == children_bytes(self@)[i],
            decreases FANOUT - k,
        {
            let ghost before = bytes@;
            crate::bytes::push_u32_le(&mut bytes, self.slots[k]);
            assert forall|i: int| 0 <= i < 4 * (k + 1) implies bytes@[i] == children_bytes(
                self@,
            )[i] by {
                if i >= 4 * k {
                    assert(bytes@[i] == u32_le_bytes(self@[k as int])[i - 4 * k]);
                } else {
                    assert(bytes@[i] == before[i]);
                }
            }
            k = k + 1;
        }
        assert(bytes@ =~= children_bytes(self@));
        bytes
    }

    /// The slots that stand in the 64 bytes from `at` on.
    pub fn from_bytes(bytes: &[u8], at: usize) -> (array: AtomicArray)
        requires
            at + CHILDREN_BYTES <= bytes@.len(),
        ensures
            array@ == children_at(bytes@, at as int),
    {
        let mut slots = [0u32; 16];
        let total = bytes.len();
        let mut k: usize = 0;
        while k < FANOUT
            invariant
                k <= FANOUT,
                total == bytes@.len(),
                at + CHILDREN_BYTES <= bytes@.len(),
                forall|i: int| 0 <= i < k ==> slots@[i] == u32_at(bytes@, at + 4 * i),
            decreases FANOUT - k,
        {
            slots[k] = crate::bytes::read_u32_le(bytes, at + 4 * k);
            k = k + 1;
        }
        let array = AtomicArray { slots };
        assert(array@ =~= children_at(bytes@, at as int));
        array
    }

    /// Writes the slots at `cursor`, which the caller has moved to the place
    /// of the child slots in the node's record.
    pub fn serialize(&self, bufman: &mut BufferManager, cursor: u64) -> (r: Result<
        (),
        BufIoError,
    >)
        ensures
            r is Ok <==> old(bufman)@.can_write(cursor, CHILDREN_BYTES as nat),
            r is Ok ==> final(bufman)@ == old(bufman)@.written(cursor, children_bytes(self@)),
            r matches Err(e) ==> e == old(bufman)@.write_error(cursor) && final(bufman)@ == old(bufman)@,
    {
        let bytes = self.to_bytes();
        bufman.update_with_cursor(cursor, bytes.as_slice())
    }

    /// Reads the slots that stand at `file_offset`, through a cursor of its
    /// own, which it closes again.
    pub fn deserialize(bufman: &mut BufferManager, file_offset: u64) -> (r: Result<
        AtomicArray,
        BufIoError,
    >)
        ensures
            final(bufman)@.bytes == old(bufman)@.bytes,
            final(bufman)@.cursors == old(bufman)@.cursors.push(None),
            r is Ok <==> file_offset + CHILDREN_BYTES <= old(bufman)@.bytes.len(),
            r matches Ok(array) ==> array@ == children_at(old(bufman)@.bytes, file_offset as int),
            r matches Err(e) ==> e == BufIoError::OutOfBounds,
    {
        let cursor = bufman.open_cursor();
        let sought = bufman.seek_with_cursor(cursor, file_offset);
        assert(sought is Ok);
        let read = bufman.read_with_cursor(cursor, CHILDREN_BYTES);
        let closed = bufman.close_cursor(cursor);
        assert(closed is Ok);
        assert(bufman@.cursors =~= old(bufman)@.cursors.push(None));
        match read {
            Ok(bytes) => {
                let array = AtomicArray::from_bytes(bytes.as_slice(), 0);
                assert(array@ =~= children_at(old(bufman)@.bytes, file_offset as int));
                Ok(array)
            },
            Err(e) => Err(e),
        }
    }
}

} // verus!
