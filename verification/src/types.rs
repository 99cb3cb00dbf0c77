//! File offsets and their allocator.

use vstd::prelude::*;
use crate::buffered_io::{BufIoError, MAX_FILE_LEN};

verus! {

/// A byte position in a file.  Where an offset points to something that may
/// be missing, `0` says that it is.
#[derive(Debug, Clone, Copy, PartialEq, Eq, Hash, Structural)]
pub struct FileOffset(pub u32);

/// A structural rule of the index that an insertion would break.
#[derive(Debug, Clone, Copy, PartialEq, Eq, Structural)]
pub enum IndexError {
    /// The posting map holds the quotient already.
    DuplicateQuotient,
    /// The child slot is taken.
    AlreadyPresent,
    /// The posting map is as long as its node allows.
    CapacityExceeded,
    /// An argument is outside what the format can hold.
    InvalidParams,
}

/// A range of bytes that the allocator has handed out.
pub struct ByteRange {
    pub start: int,
    pub size: int,
}

impl ByteRange {
    /// The first position after the range.
    pub open spec fn end(self) -> int {
        self.start + self.size
    }

    /// Whether no byte belongs to both ranges.
    pub open spec fn disjoint(self, other: ByteRange) -> bool {
        self.end() <= other.start || other.end() <= self.start
    }
}

/// Allocator of byte offsets in the data files.  Writers reserve a range
/// with [`OffsetCounter::fetch_add`] and write at the offset it returns.
/// Offset `0` is never handed out: it stands for "absent".
pub struct OffsetCounter {
    next: u32,
    granted: Ghost<Seq<ByteRange>>,
}

impl OffsetCounter {
    /// The next offset to hand out.
    pub closed spec fn value(&self) -> u32 {
        self.next
    }

    /// The ranges handed out so far, oldest first.
    pub closed spec fn granted(&self) -> Seq<ByteRange> {
        self.granted@
    }

    /// Every range handed out lies at a position of its own, below the next
    /// offset, and ranges start in the order in which they were handed out.
    pub closed spec fn wf(&self) -> bool {
        &&& self.next >= 1
        &&& forall|i: int|
            0 <= i < self.granted@.len() ==> 1 <= (#[trigger] self.granted@[i]).start
                && self.granted@[i].size >= 0 && self.granted@[i].end() <= self.next
        &&& forall|i: int, j: int|
            0 <= i < j < self.granted@.len() ==> (#[trigger] self.granted@[i]).end()
                <= (#[trigger] self.granted@[j]).start
    }

    /// An allocator that starts at `start`, or at 1 where `start` is 0.  To
    /// go on with existing files, start at the length of the longest.
    pub fn new(start: u32) -> (counter: OffsetCounter)
        ensures
            counter.wf(),
            counter.value() == if start == 0 { 1u32 } else { start },
            counter.granted() == Seq::<ByteRange>::empty(),
    {
        OffsetCounter { next: if start == 0 { 1 } else { start }, granted: Ghost(Seq::empty()) }
    }

    /// The next offset that would be handed out.
    pub fn load(&self) -> (value: u32)
        ensures
            value == self.value(),
    {
        self.next
    }

    /// Reserves `size` bytes and returns where they start.  Fails, and
    /// reserves nothing, where the range would end beyond [`MAX_FILE_LEN`].
    pub fn fetch_add(&mut self, size: u32) -> (r: Result<u32, BufIoError>)
        requires
            old(self).wf(),
        ensures
            final(self).wf(),
            r is Ok <==> old(self).value() + size <= MAX_FILE_LEN,
            r matches Ok(offset) ==> offset == old(self).value() && offset >= 1
                && final(self).value() == offset + size && final(self).granted()
                == old(self).granted().push(
                ByteRange { start: offset as int, size: size as int },
            ),
            r matches Err(e) ==> e == BufIoError::Io && final(self).value() == old(self).value()
                && final(self).granted() == old(self).granted(),
    {
        if size as u64 > MAX_FILE_LEN - self.next as u64 {
            return Err(BufIoError::Io);
        }
        let offset = self.next;
        self.next = offset + size;
        proof {
            self.granted@ = self.granted@.push(
                ByteRange { start: offset as int, size: size as int },
            );
        }
        Ok(offset)
    }

    /// The allocator never stands at offset 0.
    pub proof fn lemma_value_positive(self)
        requires
            self.wf(),
        ensures
            self.value() >= 1,
    {
    }

    /// No two ranges that the allocator handed out share a byte.
    pub proof fn lemma_granted_ranges_disjoint(self, i: int, j: int)
        requires
            self.wf(),
            0 <= i < self.granted().len(),
            0 <= j < self.granted().len(),
            i != j,
        ensures
            self.granted()[i].disjoint(self.granted()[j]),
    {
    }

    /// Every range handed out lies below the next offset and not at offset 0.
    pub proof fn lemma_granted_ranges_bounded(self, i: int)
        requires
            self.wf(),
            0 <= i < self.granted().len(),
        ensures
            1 <= self.granted()[i].start,
            self.granted()[i].end() <= self.value(),
    {
    }
}

} // verus!
