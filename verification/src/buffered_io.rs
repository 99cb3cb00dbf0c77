//! Random-access files held in memory, read and written through cursors.
//!
//! A [`BufferManager`] is one file: a sequence of bytes and a table of
//! cursors, each a position in the file.  Every primitive reads or writes at
//! a cursor and moves it by the width of what it handled.  Integers are
//! little-endian.  A [`BufferManagerFactory`] holds one file per partition key.

use vstd::prelude::*;
use crate::bytes::{overwrite, u16_at, u16_le_bytes, u32_at, u32_le_bytes};

verus! {

/// No file grows beyond this many bytes: offsets are 32 bits wide.
pub const MAX_FILE_LEN: u64 = 0xFFFF_FFFF;

/// Why an operation on the index files failed.
#[derive(Debug, Clone, Copy, PartialEq, Eq, Structural)]
pub enum BufIoError {
    /// The file cannot take the write, or no offsets are left to allocate.
    Io,
    /// A read went past the end of the file.
    OutOfBounds,
    /// The cursor was never opened or is closed.
    InvalidCursor(u64),
    /// A node record holds fields that no writer produces.
    CorruptHeader,
    /// A chain of data chunks leaves its file, runs backwards or holds a
    /// quotient twice.
    CorruptChain,
}

/// What a [`BufferManager`] holds: the bytes of the file and, for each
/// cursor ever opened, its position, or `None` once it is closed.
#[verifier::ext_equal]
pub struct BufferState {
    pub bytes: Seq<u8>,
    pub cursors: Seq<Option<u64>>,
}

impl BufferState {
    /// A file without bytes or cursors.
    pub open spec fn empty() -> BufferState {
        BufferState { bytes: Seq::empty(), cursors: Seq::empty() }
    }

    /// Whether `cursor` names an open cursor.
    pub open spec fn is_open(self, cursor: u64) -> bool {
        cursor < self.cursors.len() && self.cursors[cursor as int] is Some
    }

    /// Where `cursor` stands.
    pub open spec fn position(self, cursor: u64) -> u64 {
        self.cursors[cursor as int].unwrap()
    }

    /// Whether `n` bytes can be read at `cursor`.
    pub open spec fn can_read(self, cursor: u64, n: nat) -> bool {
        self.is_open(cursor) && self.position(cursor) + n <= self.bytes.len()
    }

    /// Whether `n` bytes can be written at `cursor`.
    pub open spec fn can_write(self, cursor: u64, n: nat) -> bool {
        self.is_open(cursor) && self.position(cursor) + n <= MAX_FILE_LEN
    }

    /// The error of a read of `n` bytes at `cursor` that cannot be done.
    pub open spec fn read_error(self, cursor: u64) -> BufIoError {
        if self.is_open(cursor) {
            BufIoError::OutOfBounds
        } else {
            BufIoError::InvalidCursor(cursor)
        }
    }

    /// The error of a write at `cursor` that cannot be done.
    pub open spec fn write_error(self, cursor: u64) -> BufIoError {
        if self.is_open(cursor) {
            BufIoError::Io
        } else {
            BufIoError::InvalidCursor(cursor)
        }
    }

    /// The bytes in `cursor's position .. + n`.
    pub open spec fn bytes_at(self, cursor: u64, n: nat) -> Seq<u8> {
        self.bytes.subrange(self.position(cursor) as int, self.position(cursor) + n)
    }

    /// The state with `cursor` moved to `pos`.
    pub open spec fn moved(self, cursor: u64, pos: u64) -> BufferState {
        BufferState { bytes: self.bytes, cursors: self.cursors.update(cursor as int, Some(pos)) }
    }

    /// The state after `n` bytes were read at `cursor`.
    pub open spec fn advanced(self, cursor: u64, n: nat) -> BufferState {
        self.moved(cursor, (self.position(cursor) + n) as u64)
    }

    /// The state after `data` was written at `cursor`.
    pub open spec fn written(self, cursor: u64, data: Seq<u8>) -> BufferState {
        BufferState {
            bytes: overwrite(self.bytes, self.position(cursor) as int, data),
            cursors: self.cursors.update(
                cursor as int,
                Some((self.position(cursor) + data.len()) as u64),
            ),
        }
    }
}

/// One file of the index, with its cursors.
pub struct BufferManager {
    bytes: Vec<u8>,
    cursors: Vec<Option<u64>>,
}

impl View for BufferManager {
    type V = BufferState;

    closed spec fn view(&self) -> BufferState {
        BufferState { bytes: self.bytes@, cursors: self.cursors@ }
    }
}

impl BufferManager {
    /// An empty file.
    pub fn new() -> (bufman: BufferManager)
        ensures
            bufman@ == BufferState::empty(),
    {
        BufferManager { bytes: Vec::new(), cursors: Vec::new() }
    }

    /// A file that holds `bytes`, as read from storage.
    pub fn from_bytes(bytes: Vec<u8>) -> (bufman: BufferManager)
        ensures
            bufman@ == (BufferState { bytes: bytes@, cursors: Seq::empty() }),
    {
        BufferManager { bytes, cursors: Vec::new() }
    }

    /// The bytes of the file, to be made durable.
    pub fn contents(&self) -> (bytes: &Vec<u8>)
        ensures
            bytes@ == self@.bytes,
    {
        &self.bytes
    }

    /// The length of the file.
    pub fn file_len(&self) -> (len: usize)
        ensures
            len == self@.bytes.len(),
    {
        self.bytes.len()
    }

    /// Opens a cursor at the start of the file.
    pub fn open_cursor(&mut self) -> (cursor: u64)
        ensures
            cursor == old(self)@.cursors.len(),
            final(self)@.bytes == old(self)@.bytes,
            final(self)@.cursors == old(self)@.cursors.push(Some(0u64)),
    {
        let cursor = self.cursors.len() as u64;
        self.cursors.push(Some(0));
        cursor
    }

    /// The slot and the position of `cursor`, if it is open.
    fn find_cursor(&self, cursor: u64) -> (r: Option<(usize, u64)>)
        ensures
            r is Some <==> self@.is_open(cursor),
            r matches Some((slot, pos)) ==> slot == cursor && pos == self@.position(cursor),
    {
        if cursor >= self.cursors.len() as u64 {
            return None;
        }
        let slot = cursor as usize;
        match self.cursors[slot] {
            Some(pos) => Some((slot, pos)),
            None => None,
        }
    }

    /// Closes `cursor`.  Its number is not given out again.
    pub fn close_cursor(&mut self, cursor: u64) -> (r: Result<(), BufIoError>)
        ensures
            r is Ok <==> old(self)@.is_open(cursor),
            r is Ok ==> final(self)@.bytes == old(self)@.bytes && final(self)@.cursors
                == old(self)@.cursors.update(cursor as int, None),
            r matches Err(e) ==> e == BufIoError::InvalidCursor(cursor) && final(self)@ == old(self)@,
    {
        match self.find_cursor(cursor) {
            Some((slot, _)) => {
                self.cursors.set(slot, None);
                assert(self@.cursors =~= old(self)@.cursors.update(cursor as int, None));
                Ok(())
            },
            None => Err(BufIoError::InvalidCursor(cursor)),
        }
    }

    /// Where `cursor` stands.
    pub fn cursor_position(&self, cursor: u64) -> (r: Result<u64, BufIoError>)
        ensures
            r is Ok <==> self@.is_open(cursor),
            r matches Ok(pos) ==> pos == self@.position(cursor),
            r matches Err(e) ==> e == BufIoError::InvalidCursor(cursor),
    {
        match self.find_cursor(cursor) {
            Some((_, pos)) => Ok(pos),
            None => Err(BufIoError::InvalidCursor(cursor)),
        }
    }

    /// Moves `cursor` to `offset`.
    pub fn seek_with_cursor(&mut self, cursor: u64, offset: u64) -> (r: Result<(), BufIoError>)
        ensures
            r is Ok <==> old(self)@.is_open(cursor),
            r is Ok ==> final(self)@ == old(self)@.moved(cursor, offset),
            r matches Err(e) ==> e == BufIoError::InvalidCursor(cursor) && final(self)@ == old(self)@,
    {
        match self.find_cursor(cursor) {
            Some((slot, _)) => {
                self.cursors.set(slot, Some(offset));
                assert(self@ =~= old(self)@.moved(cursor, offset));
                Ok(())
            },
            None => Err(BufIoError::InvalidCursor(cursor)),
        }
    }

    /// Reads `n` bytes at `cursor` and moves it past them.
    pub fn read_with_cursor(&mut self, cursor: u64, n: usize) -> (r: Result<Vec<u8>, BufIoError>)
        ensures
            r is Ok <==> old(self)@.can_read(cursor, n as nat),
            r matches Ok(data) ==> data@ == old(self)@.bytes_at(cursor, n as nat) && final(self)@
                == old(self)@.advanced(cursor, n as nat),
            r matches Err(e) ==> e == old(self)@.read_error(cursor) && final(self)@ == old(self)@,
    {
        let (slot, pos) = match self.find_cursor(cursor) {
            Some(found) => found,
            None => { return Err(BufIoError::InvalidCursor(cursor)); },
        };
        let len = self.bytes.len();
        if pos > len as u64 || n > len - pos as usize {
            return Err(BufIoError::OutOfBounds);
        }
        let start = pos as usize;
        let mut data: Vec<u8> = Vec::new();
        let mut i: usize = 0;
        while i < n
            invariant
                i <= n,
                start + n <= self.bytes.len(),
                data@ == self.bytes@.subrange(start as int, start + i),
            decreases n - i,
        {
            data.push(self.bytes[start + i]);
            i = i + 1;
            assert(data@ =~= self.bytes@.subrange(start as int, start + i));
        }
        self.cursors.set(slot, Some((start + n) as u64));
        assert(self@ =~= old(self)@.advanced(cursor, n as nat));
        Ok(data)
    }

    /// Writes `data` at `cursor` and moves it past them.  A file that ends
    /// before the cursor is filled up with zeros first.
    pub fn update_with_cursor(&mut self, cursor: u64, data: &[u8]) -> (r: Result<(), BufIoError>)
        ensures
            r is Ok <==> old(self)@.can_write(cursor, data@.len()),
            r is Ok ==> final(self)@ == old(self)@.written(cursor, data@),
            r matches Err(e) ==> e == old(self)@.write_error(cursor) && final(self)@ == old(self)@,
    {
        let (slot, pos) = match self.find_cursor(cursor) {
            Some(found) => found,
            None => { return Err(BufIoError::InvalidCursor(cursor)); },
        };
        let n = data.len();
        if pos > MAX_FILE_LEN || n as u64 > MAX_FILE_LEN - pos {
            return Err(BufIoError::Io);
        }
        let start = pos as usize;
        let ghost before = self.bytes@;
        while self.bytes.len() < start
            invariant
                self.cursors@ == old(self).cursors@,
                self.bytes@.len() >= before.len(),
                self.bytes@.len() <= before.len() || self.bytes@.len() <= start,
                forall|k: int| 0 <= k < before.len() ==> self.bytes@[k] == before[k],
                forall|k: int| before.len() <= k < self.bytes@.len() ==> self.bytes@[k] == 0u8,
            decreases start - self.bytes.len(),
        {
            self.bytes.push(0u8);
        }
        assert(self.bytes@ =~= overwrite(before, start as int, Seq::<u8>::empty()));
        let mut i: usize = 0;
        while i < n
            invariant
                i <= n,
                n == data@.len(),
                start + n <= MAX_FILE_LEN,
                self.cursors@ == old(self).cursors@,
                self.bytes@ == overwrite(before, start as int, data@.subrange(0, i as int)),
            decreases n - i,
        {
            if start + i < self.bytes.len() {
                self.bytes.set(start + i, data[i]);
            } else {
                self.bytes.push(data[i]);
            }
            i = i + 1;
            assert(self.bytes@ =~= overwrite(before, start as int, data@.subrange(0, i as int)));
        }
        assert(data@.subrange(0, n as int) =~= data@);
        self.cursors.set(slot, Some((start + n) as u64));
        assert(self@ =~= old(self)@.written(cursor, data@));
        Ok(())
    }

    /// Reads one byte at `cursor`.
    pub fn read_u8_with_cursor(&mut self, cursor: u64) -> (r: Result<u8, BufIoError>)
        ensures
            r is Ok <==> old(self)@.can_read(cursor, 1),
            r matches Ok(x) ==> x == old(self)@.bytes[old(self)@.position(cursor) as int]
                && final(self)@ == old(self)@.advanced(cursor, 1),
            r matches Err(e) ==> e == old(self)@.read_error(cursor) && final(self)@ == old(self)@,
    {
        match self.read_with_cursor(cursor, 1) {
            Ok(data) => Ok(data[0]),
            Err(e) => Err(e),
        }
    }

    /// Reads a little-endian `u16` at `cursor`.
    pub fn read_u16_with_cursor(&mut self, cursor: u64) -> (r: Result<u16, BufIoError>)
        ensures
            r is Ok <==> old(self)@.can_read(cursor, 2),
            r matches Ok(x) ==> x == u16_at(old(self)@.bytes, old(self)@.position(cursor) as int)
                && final(self)@ == old(self)@.advanced(cursor, 2),
            r matches Err(e) ==> e == old(self)@.read_error(cursor) && final(self)@ == old(self)@,
    {
        match self.read_with_cursor(cursor, 2) {
            Ok(data) => Ok(crate::bytes::read_u16_le(data.as_slice(), 0)),
            Err(e) => Err(e),
        }
    }

    /// Reads a little-endian `u32` at `cursor`.
    pub fn read_u32_with_cursor(&mut self, cursor: u64) -> (r: Result<u32, BufIoError>)
        ensures
            r is Ok <==> old(self)@.can_read(cursor, 4),
            r matches Ok(x) ==> x == u32_at(old(self)@.bytes, old(self)@.position(cursor) as int)
                && final(self)@ == old(self)@.advanced(cursor, 4),
            r matches Err(e) ==> e == old(self)@.read_error(cursor) && final(self)@ == old(self)@,
    {
        match self.read_with_cursor(cursor, 4) {
            Ok(data) => Ok(crate::bytes::read_u32_le(data.as_slice(), 0)),
            Err(e) => Err(e),
        }
    }

    /// Writes one byte at `cursor`.
    pub fn update_u8_with_cursor(&mut self, cursor: u64, value: u8) -> (r: Result<
        (),
        BufIoError,
    >)
        ensures
            r is Ok <==> old(self)@.can_write(cursor, 1),
            r is Ok ==> final(self)@ == old(self)@.written(cursor, seq![value]),
            r matches Err(e) ==> e == old(self)@.write_error(cursor) && final(self)@ == old(self)@,
    {
        let mut data: Vec<u8> = Vec::new();
        data.push(value);
        assert(data@ =~= seq![value]);
        self.update_with_cursor(cursor, data.as_slice())
    }

    /// Writes `value` as a little-endian `u16` at `cursor`.
    pub fn update_u16_with_cursor(&mut self, cursor: u64, value: u16) -> (r: Result<
        (),
        BufIoError,
    >)
        ensures
            r is Ok <==> old(self)@.can_write(cursor, 2),
            r is Ok ==> final(self)@ == old(self)@.written(cursor, u16_le_bytes(value)),
            r matches Err(e) ==> e == old(self)@.write_error(cursor) && final(self)@ == old(self)@,
    {
        let mut data: Vec<u8> = Vec::new();
        crate::bytes::push_u16_le(&mut data, value);
        assert(data@ =~= u16_le_bytes(value));
        self.update_with_cursor(cursor, data.as_slice())
    }

    /// Writes `value` as a little-endian `u32` at `cursor`.
    pub fn update_u32_with_cursor(&mut self, cursor: u64, value: u32) -> (r: Result<
        (),
        BufIoError,
    >)
        ensures
            r is Ok <==> old(self)@.can_write(cursor, 4),
            r is Ok ==> final(self)@ == old(self)@.written(cursor, u32_le_bytes(value)),
            r matches Err(e) ==> e == old(self)@.write_error(cursor) && final(self)@ == old(self)@,
    {
        let mut data: Vec<u8> = Vec::new();
        crate::bytes::push_u32_le(&mut data, value);
        assert(data@ =~= u32_le_bytes(value));
        self.update_with_cursor(cursor, data.as_slice())
    }
}

/// The files of a partitioned store, one per key.  A file comes into being,
/// empty, when its key is first asked for.
pub struct BufferManagerFactory {
    bufmans: Vec<BufferManager>,
}

impl BufferManagerFactory {
    /// The files that exist, by key.
    pub closed spec fn files(&self) -> Seq<BufferState> {
        self.bufmans@.map_values(|bufman: BufferManager| bufman@)
    }

    /// The file of `key`; one that does not exist yet counts as empty.
    pub open spec fn file(&self, key: u8) -> BufferState {
        if key < self.files().len() {
            self.files()[key as int]
        } else {
            BufferState::empty()
        }
    }

    /// A store without files.
    pub fn new() -> (factory: BufferManagerFactory)
        ensures
            factory.files() == Seq::<BufferState>::empty(),
    {
        let factory = BufferManagerFactory { bufmans: Vec::new() };
        assert(factory.files() =~= Seq::<BufferState>::empty());
        factory
    }

    /// The file of `key`, made first if need be.  What the caller does to it
    /// is done to the store's file; no other file changes.
    pub fn get(&mut self, key: u8) -> (bufman: &mut BufferManager)
        ensures
            bufman@ == old(self).file(key),
            final(self).file(key) == final(bufman)@,
            forall|other: u8| other != key ==> final(self).file(other) == old(self).file(other),
    {
        while self.bufmans.len() <= key as usize
            invariant
                self.bufmans@.len() >= old(self).bufmans@.len(),
                forall|k: int|
                    0 <= k < old(self).bufmans@.len() ==> self.bufmans@[k] == old(self).bufmans@[k],
                forall|k: int|
                    old(self).bufmans@.len() <= k < self.bufmans@.len() ==> self.bufmans@[k]@
                        == BufferState::empty(),
            decreases key + 1 - self.bufmans.len(),
        {
            self.bufmans.push(BufferManager::new());
        }
        &mut self.bufmans[key as usize]
    }
}

} // verus!
