//! Posting lists: the document ids of one quotient, kept in a chain of pages
//! in a data file.
//!
//! A page is
//!
//! ```text
//! u32  len                 ids in this page
//! PAGE_CAP x u32 doc id    unused slots are zero
//! u32  next                offset of the next page, or 0
//! ```
//!
//! Ids are appended to the last page.  A page gets a successor only when it
//! is full, and the successor lies behind it in the file.

use vstd::prelude::*;
use crate::buffered_io::{BufIoError, BufferManager, MAX_FILE_LEN};
use crate::bytes::{lemma_u32_at, overwrite, u32_at, u32_le_bytes};
use crate::types::{ByteRange, FileOffset, OffsetCounter};

verus! {

/// How many document ids a page has room for.
pub const PAGE_CAP: usize = 32;

/// How many bytes a page takes: four for `len`, four for each slot, four for
/// `next`.
pub const PAGE_BYTES: usize = 136;

/// Where in a page the `next` field stands.
pub const PAGE_NEXT_AT: usize = 132;

/// The bytes of a page that holds `ids` and points to `next`.
pub open spec fn page_bytes(ids: Seq<u32>, next: u32) -> Seq<u8> {
    Seq::new(
        PAGE_BYTES as nat,
        |i: int|
            if i < 4 {
                u32_le_bytes(ids.len() as u32)[i]
            } else if i < PAGE_NEXT_AT {
                if (i - 4) / 4 < ids.len() {
                    u32_le_bytes(ids[(i - 4) / 4])[(i - 4) % 4]
                } else {
                    0u8
                }
            } else {
                u32_le_bytes(next)[i - PAGE_NEXT_AT]
            },
    )
}

/// The `len` field of the page at `at`.
pub open spec fn page_len_at(file: Seq<u8>, at: int) -> u32 {
    u32_at(file, at)
}

/// The ids in the first `n` slots of the page at `at`.
pub open spec fn page_ids_at(file: Seq<u8>, at: int, n: nat) -> Seq<u32> {
    Seq::new(n, |k: int| u32_at(file, at + 4 + 4 * k))
}

/// The `next` field of the page at `at`.
pub open spec fn page_next_at(file: Seq<u8>, at: int) -> u32 {
    u32_at(file, at + PAGE_NEXT_AT)
}

/// What a chain of pages holds: the ids in their order, and where the pages
/// stand.
pub struct PoolImage {
    pub ids: Seq<u32>,
    pub pages: Seq<u32>,
}

/// The image `rest` with `ids` and `pages` put in front; an error stays.
pub open spec fn prepend_pages(
    ids: Seq<u32>,
    pages: Seq<u32>,
    rest: Result<PoolImage, BufIoError>,
) -> Result<PoolImage, BufIoError> {
    match rest {
        Ok(image) => Ok(PoolImage { ids: ids + image.ids, pages: pages + image.pages }),
        Err(e) => Err(e),
    }
}

/// What is read from the data file `file` by following the pages from the
/// one at `at`.  A page that does not lie within the file and below
/// [`MAX_FILE_LEN`], counts more ids than it has room for, has a successor
/// without being full, or has a successor that does not lie behind it,
/// breaks the chain.
pub open spec fn parse_pool(file: Seq<u8>, at: u32) -> Result<PoolImage, BufIoError>
    decreases file.len() - at,
{
    if at + PAGE_BYTES > file.len() || at + PAGE_BYTES > MAX_FILE_LEN {
        Err(BufIoError::CorruptChain)
    } else {
        let len = page_len_at(file, at as int);
        let next = page_next_at(file, at as int);
        if len > PAGE_CAP {
            Err(BufIoError::CorruptChain)
        } else if next == 0 {
            Ok(PoolImage { ids: page_ids_at(file, at as int, len as nat), pages: seq![at] })
        } else if len != PAGE_CAP || next < at + PAGE_BYTES || next + PAGE_BYTES > file.len() {
            Err(BufIoError::CorruptChain)
        } else {
            prepend_pages(
                page_ids_at(file, at as int, PAGE_CAP as nat),
                seq![at],
                parse_pool(file, next),
            )
        }
    }
}

/// Where each field of a page stands in [`page_bytes`].
pub proof fn lemma_page_bytes_fields(ids: Seq<u32>, next: u32)
    requires
        ids.len() <= PAGE_CAP,
    ensures
        page_bytes(ids, next).len() == PAGE_BYTES,
        forall|j: int|
            0 <= j < 4 ==> page_bytes(ids, next)[j] == u32_le_bytes(ids.len() as u32)[j],
        forall|k: int, j: int|
            0 <= k < ids.len() && 0 <= j < 4 ==> #[trigger] page_bytes(ids, next)[4 + 4 * k + j]
                == u32_le_bytes(ids[k])[j],
        forall|j: int|
            0 <= j < 4 ==> #[trigger] page_bytes(ids, next)[PAGE_NEXT_AT + j] == u32_le_bytes(
                next,
            )[j],
{
    assert forall|k: int, j: int| 0 <= k < ids.len() && 0 <= j < 4 implies #[trigger] page_bytes(
        ids,
        next,
    )[4 + 4 * k + j] == u32_le_bytes(ids[k])[j] by {
        assert((4 * k + j) / 4 == k && (4 * k + j) % 4 == j);
    }
}

/// Reading the fields of a page that stands at `at` gives what
/// [`page_bytes`] was made of.
pub proof fn lemma_page_round_trip(file: Seq<u8>, at: int, ids: Seq<u32>, next: u32)
    requires
        0 <= at,
        at + PAGE_BYTES <= file.len(),
        ids.len() <= PAGE_CAP,
        file.subrange(at, at + PAGE_BYTES) == page_bytes(ids, next),
    ensures
        page_len_at(file, at) == ids.len(),
        page_ids_at(file, at, ids.len()) == ids,
        page_next_at(file, at) == next,
{
    let part = file.subrange(at, at + PAGE_BYTES);
    lemma_page_bytes_fields(ids, next);
    assert(page_len_at(file, at) == ids.len()) by {
        assert(file[at] == part[0] && file[at + 1] == part[1] && file[at + 2] == part[2]
            && file[at + 3] == part[3]);
        lemma_u32_at(file, at, ids.len() as u32);
    }
    assert(page_next_at(file, at) == next) by {
        let p = PAGE_NEXT_AT as int;
        assert(file[at + p] == part[p + 0] && file[at + p + 1] == part[p + 1]);
        assert(file[at + p + 2] == part[p + 2] && file[at + p + 3] == part[p + 3]);
        lemma_u32_at(file, at + p, next);
    }
    assert forall|k: int| 0 <= k < ids.len() implies u32_at(file, at + 4 + 4 * k) == ids[k] by {
        let p = 4 + 4 * k;
        assert(file[at + p] == part[p + 0] && file[at + p + 1] == part[p + 1]);
        assert(file[at + p + 2] == part[p + 2] && file[at + p + 3] == part[p + 3]);
        lemma_u32_at(file, at + p, ids[k]);
    }
    assert(page_ids_at(file, at, ids.len()) =~= ids);
}

/// Encodes a page that holds `ids` and points to `next`.
pub fn encode_page(ids: &Vec<u32>, next: u32) -> (bytes: Vec<u8>)
    requires
        ids@.len() <= PAGE_CAP,
    ensures
        bytes@ == page_bytes(ids@, next),
{
    let ghost image = page_bytes(ids@, next);
    let mut bytes: Vec<u8> = Vec::new();
    crate::bytes::push_u32_le(&mut bytes, ids.len() as u32);
    let mut k: usize = 0;
    while k < PAGE_CAP
        invariant
            k <= PAGE_CAP,
            ids@.len() <= PAGE_CAP,
            image == page_bytes(ids@, next),
            bytes@.len() == 4 + 4 * k,
            forall|i: int| 0 <= i < 4 + 4 * k ==> bytes@[i] == image[i],
        decreases PAGE_CAP - k,
    {
        let ghost before = bytes@;
        let id: u32 = if k < ids.len() {
            ids[k]
        } else {
            0
        };
        crate::bytes::push_u32_le(&mut bytes, id);
        assert forall|i: int| 0 <= i < 4 + 4 * (k + 1) implies bytes@[i] == image[i] by {
            if i < 4 + 4 * k {
                assert(bytes@[i] == before[i]);
            } else {
                assert((i - 4) / 4 == k);
                assert(bytes@[i] == u32_le_bytes(id)[i - 4 - 4 * k]);
            }
        }
        k = k + 1;
    }
    let ghost before = bytes@;
    crate::bytes::push_u32_le(&mut bytes, next);
    assert forall|i: int| 0 <= i < PAGE_BYTES implies bytes@[i] == image[i] by {
        if i < PAGE_NEXT_AT {
            assert(bytes@[i] == before[i]);
        }
    }
    assert(bytes@ =~= image);
    bytes
}

/// The pages of a chain that is read lie within the file, the first where
/// the chain begins and each of the others behind its predecessor.
pub proof fn lemma_pages_ascend(file: Seq<u8>, at: u32)
    requires
        parse_pool(file, at) is Ok,
    ensures
        parse_pool(file, at).unwrap().pages.len() >= 1,
        parse_pool(file, at).unwrap().pages[0] == at,
        forall|k: int|
            0 <= k < parse_pool(file, at).unwrap().pages.len() ==> at <= #[trigger] parse_pool(
                file,
                at,
            ).unwrap().pages[k] && parse_pool(file, at).unwrap().pages[k] + PAGE_BYTES
                <= file.len() && parse_pool(file, at).unwrap().pages[k] + PAGE_BYTES
                <= MAX_FILE_LEN,
        forall|k: int|
            1 <= k < parse_pool(file, at).unwrap().pages.len() ==> at + PAGE_BYTES
                <= #[trigger] parse_pool(file, at).unwrap().pages[k],
        parse_pool(file, at).unwrap().pages.len() == 1 <==> page_next_at(file, at as int) == 0,
    decreases file.len() - at,
{
    let image = parse_pool(file, at).unwrap();
    let next = page_next_at(file, at as int);
    if next != 0 {
        lemma_pages_ascend(file, next);
        let rest = parse_pool(file, next).unwrap();
        assert(image.pages == seq![at] + rest.pages);
        assert forall|k: int| 0 <= k < image.pages.len() implies at <= #[trigger] image.pages[k]
            && image.pages[k] + PAGE_BYTES <= file.len() && image.pages[k] + PAGE_BYTES
            <= MAX_FILE_LEN by {
            if k > 0 {
                assert(image.pages[k] == rest.pages[k - 1]);
            }
        }
        assert forall|k: int| 1 <= k < image.pages.len() implies at + PAGE_BYTES
            <= #[trigger] image.pages[k] by {
            assert(image.pages[k] == rest.pages[k - 1]);
        }
    }
}

/// The fields of a page depend on its bytes alone.
pub proof fn lemma_same_page_same_fields(a: Seq<u8>, b: Seq<u8>, at: int)
    requires
        0 <= at,
        at + PAGE_BYTES <= a.len(),
        at + PAGE_BYTES <= b.len(),
        forall|x: int| at <= x < at + PAGE_BYTES ==> a[x] == b[x],
    ensures
        page_len_at(a, at) == page_len_at(b, at),
        page_next_at(a, at) == page_next_at(b, at),
        forall|n: nat| n <= PAGE_CAP ==> #[trigger] page_ids_at(a, at, n) == page_ids_at(b, at, n),
{
    assert forall|n: nat| n <= PAGE_CAP implies #[trigger] page_ids_at(a, at, n) == page_ids_at(
        b,
        at,
        n,
    ) by {
        assert forall|k: int| 0 <= k < n implies #[trigger] page_ids_at(a, at, n)[k]
            == page_ids_at(b, at, n)[k] by {
            let p = at + 4 + 4 * k;
            assert(a[p] == b[p] && a[p + 1] == b[p + 1] && a[p + 2] == b[p + 2] && a[p + 3] == b[p
                + 3]);
        }
        assert(page_ids_at(a, at, n) =~= page_ids_at(b, at, n));
    }
    let q = at + PAGE_NEXT_AT;
    assert(a[at] == b[at] && a[at + 1] == b[at + 1] && a[at + 2] == b[at + 2] && a[at + 3] == b[at
        + 3]);
    assert(a[q] == b[q] && a[q + 1] == b[q + 1] && a[q + 2] == b[q + 2] && a[q + 3] == b[q + 3]);
}

/// The ids of a chain without those of its last page.
pub open spec fn ids_before_tail(image: PoolImage) -> Seq<u32> {
    image.ids.subrange(0, PAGE_CAP * (image.pages.len() - 1))
}

/// Where a file changes only from the last page of a chain on, the chain is
/// read as before up to that page and from there on as the new file has it.
pub proof fn lemma_replace_tail(file: Seq<u8>, changed: Seq<u8>, at: u32, rest: PoolImage)
    requires
        parse_pool(file, at) is Ok,
        changed.len() >= file.len(),
        forall|x: int|
            at <= x < parse_pool(file, at).unwrap().pages.last() ==> changed[x] == file[x],
        parse_pool(changed, parse_pool(file, at).unwrap().pages.last()) == (Ok::<
            PoolImage,
            BufIoError,
        >(rest)),
    ensures
        parse_pool(file, at).unwrap().ids.len() >= PAGE_CAP * (parse_pool(
            file,
            at,
        ).unwrap().pages.len() - 1),
        parse_pool(changed, at) == (Ok::<PoolImage, BufIoError>(
            PoolImage {
                ids: ids_before_tail(parse_pool(file, at).unwrap()) + rest.ids,
                pages: parse_pool(file, at).unwrap().pages.drop_last() + rest.pages,
            },
        )),
    decreases file.len() - at,
{
    let image = parse_pool(file, at).unwrap();
    let tail = image.pages.last();
    let next = page_next_at(file, at as int);
    lemma_pages_ascend(file, at);
    if next == 0 {
        assert(image.pages =~= seq![at]);
        assert(ids_before_tail(image) + rest.ids =~= rest.ids);
        assert(image.pages.drop_last() + rest.pages =~= rest.pages);
    } else {
        let further = parse_pool(file, next).unwrap();
        lemma_pages_ascend(file, next);
        assert(image.pages == seq![at] + further.pages);
        assert(image.pages.last() == further.pages.last());
        assert(tail >= at + PAGE_BYTES);
        lemma_same_page_same_fields(file, changed, at as int);
        lemma_replace_tail(file, changed, next, rest);
        let held = page_ids_at(file, at as int, PAGE_CAP as nat);
        assert(held == page_ids_at(changed, at as int, PAGE_CAP as nat));
        assert(image.ids == held + further.ids);
        assert(ids_before_tail(image) =~= held + ids_before_tail(further));
        assert((held + ids_before_tail(further)) + rest.ids =~= held + (ids_before_tail(further)
            + rest.ids));
        assert(image.pages.drop_last() =~= seq![at] + further.pages.drop_last());
        assert((seq![at] + further.pages.drop_last()) + rest.pages =~= seq![at] + (
        further.pages.drop_last() + rest.pages));
    }
}

/// The ids of a chain are those before its last page and those in it.
pub proof fn lemma_ids_split_at_tail(file: Seq<u8>, at: u32)
    requires
        parse_pool(file, at) is Ok,
    ensures
        parse_pool(file, parse_pool(file, at).unwrap().pages.last()) is Ok,
        parse_pool(file, at).unwrap().ids == ids_before_tail(parse_pool(file, at).unwrap())
            + parse_pool(file, parse_pool(file, at).unwrap().pages.last()).unwrap().ids,
        parse_pool(file, parse_pool(file, at).unwrap().pages.last()).unwrap().pages
            == seq![parse_pool(file, at).unwrap().pages.last()],
    decreases file.len() - at,
{
    let image = parse_pool(file, at).unwrap();
    let next = page_next_at(file, at as int);
    lemma_pages_ascend(file, at);
    if next == 0 {
        assert(image.pages =~= seq![at]);
        assert(ids_before_tail(image) + image.ids =~= image.ids);
    } else {
        let further = parse_pool(file, next).unwrap();
        lemma_pages_ascend(file, next);
        lemma_ids_split_at_tail(file, next);
        assert(image.pages == seq![at] + further.pages);
        assert(image.pages.last() == further.pages.last());
        let held = page_ids_at(file, at as int, PAGE_CAP as nat);
        lemma_replace_tail(file, file, next, parse_pool(file, further.pages.last()).unwrap());
        assert(ids_before_tail(image) =~= held + ids_before_tail(further));
        let tail_ids = parse_pool(file, further.pages.last()).unwrap().ids;
        assert((held + ids_before_tail(further)) + tail_ids =~= held + (ids_before_tail(further)
            + tail_ids));
    }
}

/// The fields read in a copy of a page are those read in the file.
pub proof fn lemma_fields_of_page_copy(file: Seq<u8>, at: int, copy: Seq<u8>)
    requires
        0 <= at,
        at + PAGE_BYTES <= file.len(),
        copy == file.subrange(at, at + PAGE_BYTES),
    ensures
        page_len_at(copy, 0) == page_len_at(file, at),
        page_next_at(copy, 0) == page_next_at(file, at),
        forall|n: nat|
            n <= PAGE_CAP ==> #[trigger] page_ids_at(copy, 0, n) == page_ids_at(file, at, n),
{
    assert forall|n: nat| n <= PAGE_CAP implies #[trigger] page_ids_at(copy, 0, n) == page_ids_at(
        file,
        at,
        n,
    ) by {
        assert forall|k: int| 0 <= k < n implies #[trigger] page_ids_at(copy, 0, n)[k]
            == page_ids_at(file, at, n)[k] by {
            let p = 4 + 4 * k;
            assert(copy[p + 0] == file[at + p] && copy[p + 1] == file[at + p + 1]);
            assert(copy[p + 2] == file[at + p + 2] && copy[p + 3] == file[at + p + 3]);
        }
        assert(page_ids_at(copy, 0, n) =~= page_ids_at(file, at, n));
    }
    let q = PAGE_NEXT_AT as int;
    assert(copy[0] == file[at] && copy[1] == file[at + 1] && copy[2] == file[at + 2] && copy[3]
        == file[at + 3]);
    assert(copy[q + 0] == file[at + q] && copy[q + 1] == file[at + q + 1]);
    assert(copy[q + 2] == file[at + q + 2] && copy[q + 3] == file[at + q + 3]);
}

/// Decodes the ids in the first `n` slots of the page `page` and appends
/// them to `out`.
pub fn decode_ids(page: &[u8], n: usize, out: &mut Vec<u32>)
    requires
        n <= PAGE_CAP,
        page@.len() == PAGE_BYTES,
    ensures
        final(out)@ == old(out)@ + page_ids_at(page@, 0, n as nat),
{
    let mut k: usize = 0;
    while k < n
        invariant
            k <= n <= PAGE_CAP,
            page@.len() == PAGE_BYTES,
            out@ == old(out)@ + page_ids_at(page@, 0, k as nat),
        decreases n - k,
    {
        out.push(crate::bytes::read_u32_le(page, 4 + 4 * k));
        k = k + 1;
        assert(out@ =~= old(out)@ + page_ids_at(page@, 0, k as nat));
    }
}

/// Follows the pages from the one at `head`, through the open cursor
/// `cursor`, and collects their ids.  Returns where the last page stands and
/// how many ids it holds.
fn walk(bufman: &mut BufferManager, cursor: u64, head: u32, ids: &mut Vec<u32>) -> (r: Result<
    (u32, u32),
    BufIoError,
>)
    requires
        old(bufman)@.is_open(cursor),
        old(ids)@.len() == 0,
    ensures
        final(bufman)@.bytes == old(bufman)@.bytes,
        final(bufman)@.cursors.len() == old(bufman)@.cursors.len(),
        final(bufman)@.is_open(cursor),
        forall|i: int|
            0 <= i < old(bufman)@.cursors.len() && i != cursor ==> final(bufman)@.cursors[i]
                == old(bufman)@.cursors[i],
        match parse_pool(old(bufman)@.bytes, head) {
            Ok(image) => r matches Ok((tail, tail_len)) && final(ids)@ == image.ids && tail
                == image.pages.last() && tail_len == page_len_at(
                old(bufman)@.bytes,
                tail as int,
            ) && tail_len <= PAGE_CAP,
            Err(e) => r matches Err(err) && err == e,
        },
{
    let ghost file = bufman@.bytes;
    let ghost goal = parse_pool(file, head);
    let ghost mut pages: Seq<u32> = Seq::empty();
    let total = bufman.file_len();
    let mut at: u32 = head;
    loop
        invariant
            bufman@.bytes == file,
            file == old(bufman)@.bytes,
            total == file.len(),
            bufman@.cursors.len() == old(bufman)@.cursors.len(),
            bufman@.is_open(cursor),
            forall|i: int|
                0 <= i < old(bufman)@.cursors.len() && i != cursor ==> bufman@.cursors[i]
                    == old(bufman)@.cursors[i],
            goal == parse_pool(file, head),
            goal == prepend_pages(ids@, pages, parse_pool(file, at)),
        decreases file.len() - at,
    {
        if at as u64 + PAGE_BYTES as u64 > MAX_FILE_LEN {
            return Err(BufIoError::CorruptChain);
        }
        let sought = bufman.seek_with_cursor(cursor, at as u64);
        assert(sought is Ok);
        let page = match bufman.read_with_cursor(cursor, PAGE_BYTES) {
            Ok(page) => page,
            Err(_) => { return Err(BufIoError::CorruptChain); },
        };
        proof {
            lemma_fields_of_page_copy(file, at as int, page@);
        }
        let len = crate::bytes::read_u32_le(page.as_slice(), 0);
        let next = crate::bytes::read_u32_le(page.as_slice(), PAGE_NEXT_AT);
        if len > PAGE_CAP as u32 {
            return Err(BufIoError::CorruptChain);
        }
        let ghost before_ids = ids@;
        if next == 0 {
            decode_ids(page.as_slice(), len as usize, ids);
            proof {
                assert(ids@ =~= before_ids + page_ids_at(file, at as int, len as nat));
                assert((pages + seq![at]).last() == at);
            }
            return Ok((at, len));
        }
        if len != PAGE_CAP as u32 || (next as u64) < at as u64 + PAGE_BYTES as u64 || next as u64
            + PAGE_BYTES as u64 > total as u64 {
            return Err(BufIoError::CorruptChain);
        }
        decode_ids(page.as_slice(), PAGE_CAP, ids);
        proof {
            let held = page_ids_at(file, at as int, PAGE_CAP as nat);
            let further = parse_pool(file, next);
            assert(parse_pool(file, at) == prepend_pages(held, seq![at], further));
            match further {
                Ok(image) => {
                    assert((before_ids + held) + image.ids =~= before_ids + (held + image.ids));
                    assert((pages + seq![at]) + image.pages =~= pages + (seq![at] + image.pages));
                },
                Err(_) => {},
            }
            assert(ids@ =~= before_ids + held);
            pages = pages + seq![at];
        }
        at = next;
    }
}

/// A posting list in a data file: where its first and its last page stand,
/// and how many ids the last page holds.
#[derive(Debug, Clone, Copy, PartialEq, Eq)]
pub struct PagePool {
    pub head: FileOffset,
    pub tail: FileOffset,
    pub tail_len: u32,
}

impl PagePool {
    /// Whether the list stands in `file` as the handle says: the chain from
    /// `head` is read and ends in the page at `tail`, which holds `tail_len`
    /// ids.
    pub open spec fn stands(&self, file: Seq<u8>) -> bool {
        &&& parse_pool(file, self.head.0) is Ok
        &&& parse_pool(file, self.head.0).unwrap().pages.last() == self.tail.0
        &&& page_len_at(file, self.tail.0 as int) == self.tail_len
    }

    /// The ids of the list in `file`.
    pub open spec fn ids(&self, file: Seq<u8>) -> Seq<u32> {
        parse_pool(file, self.head.0).unwrap().ids
    }

    /// Whether an id can be appended with an allocator that stands at
    /// `next_offset`: the last page has room, or the allocator can give a
    /// page behind it.
    pub open spec fn can_push(&self, next_offset: u32) -> bool {
        self.tail_len < PAGE_CAP || (self.tail.0 + PAGE_BYTES <= next_offset && next_offset
            + PAGE_BYTES <= MAX_FILE_LEN)
    }

    /// The handle after an id was appended.
    pub open spec fn after_push(&self, next_offset: u32) -> PagePool {
        if self.tail_len < PAGE_CAP {
            PagePool { tail_len: (self.tail_len + 1) as u32, ..*self }
        } else {
            PagePool { head: self.head, tail: FileOffset(next_offset), tail_len: 1 }
        }
    }

    /// The file after `doc_id` was appended: the id and the new count in the
    /// last page, or a new page and the link to it.
    pub open spec fn file_after_push(&self, file: Seq<u8>, next_offset: u32, doc_id: u32) -> Seq<
        u8,
    > {
        if self.tail_len < PAGE_CAP {
            overwrite(
                overwrite(file, self.tail.0 + 4 + 4 * self.tail_len, u32_le_bytes(doc_id)),
                self.tail.0 as int,
                u32_le_bytes((self.tail_len + 1) as u32),
            )
        } else {
            overwrite(
                overwrite(file, next_offset as int, page_bytes(seq![doc_id], 0)),
                self.tail.0 + PAGE_NEXT_AT,
                u32_le_bytes(next_offset),
            )
        }
    }

    /// Appending an id leaves a list that holds the ids it held, in their
    /// order, and the new id behind them.
    pub proof fn lemma_push_appends(self, file: Seq<u8>, next_offset: u32, doc_id: u32)
        requires
            self.stands(file),
            self.can_push(next_offset),
        ensures
            self.after_push(next_offset).stands(self.file_after_push(file, next_offset, doc_id)),
            self.after_push(next_offset).ids(self.file_after_push(file, next_offset, doc_id))
                == self.ids(file).push(doc_id),
    {
        let head = self.head.0;
        let tail = self.tail.0;
        let n = self.tail_len as int;
        let image = parse_pool(file, head).unwrap();
        let changed = self.file_after_push(file, next_offset, doc_id);
        lemma_pages_ascend(file, head);
        lemma_ids_split_at_tail(file, head);
        lemma_pages_ascend(file, tail);
        let last = parse_pool(file, tail).unwrap();
        assert(last.pages.len() == 1);
        assert(page_next_at(file, tail as int) == 0);
        let held = page_ids_at(file, tail as int, n as nat);
        assert(last.ids == held);
        if n < PAGE_CAP {
            let first = overwrite(file, tail + 4 + 4 * n, u32_le_bytes(doc_id));
            assert(changed == overwrite(first, tail as int, u32_le_bytes((n + 1) as u32)));
            assert(changed.len() == file.len());
            lemma_u32_at(changed, tail as int, (n + 1) as u32);
            let q = tail + PAGE_NEXT_AT;
            assert(changed[q] == file[q] && changed[q + 1] == file[q + 1] && changed[q + 2]
                == file[q + 2] && changed[q + 3] == file[q + 3]);
            assert(page_next_at(changed, tail as int) == 0);
            assert forall|k: int| 0 <= k < n + 1 implies #[trigger] page_ids_at(
                changed,
                tail as int,
                (n + 1) as nat,
            )[k] == held.push(doc_id)[k] by {
                let p = tail + 4 + 4 * k;
                if k < n {
                    assert(changed[p] == file[p] && changed[p + 1] == file[p + 1] && changed[p
                        + 2] == file[p + 2] && changed[p + 3] == file[p + 3]);
                } else {
                    lemma_u32_at(changed, p, doc_id);
                }
            }
            assert(page_ids_at(changed, tail as int, (n + 1) as nat) =~= held.push(doc_id));
            let rest = PoolImage { ids: held.push(doc_id), pages: seq![tail] };
            assert(parse_pool(changed, tail) == (Ok::<PoolImage, BufIoError>(rest)));
            lemma_replace_tail(file, changed, head, rest);
            assert(ids_before_tail(image) + held.push(doc_id) =~= (ids_before_tail(image)
                + held).push(doc_id));
            assert((image.pages.drop_last() + seq![tail]).last() == tail);
        } else {
            let first = overwrite(file, next_offset as int, page_bytes(seq![doc_id], 0));
            assert(changed == overwrite(first, tail + PAGE_NEXT_AT, u32_le_bytes(next_offset)));
            crate::bytes::lemma_overwrite_reads_back(
                file,
                next_offset as int,
                page_bytes(seq![doc_id], 0),
            );
            assert(changed.len() >= next_offset + PAGE_BYTES && changed.len() >= file.len());
            assert(changed.subrange(next_offset as int, next_offset + PAGE_BYTES) =~= page_bytes(
                seq![doc_id],
                0,
            ));
            lemma_page_round_trip(changed, next_offset as int, seq![doc_id], 0);
            let fresh = PoolImage { ids: seq![doc_id], pages: seq![next_offset] };
            assert(parse_pool(changed, next_offset) == (Ok::<PoolImage, BufIoError>(fresh)));
            lemma_u32_at(changed, tail + PAGE_NEXT_AT, next_offset);
            assert(page_next_at(changed, tail as int) == next_offset);
            assert(changed[tail as int] == file[tail as int] && changed[tail + 1] == file[tail
                + 1] && changed[tail + 2] == file[tail + 2] && changed[tail + 3] == file[tail
                + 3]);
            assert(page_len_at(changed, tail as int) == PAGE_CAP);
            assert forall|k: int| 0 <= k < PAGE_CAP implies #[trigger] page_ids_at(
                changed,
                tail as int,
                PAGE_CAP as nat,
            )[k] == held[k] by {
                let p = tail + 4 + 4 * k;
                assert(changed[p] == file[p] && changed[p + 1] == file[p + 1] && changed[p + 2]
                    == file[p + 2] && changed[p + 3] == file[p + 3]);
            }
            assert(page_ids_at(changed, tail as int, PAGE_CAP as nat) =~= held);
            let rest = PoolImage { ids: held + seq![doc_id], pages: seq![tail] + seq![next_offset] };
            assert(parse_pool(changed, tail) == (Ok::<PoolImage, BufIoError>(rest)));
            lemma_replace_tail(file, changed, head, rest);
            assert(ids_before_tail(image) + (held + seq![doc_id]) =~= (ids_before_tail(image)
                + held).push(doc_id));
            assert((image.pages.drop_last() + (seq![tail] + seq![next_offset])).last()
                == next_offset);
            lemma_u32_at(changed, next_offset as int, 1u32);
        }
    }

    /// Makes an empty list: one empty page, at a place that
    /// `offset_counter` hands out.  Nothing is done where the allocator has
    /// no room for a page.
    pub fn create(bufman: &mut BufferManager, offset_counter: &mut OffsetCounter) -> (r: Result<
        PagePool,
        BufIoError,
    >)
        requires
            old(offset_counter).wf(),
        ensures
            final(offset_counter).wf(),
            r is Ok <==> old(offset_counter).value() + PAGE_BYTES <= MAX_FILE_LEN,
            r matches Ok(pool) ==> {
                &&& pool == (PagePool {
                    head: FileOffset(old(offset_counter).value()),
                    tail: FileOffset(old(offset_counter).value()),
                    tail_len: 0,
                })
                &&& final(offset_counter).value() == old(offset_counter).value() + PAGE_BYTES
                &&& final(offset_counter).granted() == old(offset_counter).granted().push(
                    ByteRange {
                        start: old(offset_counter).value() as int,
                        size: PAGE_BYTES as int,
                    },
                )
                &&& final(bufman)@.bytes == overwrite(
                    old(bufman)@.bytes,
                    old(offset_counter).value() as int,
                    page_bytes(Seq::empty(), 0),
                )
                &&& final(bufman)@.cursors == old(bufman)@.cursors.push(None)
                &&& pool.stands(final(bufman)@.bytes)
                &&& pool.ids(final(bufman)@.bytes) == Seq::<u32>::empty()
            },
            r matches Err(e) ==> {
                &&& e == BufIoError::Io
                &&& final(offset_counter).value() == old(offset_counter).value()
                &&& final(offset_counter).granted() == old(offset_counter).granted()
                &&& final(bufman)@ == old(bufman)@
            },
    {
        let at = match offset_counter.fetch_add(PAGE_BYTES as u32) {
            Ok(at) => at,
            Err(e) => { return Err(e); },
        };
        let ids: Vec<u32> = Vec::new();
        let page = encode_page(&ids, 0);
        let cursor = bufman.open_cursor();
        let sought = bufman.seek_with_cursor(cursor, at as u64);
        assert(sought is Ok);
        let wrote = bufman.update_with_cursor(cursor, page.as_slice());
        assert(wrote is Ok);
        let closed = bufman.close_cursor(cursor);
        assert(closed is Ok);
        proof {
            assert(bufman@.cursors =~= old(bufman)@.cursors.push(None));
            let file = bufman@.bytes;
            crate::bytes::lemma_overwrite_reads_back(
                old(bufman)@.bytes,
                at as int,
                page_bytes(Seq::empty(), 0),
            );
            lemma_page_round_trip(file, at as int, Seq::empty(), 0);
            assert(page_ids_at(file, at as int, 0) =~= Seq::<u32>::empty());
            assert(seq![at].last() == at);
        }
        Ok(PagePool { head: FileOffset(at), tail: FileOffset(at), tail_len: 0 })
    }

    /// Finds the list whose first page stands at `head`, by following its
    /// pages to the last.  It reads through a cursor of its own, which it
    /// closes again.
    pub fn open(bufman: &mut BufferManager, head: FileOffset) -> (r: Result<PagePool, BufIoError>)
        ensures
            final(bufman)@.bytes == old(bufman)@.bytes,
            final(bufman)@.cursors == old(bufman)@.cursors.push(None),
            r is Ok <==> parse_pool(old(bufman)@.bytes, head.0) is Ok,
            r matches Ok(pool) ==> pool.head == head && pool.stands(old(bufman)@.bytes),
            r matches Err(e) ==> e == BufIoError::CorruptChain,
    {
        let cursor = bufman.open_cursor();
        let mut ids: Vec<u32> = Vec::new();
        let walked = walk(bufman, cursor, head.0, &mut ids);
        let closed = bufman.close_cursor(cursor);
        assert(closed is Ok);
        assert(bufman@.cursors =~= old(bufman)@.cursors.push(None));
        proof {
            lemma_parse_pool_errors(old(bufman)@.bytes, head.0);
        }
        match walked {
            Ok((tail, tail_len)) => Ok(PagePool { head, tail: FileOffset(tail), tail_len }),
            Err(e) => Err(e),
        }
    }

    /// The ids of the list whose first page stands at `head`, in their
    /// order.  It reads through a cursor of its own, which it closes again.
    pub fn collect(bufman: &mut BufferManager, head: FileOffset) -> (r: Result<Vec<u32>, BufIoError>)
        ensures
            final(bufman)@.bytes == old(bufman)@.bytes,
            final(bufman)@.cursors == old(bufman)@.cursors.push(None),
            match parse_pool(old(bufman)@.bytes, head.0) {
                Ok(image) => r matches Ok(ids) && ids@ == image.ids,
                Err(_) => r matches Err(e) && e == BufIoError::CorruptChain,
            },
    {
        let cursor = bufman.open_cursor();
        let mut ids: Vec<u32> = Vec::new();
        let walked = walk(bufman, cursor, head.0, &mut ids);
        let closed = bufman.close_cursor(cursor);
        assert(closed is Ok);
        assert(bufman@.cursors =~= old(bufman)@.cursors.push(None));
        proof {
            lemma_parse_pool_errors(old(bufman)@.bytes, head.0);
        }
        match walked {
            Ok(_) => Ok(ids),
            Err(e) => Err(e),
        }
    }

    /// Appends `doc_id` to the list: into the last page if it has room, else
    /// into a new page behind it, which `offset_counter` hands out and the
    /// last page is linked to.  It writes through a cursor of its own, which
    /// it closes again.  Either all of this is done or, on an error, nothing.
    pub fn push(
        &mut self,
        bufman: &mut BufferManager,
        offset_counter: &mut OffsetCounter,
        doc_id: u32,
    ) -> (r: Result<(), BufIoError>)
        requires
            old(self).stands(old(bufman)@.bytes),
            old(offset_counter).wf(),
        ensures
            final(offset_counter).wf(),
            r is Ok <==> old(self).can_push(old(offset_counter).value()),
            r is Ok ==> {
                &&& *final(self) == old(self).after_push(old(offset_counter).value())
                &&& final(bufman)@.bytes == old(self).file_after_push(
                    old(bufman)@.bytes,
                    old(offset_counter).value(),
                    doc_id,
                )
                &&& final(bufman)@.cursors == old(bufman)@.cursors.push(None)
                &&& final(self).stands(final(bufman)@.bytes)
                &&& final(self).ids(final(bufman)@.bytes) == old(self).ids(
                    old(bufman)@.bytes,
                ).push(doc_id)
                &&& final(offset_counter).value() == if old(self).tail_len < PAGE_CAP {
                    old(offset_counter).value() as int
                } else {
                    old(offset_counter).value() + PAGE_BYTES
                }
                &&& final(offset_counter).granted() == if old(self).tail_len < PAGE_CAP {
                    old(offset_counter).granted()
                } else {
                    old(offset_counter).granted().push(
                        ByteRange {
                            start: old(offset_counter).value() as int,
                            size: PAGE_BYTES as int,
                        },
                    )
                }
            },
            r matches Err(e) ==> {
                &&& e == BufIoError::Io
                &&& *final(self) == *old(self)
                &&& final(bufman)@ == old(bufman)@
                &&& final(offset_counter).value() == old(offset_counter).value()
                &&& final(offset_counter).granted() == old(offset_counter).granted()
            },
    {
        let ghost file = bufman@.bytes;
        let ghost value = offset_counter.value();
        proof {
            lemma_pages_ascend(file, self.head.0);
            if self.can_push(value) {
                self.lemma_push_appends(file, value, doc_id);
            }
        }
        let tail = self.tail.0;
        if self.tail_len < PAGE_CAP as u32 {
            let cursor = bufman.open_cursor();
            let sought = bufman.seek_with_cursor(
                cursor,
                tail as u64 + 4 + 4 * self.tail_len as u64,
            );
            assert(sought is Ok);
            let wrote = bufman.update_u32_with_cursor(cursor, doc_id);
            assert(wrote is Ok);
            let sought = bufman.seek_with_cursor(cursor, tail as u64);
            assert(sought is Ok);
            let wrote = bufman.update_u32_with_cursor(cursor, self.tail_len + 1);
            assert(wrote is Ok);
            let closed = bufman.close_cursor(cursor);
            assert(closed is Ok);
            assert(bufman@.cursors =~= old(bufman)@.cursors.push(None));
            self.tail_len = self.tail_len + 1;
            Ok(())
        } else {
            let next_offset = offset_counter.load();
            if (next_offset as u64) < tail as u64 + PAGE_BYTES as u64 {
                return Err(BufIoError::Io);
            }
            let at = match offset_counter.fetch_add(PAGE_BYTES as u32) {
                Ok(at) => at,
                Err(e) => { return Err(e); },
            };
            let mut ids: Vec<u32> = Vec::new();
            ids.push(doc_id);
            assert(ids@ =~= seq![doc_id]);
            let page = encode_page(&ids, 0);
            let cursor = bufman.open_cursor();
            let sought = bufman.seek_with_cursor(cursor, at as u64);
            assert(sought is Ok);
            let wrote = bufman.update_with_cursor(cursor, page.as_slice());
            assert(wrote is Ok);
            let sought = bufman.seek_with_cursor(cursor, tail as u64 + PAGE_NEXT_AT as u64);
            assert(sought is Ok);
            let wrote = bufman.update_u32_with_cursor(cursor, at);
            assert(wrote is Ok);
            let closed = bufman.close_cursor(cursor);
            assert(closed is Ok);
            assert(bufman@.cursors =~= old(bufman)@.cursors.push(None));
            self.tail = FileOffset(at);
            self.tail_len = 1;
            Ok(())
        }
    }
}

/// A chain that is not read is broken: no other error comes of following
/// pages.
pub proof fn lemma_parse_pool_errors(file: Seq<u8>, at: u32)
    ensures
        parse_pool(file, at) matches Err(e) ==> e == BufIoError::CorruptChain,
    decreases file.len() - at,
{
    if at + PAGE_BYTES <= file.len() && at + PAGE_BYTES <= MAX_FILE_LEN {
        let len = page_len_at(file, at as int);
        let next = page_next_at(file, at as int);
        if len <= PAGE_CAP && next != 0 && len == PAGE_CAP && next >= at + PAGE_BYTES && next
            + PAGE_BYTES <= file.len() {
            lemma_parse_pool_errors(file, next);
        }
    }
}

} // verus!
