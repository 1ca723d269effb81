//! Fixed-size pages and their slot bitmap.

use vstd::prelude::*;

verus! {

/// Size in bytes of one page of a heap file.
pub const PAGE_SIZE: usize = 4096;

/// Size in bytes of the page header, which holds the slot bitmap.
pub const HEADER_SIZE: usize = 64;

/// Whether bit `bit` of `byte` is set, counting from the least significant bit.
pub open spec fn bit_set(byte: u8, bit: u8) -> bool {
    byte & (1u8 << bit) != 0
}

/// `byte` with bit `bit` set or cleared, counting from the least significant bit.
pub open spec fn with_bit(byte: u8, bit: u8, on: bool) -> u8 {
    if on {
        byte | (1u8 << bit)
    } else {
        byte & !(1u8 << bit)
    }
}

/// Whether slot `slot` is marked live in the bitmap that starts at byte 0 of `data`.
pub open spec fn slot_full(data: Seq<u8>, slot: int) -> bool {
    bit_set(data[slot / 8], (slot % 8) as u8)
}

/// `data` after marking slot `slot` live (`on`) or free.
pub open spec fn mark_slot(data: Seq<u8>, slot: int, on: bool) -> Seq<u8> {
    data.update(slot / 8, with_bit(data[slot / 8], (slot % 8) as u8, on))
}

/// Offset of the first byte of slot `slot` for rows of `row_size` bytes.
pub open spec fn row_offset(slot: int, row_size: int) -> int {
    HEADER_SIZE as int + slot * row_size
}

/// `page` with `bytes` written over it from offset `at` on.
pub open spec fn put_bytes(page: Seq<u8>, at: int, bytes: Seq<u8>) -> Seq<u8> {
    Seq::new(
        page.len(),
        |i: int|
            if at <= i < at + bytes.len() {
                bytes[i - at]
            } else {
                page[i]
            },
    )
}

/// Writing one bit of a byte gives that bit its new value and leaves the other seven alone.
pub proof fn lemma_with_bit(byte: u8, bit: u8, on: bool, other: u8)
    requires
        bit < 8,
        other < 8,
    ensures
        bit_set(with_bit(byte, bit, on), other) == (if other == bit {
            on
        } else {
            bit_set(byte, other)
        }),
{
    assert((byte | (1u8 << bit)) & (1u8 << other) != 0 <==> (other == bit || byte & (1u8 << other)
        != 0)) by (bit_vector)
        requires
            bit < 8,
            other < 8,
    ;
    assert((byte & !(1u8 << bit)) & (1u8 << other) != 0 <==> (other != bit && byte & (1u8 << other)
        != 0)) by (bit_vector)
        requires
            bit < 8,
            other < 8,
    ;
}

/// Marking a slot gives it the requested state and changes no other slot.
pub proof fn lemma_mark_slot(data: Seq<u8>, slot: int, on: bool, other: int)
    requires
        0 <= slot < 8 * data.len(),
        0 <= other < 8 * data.len(),
    ensures
        slot_full(mark_slot(data, slot, on), other) == (if other == slot {
            on
        } else {
            slot_full(data, other)
        }),
{
    if other / 8 == slot / 8 {
        lemma_with_bit(data[slot / 8], (slot % 8) as u8, on, (other % 8) as u8);
    }
}

/// The bytes of a page that has never been written: all zero.
pub open spec fn blank_page() -> Seq<u8> {
    Seq::new(PAGE_SIZE as nat, |i: int| 0u8)
}

/// Every slot of a blank page is free.
pub proof fn lemma_blank_page_free(slot: int)
    requires
        0 <= slot < 8 * PAGE_SIZE,
    ensures
        !slot_full(blank_page(), slot),
{
    let bit = (slot % 8) as u8;
    assert(0u8 & (1u8 << bit) == 0) by (bit_vector);
}

/// One page of a heap file, held in memory.
pub struct Page {
    pub data: [u8; PAGE_SIZE],
}

impl Page {
    /// A page of zero bytes: every slot is free.
    pub fn new() -> (page: Self)
        ensures
            page.data@ == blank_page(),
    {
        let page = Self { data: [0;PAGE_SIZE] };
        assert(page.data@ =~= blank_page());
        page
    }

    /// Offset of slot `slot_index` within the page.
    pub fn get_row_offset(&self, slot_index: usize, row_size: usize) -> (offset: usize)
        requires
            row_offset(slot_index as int, row_size as int) <= usize::MAX,
        ensures
            offset == row_offset(slot_index as int, row_size as int),
    {
        assert(slot_index * row_size <= usize::MAX - HEADER_SIZE) by (nonlinear_arith)
            requires
                HEADER_SIZE as int + slot_index as int * row_size as int <= usize::MAX,
        ;
        HEADER_SIZE + (slot_index * row_size)
    }

    /// Whether slot `slot_index` is marked live.
    pub fn is_slot_full(&self, slot_index: usize) -> (full: bool)
        requires
            slot_index < 8 * PAGE_SIZE,
        ensures
            full == slot_full(self.data@, slot_index as int),
    {
        let byte_idx: usize = slot_index / 8;
        let bit_idx: usize = slot_index % 8;
        self.data[byte_idx] & (1u8 << bit_idx) != 0
    }

    /// Marks slot `slot_index` live or free; every other slot keeps its state.
    pub fn set_slot(&mut self, slot_index: usize, occupied: bool)
        requires
            slot_index < 8 * PAGE_SIZE,
        ensures
            final(self).data@ == mark_slot(old(self).data@, slot_index as int, occupied),
            forall|j: int|
                0 <= j < 8 * PAGE_SIZE ==> #[trigger] slot_full(final(self).data@, j) == (if j
                    == slot_index {
                    occupied
                } else {
                    slot_full(old(self).data@, j)
                }),
    {
        let byte_idx: usize = slot_index / 8;
        let bit_idx: usize = slot_index % 8;
        let byte: u8 = self.data[byte_idx];
        if occupied {
            self.data[byte_idx] = byte | (1u8 << bit_idx);
        } else {
            self.data[byte_idx] = byte & !(1u8 << bit_idx);
        }
        proof {
            assert(self.data@ =~= mark_slot(old(self).data@, slot_index as int, occupied));
            assert forall|j: int| 0 <= j < 8 * PAGE_SIZE implies #[trigger] slot_full(
                self.data@,
                j,
            ) == (if j == slot_index {
                occupied
            } else {
                slot_full(old(self).data@, j)
            }) by {
                lemma_mark_slot(old(self).data@, slot_index as int, occupied, j);
            }
        }
    }
}

impl Page {
    /// Copies `bytes` into the page from offset `offset` on.
    pub fn write_bytes(&mut self, offset: usize, bytes: &Vec<u8>)
        requires
            offset + bytes@.len() <= PAGE_SIZE,
        ensures
            final(self).data@ == put_bytes(old(self).data@, offset as int, bytes@),
    {
        let mut i: usize = 0;
        while i < bytes.len()
            invariant
                i <= bytes@.len(),
                offset + bytes@.len() <= PAGE_SIZE,
                self.data@ == put_bytes(old(self).data@, offset as int, bytes@.take(i as int)),
            decreases bytes.len() - i,
        {
            self.data[offset + i] = bytes[i];
            i += 1;
            assert(self.data@ =~= put_bytes(old(self).data@, offset as int, bytes@.take(i as int)));
        }
        assert(bytes@.take(bytes@.len() as int) =~= bytes@);
    }
}

impl Clone for Page {
    fn clone(&self) -> (copy: Self)
        ensures
            copy.data@ == self.data@,
    {
        Page { data: self.data }
    }
}

/// The bytes of page `i` of a file with pages `pages`; a page past the end reads as blank.
pub open spec fn page_at(pages: Seq<Seq<u8>>, i: int) -> Seq<u8> {
    if 0 <= i < pages.len() {
        pages[i]
    } else {
        blank_page()
    }
}

/// The pages of a file after page `i` is written with `data`. Writing past
/// the end extends the file, and the pages in between are blank.
pub open spec fn write_at(pages: Seq<Seq<u8>>, i: int, data: Seq<u8>) -> Seq<Seq<u8>> {
    Seq::new(
        if i < pages.len() {
            pages.len()
        } else {
            (i + 1) as nat
        },
        |k: int|
            if k == i {
                data
            } else {
                page_at(pages, k)
            },
    )
}

/// The largest number of pages whose total length in bytes still fits in 64 bits.
pub open spec fn max_pages() -> int {
    u64::MAX as int / PAGE_SIZE as int
}

/// A heap file: its pages, and which of them were written since the file was last flushed.
pub struct Pager {
    /// The pages of the file, in order.
    pub pages: Vec<Page>,
    /// The indices of the pages written since the last flush, oldest first.
    pub written: Vec<usize>,
    /// The length of the file in bytes.
    pub file_length: u64,
}

impl View for Pager {
    type V = Seq<Seq<u8>>;

    /// The content of the file, page by page.
    open spec fn view(&self) -> Seq<Seq<u8>> {
        Seq::new(self.pages@.len(), |i: int| self.pages@[i].data@)
    }
}

impl Pager {
    /// Whether the recorded length is that of the pages: the file is as long
    /// as its pages together, a multiple of the page size.
    pub open spec fn wf(&self) -> bool {
        self.file_length == self.pages@.len() * PAGE_SIZE
    }

    /// Opens a heap file that holds `pages`; nothing counts as written yet.
    pub fn open(pages: Vec<Page>) -> (pager: Self)
        requires
            pages@.len() <= max_pages(),
        ensures
            pager.wf(),
            pager.pages == pages,
            pager.written@.len() == 0,
    {
        let count: usize = pages.len();
        let file_length: u64 = (count as u64) * (PAGE_SIZE as u64);
        Self { pages, written: Vec::new(), file_length }
    }

    /// Number of pages in the file.
    pub fn num_pages(&self) -> (count: usize)
        requires
            self.wf(),
        ensures
            count == self@.len(),
            count * PAGE_SIZE == self.file_length,
    {
        let page_size: u64 = PAGE_SIZE as u64;
        let count: u64 = self.file_length / page_size;
        assert(count == self.pages@.len()) by {
            assert(self.file_length == self.pages@.len() * 4096);
            assert(page_size == 4096);
        }
        assert(self.pages@.len() == self.pages.len() <= usize::MAX);
        assert(self@.len() == self.pages@.len());
        count as usize
    }

    /// A copy of page `page_index`. A page past the end of the file reads as blank.
    pub fn read_page(&self, page_index: usize) -> (page: Page)
        ensures
            page.data@ == page_at(self@, page_index as int),
    {
        if page_index < self.pages.len() {
            self.pages[page_index].clone()
        } else {
            Page::new()
        }
    }

    /// Writes `page` as page `page_index`, extending the file with blank
    /// pages if it ends before that page, and notes the page as written.
    pub fn write_page(&mut self, page_index: usize, page: &Page)
        requires
            old(self).wf(),
            page_index < max_pages(),
        ensures
            final(self).wf(),
            final(self)@ == write_at(old(self)@, page_index as int, page.data@),
            final(self).written@ == old(self).written@.push(page_index),
    {
        while self.pages.len() < page_index
            invariant
                self.written == old(self).written,
                self.pages@.len() >= old(self).pages@.len(),
                self.pages@.len() <= old(self).pages@.len() || self.pages@.len() <= page_index,
                forall|k: int|
                    0 <= k < self.pages@.len() ==> (#[trigger] self.pages@[k]).data@ == page_at(
                        old(self)@,
                        k,
                    ),
            decreases page_index - self.pages.len(),
        {
            self.pages.push(Page::new());
        }
        if page_index < self.pages.len() {
            self.pages[page_index] = page.clone();
        } else {
            self.pages.push(page.clone());
        }
        self.written.push(page_index);
        let count: usize = self.pages.len();
        assert(old(self).file_length == old(self).pages@.len() * 4096);
        assert(count <= old(self).pages@.len() || count <= page_index + 1);
        assert(count * 4096 <= u64::MAX);
        self.file_length = (count as u64) * (PAGE_SIZE as u64);
        assert(self@ =~= write_at(old(self)@, page_index as int, page.data@));
    }

    /// The indices of the pages written since the last flush, oldest first.
    /// After this call none counts as written.
    pub fn take_written(&mut self) -> (written: Vec<usize>)
        ensures
            written == old(self).written,
            final(self).written@.len() == 0,
            final(self).pages == old(self).pages,
            final(self).file_length == old(self).file_length,
    {
        let mut written: Vec<usize> = Vec::new();
        std::mem::swap(&mut written, &mut self.written);
        written
    }
}

/// The length of a well-formed heap file is its number of pages times the
/// page size, and so a multiple of the page size.
pub proof fn lemma_file_length(pager: Pager)
    requires
        pager.wf(),
    ensures
        pager.file_length == pager@.len() * PAGE_SIZE,
        pager.file_length as int % PAGE_SIZE as int == 0,
        pager.file_length as int / PAGE_SIZE as int == pager@.len(),
{
    assert(pager.file_length == pager.pages@.len() * 4096);
    assert(pager@.len() == pager.pages@.len());
    assert(PAGE_SIZE == 4096);
}

} // verus!
