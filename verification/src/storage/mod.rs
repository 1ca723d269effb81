//! The heap-file storage layer.

pub mod heap;
pub mod pager;
pub mod record;

use crate::catalog::schema::{Schema, SchemaView};
use crate::index::{PrimaryIndex, duplicate_key_message};
use crate::seqs::{first_where, lemma_first_where_is};
use crate::storage::pager::{
    HEADER_SIZE, PAGE_SIZE, Page, Pager, mark_slot, max_pages, page_at, put_bytes, row_offset,
    slot_full, write_at,
};
use crate::storage::record::{FieldView, Row, decode_row, encode_row, row_views};
use vstd::prelude::*;
use vstd::slice::slice_subrange;

verus! {

impl SchemaView {
    /// Whether a heap file of rows of this schema can be read: a row has at
    /// least one byte, and its size fits the machine's word.
    pub open spec fn readable(self) -> bool {
        0 < self.row_size() <= usize::MAX
    }

    /// Whether rows of this schema can be stored: a row has at least one
    /// byte, and a page has room for at least one row after its header.
    pub open spec fn storable(self) -> bool {
        0 < self.row_size() <= PAGE_SIZE - HEADER_SIZE
    }

    /// Number of slots in each page of the table's heap file.
    pub open spec fn max_slots(self) -> nat {
        ((PAGE_SIZE - HEADER_SIZE) as int / self.row_size() as int) as nat
    }

    /// The string that the primary-key index holds for a row with fields
    /// `fields`, if the table has a primary key.
    pub open spec fn primary_key(self, fields: Seq<FieldView>) -> Option<Seq<char>> {
        match self.primary_index() {
            Some(i) => Some(fields[i].key_text()),
            None => None,
        }
    }
}

/// The bytes of slot `slot` of `page`, for rows of `row_size` bytes.
pub open spec fn slot_bytes(page: Seq<u8>, slot: int, row_size: int) -> Seq<u8> {
    page.subrange(row_offset(slot, row_size), row_offset(slot, row_size) + row_size)
}

/// `page` after slot `slot` is marked live and given the bytes `bytes`.
pub open spec fn put_row(page: Seq<u8>, slot: int, bytes: Seq<u8>) -> Seq<u8> {
    put_bytes(mark_slot(page, slot, true), row_offset(slot, bytes.len() as int), bytes)
}

/// The live slots among the first `n` slots of `page`, in ascending order.
pub open spec fn page_slots(page: Seq<u8>, n: nat) -> Seq<usize>
    decreases n,
{
    if n == 0 {
        Seq::empty()
    } else {
        let before = page_slots(page, (n - 1) as nat);
        if slot_full(page, n - 1) {
            before.push((n - 1) as usize)
        } else {
            before
        }
    }
}

/// The live slots of the first `k` pages of `pages`, each as its page and
/// slot, by ascending page and within a page by ascending slot. Each page
/// has `per_page` slots.
pub open spec fn heap_slots(pages: Seq<Seq<u8>>, per_page: nat, k: nat) -> Seq<(usize, usize)>
    decreases k,
{
    if k == 0 {
        Seq::empty()
    } else {
        heap_slots(pages, per_page, (k - 1) as nat) + page_slots(pages[k - 1], per_page).map_values(
            |slot: usize| ((k - 1) as usize, slot),
        )
    }
}

/// The row stored at `place`, a page and a slot, of a heap file with pages
/// `pages` and rows of schema `schema`.
pub open spec fn stored_row(pages: Seq<Seq<u8>>, schema: SchemaView, place: (usize, usize)) -> Seq<
    FieldView,
> {
    decode_row(
        slot_bytes(page_at(pages, place.0 as int), place.1 as int, schema.row_size() as int),
        schema.columns,
    )
}

/// All live slots of a heap file with pages `pages` and rows of schema `schema`.
pub open spec fn live_places(pages: Seq<Seq<u8>>, schema: SchemaView) -> Seq<(usize, usize)> {
    heap_slots(pages, schema.max_slots(), pages.len())
}

/// The rows of a heap file: the row of each live slot, by ascending page
/// and within a page by ascending slot.
pub open spec fn heap_rows(pages: Seq<Seq<u8>>, schema: SchemaView) -> Seq<Seq<FieldView>> {
    live_places(pages, schema).map_values(|place: (usize, usize)| stored_row(pages, schema, place))
}

/// The first free slot among the first `n` slots of `page`, or `n` if all are live.
pub open spec fn free_slot(page: Seq<u8>, n: nat) -> int {
    first_where(Seq::new(n, |slot: int| slot_full(page, slot)), |full: bool| !full)
}

/// Where the next row goes: the first page that has a free slot, with its
/// first free slot; if no page has one, slot 0 of a new page at the end.
pub open spec fn free_place(pages: Seq<Seq<u8>>, per_page: nat) -> (usize, usize) {
    let page = first_where(pages, |page: Seq<u8>| free_slot(page, per_page) < per_page);
    if page < pages.len() {
        (page as usize, free_slot(pages[page], per_page) as usize)
    } else {
        (pages.len() as usize, 0)
    }
}

/// The index after the rows at `places` are entered in order, each under
/// the key of its column `pk`; a row whose key is already present is passed over.
pub open spec fn index_rows(
    index: Map<Seq<char>, (usize, usize)>,
    pages: Seq<Seq<u8>>,
    schema: SchemaView,
    pk: int,
    places: Seq<(usize, usize)>,
) -> Map<Seq<char>, (usize, usize)>
    decreases places.len(),
{
    if places.len() == 0 {
        index
    } else {
        let before = index_rows(index, pages, schema, pk, places.drop_last());
        let key = stored_row(pages, schema, places.last())[pk].key_text();
        if before.contains_key(key) {
            before
        } else {
            before.insert(key, places.last())
        }
    }
}

/// The index that loading builds from an empty one: each row of the file
/// under the key of its primary-key column. Empty for a table without a primary key.
pub open spec fn loaded_index(pages: Seq<Seq<u8>>, schema: SchemaView) -> Map<
    Seq<char>,
    (usize, usize),
> {
    match schema.primary_index() {
        Some(pk) => index_rows(Map::empty(), pages, schema, pk, live_places(pages, schema)),
        None => Map::empty(),
    }
}

/// The pages of a heap file after a row with fields `fields` is stored at the next free place.
pub open spec fn pages_with_row(pages: Seq<Seq<u8>>, schema: SchemaView, fields: Seq<FieldView>) -> Seq<
    Seq<u8>,
> {
    let place = free_place(pages, schema.max_slots());
    write_at(
        pages,
        place.0 as int,
        put_row(page_at(pages, place.0 as int), place.1 as int, encode_row(fields, schema.columns)),
    )
}

/// Every live slot that `page_slots` lists lies among the first `n`.
pub proof fn lemma_page_slots_bound(page: Seq<u8>, n: nat)
    requires
        n <= usize::MAX,
    ensures
        forall|i: int| 0 <= i < page_slots(page, n).len() ==> #[trigger] page_slots(page, n)[i] < n,
    decreases n,
{
    if n > 0 {
        let before = page_slots(page, (n - 1) as nat);
        lemma_page_slots_bound(page, (n - 1) as nat);
        assert forall|i: int| 0 <= i < page_slots(page, n).len() implies #[trigger] page_slots(
            page,
            n,
        )[i] < n by {
            if i < before.len() {
                assert(page_slots(page, n)[i] == before[i]);
            }
        }
    }
}

/// Every place that `heap_slots` lists is a slot below `per_page` of a page below `k`.
pub proof fn lemma_heap_slots_bound(pages: Seq<Seq<u8>>, per_page: nat, k: nat)
    requires
        per_page <= usize::MAX,
        k <= pages.len(),
        k <= usize::MAX,
    ensures
        forall|i: int|
            0 <= i < heap_slots(pages, per_page, k).len() ==> (#[trigger] heap_slots(
                pages,
                per_page,
                k,
            )[i]).0 < k && heap_slots(pages, per_page, k)[i].1 < per_page,
    decreases k,
{
    if k > 0 {
        let before = heap_slots(pages, per_page, (k - 1) as nat);
        let here = page_slots(pages[k - 1], per_page);
        lemma_heap_slots_bound(pages, per_page, (k - 1) as nat);
        lemma_page_slots_bound(pages[k - 1], per_page);
        assert forall|i: int| 0 <= i < heap_slots(pages, per_page, k).len() implies (
        #[trigger] heap_slots(pages, per_page, k)[i]).0 < k && heap_slots(pages, per_page, k)[i].1
            < per_page by {
            if i < before.len() {
                assert(heap_slots(pages, per_page, k)[i] == before[i]);
            } else {
                assert(heap_slots(pages, per_page, k)[i] == ((k - 1) as usize, here[i - before.len()]));
            }
        }
    }
}

impl Schema {
    /// Whether a heap file of rows of this schema can be read.
    pub fn is_readable(&self) -> (readable: bool)
        ensures
            readable == self@.readable(),
    {
        match self.checked_row_size() {
            Some(row_size) => 0 < row_size,
            None => false,
        }
    }

    /// Whether rows of this schema can be stored.
    pub fn is_storable(&self) -> (storable: bool)
        ensures
            storable == self@.storable(),
    {
        match self.checked_row_size() {
            Some(row_size) => 0 < row_size && row_size <= PAGE_SIZE - HEADER_SIZE,
            None => false,
        }
    }
}

/// A table: its heap file, its schema and its primary-key index.
pub struct Table {
    pub pager: Pager,
    pub schema: Schema,
    pub index: PrimaryIndex,
}

impl Table {
    /// Whether the table is well formed: its file and index are, its file
    /// can be read, and every place in the index is a slot of a page.
    pub open spec fn wf(&self) -> bool {
        &&& self.pager.wf()
        &&& self.index.wf()
        &&& self.schema@.readable()
        &&& forall|key: Seq<char>|
            self.index@.contains_key(key) ==> (#[trigger] self.index@[key]).1
                < self.schema@.max_slots()
    }

    /// The row that the index holds under `key`, if it holds the key.
    pub fn find(&self, key: &String) -> (found: Option<Row>)
        requires
            self.wf(),
        ensures
            self.index@.contains_key(key@) ==> (found matches Some(row) && row@ == stored_row(
                self.pager@,
                self.schema@,
                self.index@[key@],
            )),
            !self.index@.contains_key(key@) ==> found is None,
    {
        match self.index.get(key) {
            Some(place) => Some(self.get_row(place.0, place.1)),
            None => None,
        }
    }

    /// Number of slots in each page.
    pub fn max_slots(&self) -> (count: usize)
        requires
            self.schema@.readable(),
        ensures
            count == self.schema@.max_slots(),
            count <= PAGE_SIZE - HEADER_SIZE,
            self.schema@.storable() ==> 1 <= count,
            HEADER_SIZE + count * self.schema@.row_size() <= PAGE_SIZE,
    {
        let row_size: usize = self.schema.row_size();
        let count: usize = (PAGE_SIZE - HEADER_SIZE) / row_size;
        proof {
            crate::storage::heap::lemma_max_slots(self.schema@);
        }
        count
    }

    /// The live slots of the heap file, by ascending page and slot.
    pub fn live_slots(&self) -> (places: Vec<(usize, usize)>)
        requires
            self.wf(),
        ensures
            places@ == live_places(self.pager@, self.schema@),
    {
        let mut places: Vec<(usize, usize)> = Vec::new();
        let max_slots: usize = self.max_slots();
        let num_pages: usize = self.pager.num_pages();
        let mut p_idx: usize = 0;
        while p_idx < num_pages
            invariant
                p_idx <= num_pages == self.pager@.len(),
                max_slots == self.schema@.max_slots(),
                max_slots <= PAGE_SIZE - HEADER_SIZE,
                places@ == heap_slots(self.pager@, max_slots as nat, p_idx as nat),
            decreases num_pages - p_idx,
        {
            let page = self.pager.read_page(p_idx);
            let ghost done = places@;
            let ghost tag = |slot: usize| (p_idx, slot);
            let mut s_idx: usize = 0;
            while s_idx < max_slots
                invariant
                    s_idx <= max_slots <= PAGE_SIZE - HEADER_SIZE,
                    p_idx < self.pager@.len(),
                    page.data@ == self.pager@[p_idx as int],
                    tag == |slot: usize| (p_idx, slot),
                    places@ == done + page_slots(page.data@, s_idx as nat).map_values(tag),
                decreases max_slots - s_idx,
            {
                if page.is_slot_full(s_idx) {
                    places.push((p_idx, s_idx));
                }
                s_idx += 1;
                assert(places@ =~= done + page_slots(page.data@, s_idx as nat).map_values(tag));
            }
            p_idx += 1;
            assert(places@ =~= heap_slots(self.pager@, max_slots as nat, p_idx as nat));
        }
        places
    }

    /// The row stored in slot `slot_idx` of page `page_idx`, whether or not the slot is live.
    pub fn get_row(&self, page_idx: usize, slot_idx: usize) -> (row: Row)
        requires
            self.wf(),
            slot_idx < self.schema@.max_slots(),
        ensures
            row@ == stored_row(self.pager@, self.schema@, (page_idx, slot_idx)),
    {
        let max_slots: usize = self.max_slots();
        let row_size: usize = self.schema.row_size();
        let page = self.pager.read_page(page_idx);
        proof {
            lemma_slot_in_page(slot_idx as int, max_slots as int, row_size as int);
        }
        let offset: usize = page.get_row_offset(slot_idx, row_size);
        let row_bytes = slice_subrange(page.data.as_slice(), offset, offset + row_size);
        Row::deserialize(row_bytes, &self.schema)
    }

    /// The rows of the table, by ascending page and slot.
    pub fn scan_rows(&self) -> (rows: Vec<Row>)
        requires
            self.wf(),
        ensures
            row_views(rows@) == heap_rows(self.pager@, self.schema@),
    {
        let places = self.live_slots();
        let num_pages: usize = self.pager.num_pages();
        proof {
            lemma_heap_slots_bound(self.pager@, self.schema@.max_slots(), self.pager@.len());
        }
        let mut rows: Vec<Row> = Vec::new();
        let mut i: usize = 0;
        while i < places.len()
            invariant
                i <= places@.len(),
                self.wf(),
                places@ == live_places(self.pager@, self.schema@),
                forall|k: int|
                    0 <= k < places@.len() ==> (#[trigger] places@[k]).1 < self.schema@.max_slots(),
                rows@.len() == i,
                forall|k: int|
                    0 <= k < i ==> (#[trigger] rows@[k])@ == stored_row(
                        self.pager@,
                        self.schema@,
                        places@[k],
                    ),
            decreases places.len() - i,
        {
            let place = places[i];
            rows.push(self.get_row(place.0, place.1));
            i += 1;
        }
        assert(row_views(rows@) =~= heap_rows(self.pager@, self.schema@));
        rows
    }
}

/// The first free slot among the first `n` slots of `page`, or `n` if all are live.
fn first_free_slot(page: &Page, n: usize) -> (slot: usize)
    requires
        n <= 8 * PAGE_SIZE,
    ensures
        slot == free_slot(page.data@, n as nat),
        slot <= n,
{
    let ghost flags = Seq::new(n as nat, |slot: int| slot_full(page.data@, slot));
    let mut slot: usize = 0;
    while slot < n
        invariant
            slot <= n <= 8 * PAGE_SIZE,
            flags == Seq::new(n as nat, |slot: int| slot_full(page.data@, slot)),
            forall|k: int| 0 <= k < slot ==> #[trigger] flags[k],
        decreases n - slot,
    {
        if !page.is_slot_full(slot) {
            proof {
                lemma_first_where_is(flags, |full: bool| !full, slot as int);
            }
            return slot;
        }
        slot += 1;
    }
    proof {
        lemma_first_where_is(flags, |full: bool| !full, slot as int);
    }
    slot
}

impl Table {
    /// Where the next row goes: the first free slot of the first page that
    /// has one, or slot 0 of a new page at the end of the file.
    pub fn find_free_place(&self) -> (place: (usize, usize))
        requires
            self.wf(),
            self.schema@.storable(),
        ensures
            place == free_place(self.pager@, self.schema@.max_slots()),
            place.0 <= self.pager@.len(),
            place.1 < self.schema@.max_slots(),
    {
        let max_slots: usize = self.max_slots();
        let num_pages: usize = self.pager.num_pages();
        let ghost has_room = |page: Seq<u8>| free_slot(page, max_slots as nat) < max_slots as nat;
        let mut p_idx: usize = 0;
        while p_idx < num_pages
            invariant
                p_idx <= num_pages == self.pager@.len(),
                1 <= max_slots <= PAGE_SIZE - HEADER_SIZE,
                max_slots == self.schema@.max_slots(),
                has_room == |page: Seq<u8>| free_slot(page, max_slots as nat) < max_slots as nat,
                forall|k: int| 0 <= k < p_idx ==> !has_room(#[trigger] self.pager@[k]),
            decreases num_pages - p_idx,
        {
            let page = self.pager.read_page(p_idx);
            let slot: usize = first_free_slot(&page, max_slots);
            if slot < max_slots {
                proof {
                    lemma_first_where_is(self.pager@, has_room, p_idx as int);
                }
                return (p_idx, slot);
            }
            p_idx += 1;
        }
        proof {
            lemma_first_where_is(self.pager@, has_room, p_idx as int);
        }
        (num_pages, 0)
    }

    /// Stores `row` in the first free slot, or in a new page if no slot is
    /// free. In a table with a primary key the row's key is entered in the
    /// index first; a key that the index already holds is refused, and then
    /// neither the file nor the index changes.
    pub fn insert_row(&mut self, row: Row) -> (result: Result<(), String>)
        requires
            old(self).wf(),
            old(self).schema@.storable(),
            row@.len() >= old(self).schema@.columns.len(),
            encode_row(row@, old(self).schema@.columns).len() == old(self).schema@.row_size(),
            old(self).pager@.len() < max_pages(),
        ensures
            final(self).wf(),
            final(self).schema == old(self).schema,
            old(self).refuses(row@) ==> final(self).pager == old(self).pager && final(self).index@
                == old(self).index@ && (result matches Err(message) && message@
                == duplicate_key_message(old(self).schema@.primary_key(row@)->0)),
            !old(self).refuses(row@) ==> result is Ok && final(self).pager@ == old(
                self,
            ).pages_with(row@) && final(self).pager.written@ == old(self).pager.written@.push(
                old(self).next_place().0,
            ) && final(self).index@ == (match old(self).schema@.primary_key(row@) {
                Some(key) => old(self).index@.insert(key, old(self).next_place()),
                None => old(self).index@,
            }),
    {
        let serialized_row = row.serialize(&self.schema);
        let max_slots: usize = self.max_slots();
        let row_size: usize = self.schema.row_size();
        let place = self.find_free_place();
        let mut page = self.pager.read_page(place.0);
        if let Some(pk_idx) = self.schema.find_primary() {
            let key = row.fields[pk_idx].key();
            match self.index.insert(key, place.0, place.1) {
                Err(message) => {
                    return Err(message);
                },
                Ok(()) => {},
            }
        }
        proof {
            lemma_slot_in_page(place.1 as int, max_slots as int, row_size as int);
        }
        page.set_slot(place.1, true);
        let offset: usize = page.get_row_offset(place.1, row_size);
        page.write_bytes(offset, &serialized_row);
        self.pager.write_page(place.0, &page);
        Ok(())
    }

    /// Marks slot `slot_idx` of page `page_idx` free. The bytes of the slot stay as they are.
    pub fn delete_row(&mut self, page_idx: usize, slot_idx: usize)
        requires
            old(self).wf(),
            slot_idx < 8 * PAGE_SIZE,
            page_idx < max_pages(),
        ensures
            final(self).wf(),
            final(self).schema == old(self).schema,
            final(self).index == old(self).index,
            final(self).pager@ == write_at(
                old(self).pager@,
                page_idx as int,
                mark_slot(page_at(old(self).pager@, page_idx as int), slot_idx as int, false),
            ),
            final(self).pager.written@ == old(self).pager.written@.push(page_idx),
    {
        let mut page = self.pager.read_page(page_idx);
        page.set_slot(slot_idx, false);
        self.pager.write_page(page_idx, &page);
    }

    /// Overwrites slot `slot_idx` of page `page_idx` with `new_row`. The
    /// slot's bit and the index stay as they are.
    pub fn update_row(&mut self, page_idx: usize, slot_idx: usize, new_row: Row)
        requires
            old(self).wf(),
            slot_idx < old(self).schema@.max_slots(),
            page_idx < max_pages(),
            new_row@.len() >= old(self).schema@.columns.len(),
            encode_row(new_row@, old(self).schema@.columns).len() == old(self).schema@.row_size(),
        ensures
            final(self).wf(),
            final(self).schema == old(self).schema,
            final(self).index == old(self).index,
            final(self).pager@ == write_at(
                old(self).pager@,
                page_idx as int,
                put_bytes(
                    page_at(old(self).pager@, page_idx as int),
                    row_offset(slot_idx as int, old(self).schema@.row_size() as int),
                    encode_row(new_row@, old(self).schema@.columns),
                ),
            ),
            final(self).pager.written@ == old(self).pager.written@.push(page_idx),
    {
        let serialized_row = new_row.serialize(&self.schema);
        let max_slots: usize = self.max_slots();
        let row_size: usize = self.schema.row_size();
        let mut page = self.pager.read_page(page_idx);
        proof {
            lemma_slot_in_page(slot_idx as int, max_slots as int, row_size as int);
        }
        let offset: usize = page.get_row_offset(slot_idx, row_size);
        page.write_bytes(offset, &serialized_row);
        self.pager.write_page(page_idx, &page);
    }

    /// Enters every row of the file in the index, under the key of its
    /// primary-key column, by ascending page and slot. A row whose key is
    /// already present is passed over. Without a primary key nothing is entered.
    pub fn load_index(&mut self)
        requires
            old(self).wf(),
        ensures
            final(self).wf(),
            final(self).pager == old(self).pager,
            final(self).schema == old(self).schema,
            final(self).index@ == (match old(self).schema@.primary_index() {
                Some(pk) => index_rows(
                    old(self).index@,
                    old(self).pager@,
                    old(self).schema@,
                    pk,
                    live_places(old(self).pager@, old(self).schema@),
                ),
                None => old(self).index@,
            }),
    {
        let pk_col_idx = self.schema.find_primary();
        if let Some(col_idx) = pk_col_idx {
            let places = self.live_slots();
            let num_pages: usize = self.pager.num_pages();
            proof {
                lemma_heap_slots_bound(self.pager@, self.schema@.max_slots(), self.pager@.len());
                assert(places@.take(0) =~= Seq::<(usize, usize)>::empty());
            }
            let mut i: usize = 0;
            while i < places.len()
                invariant
                    i <= places@.len(),
                    self.wf(),
                    old(self).wf(),
                    self.pager == old(self).pager,
                    self.schema == old(self).schema,
                    self.schema@.primary_index() == Some(col_idx as int),
                    places@ == live_places(self.pager@, self.schema@),
                    forall|k: int|
                        0 <= k < places@.len() ==> (#[trigger] places@[k]).1
                            < self.schema@.max_slots(),
                    self.index@ == index_rows(
                        old(self).index@,
                        self.pager@,
                        self.schema@,
                        col_idx as int,
                        places@.take(i as int),
                    ),
                decreases places.len() - i,
            {
                let place = places[i];
                let row = self.get_row(place.0, place.1);
                assert(row.fields@.len() == row@.len() == self.schema@.columns.len());
                assert(row.fields@[col_idx as int]@ == row@[col_idx as int]);
                let pk_value = row.fields[col_idx].key();
                let _ = self.index.insert(pk_value, place.0, place.1);
                proof {
                    let next = places@.take(i as int + 1);
                    assert(next.drop_last() =~= places@.take(i as int));
                    assert(next.last() == place);
                }
                i += 1;
            }
            proof {
                assert(places@.take(places@.len() as int) =~= places@);
            }
        }
    }

    /// Whether an insert of a row with fields `fields` is refused: the table
    /// has a primary key, and the index holds the row's key already.
    pub open spec fn refuses(&self, fields: Seq<FieldView>) -> bool {
        match self.schema@.primary_key(fields) {
            Some(key) => self.index@.contains_key(key),
            None => false,
        }
    }

    /// The page and slot that the next inserted row gets.
    pub open spec fn next_place(&self) -> (usize, usize) {
        free_place(self.pager@, self.schema@.max_slots())
    }

    /// The pages of the file after a row with fields `fields` is stored at the next place.
    pub open spec fn pages_with(&self, fields: Seq<FieldView>) -> Seq<Seq<u8>> {
        pages_with_row(self.pager@, self.schema@, fields)
    }
}

/// A slot below the page's slot count lies wholly within the page.
pub proof fn lemma_slot_in_page(slot: int, max_slots: int, row_size: int)
    requires
        0 <= slot < max_slots,
        0 < row_size,
        HEADER_SIZE + max_slots * row_size <= PAGE_SIZE,
    ensures
        HEADER_SIZE <= row_offset(slot, row_size),
        row_offset(slot, row_size) + row_size <= PAGE_SIZE,
        row_offset(slot, row_size) + row_size <= HEADER_SIZE + max_slots * row_size,
{
    assert((slot + 1) * row_size <= max_slots * row_size) by (nonlinear_arith)
        requires
            slot + 1 <= max_slots,
            0 < row_size,
    ;
    assert((slot + 1) * row_size == slot * row_size + row_size) by (nonlinear_arith);
    assert(0 <= slot * row_size) by (nonlinear_arith)
        requires
            0 <= slot,
            0 < row_size,
    ;
}

} // verus!
