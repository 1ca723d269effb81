//! What storing a row does to the live slots and the rows of a heap file.

use crate::catalog::schema::{SchemaView, lemma_column_index};
use crate::storage::pager::{
    HEADER_SIZE, PAGE_SIZE, lemma_blank_page_free, lemma_mark_slot, mark_slot,
    page_at, put_bytes, row_offset, slot_full, write_at,
};
use crate::storage::pager::Pager;
use crate::mutation::{
    assigned, assignment_error, assignments_typed, lemma_assigned_well_typed,
    lemma_decoded_well_typed, pages_cleared, pages_updated, refused_column,
};
use crate::storage::record::{
    FieldView, decode_row, encode_row, field_fits,
    lemma_encode_row_chunk, lemma_field_round_trip, lemma_round_trip, lemma_serialized_len,
    row_fits,
};
use crate::storage::{
    free_place, free_slot, heap_rows, heap_slots, index_rows, lemma_heap_slots_bound,
    lemma_slot_in_page, live_places, loaded_index, page_slots, pages_with_row, put_row,
    slot_bytes, stored_row,
};
use crate::seqs::{first_where, lemma_first_where_bounds};
use vstd::prelude::*;

verus! {

/// Whether every page of `pages` has the size of a page.
pub open spec fn whole_pages(pages: Seq<Seq<u8>>) -> bool {
    forall|i: int| 0 <= i < pages.len() ==> (#[trigger] pages[i]).len() == PAGE_SIZE
}

/// Whether the slot bitmap of a page lies wholly in the page header: rows
/// can be stored, and a page has no more slots than the header has bits.
pub open spec fn bitmap_fits(schema: SchemaView) -> bool {
    &&& schema.storable()
    &&& schema.max_slots() <= 8 * HEADER_SIZE
}

/// Every slot that `page_slots` lists is live.
pub proof fn lemma_page_slots_live(page: Seq<u8>, n: nat)
    requires
        n <= usize::MAX,
    ensures
        forall|i: int|
            0 <= i < page_slots(page, n).len() ==> #[trigger] page_slots(page, n)[i] < n
                && slot_full(page, page_slots(page, n)[i] as int),
    decreases n,
{
    if n > 0 {
        let before = page_slots(page, (n - 1) as nat);
        lemma_page_slots_live(page, (n - 1) as nat);
        assert forall|i: int| 0 <= i < page_slots(page, n).len() implies #[trigger] page_slots(
            page,
            n,
        )[i] < n && slot_full(page, page_slots(page, n)[i] as int) by {
            if i < before.len() {
                assert(page_slots(page, n)[i] == before[i]);
            }
        }
    }
}

/// Two pages whose first `n` slots have the same state have the same live slots among them.
pub proof fn lemma_page_slots_same(page: Seq<u8>, other: Seq<u8>, n: nat)
    requires
        forall|j: int| 0 <= j < n ==> slot_full(other, j) == slot_full(page, j),
    ensures
        page_slots(other, n) == page_slots(page, n),
    decreases n,
{
    if n > 0 {
        lemma_page_slots_same(page, other, (n - 1) as nat);
    }
}

/// The live slots among the first `m` are a prefix of those among the first `n`, for `m <= n`.
pub proof fn lemma_page_slots_prefix(page: Seq<u8>, m: nat, n: nat)
    requires
        m <= n,
    ensures
        page_slots(page, m).len() <= page_slots(page, n).len(),
        page_slots(page, n).take(page_slots(page, m).len() as int) == page_slots(page, m),
    decreases n - m,
{
    if m < n {
        lemma_page_slots_prefix(page, m, (n - 1) as nat);
        let shorter = page_slots(page, (n - 1) as nat);
        let k = page_slots(page, m).len() as int;
        assert(page_slots(page, n).take(k) =~= shorter.take(k));
    } else {
        assert(page_slots(page, n).take(page_slots(page, n).len() as int) =~= page_slots(page, n));
    }
}

/// Where slot `slot`, free in `page`, is live in `other` and every other
/// of the first `n` slots has the same state in both, the live slots of
/// `other` are those of `page` with `slot` put in after the live slots below it.
pub proof fn lemma_page_slots_with(page: Seq<u8>, other: Seq<u8>, n: nat, slot: nat)
    requires
        slot < n <= usize::MAX,
        !slot_full(page, slot as int),
        forall|j: int| 0 <= j < n ==> slot_full(other, j) == (j == slot || slot_full(page, j)),
    ensures
        page_slots(other, n) == page_slots(page, n).insert(
            page_slots(page, slot).len() as int,
            slot as usize,
        ),
    decreases n,
{
    let k = page_slots(page, slot).len() as int;
    if n == slot + 1 {
        lemma_page_slots_same(page, other, slot);
        assert(page_slots(page, n) == page_slots(page, slot));
        assert(page_slots(other, n) == page_slots(page, slot).push(slot as usize));
        assert(page_slots(other, n) =~= page_slots(page, n).insert(k, slot as usize));
    } else {
        lemma_page_slots_with(page, other, (n - 1) as nat, slot);
        lemma_page_slots_prefix(page, slot, (n - 1) as nat);
        let shorter = page_slots(page, (n - 1) as nat);
        if slot_full(page, n - 1) {
            assert(shorter.insert(k, slot as usize).push((n - 1) as usize) =~= shorter.push(
                (n - 1) as usize,
            ).insert(k, slot as usize));
        }
    }
}

/// A row written to a slot of a page whose bitmap lies in the header: the
/// slot becomes live and holds the row's bytes; every other slot keeps its
/// state and its bytes.
pub proof fn lemma_put_row(page: Seq<u8>, slot: int, bytes: Seq<u8>, max_slots: int, other: int)
    requires
        page.len() == PAGE_SIZE,
        0 <= slot < max_slots <= 8 * HEADER_SIZE,
        0 <= other < max_slots,
        0 < bytes.len(),
        HEADER_SIZE + max_slots * bytes.len() <= PAGE_SIZE,
    ensures
        put_row(page, slot, bytes).len() == PAGE_SIZE,
        slot_full(put_row(page, slot, bytes), other) == (other == slot || slot_full(page, other)),
        slot_bytes(put_row(page, slot, bytes), other, bytes.len() as int) == (if other == slot {
            bytes
        } else {
            slot_bytes(page, other, bytes.len() as int)
        }),
{
    let size = bytes.len() as int;
    let marked = mark_slot(page, slot, true);
    let after = put_row(page, slot, bytes);
    lemma_slot_in_page(slot, max_slots, size);
    lemma_slot_in_page(other, max_slots, size);
    lemma_mark_slot(page, slot, true, other);
    assert(after[other / 8] == marked[other / 8]);
    if other == slot {
        assert(slot_bytes(after, other, size) =~= bytes);
    } else {
        lemma_slots_apart(slot, other, size);
        assert(slot_bytes(after, other, size) =~= slot_bytes(page, other, size));
    }
}

/// Two different slots do not overlap.
pub proof fn lemma_slots_apart(slot: int, other: int, size: int)
    requires
        0 <= slot,
        0 <= other,
        slot != other,
        0 < size,
    ensures
        row_offset(other, size) + size <= row_offset(slot, size) || row_offset(slot, size) + size
            <= row_offset(other, size),
{
    if other < slot {
        assert((other + 1) * size <= slot * size) by (nonlinear_arith)
            requires
                other + 1 <= slot,
                0 < size,
        ;
        assert((other + 1) * size == other * size + size) by (nonlinear_arith);
    } else {
        assert((slot + 1) * size <= other * size) by (nonlinear_arith)
            requires
                slot + 1 <= other,
                0 < size,
        ;
        assert((slot + 1) * size == slot * size + size) by (nonlinear_arith);
    }
}

/// A page whose first `n` slots are all free has no live slot among them.
pub proof fn lemma_page_slots_none(page: Seq<u8>, n: nat)
    requires
        forall|j: int| 0 <= j < n ==> !slot_full(page, j),
    ensures
        page_slots(page, n) == Seq::<usize>::empty(),
    decreases n,
{
    if n > 0 {
        lemma_page_slots_none(page, (n - 1) as nat);
    }
}

/// Two files that agree in their first `k` pages have the same live slots in them.
pub proof fn lemma_heap_slots_same(pages: Seq<Seq<u8>>, other: Seq<Seq<u8>>, per_page: nat, k: nat)
    requires
        k <= pages.len(),
        k <= other.len(),
        forall|i: int| 0 <= i < k ==> other[i] == pages[i],
    ensures
        heap_slots(other, per_page, k) == heap_slots(pages, per_page, k),
    decreases k,
{
    if k > 0 {
        lemma_heap_slots_same(pages, other, per_page, (k - 1) as nat);
    }
}

/// The live slots of the first `j` pages are no more than those of the first `k`, for `j <= k`.
pub proof fn lemma_heap_slots_grow(pages: Seq<Seq<u8>>, per_page: nat, j: nat, k: nat)
    requires
        j <= k,
    ensures
        heap_slots(pages, per_page, j).len() <= heap_slots(pages, per_page, k).len(),
    decreases k - j,
{
    if j < k {
        lemma_heap_slots_grow(pages, per_page, j, (k - 1) as nat);
    }
}

/// Where two files differ in page `p` alone, and the live slots of the
/// first `p + 1` pages of the one are those of the other with `place` put in
/// at `pos`, the same holds of the first `k` pages, for `k > p`.
pub proof fn lemma_heap_slots_with(
    pages: Seq<Seq<u8>>,
    other: Seq<Seq<u8>>,
    per_page: nat,
    p: nat,
    pos: int,
    place: (usize, usize),
    k: nat,
)
    requires
        p < k <= pages.len() == other.len(),
        forall|i: int| 0 <= i < pages.len() && i != p ==> other[i] == pages[i],
        0 <= pos <= heap_slots(pages, per_page, p + 1).len(),
        heap_slots(other, per_page, p + 1) == heap_slots(pages, per_page, p + 1).insert(pos, place),
    ensures
        heap_slots(other, per_page, k) == heap_slots(pages, per_page, k).insert(pos, place),
    decreases k,
{
    if k > p + 1 {
        lemma_heap_slots_with(pages, other, per_page, p, pos, place, (k - 1) as nat);
        lemma_heap_slots_grow(pages, per_page, p + 1, (k - 1) as nat);
        let shorter = heap_slots(pages, per_page, (k - 1) as nat);
        let here = page_slots(pages[k - 1], per_page).map_values(
            |slot: usize| ((k - 1) as usize, slot),
        );
        assert(shorter.insert(pos, place) + here =~= (shorter + here).insert(pos, place));
    }
}

/// The number of live slots that come before the next free place of a heap file.
pub open spec fn slots_before_free(pages: Seq<Seq<u8>>, schema: SchemaView) -> int {
    let place = free_place(pages, schema.max_slots());
    (heap_slots(pages, schema.max_slots(), place.0 as nat).len() + page_slots(
        page_at(pages, place.0 as int),
        place.1 as nat,
    ).len()) as int
}

/// The next free place of a heap file is a free slot of one of its pages,
/// or slot 0 of the page after its last.
pub proof fn lemma_free_place(pages: Seq<Seq<u8>>, per_page: nat)
    requires
        0 < per_page <= 8 * PAGE_SIZE,
        pages.len() <= usize::MAX,
        whole_pages(pages),
    ensures
        free_place(pages, per_page).0 <= pages.len(),
        free_place(pages, per_page).1 < per_page,
        !slot_full(
            page_at(pages, free_place(pages, per_page).0 as int),
            free_place(pages, per_page).1 as int,
        ),
{
    let has_room = |page: Seq<u8>| free_slot(page, per_page) < per_page;
    lemma_first_where_bounds(pages, has_room);
    let p = first_where(pages, has_room);
    if p < pages.len() {
        let flags = Seq::new(per_page, |slot: int| slot_full(pages[p], slot));
        lemma_first_where_bounds(flags, |full: bool| !full);
        let s = free_slot(pages[p], per_page);
        assert(has_room(pages[p]));
        assert(!flags[s]);
    } else {
        lemma_blank_page_free(0);
    }
}

/// Storing a row of `bytes` at the next free place of a heap file, in a
/// table whose bitmap lies in the page header, makes that place live and
/// leaves every other place as it was: the live places are those from
/// before with the new place put in at its position in the order, the new
/// place holds `bytes`, and every place that was live holds what it held.
pub proof fn lemma_live_places_with(pages: Seq<Seq<u8>>, schema: SchemaView, bytes: Seq<u8>)
    requires
        whole_pages(pages),
        bitmap_fits(schema),
        bytes.len() == schema.row_size(),
        pages.len() < usize::MAX,
    ensures
        ({
            let place = free_place(pages, schema.max_slots());
            let after = write_at(
                pages,
                place.0 as int,
                put_row(page_at(pages, place.0 as int), place.1 as int, bytes),
            );
            &&& whole_pages(after)
            &&& 0 <= slots_before_free(pages, schema) <= live_places(pages, schema).len()
            &&& live_places(after, schema) == live_places(pages, schema).insert(
                slots_before_free(pages, schema),
                place,
            )
            &&& slot_bytes(page_at(after, place.0 as int), place.1 as int, bytes.len() as int)
                == bytes
            &&& forall|i: int|
                0 <= i < live_places(pages, schema).len() ==> slot_bytes(
                    page_at(after, (#[trigger] live_places(pages, schema)[i]).0 as int),
                    live_places(pages, schema)[i].1 as int,
                    bytes.len() as int,
                ) == slot_bytes(
                    page_at(pages, live_places(pages, schema)[i].0 as int),
                    live_places(pages, schema)[i].1 as int,
                    bytes.len() as int,
                )
        }),
{
    let n = schema.max_slots();
    let size = bytes.len() as int;
    lemma_max_slots(schema);
    lemma_free_place(pages, n);
    let place = free_place(pages, n);
    let p = place.0 as nat;
    let s = place.1 as nat;
    let page = page_at(pages, p as int);
    let stored = put_row(page, s as int, bytes);
    let after = write_at(pages, p as int, stored);
    let tag = |slot: usize| (p as usize, slot);
    assert(page.len() == PAGE_SIZE);
    assert forall|j: int| 0 <= j < n implies slot_full(stored, j) == (j == s || slot_full(
        page,
        j,
    )) by {
        lemma_put_row(page, s as int, bytes, n as int, j);
    }
    lemma_put_row(page, s as int, bytes, n as int, s as int);
    lemma_page_slots_with(page, stored, n, s);
    lemma_page_slots_prefix(page, s, n);
    let k0 = page_slots(page, s).len() as int;
    let before_p = heap_slots(pages, n, p);
    lemma_heap_slots_same(pages, after, n, p);
    assert(after[p as int] == stored);
    assert(page_slots(page, n).insert(k0, s as usize).map_values(tag) =~= page_slots(
        page,
        n,
    ).map_values(tag).insert(k0, place));
    if p < pages.len() {
        assert(heap_slots(after, n, p + 1) =~= heap_slots(pages, n, p + 1).insert(
            before_p.len() + k0,
            place,
        ));
        lemma_heap_slots_with(pages, after, n, p, before_p.len() + k0, place, pages.len());
        lemma_heap_slots_grow(pages, n, p + 1, pages.len());
    } else {
        assert forall|j: int| 0 <= j < n implies !slot_full(page, j) by {
            lemma_blank_page_free(j);
        }
        lemma_page_slots_none(page, n);
        lemma_page_slots_none(page, s);
        assert(heap_slots(after, n, p + 1) =~= before_p.insert(before_p.len() as int, place));
    }
    lemma_heap_slots_bound(pages, n, pages.len());
    lemma_page_slots_live_all(pages, n, pages.len());
    assert forall|i: int| 0 <= i < live_places(pages, schema).len() implies slot_bytes(
        page_at(after, (#[trigger] live_places(pages, schema)[i]).0 as int),
        live_places(pages, schema)[i].1 as int,
        size,
    ) == slot_bytes(
        page_at(pages, live_places(pages, schema)[i].0 as int),
        live_places(pages, schema)[i].1 as int,
        size,
    ) by {
        let q = live_places(pages, schema)[i];
        if q.0 == p {
            assert(slot_full(pages[q.0 as int], q.1 as int));
            lemma_put_row(page, s as int, bytes, n as int, q.1 as int);
        }
    }
    assert(whole_pages(after)) by {
        assert forall|i: int| 0 <= i < after.len() implies (#[trigger] after[i]).len()
            == PAGE_SIZE by {
            if i != p {
                assert(after[i] == page_at(pages, i));
            }
        }
    }
}

/// Every place that `heap_slots` lists is a live slot of its page.
pub proof fn lemma_page_slots_live_all(pages: Seq<Seq<u8>>, per_page: nat, k: nat)
    requires
        per_page <= usize::MAX,
        k <= pages.len(),
        k <= usize::MAX,
    ensures
        forall|i: int|
            0 <= i < heap_slots(pages, per_page, k).len() ==> slot_full(
                pages[(#[trigger] heap_slots(pages, per_page, k)[i]).0 as int],
                heap_slots(pages, per_page, k)[i].1 as int,
            ),
    decreases k,
{
    if k > 0 {
        let before = heap_slots(pages, per_page, (k - 1) as nat);
        let here = page_slots(pages[k - 1], per_page);
        lemma_page_slots_live_all(pages, per_page, (k - 1) as nat);
        lemma_page_slots_live(pages[k - 1], per_page);
        assert forall|i: int| 0 <= i < heap_slots(pages, per_page, k).len() implies slot_full(
            pages[(#[trigger] heap_slots(pages, per_page, k)[i]).0 as int],
            heap_slots(pages, per_page, k)[i].1 as int,
        ) by {
            if i < before.len() {
                assert(heap_slots(pages, per_page, k)[i] == before[i]);
            } else {
                assert(heap_slots(pages, per_page, k)[i] == ((k - 1) as usize, here[i - before.len()]));
            }
        }
    }
}

/// The slots of a page lie within the page, and a storable schema gives
/// each page at least one slot.
pub proof fn lemma_max_slots(schema: SchemaView)
    requires
        schema.readable(),
    ensures
        0 <= schema.max_slots() <= PAGE_SIZE - HEADER_SIZE,
        schema.storable() ==> 1 <= schema.max_slots(),
        HEADER_SIZE + schema.max_slots() * schema.row_size() <= PAGE_SIZE,
{
    let room = (PAGE_SIZE - HEADER_SIZE) as int;
    let size = schema.row_size() as int;
    vstd::arithmetic::div_mod::lemma_fundamental_div_mod(room, size);
    vstd::arithmetic::div_mod::lemma_mod_pos_bound(room, size);
    assert((room / size) * size == size * (room / size)) by (nonlinear_arith);
    assert(0 <= room / size <= room) by (nonlinear_arith)
        requires
            0 < size,
            0 <= room,
    ;
    if size <= room {
        assert(room / size >= 1) by (nonlinear_arith)
            requires
                0 < size <= room,
        ;
    }
}

/// Every page of a heap file in memory has the size of a page.
pub proof fn lemma_pager_whole_pages(pager: Pager)
    ensures
        whole_pages(pager@),
{
}

/// A scan after an insert gives the rows of the scan before it, with the
/// inserted row put in at its place in the order: every row from before
/// once, as it was, and the new row once. This holds where the table's
/// bitmap lies in the page header and the row can be read back unchanged.
pub proof fn lemma_rows_after_insert(pages: Seq<Seq<u8>>, schema: SchemaView, fields: Seq<FieldView>)
    requires
        whole_pages(pages),
        bitmap_fits(schema),
        pages.len() < usize::MAX,
        row_fits(fields, schema.columns),
    ensures
        whole_pages(pages_with_row(pages, schema, fields)),
        pages_with_row(pages, schema, fields).len() <= pages.len() + 1,
        0 <= slots_before_free(pages, schema) <= heap_rows(pages, schema).len(),
        heap_rows(pages_with_row(pages, schema, fields), schema) == heap_rows(pages, schema).insert(
            slots_before_free(pages, schema),
            fields,
        ),
{
    let bytes = encode_row(fields, schema.columns);
    let after = pages_with_row(pages, schema, fields);
    let pos = slots_before_free(pages, schema);
    let place = free_place(pages, schema.max_slots());
    lemma_round_trip(fields, schema.columns);
    lemma_live_places_with(pages, schema, bytes);
    lemma_max_slots(schema);
    lemma_free_place(pages, schema.max_slots());
    let size = schema.row_size() as int;
    assert forall|i: int| 0 <= i < heap_rows(after, schema).len() implies heap_rows(after, schema)[i]
        == heap_rows(pages, schema).insert(pos, fields)[i] by {
        let q = live_places(after, schema)[i];
        if i < pos {
            assert(q == live_places(pages, schema)[i]);
        } else if i > pos {
            assert(q == live_places(pages, schema)[i - 1]);
        } else {
            assert(q == place);
        }
    }
    assert(heap_rows(after, schema) =~= heap_rows(pages, schema).insert(pos, fields));
}

/// The pages of a heap file after the rows `rows` are inserted one after the other.
pub open spec fn pages_with_rows(pages: Seq<Seq<u8>>, schema: SchemaView, rows: Seq<Seq<FieldView>>) -> Seq<
    Seq<u8>,
>
    decreases rows.len(),
{
    if rows.len() == 0 {
        pages
    } else {
        pages_with_row(pages_with_rows(pages, schema, rows.drop_last()), schema, rows.last())
    }
}

/// After a sequence of inserts with no delete in between, a scan gives
/// every row that was there before exactly as often as before, and every
/// inserted row once for each time it was inserted. This holds where the
/// table's bitmap lies in the page header and each inserted row can be read
/// back unchanged.
pub proof fn lemma_scan_after_inserts(
    pages: Seq<Seq<u8>>,
    schema: SchemaView,
    rows: Seq<Seq<FieldView>>,
)
    requires
        whole_pages(pages),
        bitmap_fits(schema),
        pages.len() + rows.len() < usize::MAX,
        forall|i: int| 0 <= i < rows.len() ==> row_fits(#[trigger] rows[i], schema.columns),
    ensures
        whole_pages(pages_with_rows(pages, schema, rows)),
        pages_with_rows(pages, schema, rows).len() <= pages.len() + rows.len(),
        heap_rows(pages_with_rows(pages, schema, rows), schema).to_multiset() == heap_rows(
            pages,
            schema,
        ).to_multiset().add(rows.to_multiset()),
    decreases rows.len(),
{
    broadcast use vstd::seq_lib::group_to_multiset_ensures;

    if rows.len() == 0 {
        assert(rows.to_multiset() =~= vstd::multiset::Multiset::<Seq<FieldView>>::empty());
        assert(heap_rows(pages, schema).to_multiset().add(rows.to_multiset()) =~= heap_rows(
            pages,
            schema,
        ).to_multiset());
    } else {
        let init = rows.drop_last();
        let row = rows.last();
        lemma_scan_after_inserts(pages, schema, init);
        let mid = pages_with_rows(pages, schema, init);
        lemma_rows_after_insert(mid, schema, row);
        let before = heap_rows(mid, schema);
        let after = heap_rows(pages_with_row(mid, schema, row), schema);
        let pos = slots_before_free(mid, schema);
        assert(after.remove(pos) =~= before);
        assert(after[pos] == row);
        assert(after.to_multiset() =~= before.to_multiset().insert(row));
        assert(rows =~= init.push(row));
        assert(rows.to_multiset() =~= init.to_multiset().insert(row));
        assert(after.to_multiset() =~= heap_rows(pages, schema).to_multiset().add(
            rows.to_multiset(),
        ));
    }
}

/// Whether `place`, a page and a slot, is a live slot of a heap file with
/// pages `pages` and `per_page` slots to a page.
pub open spec fn is_live(pages: Seq<Seq<u8>>, per_page: nat, place: (usize, usize)) -> bool {
    &&& place.0 < pages.len()
    &&& place.1 < per_page
    &&& slot_full(pages[place.0 as int], place.1 as int)
}

/// Whether no two live slots of a heap file hold rows with the same
/// primary key, as the index would hold it. True of every table without a
/// primary key.
pub open spec fn keys_unique(pages: Seq<Seq<u8>>, schema: SchemaView) -> bool {
    schema.primary_index() is Some ==> forall|a: (usize, usize), b: (usize, usize)|
        #![trigger stored_row(pages, schema, a), stored_row(pages, schema, b)]
        is_live(pages, schema.max_slots(), a) && is_live(pages, schema.max_slots(), b) && a != b
            ==> schema.primary_key(stored_row(pages, schema, a)) != schema.primary_key(
            stored_row(pages, schema, b),
        )
}

/// A live slot among the first `n` of a page is one that `page_slots` lists.
pub proof fn lemma_page_slots_has(page: Seq<u8>, n: nat, slot: usize)
    requires
        slot < n,
        slot_full(page, slot as int),
    ensures
        page_slots(page, n).contains(slot),
    decreases n,
{
    if slot == n - 1 {
        assert(page_slots(page, n).last() == slot);
    } else {
        lemma_page_slots_has(page, (n - 1) as nat, slot);
        let shorter = page_slots(page, (n - 1) as nat);
        let i = choose|i: int| 0 <= i < shorter.len() && shorter[i] == slot;
        assert(page_slots(page, n)[i] == slot);
    }
}

/// A live slot of one of the first `k` pages is one that `heap_slots` lists.
pub proof fn lemma_heap_slots_has(pages: Seq<Seq<u8>>, per_page: nat, k: nat, place: (usize, usize))
    requires
        is_live(pages, per_page, place),
        place.0 < k <= pages.len(),
    ensures
        heap_slots(pages, per_page, k).contains(place),
    decreases k,
{
    let shorter = heap_slots(pages, per_page, (k - 1) as nat);
    if place.0 == k - 1 {
        lemma_page_slots_has(pages[k - 1], per_page, place.1);
        let here = page_slots(pages[k - 1], per_page);
        let i = choose|i: int| 0 <= i < here.len() && here[i] == place.1;
        assert(heap_slots(pages, per_page, k)[shorter.len() + i] == place);
    } else {
        lemma_heap_slots_has(pages, per_page, (k - 1) as nat, place);
        let i = choose|i: int| 0 <= i < shorter.len() && shorter[i] == place;
        assert(heap_slots(pages, per_page, k)[i] == place);
    }
}

/// An index that rows were entered in holds a key exactly if it held the
/// key before or one of the rows has it.
pub proof fn lemma_index_rows_keys(
    index: Map<Seq<char>, (usize, usize)>,
    pages: Seq<Seq<u8>>,
    schema: SchemaView,
    pk: int,
    places: Seq<(usize, usize)>,
    key: Seq<char>,
)
    ensures
        index_rows(index, pages, schema, pk, places).contains_key(key) <==> (index.contains_key(key)
            || exists|i: int|
            0 <= i < places.len() && stored_row(pages, schema, #[trigger] places[i])[pk].key_text()
                == key),
    decreases places.len(),
{
    if places.len() > 0 {
        let init = places.drop_last();
        lemma_index_rows_keys(index, pages, schema, pk, init, key);
        let last_key = stored_row(pages, schema, places.last())[pk].key_text();
        assert(places.last() == places[places.len() - 1]);
        if index_rows(index, pages, schema, pk, places).contains_key(key) {
            if !index.contains_key(key) {
                if index_rows(index, pages, schema, pk, init).contains_key(key) {
                    let i = choose|i: int|
                        0 <= i < init.len() && stored_row(
                            pages,
                            schema,
                            #[trigger] init[i],
                        )[pk].key_text() == key;
                    assert(places[i] == init[i]);
                } else {
                    assert(key == last_key);
                }
            }
        }
        if !index.contains_key(key) && exists|i: int|
            0 <= i < places.len() && stored_row(pages, schema, #[trigger] places[i])[pk].key_text()
                == key {
            let i = choose|i: int|
                0 <= i < places.len() && stored_row(
                    pages,
                    schema,
                    #[trigger] places[i],
                )[pk].key_text() == key;
            if i < init.len() {
                assert(init[i] == places[i]);
            }
        }
    }
}

/// The loaded index holds exactly the keys of the rows of the file.
pub proof fn lemma_loaded_index_keys(pages: Seq<Seq<u8>>, schema: SchemaView, key: Seq<char>)
    requires
        schema.primary_index() is Some,
    ensures
        loaded_index(pages, schema).contains_key(key) <==> exists|i: int|
            0 <= i < heap_rows(pages, schema).len() && schema.primary_key(
                #[trigger] heap_rows(pages, schema)[i],
            ) == Some(key),
{
    let pk = schema.primary_index()->0;
    let places = live_places(pages, schema);
    lemma_index_rows_keys(Map::empty(), pages, schema, pk, places, key);
    if loaded_index(pages, schema).contains_key(key) {
        let i = choose|i: int|
            0 <= i < places.len() && stored_row(pages, schema, #[trigger] places[i])[pk].key_text()
                == key;
        assert(schema.primary_key(heap_rows(pages, schema)[i]) == Some(key));
    }
    if exists|i: int|
        0 <= i < heap_rows(pages, schema).len() && schema.primary_key(
            #[trigger] heap_rows(pages, schema)[i],
        ) == Some(key) {
        let i = choose|i: int|
            0 <= i < heap_rows(pages, schema).len() && schema.primary_key(
                #[trigger] heap_rows(pages, schema)[i],
            ) == Some(key);
        assert(stored_row(pages, schema, places[i])[pk].key_text() == key);
    }
}

/// The loaded index holds the key of every live slot's row.
pub proof fn lemma_loaded_index_has(pages: Seq<Seq<u8>>, schema: SchemaView, place: (usize, usize))
    requires
        schema.primary_index() is Some,
        is_live(pages, schema.max_slots(), place),
    ensures
        loaded_index(pages, schema).contains_key(
            schema.primary_key(stored_row(pages, schema, place))->0,
        ),
{
    let key = schema.primary_key(stored_row(pages, schema, place))->0;
    let places = live_places(pages, schema);
    lemma_heap_slots_has(pages, schema.max_slots(), pages.len(), place);
    let i = choose|i: int| 0 <= i < places.len() && places[i] == place;
    lemma_loaded_index_keys(pages, schema, key);
    assert(schema.primary_key(heap_rows(pages, schema)[i]) == Some(key));
}

/// A file without pages has no two live slots with the same primary key.
pub proof fn lemma_empty_keys_unique(schema: SchemaView)
    ensures
        keys_unique(Seq::empty(), schema),
{
}

/// In a table with a primary key no two live slots ever hold the same
/// key: where that holds of a heap file, and a row is inserted whose key the
/// loaded index does not hold, it holds of the file after the insert. This
/// holds where the table's bitmap lies in the page header and the row can be
/// read back unchanged.
pub proof fn lemma_insert_keeps_keys_unique(
    pages: Seq<Seq<u8>>,
    schema: SchemaView,
    fields: Seq<FieldView>,
)
    requires
        whole_pages(pages),
        bitmap_fits(schema),
        pages.len() < usize::MAX,
        row_fits(fields, schema.columns),
        keys_unique(pages, schema),
        schema.primary_key(fields) matches Some(key) ==> !loaded_index(pages, schema).contains_key(
            key,
        ),
    ensures
        keys_unique(pages_with_row(pages, schema, fields), schema),
        forall|q: (usize, usize)|
            #![trigger is_live(pages_with_row(pages, schema, fields), schema.max_slots(), q)]
            is_live(pages_with_row(pages, schema, fields), schema.max_slots(), q) ==> (if q
                == free_place(pages, schema.max_slots()) {
                stored_row(pages_with_row(pages, schema, fields), schema, q) == fields
            } else {
                is_live(pages, schema.max_slots(), q) && stored_row(
                    pages_with_row(pages, schema, fields),
                    schema,
                    q,
                ) == stored_row(pages, schema, q)
            }),
{
    let n = schema.max_slots();
    let bytes = encode_row(fields, schema.columns);
    let after = pages_with_row(pages, schema, fields);
    let place = free_place(pages, n);
    let page = page_at(pages, place.0 as int);
    let size = schema.row_size() as int;
    lemma_round_trip(fields, schema.columns);
    lemma_max_slots(schema);
    lemma_free_place(pages, n);
    assert forall|q: (usize, usize)| #![trigger is_live(after, n, q)] is_live(after, n, q) implies (if q == place {
        stored_row(after, schema, q) == fields
    } else {
        is_live(pages, n, q) && stored_row(after, schema, q) == stored_row(pages, schema, q)
    }) by {
        if q.0 == place.0 {
            lemma_put_row(page, place.1 as int, bytes, n as int, q.1 as int);
            if q.1 != place.1 && place.0 >= pages.len() {
                lemma_blank_page_free(q.1 as int);
            }
        }
    }
    if schema.primary_index() is Some {
        assert forall|a: (usize, usize), b: (usize, usize)|
            #![trigger stored_row(after, schema, a), stored_row(after, schema, b)]
            is_live(after, n, a) && is_live(after, n, b) && a != b implies schema.primary_key(
            stored_row(after, schema, a),
        ) != schema.primary_key(stored_row(after, schema, b)) by {
            if a == place {
                lemma_loaded_index_has(pages, schema, b);
            } else if b == place {
                lemma_loaded_index_has(pages, schema, a);
            } else {
                assert(schema.primary_key(stored_row(pages, schema, a)) != schema.primary_key(
                    stored_row(pages, schema, b),
                ));
            }
        }
    }
}

/// Marking a slot of a page free, where the bitmap lies in the header,
/// leaves every other slot in its state and changes the bytes of no slot.
pub proof fn lemma_clear_slot(page: Seq<u8>, slot: int, max_slots: int, size: int, other: int)
    requires
        page.len() == PAGE_SIZE,
        0 <= slot < max_slots <= 8 * HEADER_SIZE,
        0 <= other < max_slots,
        0 < size,
        HEADER_SIZE + max_slots * size <= PAGE_SIZE,
    ensures
        mark_slot(page, slot, false).len() == PAGE_SIZE,
        slot_full(mark_slot(page, slot, false), other) == (other != slot && slot_full(page, other)),
        slot_bytes(mark_slot(page, slot, false), other, size) == slot_bytes(page, other, size),
{
    lemma_mark_slot(page, slot, false, other);
    lemma_slot_in_page(other, max_slots, size);
    assert(slot_bytes(mark_slot(page, slot, false), other, size) =~= slot_bytes(page, other, size));
}

/// Deleting rows keeps the keys of the live slots distinct: where no two
/// live slots of a heap file hold the same key, none do after the slots
/// at `places` are marked free. This holds where the table's bitmap lies in
/// the page header.
pub proof fn lemma_delete_keeps_keys_unique(
    pages: Seq<Seq<u8>>,
    schema: SchemaView,
    places: Seq<(usize, usize)>,
)
    requires
        whole_pages(pages),
        bitmap_fits(schema),
        keys_unique(pages, schema),
        forall|k: int|
            0 <= k < places.len() ==> (#[trigger] places[k]).0 < pages.len() && places[k].1
                < schema.max_slots(),
    ensures
        whole_pages(pages_cleared(pages, places)),
        pages_cleared(pages, places).len() == pages.len(),
        keys_unique(pages_cleared(pages, places), schema),
        forall|q: (usize, usize)|
            #![trigger is_live(pages_cleared(pages, places), schema.max_slots(), q)]
            is_live(pages_cleared(pages, places), schema.max_slots(), q) ==> is_live(
                pages,
                schema.max_slots(),
                q,
            ) && stored_row(pages_cleared(pages, places), schema, q) == stored_row(pages, schema, q),
    decreases places.len(),
{
    if places.len() > 0 {
        let n = schema.max_slots();
        let size = schema.row_size() as int;
        let init = places.drop_last();
        let place = places.last();
        assert(place == places[places.len() - 1]);
        assert forall|k: int| 0 <= k < init.len() implies (#[trigger] init[k]).0 < pages.len()
            && init[k].1 < n by {
            assert(init[k] == places[k]);
        }
        lemma_delete_keeps_keys_unique(pages, schema, init);
        lemma_max_slots(schema);
        let before = pages_cleared(pages, init);
        let after = pages_cleared(pages, places);
        let page = before[place.0 as int];
        assert(after =~= write_at(before, place.0 as int, mark_slot(page, place.1 as int, false)));
        assert forall|q: (usize, usize)|
            #![trigger is_live(after, n, q)]
            is_live(after, n, q) implies is_live(pages, n, q) && stored_row(after, schema, q)
            == stored_row(pages, schema, q) by {
            if q.0 == place.0 {
                lemma_clear_slot(page, place.1 as int, n as int, size, q.1 as int);
            }
            assert(is_live(before, n, q));
        }
        assert(whole_pages(after)) by {
            lemma_clear_slot(page, place.1 as int, n as int, size, 0);
        }
        if schema.primary_index() is Some {
            assert forall|a: (usize, usize), b: (usize, usize)|
                #![trigger stored_row(after, schema, a), stored_row(after, schema, b)]
                is_live(after, n, a) && is_live(after, n, b) && a != b implies schema.primary_key(
                stored_row(after, schema, a),
            ) != schema.primary_key(stored_row(after, schema, b)) by {
                assert(is_live(after, n, a) && is_live(after, n, b));
                assert(schema.primary_key(stored_row(pages, schema, a)) != schema.primary_key(
                    stored_row(pages, schema, b),
                ));
            }
        }
    }
}

/// Bytes written over a slot of a page whose bitmap lies in the header:
/// the slot holds the bytes, every slot keeps its state, and every other
/// slot keeps its bytes.
pub proof fn lemma_overwrite_slot(page: Seq<u8>, slot: int, bytes: Seq<u8>, max_slots: int, other: int)
    requires
        page.len() == PAGE_SIZE,
        0 <= slot < max_slots <= 8 * HEADER_SIZE,
        0 <= other < max_slots,
        0 < bytes.len(),
        HEADER_SIZE + max_slots * bytes.len() <= PAGE_SIZE,
    ensures
        put_bytes(page, row_offset(slot, bytes.len() as int), bytes).len() == PAGE_SIZE,
        slot_full(put_bytes(page, row_offset(slot, bytes.len() as int), bytes), other) == slot_full(
            page,
            other,
        ),
        slot_bytes(
            put_bytes(page, row_offset(slot, bytes.len() as int), bytes),
            other,
            bytes.len() as int,
        ) == (if other == slot {
            bytes
        } else {
            slot_bytes(page, other, bytes.len() as int)
        }),
{
    let size = bytes.len() as int;
    let after = put_bytes(page, row_offset(slot, size), bytes);
    lemma_slot_in_page(slot, max_slots, size);
    lemma_slot_in_page(other, max_slots, size);
    assert(after[other / 8] == page[other / 8]);
    if other == slot {
        assert(slot_bytes(after, other, size) =~= bytes);
    } else {
        lemma_slots_apart(slot, other, size);
        assert(slot_bytes(after, other, size) =~= slot_bytes(page, other, size));
    }
}

/// Assignments of which none is refused leave the primary-key field of a row as it was.
pub proof fn lemma_assigned_keeps_key(
    fields: Seq<FieldView>,
    schema: SchemaView,
    assignments: Seq<(Seq<char>, FieldView)>,
)
    requires
        schema.primary_index() is Some,
        fields.len() == schema.columns.len(),
        forall|k: int| 0 <= k < assignments.len() ==> !refused_column(schema, (#[trigger] assignments[k]).0),
    ensures
        assigned(fields, schema, assignments).len() == fields.len(),
        assigned(fields, schema, assignments)[schema.primary_index()->0] == fields[schema.primary_index()->0],
    decreases assignments.len(),
{
    lemma_column_index(schema, Seq::empty());
    if assignments.len() > 0 {
        let init = assignments.drop_last();
        assert forall|k: int| 0 <= k < init.len() implies !refused_column(
            schema,
            (#[trigger] init[k]).0,
        ) by {
            assert(init[k] == assignments[k]);
        }
        lemma_assigned_keeps_key(fields, schema, init);
        assert(!refused_column(schema, assignments[assignments.len() - 1].0));
        lemma_column_index(schema, assignments.last().0);
    }
}

/// Updating rows keeps the keys of the live slots distinct: where no two
/// live slots of a heap file hold the same key, none do after the rows at
/// `places` are rewritten with `assignments` applied, of which none is
/// refused. Every slot keeps its state and the key of its row. This holds
/// where the table's bitmap lies in the page header and the key of each
/// rewritten row can be stored and read back unchanged.
pub proof fn lemma_update_keeps_keys_unique(
    pages: Seq<Seq<u8>>,
    schema: SchemaView,
    places: Seq<(usize, usize)>,
    assignments: Seq<(Seq<char>, FieldView)>,
)
    requires
        whole_pages(pages),
        bitmap_fits(schema),
        keys_unique(pages, schema),
        schema.primary_index() is Some,
        assignment_error(schema, assignments) is None,
        assignments_typed(schema, assignments),
        forall|k: int|
            0 <= k < places.len() ==> (#[trigger] places[k]).0 < pages.len() && places[k].1
                < schema.max_slots() && field_fits(
                stored_row(pages, schema, places[k])[schema.primary_index()->0],
                schema.columns[schema.primary_index()->0].data_type,
            ),
    ensures
        whole_pages(pages_updated(pages, schema, places, assignments)),
        pages_updated(pages, schema, places, assignments).len() == pages.len(),
        keys_unique(pages_updated(pages, schema, places, assignments), schema),
        forall|q: (usize, usize)|
            #![trigger is_live(pages_updated(pages, schema, places, assignments), schema.max_slots(), q)]
            is_live(pages_updated(pages, schema, places, assignments), schema.max_slots(), q)
                == is_live(pages, schema.max_slots(), q),
        forall|q: (usize, usize)|
            #![trigger stored_row(pages_updated(pages, schema, places, assignments), schema, q)]
            q.0 < pages.len() && q.1 < schema.max_slots() ==> stored_row(
                pages_updated(pages, schema, places, assignments),
                schema,
                q,
            )[schema.primary_index()->0] == stored_row(pages, schema, q)[schema.primary_index()->0],
    decreases places.len(),
{
    let n = schema.max_slots();
    let pk = schema.primary_index()->0;
    let size = schema.row_size() as int;
    lemma_max_slots(schema);
    lemma_column_index(schema, Seq::empty());
    if places.len() > 0 {
        let init = places.drop_last();
        let place = places.last();
        assert(place == places[places.len() - 1]);
        assert forall|k: int| 0 <= k < init.len() implies (#[trigger] init[k]).0 < pages.len()
            && init[k].1 < n && field_fits(
            stored_row(pages, schema, init[k])[pk],
            schema.columns[pk].data_type,
        ) by {
            assert(init[k] == places[k]);
        }
        lemma_update_keeps_keys_unique(pages, schema, init, assignments);
        let before = pages_updated(pages, schema, init, assignments);
        let after = pages_updated(pages, schema, places, assignments);
        let old_row = stored_row(pages, schema, place);
        let new_row = assigned(old_row, schema, assignments);
        let bytes = encode_row(new_row, schema.columns);
        let page = before[place.0 as int];
        lemma_decoded_well_typed(
            slot_bytes(page_at(pages, place.0 as int), place.1 as int, size),
            schema.columns,
        );
        lemma_assigned_well_typed(old_row, schema, assignments);
        lemma_serialized_len(new_row, schema.columns);
        lemma_first_where_bounds(
            assignments,
            |a: (Seq<char>, FieldView)| refused_column(schema, a.0),
        );
        lemma_assigned_keeps_key(old_row, schema, assignments);
        assert(schema.columns.take(schema.columns.len() as int) =~= schema.columns);
        lemma_encode_row_chunk(new_row, schema.columns, schema.columns.len() as int, pk);
        lemma_field_round_trip(old_row[pk], schema.columns[pk].data_type);
        assert(decode_row(bytes, schema.columns)[pk] == old_row[pk]);
        assert(after =~= write_at(
            before,
            place.0 as int,
            put_bytes(page, row_offset(place.1 as int, size), bytes),
        ));
        assert forall|q: (usize, usize)| #![trigger is_live(after, n, q)] is_live(after, n, q)
            == is_live(pages, n, q) by {
            assert(is_live(before, n, q) == is_live(pages, n, q));
            if q.0 == place.0 && q.1 < n {
                lemma_overwrite_slot(page, place.1 as int, bytes, n as int, q.1 as int);
            }
        }
        assert forall|q: (usize, usize)|
            #![trigger stored_row(after, schema, q)]
            q.0 < pages.len() && q.1 < n implies stored_row(after, schema, q)[pk] == stored_row(
            pages,
            schema,
            q,
        )[pk] by {
            assert(stored_row(before, schema, q)[pk] == stored_row(pages, schema, q)[pk]);
            if q.0 == place.0 {
                lemma_overwrite_slot(page, place.1 as int, bytes, n as int, q.1 as int);
            }
        }
        assert(whole_pages(after)) by {
            lemma_overwrite_slot(page, place.1 as int, bytes, n as int, 0);
        }
        assert forall|a: (usize, usize), b: (usize, usize)|
            #![trigger stored_row(after, schema, a), stored_row(after, schema, b)]
            is_live(after, n, a) && is_live(after, n, b) && a != b implies schema.primary_key(
            stored_row(after, schema, a),
        ) != schema.primary_key(stored_row(after, schema, b)) by {
            assert(stored_row(after, schema, a)[pk] == stored_row(pages, schema, a)[pk]);
            assert(stored_row(after, schema, b)[pk] == stored_row(pages, schema, b)[pk]);
            assert(schema.primary_key(stored_row(pages, schema, a)) != schema.primary_key(
                stored_row(pages, schema, b),
            ));
        }
    } else {
        assert(pages_updated(pages, schema, places, assignments) == pages);
    }
}

} // verus!
