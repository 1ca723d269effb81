//! Updating and deleting the rows of a table that a filter selects.

use crate::catalog::schema::{ColumnView, Schema, SchemaView, lemma_column_index};
use crate::query::passes;
use crate::seqs::{first_where, keep, lemma_first_where_is, lemma_keep_step};
use crate::sql::{Filter, FilterView, assignment_views, filter_view};
use crate::storage::pager::{PAGE_SIZE, mark_slot, max_pages, page_at, put_bytes, row_offset, write_at};
use crate::storage::record::{
    Field, FieldView, Row, decode_row, encode_row, lemma_serialized_len,
    row_well_typed,
};
use crate::storage::{Table, lemma_heap_slots_bound, live_places, stored_row};
use crate::text::concat3;
use vstd::prelude::*;
use vstd::string::StringExecFns;

verus! {

/// A row that an update or a delete is to change, with its place.
pub struct Target {
    pub page: usize,
    pub slot: usize,
    pub row: Row,
}

/// The places of `targets`, in order.
pub open spec fn places_of(targets: Seq<Target>) -> Seq<(usize, usize)> {
    Seq::new(targets.len(), |i: int| (targets[i].page, targets[i].slot))
}

/// The pages that the places `places` lie in, in order.
pub open spec fn pages_of_places(places: Seq<(usize, usize)>) -> Seq<usize> {
    places.map_values(|place: (usize, usize)| place.0)
}

/// The places of the rows of a heap file that pass `filter`, by ascending page and slot.
pub open spec fn target_places(pages: Seq<Seq<u8>>, schema: SchemaView, filter: Option<FilterView>) -> Seq<
    (usize, usize),
> {
    keep(
        live_places(pages, schema),
        |place: (usize, usize)| passes(filter, stored_row(pages, schema, place), schema),
    )
}

/// The error for an assignment to a column that the table lacks.
pub open spec fn column_not_found_message(column: Seq<char>) -> Seq<char> {
    "Column "@ + column + " not found"@
}

/// Whether an assignment to the column named `name` is refused: the table
/// lacks the column, or it is the primary key.
pub open spec fn refused_column(schema: SchemaView, name: Seq<char>) -> bool {
    match schema.column_index(name) {
        Some(i) => schema.columns[i].is_primary,
        None => true,
    }
}

/// The error for the first of `assignments` that is refused, if any is.
pub open spec fn assignment_error(schema: SchemaView, assignments: Seq<(Seq<char>, FieldView)>) -> Option<
    Seq<char>,
> {
    let bad = first_where(
        assignments,
        |a: (Seq<char>, FieldView)| refused_column(schema, a.0),
    );
    if bad < assignments.len() {
        if schema.column_index(assignments[bad].0) is None {
            Some(column_not_found_message(assignments[bad].0))
        } else {
            Some("Updating Primary Key is not allowed"@)
        }
    } else {
        None
    }
}

/// `fields` after `assignments` are applied in order, each giving the
/// column it names its new value.
pub open spec fn assigned(
    fields: Seq<FieldView>,
    schema: SchemaView,
    assignments: Seq<(Seq<char>, FieldView)>,
) -> Seq<FieldView>
    decreases assignments.len(),
{
    if assignments.len() == 0 {
        fields
    } else {
        let before = assigned(fields, schema, assignments.drop_last());
        match schema.column_index(assignments.last().0) {
            Some(i) => before.update(i, assignments.last().1),
            None => before,
        }
    }
}

/// Whether each of `assignments` that names a column of the table has a
/// value of that column's type.
pub open spec fn assignments_typed(schema: SchemaView, assignments: Seq<(Seq<char>, FieldView)>) -> bool {
    forall|k: int|
        0 <= k < assignments.len() ==> (schema.column_index(
            (#[trigger] assignments[k]).0,
        ) matches Some(i) ==> assignments[k].1.has_type(schema.columns[i].data_type))
}

/// The pages of a heap file after the row at each of `places`, as it was
/// in `pages`, is rewritten in its slot with `assignments` applied.
pub open spec fn pages_updated(
    pages: Seq<Seq<u8>>,
    schema: SchemaView,
    places: Seq<(usize, usize)>,
    assignments: Seq<(Seq<char>, FieldView)>,
) -> Seq<Seq<u8>>
    decreases places.len(),
{
    if places.len() == 0 {
        pages
    } else {
        let before = pages_updated(pages, schema, places.drop_last(), assignments);
        let place = places.last();
        let row = assigned(stored_row(pages, schema, place), schema, assignments);
        write_at(
            before,
            place.0 as int,
            put_bytes(
                page_at(before, place.0 as int),
                row_offset(place.1 as int, schema.row_size() as int),
                encode_row(row, schema.columns),
            ),
        )
    }
}

/// The pages of a heap file after the slot at each of `places` is marked free.
pub open spec fn pages_cleared(pages: Seq<Seq<u8>>, places: Seq<(usize, usize)>) -> Seq<Seq<u8>>
    decreases places.len(),
{
    if places.len() == 0 {
        pages
    } else {
        let before = pages_cleared(pages, places.drop_last());
        let place = places.last();
        write_at(
            before,
            place.0 as int,
            mark_slot(page_at(before, place.0 as int), place.1 as int, false),
        )
    }
}

/// The index after the key of each of `rows` is removed; nothing is
/// removed in a table without a primary key.
pub open spec fn keys_removed(
    index: Map<Seq<char>, (usize, usize)>,
    schema: SchemaView,
    rows: Seq<Seq<FieldView>>,
) -> Map<Seq<char>, (usize, usize)>
    decreases rows.len(),
{
    if rows.len() == 0 {
        index
    } else {
        let before = keys_removed(index, schema, rows.drop_last());
        match schema.primary_key(rows.last()) {
            Some(key) => before.remove(key),
            None => before,
        }
    }
}

/// A decoded row has one field of the right type for each column.
pub proof fn lemma_decoded_well_typed(bytes: Seq<u8>, columns: Seq<ColumnView>)
    ensures
        decode_row(bytes, columns).len() == columns.len(),
        row_well_typed(decode_row(bytes, columns), columns),
{
}

/// Well-typed assignments keep a well-typed row well typed, and of the same length.
pub proof fn lemma_assigned_well_typed(
    fields: Seq<FieldView>,
    schema: SchemaView,
    assignments: Seq<(Seq<char>, FieldView)>,
)
    requires
        fields.len() == schema.columns.len(),
        row_well_typed(fields, schema.columns),
        assignments_typed(schema, assignments),
    ensures
        assigned(fields, schema, assignments).len() == schema.columns.len(),
        row_well_typed(assigned(fields, schema, assignments), schema.columns),
    decreases assignments.len(),
{
    if assignments.len() > 0 {
        let init = assignments.drop_last();
        assert forall|k: int| 0 <= k < init.len() implies (schema.column_index(
            (#[trigger] init[k]).0,
        ) matches Some(i) ==> init[k].1.has_type(schema.columns[i].data_type)) by {
            lemma_column_index(schema, init[k].0);
            assert(init[k] == assignments[k]);
        }
        lemma_assigned_well_typed(fields, schema, init);
        assert(assignments.last() == assignments[assignments.len() - 1]);
        lemma_column_index(schema, assignments.last().0);
    }
}

/// Applies `assignments` to `row` in order. The first assignment to a
/// column that the table lacks, or to the primary key, is an error.
pub fn apply_assignments(row: &mut Row, schema: &Schema, assignments: &Vec<(String, Field)>) -> (result:
    Result<(), String>)
    requires
        old(row)@.len() == schema@.columns.len(),
    ensures
        match assignment_error(schema@, assignment_views(assignments@)) {
            Some(text) => result matches Err(message) && message@ == text,
            None => result is Ok && final(row)@ == assigned(
                old(row)@,
                schema@,
                assignment_views(assignments@),
            ),
        },
{
    let ghost views = assignment_views(assignments@);
    let ghost refused = |a: (Seq<char>, FieldView)| refused_column(schema@, a.0);
    let mut j: usize = 0;
    proof {
        assert(views.take(0) =~= Seq::<(Seq<char>, FieldView)>::empty());
    }
    while j < assignments.len()
        invariant
            j <= assignments@.len(),
            views == assignment_views(assignments@),
            refused == |a: (Seq<char>, FieldView)| refused_column(schema@, a.0),
            forall|k: int| 0 <= k < j ==> !refused(#[trigger] views[k]),
            row@.len() == schema@.columns.len(),
            row@ == assigned(old(row)@, schema@, views.take(j as int)),
        decreases assignments.len() - j,
    {
        let col_name = &assignments[j].0;
        let new_val = &assignments[j].1;
        let col_idx = match schema.find_column(col_name) {
            Some(idx) => idx,
            None => {
                proof {
                    lemma_first_where_is(views, refused, j as int);
                }
                return Err(concat3("Column ", col_name.as_str(), " not found"));
            },
        };
        if schema.columns[col_idx].is_primary {
            proof {
                lemma_first_where_is(views, refused, j as int);
            }
            return Err(String::from_str("Updating Primary Key is not allowed"));
        }
        let ghost before = row@;
        assert(row.fields@.len() == row@.len());
        row.fields[col_idx] = new_val.clone();
        proof {
            assert(row@ =~= before.update(col_idx as int, new_val@));
            let next = views.take(j as int + 1);
            assert(next.drop_last() =~= views.take(j as int));
            assert(next.last() == views[j as int]);
        }
        j += 1;
    }
    proof {
        lemma_first_where_is(views, refused, j as int);
        assert(views.take(assignments@.len() as int) =~= views);
    }
    Ok(())
}

impl Table {
    /// The rows of the table that pass `filter`, each with its place, by
    /// ascending page and slot.
    pub fn collect_targets(&self, filter: &Option<Filter>) -> (targets: Vec<Target>)
        requires
            self.wf(),
        ensures
            places_of(targets@) == target_places(self.pager@, self.schema@, filter_view(*filter)),
            forall|k: int|
                0 <= k < targets@.len() ==> (#[trigger] targets@[k]).row@ == stored_row(
                    self.pager@,
                    self.schema@,
                    (targets@[k].page, targets@[k].slot),
                ),
            forall|k: int|
                0 <= k < targets@.len() ==> (#[trigger] targets@[k]).page < self.pager@.len()
                    && targets@[k].slot < self.schema@.max_slots(),
    {
        let places = self.live_slots();
        let num_pages: usize = self.pager.num_pages();
        let ghost pick = |place: (usize, usize)|
            passes(
                filter_view(*filter),
                stored_row(self.pager@, self.schema@, place),
                self.schema@,
            );
        proof {
            lemma_heap_slots_bound(self.pager@, self.schema@.max_slots(), self.pager@.len());
            assert(places@.take(0) =~= Seq::<(usize, usize)>::empty());
        }
        let mut targets: Vec<Target> = Vec::new();
        let mut i: usize = 0;
        while i < places.len()
            invariant
                i <= places@.len(),
                self.wf(),
                places@ == live_places(self.pager@, self.schema@),
                forall|k: int|
                    0 <= k < places@.len() ==> (#[trigger] places@[k]).0 < self.pager@.len()
                        && places@[k].1 < self.schema@.max_slots(),
                pick == |place: (usize, usize)|
                    passes(
                        filter_view(*filter),
                        stored_row(self.pager@, self.schema@, place),
                        self.schema@,
                    ),
                places_of(targets@) == keep(places@.take(i as int), pick),
                forall|k: int|
                    0 <= k < targets@.len() ==> (#[trigger] targets@[k]).row@ == stored_row(
                        self.pager@,
                        self.schema@,
                        (targets@[k].page, targets@[k].slot),
                    ),
                forall|k: int|
                    0 <= k < targets@.len() ==> (#[trigger] targets@[k]).page < self.pager@.len()
                        && targets@[k].slot < self.schema@.max_slots(),
            decreases places.len() - i,
        {
            let place = places[i];
            let row = self.get_row(place.0, place.1);
            let ghost before = places_of(targets@);
            let selected = match filter {
                Some(f) => Row::row_matches_filter(&row, f, &self.schema),
                None => true,
            };
            if selected {
                targets.push(Target { page: place.0, slot: place.1, row });
                assert(places_of(targets@) =~= before.push(place));
            }
            proof {
                lemma_keep_step(places@, pick, i as int);
            }
            i += 1;
        }
        proof {
            assert(places@.take(places@.len() as int) =~= places@);
        }
        targets
    }
}

/// The rows stored at `places` in a heap file with pages `pages`, in order.
pub open spec fn rows_at(pages: Seq<Seq<u8>>, schema: SchemaView, places: Seq<(usize, usize)>) -> Seq<
    Seq<FieldView>,
> {
    places.map_values(|place: (usize, usize)| stored_row(pages, schema, place))
}

impl Table {
    /// Applies `assignments` to every row that passes `filter` and writes
    /// each back in its slot, by ascending page and slot. Returns the number
    /// of rows updated. Where a row passes and an assignment is refused,
    /// nothing is written.
    pub fn update_where(&mut self, assignments: &Vec<(String, Field)>, filter: &Option<Filter>) -> (result:
        Result<usize, String>)
        requires
            old(self).wf(),
            assignments_typed(old(self).schema@, assignment_views(assignments@)),
        ensures
            final(self).wf(),
            final(self).schema == old(self).schema,
            final(self).index == old(self).index,
            old(self).refuses_update(assignment_views(assignments@), filter_view(*filter)) ==> (
            result matches Err(message) && message@ == assignment_error(
                old(self).schema@,
                assignment_views(assignments@),
            )->0) && final(self).pager == old(self).pager,
            !old(self).refuses_update(assignment_views(assignments@), filter_view(*filter)) ==> {
                let places = target_places(old(self).pager@, old(self).schema@, filter_view(*filter));
                &&& result matches Ok(count) && count == places.len()
                &&& final(self).pager@ == pages_updated(
                    old(self).pager@,
                    old(self).schema@,
                    places,
                    assignment_views(assignments@),
                )
                &&& final(self).pager.written@ == old(self).pager.written@ + pages_of_places(places)
            },
    {
        let targets = self.collect_targets(filter);
        let ghost places = places_of(targets@);
        let ghost pages = self.pager@;
        let ghost views = assignment_views(assignments@);
        let mut updated_count: usize = 0;
        let mut i: usize = 0;
        proof {
            assert(places.take(0) =~= Seq::<(usize, usize)>::empty());
            assert(self.pager.written@ =~= old(self).pager.written@ + pages_of_places(
                places.take(0),
            ));
        }
        while i < targets.len()
            invariant
                i <= targets@.len(),
                updated_count == i,
                self.wf(),
                old(self).wf(),
                self.schema == old(self).schema,
                self.index == old(self).index,
                pages == old(self).pager@,
                views == assignment_views(assignments@),
                assignments_typed(self.schema@, views),
                places == places_of(targets@),
                places == target_places(pages, self.schema@, filter_view(*filter)),
                forall|k: int|
                    0 <= k < targets@.len() ==> (#[trigger] targets@[k]).row@ == stored_row(
                        pages,
                        self.schema@,
                        (targets@[k].page, targets@[k].slot),
                    ),
                forall|k: int|
                    0 <= k < targets@.len() ==> (#[trigger] targets@[k]).page < pages.len()
                        && targets@[k].slot < self.schema@.max_slots(),
                i > 0 ==> assignment_error(self.schema@, views) is None,
                i == 0 ==> self.pager == old(self).pager,
                self.pager@.len() == pages.len(),
                self.pager@ == pages_updated(pages, self.schema@, places.take(i as int), views),
                self.pager.written@ == old(self).pager.written@ + pages_of_places(
                    places.take(i as int),
                ),
            decreases targets.len() - i,
        {
            let target = &targets[i];
            let mut row = target.row.clone();
            proof {
                lemma_decoded_well_typed(
                    crate::storage::slot_bytes(
                        page_at(pages, target.page as int),
                        target.slot as int,
                        self.schema@.row_size() as int,
                    ),
                    self.schema@.columns,
                );
            }
            match apply_assignments(&mut row, &self.schema, assignments) {
                Err(message) => {
                    return Err(message);
                },
                Ok(()) => {},
            }
            proof {
                lemma_assigned_well_typed(target.row@, self.schema@, views);
                lemma_serialized_len(row@, self.schema@.columns);
                assert(self.pager.file_length == self.pager@.len() * PAGE_SIZE);
                assert(target.page < max_pages());
            }
            let ghost written = self.pager.written@;
            self.update_row(target.page, target.slot, row);
            proof {
                let next = places.take(i as int + 1);
                assert(next.drop_last() =~= places.take(i as int));
                assert(next.last() == (target.page, target.slot));
                assert(self.pager.written@ =~= old(self).pager.written@ + pages_of_places(next));
            }
            updated_count += 1;
            i += 1;
        }
        proof {
            assert(places.take(targets@.len() as int) =~= places);
        }
        Ok(updated_count)
    }

    /// Marks the slot of every row that passes `filter` free, by ascending
    /// page and slot, and takes the row's key out of the index. Returns the
    /// number of rows deleted.
    pub fn delete_where(&mut self, filter: &Option<Filter>) -> (deleted_count: usize)
        requires
            old(self).wf(),
        ensures
            final(self).wf(),
            final(self).schema == old(self).schema,
            deleted_count == target_places(
                old(self).pager@,
                old(self).schema@,
                filter_view(*filter),
            ).len(),
            final(self).pager@ == pages_cleared(
                old(self).pager@,
                target_places(old(self).pager@, old(self).schema@, filter_view(*filter)),
            ),
            final(self).pager.written@ == old(self).pager.written@ + pages_of_places(
                target_places(old(self).pager@, old(self).schema@, filter_view(*filter)),
            ),
            final(self).index@ == keys_removed(
                old(self).index@,
                old(self).schema@,
                rows_at(
                    old(self).pager@,
                    old(self).schema@,
                    target_places(old(self).pager@, old(self).schema@, filter_view(*filter)),
                ),
            ),
    {
        let targets = self.collect_targets(filter);
        let pk_col_idx = self.schema.find_primary();
        let ghost places = places_of(targets@);
        let ghost pages = self.pager@;
        let ghost rows = rows_at(pages, self.schema@, places);
        let mut deleted_count: usize = 0;
        let mut i: usize = 0;
        proof {
            assert(places.take(0) =~= Seq::<(usize, usize)>::empty());
            assert(rows.take(0) =~= Seq::<Seq<FieldView>>::empty());
            assert(self.pager.written@ =~= old(self).pager.written@ + pages_of_places(
                places.take(0),
            ));
            lemma_column_index(self.schema@, Seq::empty());
        }
        while i < targets.len()
            invariant
                i <= targets@.len(),
                deleted_count == i,
                self.wf(),
                self.schema == old(self).schema,
                pages == old(self).pager@,
                places == places_of(targets@),
                places == target_places(pages, self.schema@, filter_view(*filter)),
                rows == rows_at(pages, self.schema@, places),
                pk_col_idx matches Some(pk) ==> self.schema@.primary_index() == Some(pk as int)
                    && pk < self.schema@.columns.len(),
                pk_col_idx is None ==> self.schema@.primary_index() is None,
                forall|k: int|
                    0 <= k < targets@.len() ==> (#[trigger] targets@[k]).row@ == stored_row(
                        pages,
                        self.schema@,
                        (targets@[k].page, targets@[k].slot),
                    ),
                forall|k: int|
                    0 <= k < targets@.len() ==> (#[trigger] targets@[k]).page < pages.len()
                        && targets@[k].slot < self.schema@.max_slots(),
                self.pager@.len() == pages.len(),
                self.pager@ == pages_cleared(pages, places.take(i as int)),
                self.pager.written@ == old(self).pager.written@ + pages_of_places(
                    places.take(i as int),
                ),
                self.index@ == keys_removed(old(self).index@, self.schema@, rows.take(i as int)),
            decreases targets.len() - i,
        {
            let target = &targets[i];
            proof {
                assert(self.pager.file_length == self.pager@.len() * PAGE_SIZE);
                assert(target.page < max_pages());
            }
            self.delete_row(target.page, target.slot);
            if let Some(pk_idx) = pk_col_idx {
                assert(target.row.fields@.len() == target.row@.len());
                assert(target.row.fields@[pk_idx as int]@ == target.row@[pk_idx as int]);
                let pk_val = target.row.fields[pk_idx].key();
                self.index.remove(&pk_val);
            }
            proof {
                let next = places.take(i as int + 1);
                assert(next.drop_last() =~= places.take(i as int));
                assert(next.last() == (target.page, target.slot));
                assert(self.pager.written@ =~= old(self).pager.written@ + pages_of_places(next));
                let next_rows = rows.take(i as int + 1);
                assert(next_rows.drop_last() =~= rows.take(i as int));
                assert(next_rows.last() == target.row@);
            }
            deleted_count += 1;
            i += 1;
        }
        proof {
            assert(places.take(targets@.len() as int) =~= places);
            assert(rows.take(targets@.len() as int) =~= rows);
        }
        deleted_count
    }

    /// Whether an update with `assignments` and `filter` is refused: a row
    /// passes the filter, and one of the assignments is to a column that the
    /// table lacks or to the primary key.
    pub open spec fn refuses_update(
        &self,
        assignments: Seq<(Seq<char>, FieldView)>,
        filter: Option<FilterView>,
    ) -> bool {
        &&& target_places(self.pager@, self.schema@, filter).len() > 0
        &&& assignment_error(self.schema@, assignments) is Some
    }
}

} // verus!
