//! What every command keeps true of a database: in each table, no two live
//! slots hold rows with the same primary key.

use crate::catalog::schema::{ColumnView, SchemaView, column_views, lemma_column_index};
use crate::engine::{
    Database, created, deleted, dropped, executed, inserted, only_opened, prepared_row, selected,
    updated,
};
use crate::mutation::{
    assignment_error, assignments_typed, pages_cleared, pages_updated, target_places,
};
use crate::query::passes;
use crate::seqs::lemma_keep_all;
use crate::sql::{
    Command, FilterView, JoinView, QueryResult, assignment_views, filter_view, join_view,
};
use crate::storage::heap::{
    bitmap_fits, is_live, keys_unique, lemma_delete_keeps_keys_unique,
    lemma_insert_keeps_keys_unique, lemma_max_slots, lemma_page_slots_live_all,
    lemma_pager_whole_pages, lemma_rows_after_insert, lemma_update_keeps_keys_unique,
    slots_before_free, whole_pages,
};
use crate::storage::pager::PAGE_SIZE;
use crate::storage::record::{FieldView, field_fits, row_fits};
use crate::storage::{
    free_place, heap_rows, lemma_heap_slots_bound, live_places, loaded_index, pages_with_row,
    stored_row,
};
use vstd::prelude::*;

verus! {

/// Whether the primary key of every live row of a heap file can be stored
/// and read back unchanged. True of every table without a primary key.
pub open spec fn keys_fit(pages: Seq<Seq<u8>>, schema: SchemaView) -> bool {
    schema.primary_index() is Some ==> forall|q: (usize, usize)|
        #![trigger is_live(pages, schema.max_slots(), q)]
        is_live(pages, schema.max_slots(), q) ==> field_fits(
            stored_row(pages, schema, q)[schema.primary_index()->0],
            schema.columns[schema.primary_index()->0].data_type,
        )
}

/// Whether the heap file of a table is sound: its bitmap lies in the page
/// header, no two of its live slots hold the same primary key, and each of
/// those keys can be read back unchanged.
pub open spec fn table_sound(pages: Seq<Seq<u8>>, schema: SchemaView) -> bool {
    &&& whole_pages(pages)
    &&& bitmap_fits(schema)
    &&& keys_unique(pages, schema)
    &&& keys_fit(pages, schema)
}

/// Whether a database is sound: only tables have heap files, and the heap
/// file of every table is sound.
pub open spec fn keys_sound(db: Database) -> bool {
    &&& forall|name: Seq<char>| #[trigger] db.files@.contains_key(name) ==> db.has_table(name)
    &&& forall|name: Seq<char>| #[trigger]
        db.has_table(name) ==> table_sound(db.pages_of(name), db.schema_of(name))
}

/// Whether `command` keeps to what soundness needs: a table that it
/// creates has a bitmap that lies in the page header, and a row that it
/// inserts can be read back unchanged, into a file that can grow by a page.
pub open spec fn command_fits(db: Database, command: Command) -> bool {
    match command {
        Command::CreateTable { name, columns } => bitmap_fits(
            SchemaView { table_name: name@, columns: column_views(columns@) },
        ),
        Command::Insert { table_name, row } => db.has_table(table_name@) ==> {
            &&& db.pages_of(table_name@).len() < usize::MAX
            &&& db.catalog.counter(table_name@) < i32::MAX
            &&& match prepared_row(
                table_name@,
                db.schema_of(table_name@),
                row@,
                (db.catalog.counter(table_name@) + 1) as i32,
            ) {
                Ok(fields) => row_fits(fields, db.schema_of(table_name@).columns),
                Err(_) => true,
            }
        },
        _ => true,
    }
}

/// The heap file of a table of a well-formed database is made of whole pages.
pub proof fn lemma_whole_pages(db: Database, name: Seq<char>)
    requires
        db.wf(),
    ensures
        whole_pages(db.pages_of(name)),
{
    if db.files@.contains_key(name) {
        lemma_pager_whole_pages(db.files@[name]);
    }
}

/// A file without pages is sound for every schema whose bitmap lies in the header.
pub proof fn lemma_empty_table_sound(schema: SchemaView)
    requires
        bitmap_fits(schema),
    ensures
        table_sound(Seq::empty(), schema),
{
}

/// An insert that the loaded index does not refuse keeps a sound heap file sound.
pub proof fn lemma_insert_keeps_sound(pages: Seq<Seq<u8>>, schema: SchemaView, fields: Seq<FieldView>)
    requires
        table_sound(pages, schema),
        pages.len() < usize::MAX,
        row_fits(fields, schema.columns),
        schema.primary_key(fields) matches Some(key) ==> !loaded_index(pages, schema).contains_key(
            key,
        ),
    ensures
        table_sound(pages_with_row(pages, schema, fields), schema),
{
    let after = pages_with_row(pages, schema, fields);
    let n = schema.max_slots();
    lemma_insert_keeps_keys_unique(pages, schema, fields);
    lemma_rows_after_insert(pages, schema, fields);
    lemma_column_index(schema, Seq::empty());
    if schema.primary_index() is Some {
        let pk = schema.primary_index()->0;
        assert forall|q: (usize, usize)| #![trigger is_live(after, n, q)] is_live(
            after,
            n,
            q,
        ) implies field_fits(stored_row(after, schema, q)[pk], schema.columns[pk].data_type) by {
            if q != free_place(pages, n) {
                assert(is_live(pages, n, q));
            }
        }
    }
}

/// A delete keeps a sound heap file sound.
pub proof fn lemma_delete_keeps_sound(
    pages: Seq<Seq<u8>>,
    schema: SchemaView,
    filter: Option<FilterView>,
)
    requires
        table_sound(pages, schema),
        pages.len() <= usize::MAX,
    ensures
        table_sound(pages_cleared(pages, target_places(pages, schema, filter)), schema),
{
    let places = target_places(pages, schema, filter);
    let after = pages_cleared(pages, places);
    let n = schema.max_slots();
    lemma_target_places_live(pages, schema, filter);
    lemma_delete_keeps_keys_unique(pages, schema, places);
    if schema.primary_index() is Some {
        let pk = schema.primary_index()->0;
        assert forall|q: (usize, usize)| #![trigger is_live(after, n, q)] is_live(
            after,
            n,
            q,
        ) implies field_fits(stored_row(after, schema, q)[pk], schema.columns[pk].data_type) by {
            assert(is_live(pages, n, q));
        }
    }
}

/// An update of which no assignment is refused keeps a sound heap file sound.
pub proof fn lemma_update_keeps_sound(
    pages: Seq<Seq<u8>>,
    schema: SchemaView,
    assignments: Seq<(Seq<char>, FieldView)>,
    filter: Option<FilterView>,
)
    requires
        table_sound(pages, schema),
        pages.len() <= usize::MAX,
        assignment_error(schema, assignments) is None,
        assignments_typed(schema, assignments),
    ensures
        table_sound(
            pages_updated(pages, schema, target_places(pages, schema, filter), assignments),
            schema,
        ),
{
    let places = target_places(pages, schema, filter);
    let after = pages_updated(pages, schema, places, assignments);
    let n = schema.max_slots();
    lemma_target_places_live(pages, schema, filter);
    if schema.primary_index() is Some {
        let pk = schema.primary_index()->0;
        assert forall|k: int| 0 <= k < places.len() implies (#[trigger] places[k]).0 < pages.len()
            && places[k].1 < n && field_fits(
            stored_row(pages, schema, places[k])[pk],
            schema.columns[pk].data_type,
        ) by {
            assert(is_live(pages, n, places[k]));
        }
        lemma_update_keeps_keys_unique(pages, schema, places, assignments);
        assert forall|q: (usize, usize)| #![trigger is_live(after, n, q)] is_live(
            after,
            n,
            q,
        ) implies field_fits(stored_row(after, schema, q)[pk], schema.columns[pk].data_type) by {
            assert(is_live(pages, n, q));
            assert(stored_row(after, schema, q)[pk] == stored_row(pages, schema, q)[pk]);
        }
    } else {
        lemma_update_keeps_whole(pages, schema, places, assignments);
    }
}

/// Rewriting rows in their slots leaves a file of whole pages one.
pub proof fn lemma_update_keeps_whole(
    pages: Seq<Seq<u8>>,
    schema: SchemaView,
    places: Seq<(usize, usize)>,
    assignments: Seq<(Seq<char>, FieldView)>,
)
    requires
        whole_pages(pages),
        forall|k: int| 0 <= k < places.len() ==> (#[trigger] places[k]).0 < pages.len(),
    ensures
        whole_pages(pages_updated(pages, schema, places, assignments)),
        pages_updated(pages, schema, places, assignments).len() == pages.len(),
    decreases places.len(),
{
    if places.len() > 0 {
        let init = places.drop_last();
        assert forall|k: int| 0 <= k < init.len() implies (#[trigger] init[k]).0 < pages.len() by {
            assert(init[k] == places[k]);
        }
        lemma_update_keeps_whole(pages, schema, init, assignments);
        assert(places.last() == places[places.len() - 1]);
        let before = pages_updated(pages, schema, init, assignments);
        let after = pages_updated(pages, schema, places, assignments);
        assert forall|i: int| 0 <= i < after.len() implies (#[trigger] after[i]).len()
            == PAGE_SIZE by {
            assert(before[i].len() == PAGE_SIZE);
        }
    }
}

/// Every place that a filter selects is a live slot of the file.
pub proof fn lemma_target_places_live(
    pages: Seq<Seq<u8>>,
    schema: SchemaView,
    filter: Option<FilterView>,
)
    requires
        schema.readable(),
        pages.len() <= usize::MAX,
    ensures
        forall|k: int|
            0 <= k < target_places(pages, schema, filter).len() ==> is_live(
                pages,
                schema.max_slots(),
                #[trigger] target_places(pages, schema, filter)[k],
            ),
{
    let n = schema.max_slots();
    lemma_max_slots(schema);
    lemma_heap_slots_bound(pages, n, pages.len());
    lemma_page_slots_live_all(pages, n, pages.len());
    let live = |q: (usize, usize)| is_live(pages, n, q);
    assert forall|i: int| 0 <= i < live_places(pages, schema).len() implies live(
        #[trigger] live_places(pages, schema)[i],
    ) by {}
    lemma_keep_all(
        live_places(pages, schema),
        |place: (usize, usize)| passes(filter, stored_row(pages, schema, place), schema),
        live,
    );
}

/// Every command keeps a sound database sound: if before a command only
/// tables have heap files, and in every table no two live slots hold the
/// same primary key, then the same holds after it, whatever it answers. This
/// holds where the bitmap of every table lies in the page header and every
/// row inserted can be read back unchanged.
pub proof fn lemma_command_keeps_keys_sound(
    before: Database,
    after: Database,
    command: Command,
    result: Result<QueryResult, String>,
)
    requires
        before.wf(),
        after.wf(),
        keys_sound(before),
        before.admits(&command),
        command_fits(before, command),
        executed(before, after, command, result),
    ensures
        keys_sound(after),
{
    match command {
        Command::CreateTable { name, columns } => {
            lemma_created_keeps(before, after, name@, column_views(columns@), result);
        },
        Command::Insert { table_name, row } => {
            lemma_inserted_keeps(before, after, table_name@, row@, result);
        },
        Command::Select { table_name, filter, join } => {
            lemma_selected_keeps(
                before,
                after,
                table_name@,
                filter_view(filter),
                join_view(join),
                result,
            );
        },
        Command::Update { table_name, assignments, filter } => {
            lemma_updated_keeps(
                before,
                after,
                table_name@,
                assignment_views(assignments@),
                filter_view(filter),
                result,
            );
        },
        Command::Delete { table_name, filter } => {
            lemma_deleted_keeps(before, after, table_name@, filter_view(filter), result);
        },
        Command::DropTable { table_name } => {
            lemma_dropped_keeps(before, after, table_name@, result);
        },
    }
}

/// Creating a table keeps a sound database sound.
pub proof fn lemma_created_keeps(
    before: Database,
    after: Database,
    name: Seq<char>,
    columns: Seq<ColumnView>,
    result: Result<QueryResult, String>,
)
    requires
        keys_sound(before),
        bitmap_fits(SchemaView { table_name: name, columns }),
        created(before, after, name, columns, result),
    ensures
        keys_sound(after),
{
    if !before.has_table(name) {
        let schema = SchemaView { table_name: name, columns };
        assert forall|other: Seq<char>| #[trigger] after.has_table(other) implies table_sound(
            after.pages_of(other),
            after.schema_of(other),
        ) by {
            if other == name {
                assert(!before.files@.contains_key(name));
                lemma_empty_table_sound(schema);
            } else {
                assert(before.has_table(other));
            }
        }
        assert forall|other: Seq<char>| #[trigger]
            after.files@.contains_key(other) implies after.has_table(other) by {
            assert(before.has_table(other));
        }
    }
}

/// Dropping a table keeps a sound database sound.
pub proof fn lemma_dropped_keeps(
    before: Database,
    after: Database,
    name: Seq<char>,
    result: Result<QueryResult, String>,
)
    requires
        keys_sound(before),
        dropped(before, after, name, result),
    ensures
        keys_sound(after),
{
    if before.has_table(name) {
        assert forall|other: Seq<char>| #[trigger] after.has_table(other) implies table_sound(
            after.pages_of(other),
            after.schema_of(other),
        ) by {
            assert(before.has_table(other));
        }
        assert forall|other: Seq<char>| #[trigger]
            after.files@.contains_key(other) implies after.has_table(other) by {
            assert(before.files@.contains_key(other));
        }
    }
}

/// A select keeps a sound database sound.
pub proof fn lemma_selected_keeps(
    before: Database,
    after: Database,
    table: Seq<char>,
    filter: Option<FilterView>,
    join: Option<JoinView>,
    result: Result<QueryResult, String>,
)
    requires
        keys_sound(before),
        selected(before, after, table, filter, join, result),
    ensures
        keys_sound(after),
{
    if before.has_table(table) {
        let names = if join is Some && before.has_table(join->0.right_table) {
            set![table, join->0.right_table]
        } else {
            set![table]
        };
        assert(only_opened(before, after, names));
        assert forall|other: Seq<char>| #[trigger] after.has_table(other) implies table_sound(
            after.pages_of(other),
            after.schema_of(other),
        ) by {
            assert(before.has_table(other));
            lemma_same_pages(before, after, names, other);
        }
        assert forall|other: Seq<char>| #[trigger]
            after.files@.contains_key(other) implies after.has_table(other) by {
            if !names.contains(other) {
                lemma_same_pages(before, after, names, other);
                assert(before.files@.contains_key(other));
            }
        }
    }
}

/// Opening heap files changes the pages of none.
pub proof fn lemma_same_pages(before: Database, after: Database, names: Set<Seq<char>>, name: Seq<char>)
    requires
        only_opened(before, after, names),
    ensures
        after.pages_of(name) == before.pages_of(name),
        !names.contains(name) ==> after.files@.contains_key(name) == before.files@.contains_key(
            name,
        ),
{
    if names.contains(name) {
        assert(after.files@.contains_key(name));
    } else {
        assert(after.files@.contains_key(name) == before.files@.contains_key(name));
    }
}

/// Where two databases have the same heap files but for one table, every
/// other table has the same pages in both.
pub proof fn lemma_other_pages(before: Database, after: Database, table: Seq<char>, other: Seq<char>)
    requires
        after.same_files_but(&before, table),
        other != table,
    ensures
        after.files@.contains_key(other) == before.files@.contains_key(other),
        after.pages_of(other) == before.pages_of(other),
{
    assert(after.files@.remove(table).contains_key(other) == after.files@.contains_key(other));
    assert(before.files@.remove(table).contains_key(other) == before.files@.contains_key(other));
    if after.files@.contains_key(other) {
        assert(after.files@.remove(table)[other] == after.files@[other]);
        assert(before.files@.remove(table)[other] == before.files@[other]);
    }
}

/// An insert keeps a sound database sound.
pub proof fn lemma_inserted_keeps(
    before: Database,
    after: Database,
    table: Seq<char>,
    provided: Seq<FieldView>,
    result: Result<QueryResult, String>,
)
    requires
        before.wf(),
        keys_sound(before),
        before.has_table(table) ==> {
            &&& before.pages_of(table).len() < usize::MAX
            &&& before.catalog.counter(table) < i32::MAX
            &&& match prepared_row(
                table,
                before.schema_of(table),
                provided,
                (before.catalog.counter(table) + 1) as i32,
            ) {
                Ok(fields) => row_fits(fields, before.schema_of(table).columns),
                Err(_) => true,
            }
        },
        inserted(before, after, table, provided, result),
    ensures
        keys_sound(after),
{
    if before.has_table(table) {
        let schema = before.schema_of(table);
        let pages = before.pages_of(table);
        let next_id = (before.catalog.counter(table) + 1) as i32;
        assert(after.catalog.tables == before.catalog.tables);
        match prepared_row(table, schema, provided, next_id) {
            Ok(fields) => {
                if !(schema.primary_key(fields) matches Some(key) && loaded_index(
                    pages,
                    schema,
                ).contains_key(key)) {
                    lemma_insert_keeps_sound(pages, schema, fields);
                }
            },
            Err(_) => {},
        }
        assert forall|other: Seq<char>| #[trigger] after.has_table(other) implies table_sound(
            after.pages_of(other),
            after.schema_of(other),
        ) by {
            assert(before.has_table(other));
            if other != table {
                lemma_other_pages(before, after, table, other);
            }
        }
        assert forall|other: Seq<char>| #[trigger]
            after.files@.contains_key(other) implies after.has_table(other) by {
            if other != table {
                lemma_other_pages(before, after, table, other);
                assert(before.files@.contains_key(other));
            }
        }
    }
}

/// An accepted insert adds its row to what a scan of the table gives, and
/// nothing else: the rows of the table after it are the rows from before,
/// in their order, with the stored row put in at the place of the slot it
/// got. This holds where the table's bitmap lies in the page header and
/// the stored row can be read back unchanged.
pub proof fn lemma_inserted_row_is_scanned(
    before: Database,
    after: Database,
    table: Seq<char>,
    provided: Seq<FieldView>,
    result: Result<QueryResult, String>,
)
    requires
        before.wf(),
        before.has_table(table),
        bitmap_fits(before.schema_of(table)),
        before.pages_of(table).len() < usize::MAX,
        before.catalog.counter(table) < i32::MAX,
        prepared_row(
            table,
            before.schema_of(table),
            provided,
            (before.catalog.counter(table) + 1) as i32,
        ) matches Ok(fields) ==> row_fits(fields, before.schema_of(table).columns),
        inserted(before, after, table, provided, result),
        result is Ok,
    ensures
        after.has_table(table),
        after.schema_of(table) == before.schema_of(table),
        prepared_row(
            table,
            before.schema_of(table),
            provided,
            (before.catalog.counter(table) + 1) as i32,
        ) matches Ok(fields) && heap_rows(after.pages_of(table), after.schema_of(table))
            == heap_rows(before.pages_of(table), before.schema_of(table)).insert(
            slots_before_free(before.pages_of(table), before.schema_of(table)),
            fields,
        ),
{
    let schema = before.schema_of(table);
    let next_id = (before.catalog.counter(table) + 1) as i32;
    lemma_whole_pages(before, table);
    assert(after.catalog.tables == before.catalog.tables);
    match prepared_row(table, schema, provided, next_id) {
        Ok(fields) => {
            lemma_rows_after_insert(before.pages_of(table), schema, fields);
        },
        Err(_) => {},
    }
}

/// An update keeps a sound database sound.
pub proof fn lemma_updated_keeps(
    before: Database,
    after: Database,
    table: Seq<char>,
    assignments: Seq<(Seq<char>, FieldView)>,
    filter: Option<FilterView>,
    result: Result<QueryResult, String>,
)
    requires
        before.wf(),
        keys_sound(before),
        before.admits_update(table, assignments),
        updated(before, after, table, assignments, filter, result),
    ensures
        keys_sound(after),
{
    if before.has_table(table) {
        let schema = before.schema_of(table);
        let pages = before.pages_of(table);
        let places = target_places(pages, schema, filter);
        lemma_pages_len(before, table);
        if !(places.len() > 0 && assignment_error(schema, assignments) is Some) {
            if assignment_error(schema, assignments) is None {
                lemma_update_keeps_sound(pages, schema, assignments, filter);
            } else {
                assert(places.len() == 0);
                assert(pages_updated(pages, schema, places, assignments) == pages);
            }
        }
        assert forall|other: Seq<char>| #[trigger] after.has_table(other) implies table_sound(
            after.pages_of(other),
            after.schema_of(other),
        ) by {
            assert(before.has_table(other));
            if other != table {
                lemma_other_pages(before, after, table, other);
            }
        }
        assert forall|other: Seq<char>| #[trigger]
            after.files@.contains_key(other) implies after.has_table(other) by {
            if other != table {
                lemma_other_pages(before, after, table, other);
                assert(before.files@.contains_key(other));
            }
        }
    }
}

/// A delete keeps a sound database sound.
pub proof fn lemma_deleted_keeps(
    before: Database,
    after: Database,
    table: Seq<char>,
    filter: Option<FilterView>,
    result: Result<QueryResult, String>,
)
    requires
        before.wf(),
        keys_sound(before),
        deleted(before, after, table, filter, result),
    ensures
        keys_sound(after),
{
    if before.has_table(table) {
        let schema = before.schema_of(table);
        let pages = before.pages_of(table);
        lemma_pages_len(before, table);
        lemma_delete_keeps_sound(pages, schema, filter);
        assert forall|other: Seq<char>| #[trigger] after.has_table(other) implies table_sound(
            after.pages_of(other),
            after.schema_of(other),
        ) by {
            assert(before.has_table(other));
            if other != table {
                lemma_other_pages(before, after, table, other);
            }
        }
        assert forall|other: Seq<char>| #[trigger]
            after.files@.contains_key(other) implies after.has_table(other) by {
            if other != table {
                lemma_other_pages(before, after, table, other);
                assert(before.files@.contains_key(other));
            }
        }
    }
}

/// A heap file in memory has no more pages than the machine's word counts.
pub proof fn lemma_pages_len(db: Database, name: Seq<char>)
    ensures
        db.pages_of(name).len() <= usize::MAX,
{
    if db.files@.contains_key(name) {
        let pager = db.files@[name];
        assert(pager@.len() == pager.pages@.len());
        assert(pager.pages@.len() == pager.pages.len());
    }
}

} // verus!
