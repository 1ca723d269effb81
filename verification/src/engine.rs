//! The executor: one typed command in, one result out.

use crate::catalog::schema::{
    Column, ColumnView, Schema, SchemaView, column_views, lemma_column_index,
};
use crate::catalog::{Catalog, CatalogData};
use crate::index::{PrimaryIndex, duplicate_key_message};
use crate::mutation::{
    assignment_error, assignments_typed, pages_cleared, pages_of_places, pages_updated,
    target_places,
};
use crate::query::{
    answer, answers, column_names, join, join_rows, matching_rows, passes, push_names,
    retain_matching,
};
use crate::seqs::{first_where, lemma_first_where_bounds, lemma_first_where_is, lemma_keep_all};
use crate::sql::{
    Command, Filter, FilterView, JoinClause, JoinView, Operator, QueryResult, ResultView,
    assignment_views, filter_view, join_view, name_views,
};
use crate::storage::pager::{PAGE_SIZE, Pager, max_pages};
use crate::storage::record::{
    Field, FieldView, Row, encode_row, field_views, lemma_serialized_len, row_debug_text,
    row_views, row_well_typed,
};
use crate::storage::{Table, free_place, heap_rows, loaded_index, pages_with_row, stored_row};
use crate::strmap::StringMap;
use crate::text::{concat3, digits, nat_to_string};
use vstd::prelude::*;
use vstd::string::StringExecFns;

verus! {

/// The error for a table that a command wants to create and the catalog has already.
pub open spec fn table_exists_message(name: Seq<char>) -> Seq<char> {
    "Table "@ + name + " already exists"@
}

/// The answer to a table created.
pub open spec fn table_created_message(name: Seq<char>) -> Seq<char> {
    "Table "@ + name + " created."@
}

/// The error for a table that a command names and the catalog lacks.
pub open spec fn table_not_found_message(name: Seq<char>) -> Seq<char> {
    "Table "@ + name + " not found"@
}

/// The answer to a table dropped.
pub open spec fn table_dropped_message(name: Seq<char>) -> Seq<char> {
    "Table "@ + name + " dropped."@
}

/// Whether `result` is the error with text `text`.
pub open spec fn is_error(result: Result<QueryResult, String>, text: Seq<char>) -> bool {
    result matches Err(message) && message@ == text
}

/// Whether `result` is the message `text`.
pub open spec fn is_message(result: Result<QueryResult, String>, text: Seq<char>) -> bool {
    result matches Ok(answer) && answer@ == ResultView::Message(text)
}

/// A database: its catalog, the directory it lives in, and the heap file of
/// each table that has been opened, by table name.
pub struct Database {
    pub catalog: Catalog,
    pub data_dir: String,
    pub files: StringMap<Pager>,
}

/// Whether every heap file of `files` is well formed.
pub open spec fn files_wf(files: Map<Seq<char>, Pager>) -> bool {
    forall|name: Seq<char>| files.contains_key(name) ==> (#[trigger] files[name]).wf()
}

impl Database {
    /// Whether the database is well formed: its catalog and each of its heap files are.
    pub open spec fn wf(&self) -> bool {
        &&& self.catalog.wf()
        &&& self.files.wf()
        &&& files_wf(self.files@)
    }

    /// Whether the catalog has a table named `name`.
    pub open spec fn has_table(&self, name: Seq<char>) -> bool {
        self.catalog.tables@.contains_key(name)
    }

    /// The schema of table `name`.
    pub open spec fn schema_of(&self, name: Seq<char>) -> SchemaView {
        self.catalog.tables@[name]@
    }

    /// The pages of the heap file of table `name`; none if the file does not exist yet.
    pub open spec fn pages_of(&self, name: Seq<char>) -> Seq<Seq<u8>> {
        if self.files@.contains_key(name) {
            self.files@[name]@
        } else {
            Seq::empty()
        }
    }

    /// The pages of the heap file of table `name` that were written and not
    /// yet flushed, oldest first; none if the file does not exist yet.
    pub open spec fn written_of(&self, name: Seq<char>) -> Seq<usize> {
        if self.files@.contains_key(name) {
            self.files@[name].written@
        } else {
            Seq::empty()
        }
    }

    /// Whether `self` and `other` have the same heap files but for that of table `name`.
    pub open spec fn same_files_but(&self, other: &Database, name: Seq<char>) -> bool {
        self.files@.remove(name) == other.files@.remove(name)
    }

    /// A database in directory `data_dir` with the catalog that `stored`
    /// holds, if any, and the heap files `files`.
    pub fn open(data_dir: &str, stored: Option<CatalogData>, files: StringMap<Pager>) -> (db: Self)
        requires
            stored matches Some(data) ==> data.wf(),
            files.wf(),
            files_wf(files@),
        ensures
            db.wf(),
            db.data_dir@ == data_dir@,
            db.files == files,
            db.catalog.path@ == data_dir@ + "/catalog.json"@,
            !db.catalog.unsaved,
            stored matches Some(data) ==> db.catalog.tables == data.tables && db.catalog.sequences
                == data.sequences,
            stored is None ==> db.catalog.tables@ == Map::<Seq<char>, Schema>::empty()
                && db.catalog.sequences@ == Map::<Seq<char>, i32>::empty(),
    {
        let mut catalog_path = String::from_str(data_dir);
        catalog_path.append("/catalog.json");
        Self {
            catalog: Catalog::load_or_create(catalog_path.as_str(), stored),
            data_dir: String::from_str(data_dir),
            files,
        }
    }

    /// Adds a table named `name` with columns `columns` to the catalog. A
    /// name that the catalog has already is refused.
    pub fn create_table(&mut self, name: String, columns: Vec<Column>) -> (result: Result<
        QueryResult,
        String,
    >)
        requires
            old(self).wf(),
        ensures
            final(self).wf(),
            created(*old(self), *final(self), name@, column_views(columns@), result),
    {
        if self.catalog.tables.contains_key(&name) {
            return Err(concat3("Table ", name.as_str(), " already exists"));
        }
        let message = concat3("Table ", name.as_str(), " created.");
        let schema = Schema { table_name: name, columns };
        self.catalog.add_table(schema);
        Ok(QueryResult::Message(message))
    }

    /// Removes table `table_name` from the catalog, with its counter and its heap file.
    pub fn drop_table(&mut self, table_name: String) -> (result: Result<QueryResult, String>)
        requires
            old(self).wf(),
        ensures
            final(self).wf(),
            dropped(*old(self), *final(self), table_name@, result),
    {
        if !self.catalog.tables.contains_key(&table_name) {
            return Err(concat3("Table ", table_name.as_str(), " not found"));
        }
        let _ = self.catalog.remove(&table_name);
        let _ = self.files.remove(&table_name);
        Ok(QueryResult::Message(concat3("Table ", table_name.as_str(), " dropped.")))
    }
}

/// The error for a row that, in a table with an autoincrement column,
/// has neither a value for every column nor for every column but that one.
pub open spec fn count_mismatch_message(expected: nat, found: nat) -> Seq<char> {
    "Column count mismatch: expected "@ + digits(expected) + " or "@ + digits((expected - 1) as nat)
        + " (with autoincrement), found "@ + digits(found)
}

/// The error for a row that has not one value for each column of its table.
pub open spec fn arity_message(table: Seq<char>, expected: nat, found: nat) -> Seq<char> {
    "Table "@ + table + " expects "@ + digits(expected) + " columns, but "@ + digits(found)
        + " were provided"@
}

/// The error for a value whose tag disagrees with the type of its column.
pub open spec fn type_mismatch_message(column: ColumnView, field: FieldView) -> Seq<char> {
    "Type mismatch for column '"@ + column.name + "': expected "@ + column.data_type.debug_text()
        + ", found "@ + field.debug_text()
}

/// The answer to a row inserted.
pub open spec fn inserted_message(fields: Seq<FieldView>) -> Seq<char> {
    "Inserted 1 row : "@ + row_debug_text(fields)
}

/// The fields of a row for a table with schema `schema`, once the value
/// `next_id` has been put in the autoincrement column, if there is one: in
/// place of the value given for it, or, where the row has one value less
/// than the table has columns, as a value of its own at that column's
/// position. A row of any other length is an error there.
pub open spec fn auto_filled(schema: SchemaView, provided: Seq<FieldView>, next_id: i32) -> Result<
    Seq<FieldView>,
    Seq<char>,
> {
    match schema.autoincrement_index() {
        Some(at) => {
            if provided.len() == schema.columns.len() {
                Ok(provided.update(at, FieldView::Integer(next_id)))
            } else if provided.len() == schema.columns.len() - 1 {
                Ok(provided.insert(at, FieldView::Integer(next_id)))
            } else {
                Err(count_mismatch_message(schema.columns.len(), provided.len()))
            }
        },
        None => Ok(provided),
    }
}

/// Whether field `i` of `fields` has the type of column `i`, for each column of `columns`.
pub open spec fn type_flags(columns: Seq<ColumnView>, fields: Seq<FieldView>) -> Seq<bool> {
    Seq::new(columns.len(), |i: int| fields[i].has_type(columns[i].data_type))
}

/// `fields` if it is a row of table `table` with schema `schema`: one value
/// per column, each of its column's type. Otherwise the error for the wrong
/// length, or for the first value of the wrong type.
pub open spec fn type_checked(table: Seq<char>, schema: SchemaView, fields: Seq<FieldView>) -> Result<
    Seq<FieldView>,
    Seq<char>,
> {
    let wrong = first_where(type_flags(schema.columns, fields), |fits: bool| !fits);
    if fields.len() != schema.columns.len() {
        Err(arity_message(table, schema.columns.len(), fields.len()))
    } else if wrong < schema.columns.len() {
        Err(type_mismatch_message(schema.columns[wrong], fields[wrong]))
    } else {
        Ok(fields)
    }
}

/// The row that is stored for the values `provided`, or the error that refuses them.
pub open spec fn prepared_row(
    table: Seq<char>,
    schema: SchemaView,
    provided: Seq<FieldView>,
    next_id: i32,
) -> Result<Seq<FieldView>, Seq<char>> {
    match auto_filled(schema, provided, next_id) {
        Ok(fields) => type_checked(table, schema, fields),
        Err(message) => Err(message),
    }
}

/// A row that passes the type check is well typed for the schema.
pub proof fn lemma_type_checked(table: Seq<char>, schema: SchemaView, fields: Seq<FieldView>)
    requires
        type_checked(table, schema, fields) is Ok,
    ensures
        fields.len() == schema.columns.len(),
        row_well_typed(fields, schema.columns),
        encode_row(fields, schema.columns).len() == schema.row_size(),
{
    let flags = type_flags(schema.columns, fields);
    lemma_first_where_bounds(flags, |fits: bool| !fits);
    assert forall|i: int| 0 <= i < schema.columns.len() implies (#[trigger] fields[i]).has_type(
        schema.columns[i].data_type,
    ) by {
        assert(flags[i]);
    }
    lemma_serialized_len(fields, schema.columns);
}

/// What preparing the values `provided` for table `table` does to a
/// database and answers. A table with an autoincrement column has its
/// counter advanced, whether or not the values are then accepted.
pub open spec fn prepared(
    before: Database,
    after: Database,
    table: Seq<char>,
    provided: Seq<FieldView>,
    result: Result<Row, String>,
) -> bool {
    if !before.has_table(table) {
        &&& after == before
        &&& result matches Err(message) && message@ == table_not_found_message(table)
    } else {
        let schema = before.schema_of(table);
        let next_id = (before.catalog.counter(table) + 1) as i32;
        &&& match prepared_row(table, schema, provided, next_id) {
            Ok(fields) => result matches Ok(row) && row@ == fields,
            Err(text) => result matches Err(message) && message@ == text,
        }
        &&& after.files == before.files
        &&& after.data_dir == before.data_dir
        &&& if schema.autoincrement_index() is Some {
            &&& after.catalog.tables == before.catalog.tables
            &&& after.catalog.sequences@ == before.catalog.sequences@.insert(table, next_id)
            &&& after.catalog.unsaved
            &&& after.catalog.path@ == before.catalog.path@
        } else {
            after.catalog == before.catalog
        }
    }
}

impl Database {
    /// The row to store for the values `provided_fields`: with the next
    /// value of the table's counter in the autoincrement column, if the
    /// table has one, and refused unless it then has one value of the right
    /// type for each column.
    #[verifier::loop_isolation(false)]
    pub fn validate_and_prepare_row(&mut self, table_name: &str, provided_fields: Vec<Field>) -> (result:
        Result<Row, String>)
        requires
            old(self).wf(),
            old(self).has_table(table_name@) && old(self).schema_of(
                table_name@,
            ).autoincrement_index() is Some ==> old(self).catalog.counter(table_name@) < i32::MAX,
        ensures
            final(self).wf(),
            prepared(*old(self), *final(self), table_name@, field_views(provided_fields@), result),
    {
        let name = String::from_str(table_name);
        let schema = match self.catalog.tables.get(&name) {
            Some(schema) => schema.clone(),
            None => {
                return Err(concat3("Table ", table_name, " not found"));
            },
        };
        let ghost provided = field_views(provided_fields@);
        let ghost next = (self.catalog.counter(table_name@) + 1) as i32;
        let mut final_fields = provided_fields;
        let column_count: usize = schema.columns.len();
        if let Some(auto_idx) = schema.find_autoincrement() {
            let next_id = self.catalog.get_next_id(table_name);
            let auto_field = Field::Integer(next_id);
            if final_fields.len() == column_count {
                final_fields[auto_idx] = auto_field;
                assert(field_views(final_fields@) =~= provided.update(
                    auto_idx as int,
                    FieldView::Integer(next_id),
                ));
            } else if final_fields.len() == column_count - 1 {
                final_fields.insert(auto_idx, auto_field);
                assert(field_views(final_fields@) =~= provided.insert(
                    auto_idx as int,
                    FieldView::Integer(next_id),
                ));
            } else {
                let mut message = String::from_str("Column count mismatch: expected ");
                message.append(nat_to_string(column_count as u64).as_str());
                message.append(" or ");
                message.append(nat_to_string((column_count - 1) as u64).as_str());
                message.append(" (with autoincrement), found ");
                message.append(nat_to_string(final_fields.len() as u64).as_str());
                return Err(message);
            }
        }
        let ghost fields = field_views(final_fields@);
        assert(auto_filled(schema@, provided, next) == Ok::<Seq<FieldView>, Seq<char>>(fields));
        if final_fields.len() != column_count {
            let mut message = String::from_str("Table ");
            message.append(table_name);
            message.append(" expects ");
            message.append(nat_to_string(column_count as u64).as_str());
            message.append(" columns, but ");
            message.append(nat_to_string(final_fields.len() as u64).as_str());
            message.append(" were provided");
            return Err(message);
        }
        let ghost flags = type_flags(schema@.columns, fields);
        let mut i: usize = 0;
        while i < column_count
            invariant
                i <= column_count == schema.columns@.len() == final_fields@.len(),
                fields == field_views(final_fields@),
                flags == type_flags(schema@.columns, fields),
                forall|k: int| 0 <= k < i ==> #[trigger] flags[k],
            decreases column_count - i,
        {
            let column = &schema.columns[i];
            let provided_field = &final_fields[i];
            if !provided_field.has_type(&column.data_type) {
                proof {
                    lemma_first_where_is(flags, |fits: bool| !fits, i as int);
                }
                let mut message = String::from_str("Type mismatch for column '");
                message.append(column.name.as_str());
                message.append("': expected ");
                message.append(column.data_type.to_debug_string().as_str());
                message.append(", found ");
                message.append(provided_field.to_debug_string().as_str());
                return Err(message);
            }
            i += 1;
        }
        proof {
            lemma_first_where_is(flags, |fits: bool| !fits, i as int);
        }
        Ok(Row { fields: final_fields })
    }
}

/// What inserting the values `provided` into table `table` does to a
/// database and answers. The table's heap file exists afterwards. The row
/// is stored unless its values are refused or the table holds a row with
/// the same primary key.
pub open spec fn inserted(
    before: Database,
    after: Database,
    table: Seq<char>,
    provided: Seq<FieldView>,
    result: Result<QueryResult, String>,
) -> bool {
    if !before.has_table(table) {
        &&& after == before
        &&& is_error(result, table_not_found_message(table))
    } else {
        let schema = before.schema_of(table);
        let next_id = (before.catalog.counter(table) + 1) as i32;
        let pages = before.pages_of(table);
        &&& after.data_dir == before.data_dir
        &&& if schema.autoincrement_index() is Some {
            &&& after.catalog.tables == before.catalog.tables
            &&& after.catalog.sequences@ == before.catalog.sequences@.insert(table, next_id)
            &&& after.catalog.unsaved
            &&& after.catalog.path@ == before.catalog.path@
        } else {
            after.catalog == before.catalog
        }
        &&& after.same_files_but(&before, table)
        &&& after.files@.contains_key(table)
        &&& match prepared_row(table, schema, provided, next_id) {
            Err(text) => {
                &&& is_error(result, text)
                &&& after.pages_of(table) == pages
                &&& after.written_of(table) == before.written_of(table)
            },
            Ok(fields) => {
                if schema.primary_key(fields) matches Some(key) && loaded_index(
                    pages,
                    schema,
                ).contains_key(key) {
                    &&& is_error(result, duplicate_key_message(schema.primary_key(fields)->0))
                    &&& after.pages_of(table) == pages
                    &&& after.written_of(table) == before.written_of(table)
                } else {
                    &&& is_message(result, inserted_message(fields))
                    &&& after.pages_of(table) == pages_with_row(pages, schema, fields)
                    &&& after.written_of(table) == before.written_of(table).push(
                        free_place(pages, schema.max_slots()).0,
                    )
                }
            },
        }
    }
}

impl Database {
    /// Opens table `table_name`: takes its heap file out of the database,
    /// or starts an empty one if it has none, and pairs it with a copy of the
    /// table's schema and an empty index.
    pub fn open_table(&mut self, table_name: &String) -> (table: Table)
        requires
            old(self).wf(),
            old(self).has_table(table_name@),
            old(self).schema_of(table_name@).readable(),
        ensures
            table.wf(),
            table.schema@ == old(self).schema_of(table_name@),
            table.pager@ == old(self).pages_of(table_name@),
            table.pager.written@ == old(self).written_of(table_name@),
            table.index@ == Map::<Seq<char>, (usize, usize)>::empty(),
            final(self).wf(),
            final(self).catalog == old(self).catalog,
            final(self).data_dir == old(self).data_dir,
            final(self).files@ == old(self).files@.remove(table_name@),
    {
        let schema = match self.catalog.tables.get(table_name) {
            Some(schema) => schema.clone(),
            None => Schema { table_name: table_name.clone(), columns: Vec::new() },
        };
        let pager = match self.files.remove(table_name) {
            Some(pager) => pager,
            None => Pager::open(Vec::new()),
        };
        Table { pager, schema, index: PrimaryIndex::new() }
    }

    /// Closes `table`: puts its heap file back into the database under `table_name`.
    pub fn close_table(&mut self, table_name: String, table: Table)
        requires
            old(self).wf(),
            table.pager.wf(),
        ensures
            final(self).wf(),
            final(self).catalog == old(self).catalog,
            final(self).data_dir == old(self).data_dir,
            final(self).files@ == old(self).files@.insert(table_name@, table.pager),
    {
        self.files.insert(table_name, table.pager);
    }

    /// Stores the values of `row` as a row of table `table_name`.
    pub fn insert(&mut self, table_name: String, row: Row) -> (result: Result<QueryResult, String>)
        requires
            old(self).wf(),
            old(self).admits_insert(table_name@),
        ensures
            final(self).wf(),
            inserted(*old(self), *final(self), table_name@, row@, result),
    {
        if !self.catalog.tables.contains_key(&table_name) {
            return Err(concat3("Table ", table_name.as_str(), " not found"));
        }
        let ghost before = *self;
        let ghost schema = self.schema_of(table_name@);
        let mut table = self.open_table(&table_name);
        table.load_index();
        let ghost opened = *self;
        let prepared = self.validate_and_prepare_row(table_name.as_str(), row.fields);
        let outcome = match prepared {
            Err(message) => Err(message),
            Ok(prepared_row) => {
                proof {
                    let next_id = (before.catalog.counter(table_name@) + 1) as i32;
                    let fields = auto_filled(schema, row@, next_id)->Ok_0;
                    lemma_type_checked(table_name@, schema, fields);
                }
                let shown = prepared_row.to_debug_string();
                match table.insert_row(prepared_row) {
                    Err(message) => Err(message),
                    Ok(()) => {
                        let mut message = String::from_str("Inserted 1 row : ");
                        message.append(shown.as_str());
                        Ok(QueryResult::Message(message))
                    },
                }
            },
        };
        self.close_table(table_name, table);
        proof {
            assert(self.files@.remove(table_name@) =~= before.files@.remove(table_name@));
        }
        outcome
    }

    /// Whether the database can take an insert into table `table`: if it
    /// has the table, the table's rows can be stored, its heap file can grow
    /// by a page, and its counter, if it has an autoincrement column, is not
    /// at its end.
    pub open spec fn admits_insert(&self, table: Seq<char>) -> bool {
        self.has_table(table) ==> {
            &&& self.schema_of(table).storable()
            &&& self.pages_of(table).len() < max_pages()
            &&& self.schema_of(table).autoincrement_index() is Some ==> self.catalog.counter(table)
                < i32::MAX
        }
    }
}

/// The error for a column of a join that its table lacks.
pub open spec fn column_not_found_in_message(column: Seq<char>, table: Seq<char>) -> Seq<char> {
    "Column "@ + column + " not found in table "@ + table
}

/// Whether `after` differs from `before` at most in that the heap files of
/// the tables `names` exist: what a file holds and what counts as written
/// in it are the same, and the files of other tables are untouched.
pub open spec fn only_opened(before: Database, after: Database, names: Set<Seq<char>>) -> bool {
    forall|name: Seq<char>|
        if names.contains(name) {
            &&& #[trigger] after.files@.contains_key(name)
            &&& after.pages_of(name) == before.pages_of(name)
            &&& after.written_of(name) == before.written_of(name)
        } else {
            &&& after.files@.contains_key(name) == before.files@.contains_key(name)
            &&& after.files@.contains_key(name) ==> after.files@[name] == before.files@[name]
        }
}

/// Whether a query is answered from the primary-key index: it has no join,
/// and it filters the primary-key column for equality.
pub open spec fn uses_index(schema: SchemaView, filter: Option<FilterView>, join: Option<JoinView>) -> bool {
    &&& join is None
    &&& filter matches Some(f)
    &&& schema.primary_index() matches Some(pk)
    &&& filter->0.column_name == schema.columns[schema.primary_index()->0].name
    &&& filter->0.operator == Operator::Eq
}

/// The rows that the index gives for key `key`: the row at the place it
/// holds for the key, or none.
pub open spec fn indexed_rows(pages: Seq<Seq<u8>>, schema: SchemaView, key: Seq<char>) -> Seq<
    Seq<FieldView>,
> {
    let index = loaded_index(pages, schema);
    if index.contains_key(key) {
        seq![stored_row(pages, schema, index[key])]
    } else {
        Seq::empty()
    }
}

/// The rows of a table that a query without a join finds.
pub open spec fn found_rows(pages: Seq<Seq<u8>>, schema: SchemaView, filter: Option<FilterView>) -> Seq<
    Seq<FieldView>,
> {
    if uses_index(schema, filter, None) {
        indexed_rows(pages, schema, filter->0.value.key_text())
    } else {
        matching_rows(heap_rows(pages, schema), filter, schema)
    }
}

/// What selecting from table `table` does to a database and answers. The
/// heap files of the tables it reads exist afterwards; nothing else changes.
pub open spec fn selected(
    before: Database,
    after: Database,
    table: Seq<char>,
    filter: Option<FilterView>,
    join: Option<JoinView>,
    result: Result<QueryResult, String>,
) -> bool {
    if !before.has_table(table) {
        &&& after == before
        &&& is_error(result, table_not_found_message(table))
    } else {
        let schema = before.schema_of(table);
        let pages = before.pages_of(table);
        &&& after.catalog == before.catalog
        &&& after.data_dir == before.data_dir
        &&& match join {
            None => {
                &&& only_opened(before, after, set![table])
                &&& answers(result, column_names(schema.columns), found_rows(pages, schema, filter))
            },
            Some(j) => {
                if !before.has_table(j.right_table) {
                    &&& only_opened(before, after, set![table])
                    &&& is_error(result, table_not_found_message(j.right_table))
                } else {
                    let right_schema = before.schema_of(j.right_table);
                    let right_pages = before.pages_of(j.right_table);
                    let left = matching_rows(heap_rows(pages, schema), filter, schema);
                    let right = heap_rows(right_pages, right_schema);
                    &&& only_opened(before, after, set![table, j.right_table])
                    &&& join_answer(table, schema, left, right_schema, right, j, result)
                }
            },
        }
    }
}

/// Whether `result` answers the join `join` of the rows `left` of table
/// `table` with the rows `right` of the joined table: an error if either
/// table lacks its join column, the left one first, and else the joined rows
/// with the columns of both tables.
pub open spec fn join_answer(
    table: Seq<char>,
    schema: SchemaView,
    left: Seq<Seq<FieldView>>,
    right_schema: SchemaView,
    right: Seq<Seq<FieldView>>,
    join: JoinView,
    result: Result<QueryResult, String>,
) -> bool {
    match schema.column_index(join.left_column) {
        None => is_error(result, column_not_found_in_message(join.left_column, table)),
        Some(li) => match right_schema.column_index(join.right_column) {
            None => is_error(
                result,
                column_not_found_in_message(join.right_column, join.right_table),
            ),
            Some(ri) => answers(
                result,
                column_names(schema.columns + right_schema.columns),
                join_rows(left, right, li, ri),
            ),
        },
    }
}

/// Every row of a heap file has one field for each column of the schema.
pub proof fn lemma_heap_rows_arity(pages: Seq<Seq<u8>>, schema: SchemaView)
    ensures
        forall|k: int|
            0 <= k < heap_rows(pages, schema).len() ==> (#[trigger] heap_rows(pages, schema)[k]).len()
                == schema.columns.len(),
{
}

/// What is kept of rows that all have `n` fields are rows that have `n` fields.
pub proof fn lemma_matching_rows_arity(
    rows: Seq<Seq<FieldView>>,
    filter: Option<FilterView>,
    schema: SchemaView,
    n: nat,
)
    requires
        forall|k: int| 0 <= k < rows.len() ==> (#[trigger] rows[k]).len() == n,
    ensures
        forall|k: int|
            0 <= k < matching_rows(rows, filter, schema).len() ==> (#[trigger] matching_rows(
                rows,
                filter,
                schema,
            )[k]).len() == n,
{
    lemma_keep_all(
        rows,
        |fields: Seq<FieldView>| passes(filter, fields, schema),
        |fields: Seq<FieldView>| fields.len() == n,
    );
}

impl Table {
    /// The rows that a query without a join finds in the table: through the
    /// index where the filter is for equality on the primary key, and
    /// otherwise by a scan.
    pub fn select_rows(&self, filter: &Option<Filter>) -> (rows: Vec<Row>)
        requires
            self.wf(),
            self.index@ == loaded_index(self.pager@, self.schema@),
        ensures
            row_views(rows@) == found_rows(
                self.pager@,
                self.schema@,
                filter_view(*filter),
            ),
    {
        if let Some(f) = filter {
            if let Some(pk_idx) = self.schema.find_primary() {
                let by_equality = match f.operator {
                    Operator::Eq => true,
                    _ => false,
                };
                if f.column_name == self.schema.columns[pk_idx].name && by_equality {
                    let key = f.value.key();
                    let mut rows: Vec<Row> = Vec::new();
                    match self.find(&key) {
                        Some(row) => {
                            rows.push(row);
                        },
                        None => {},
                    }
                    assert(row_views(rows@) =~= found_rows(
                        self.pager@,
                        self.schema@,
                        filter_view(*filter),
                    ));
                    return rows;
                }
            }
        }
        self.filtered_rows(filter)
    }

    /// The rows of the table that pass `filter`, by a scan.
    pub fn filtered_rows(&self, filter: &Option<Filter>) -> (rows: Vec<Row>)
        requires
            self.wf(),
        ensures
            row_views(rows@) == matching_rows(
                heap_rows(self.pager@, self.schema@),
                filter_view(*filter),
                self.schema@,
            ),
    {
        let rows = self.scan_rows();
        proof {
            lemma_heap_rows_arity(self.pager@, self.schema@);
            assert forall|k: int| 0 <= k < rows@.len() implies (#[trigger] rows@[k])@.len()
                >= self.schema@.columns.len() by {
                assert(rows@[k]@ == row_views(rows@)[k]);
            }
        }
        retain_matching(rows, filter, &self.schema)
    }
}

impl Database {
    /// Whether the database can take a select from table `table` with join
    /// `join`: the heap file of each table that it has and reads can be read.
    pub open spec fn admits_select(&self, table: Seq<char>, join: Option<JoinView>) -> bool {
        self.has_table(table) ==> {
            &&& self.schema_of(table).readable()
            &&& (join is Some && self.has_table(join->0.right_table)) ==> self.schema_of(
                join->0.right_table,
            ).readable()
        }
    }

    /// The rows of table `name`, by a scan. The table's heap file exists afterwards.
    pub fn scan_table(&mut self, name: &String) -> (rows: Vec<Row>)
        requires
            old(self).wf(),
            old(self).has_table(name@),
            old(self).schema_of(name@).readable(),
        ensures
            final(self).wf(),
            final(self).catalog == old(self).catalog,
            final(self).data_dir == old(self).data_dir,
            only_opened(*old(self), *final(self), set![name@]),
            row_views(rows@) == heap_rows(
                old(self).pages_of(name@),
                old(self).schema_of(name@),
            ),
    {
        let table = self.open_table(name);
        let rows = table.scan_rows();
        self.close_table(name.clone(), table);
        rows
    }

    /// Answers the join `join_info` of `rows`, rows of the open table
    /// `table` named `table_name`, with the rows of the joined table.
    pub fn join_with(
        &mut self,
        table: &Table,
        table_name: &String,
        rows: Vec<Row>,
        join_info: &JoinClause,
    ) -> (result: Result<QueryResult, String>)
        requires
            old(self).wf(),
            table.wf(),
            old(self).has_table(table_name@),
            old(self).schema_of(table_name@) == table.schema@,
            !old(self).files@.contains_key(table_name@),
            old(self).has_table(join_info@.right_table) ==> old(self).schema_of(
                join_info@.right_table,
            ).readable(),
            forall|k: int|
                0 <= k < rows@.len() ==> (#[trigger] rows@[k])@.len() == table.schema@.columns.len(),
        ensures
            final(self).wf(),
            final(self).catalog == old(self).catalog,
            final(self).data_dir == old(self).data_dir,
            !final(self).files@.contains_key(table_name@),
            if old(self).has_table(join_info@.right_table) && join_info@.right_table
                != table_name@ {
                only_opened(*old(self), *final(self), set![join_info@.right_table])
            } else {
                final(self).files == old(self).files
            },
            if !old(self).has_table(join_info@.right_table) {
                is_error(result, table_not_found_message(join_info@.right_table))
            } else {
                join_answer(
                    table_name@,
                    table.schema@,
                    row_views(rows@),
                    old(self).schema_of(join_info@.right_table),
                    heap_rows(
                        if join_info@.right_table == table_name@ {
                            table.pager@
                        } else {
                            old(self).pages_of(join_info@.right_table)
                        },
                        old(self).schema_of(join_info@.right_table),
                    ),
                    join_info@,
                    result,
                )
            },
    {
        let right_schema = match self.catalog.tables.get(&join_info.right_table) {
            Some(schema) => schema.clone(),
            None => {
                return Err(concat3("Table ", join_info.right_table.as_str(), " not found"));
            },
        };
        let right_rows = if join_info.right_table == *table_name {
            table.scan_rows()
        } else {
            self.scan_table(&join_info.right_table)
        };
        let left_col_idx = match table.schema.find_column(&join_info.left_column) {
            Some(idx) => idx,
            None => {
                let mut message = concat3("Column ", join_info.left_column.as_str(), " not found in table ");
                message.append(table_name.as_str());
                return Err(message);
            },
        };
        let right_col_idx = match right_schema.find_column(&join_info.right_column) {
            Some(idx) => idx,
            None => {
                let mut message = concat3(
                    "Column ",
                    join_info.right_column.as_str(),
                    " not found in table ",
                );
                message.append(join_info.right_table.as_str());
                return Err(message);
            },
        };
        proof {
            let right_pages = if join_info@.right_table == table_name@ {
                table.pager@
            } else {
                old(self).pages_of(join_info@.right_table)
            };
            lemma_heap_rows_arity(right_pages, right_schema@);
            assert forall|k: int| 0 <= k < right_rows@.len() implies right_col_idx < (
            #[trigger] right_rows@[k])@.len() by {
                assert(right_rows@[k]@ == row_views(right_rows@)[k]);
            }
        }
        let final_rows = join(&rows, &right_rows, left_col_idx, right_col_idx);
        let mut names: Vec<String> = Vec::new();
        push_names(&mut names, &table.schema.columns);
        push_names(&mut names, &right_schema.columns);
        proof {
            assert(column_names(table.schema@.columns) + column_names(right_schema@.columns)
                =~= column_names(table.schema@.columns + right_schema@.columns));
            assert(name_views(Seq::<String>::empty()) =~= Seq::<Seq<char>>::empty());
        }
        answer(names, final_rows)
    }

    /// Answers a query on table `table_name`: its rows, those that pass
    /// `filter` if there is one, joined as `join` says if there is one.
    pub fn select(&mut self, table_name: String, filter: Option<Filter>, join: Option<JoinClause>) -> (result:
        Result<QueryResult, String>)
        requires
            old(self).wf(),
            old(self).admits_select(table_name@, join_view(join)),
        ensures
            final(self).wf(),
            selected(
                *old(self),
                *final(self),
                table_name@,
                filter_view(filter),
                join_view(join),
                result,
            ),
    {
        if !self.catalog.tables.contains_key(&table_name) {
            return Err(concat3("Table ", table_name.as_str(), " not found"));
        }
        let ghost before = *self;
        let mut table = self.open_table(&table_name);
        table.load_index();
        let ghost opened = *self;
        let outcome = match &join {
            None => {
                let rows = table.select_rows(&filter);
                let mut names: Vec<String> = Vec::new();
                push_names(&mut names, &table.schema.columns);
                proof {
                    assert(name_views(Seq::<String>::empty()) =~= Seq::<
                        Seq<char>,
                    >::empty());
                }
                answer(names, rows)
            },
            Some(join_info) => {
                let rows = table.filtered_rows(&filter);
                proof {
                    lemma_heap_rows_arity(table.pager@, table.schema@);
                    lemma_matching_rows_arity(
                        heap_rows(table.pager@, table.schema@),
                        filter_view(filter),
                        table.schema@,
                        table.schema@.columns.len(),
                    );
                    assert forall|k: int| 0 <= k < rows@.len() implies (#[trigger] rows@[k])@.len()
                        == table.schema@.columns.len() by {
                        assert(rows@[k]@ == row_views(rows@)[k]);
                    }
                }
                self.join_with(&table, &table_name, rows, join_info)
            },
        };
        let ghost joined = *self;
        self.close_table(table_name, table);
        proof {
            match join_view(join) {
                None => {
                    assert(only_opened(before, *self, set![table_name@]));
                },
                Some(j) => {
                    if !before.has_table(j.right_table) {
                        assert(only_opened(before, *self, set![table_name@]));
                    } else {
                        assert(only_opened(before, *self, set![table_name@, j.right_table]));
                    }
                },
            }
        }
        outcome
    }
}

/// The answer to an update of `count` rows.
pub open spec fn updated_message(count: nat) -> Seq<char> {
    "Updated "@ + digits(count) + " rows."@
}

/// The answer to a delete of `count` rows.
pub open spec fn deleted_message(count: nat) -> Seq<char> {
    "Deleted "@ + digits(count) + " rows."@
}

/// What updating table `table` does to a database and answers. The
/// table's heap file exists afterwards. Every row that passes the filter is
/// rewritten, unless there is such a row and an assignment is refused.
pub open spec fn updated(
    before: Database,
    after: Database,
    table: Seq<char>,
    assignments: Seq<(Seq<char>, FieldView)>,
    filter: Option<FilterView>,
    result: Result<QueryResult, String>,
) -> bool {
    if !before.has_table(table) {
        &&& after == before
        &&& is_error(result, "Table not found"@)
    } else {
        let schema = before.schema_of(table);
        let pages = before.pages_of(table);
        let places = target_places(pages, schema, filter);
        &&& after.catalog == before.catalog
        &&& after.data_dir == before.data_dir
        &&& after.same_files_but(&before, table)
        &&& after.files@.contains_key(table)
        &&& if places.len() > 0 && assignment_error(schema, assignments) is Some {
            &&& is_error(result, assignment_error(schema, assignments)->0)
            &&& after.pages_of(table) == pages
            &&& after.written_of(table) == before.written_of(table)
        } else {
            &&& is_message(result, updated_message(places.len()))
            &&& after.pages_of(table) == pages_updated(pages, schema, places, assignments)
            &&& after.written_of(table) == before.written_of(table) + pages_of_places(places)
        }
    }
}

/// What deleting from table `table` does to a database and answers. The
/// table's heap file exists afterwards, with the slot of every row that
/// passes the filter marked free.
pub open spec fn deleted(
    before: Database,
    after: Database,
    table: Seq<char>,
    filter: Option<FilterView>,
    result: Result<QueryResult, String>,
) -> bool {
    if !before.has_table(table) {
        &&& after == before
        &&& is_error(result, "Table not found"@)
    } else {
        let schema = before.schema_of(table);
        let pages = before.pages_of(table);
        let places = target_places(pages, schema, filter);
        &&& after.catalog == before.catalog
        &&& after.data_dir == before.data_dir
        &&& after.same_files_but(&before, table)
        &&& after.files@.contains_key(table)
        &&& is_message(result, deleted_message(places.len()))
        &&& after.pages_of(table) == pages_cleared(pages, places)
        &&& after.written_of(table) == before.written_of(table) + pages_of_places(places)
    }
}

impl Database {
    /// Whether the database can take an update of table `table` with
    /// `assignments`: if it has the table, the table's heap file can be read,
    /// and each assignment to one of its columns has a value of the column's type.
    pub open spec fn admits_update(&self, table: Seq<char>, assignments: Seq<(Seq<char>, FieldView)>) -> bool {
        self.has_table(table) ==> {
            &&& self.schema_of(table).readable()
            &&& assignments_typed(self.schema_of(table), assignments)
        }
    }

    /// Whether the database can take a delete from table `table`: if it has
    /// the table, the table's heap file can be read.
    pub open spec fn admits_delete(&self, table: Seq<char>) -> bool {
        self.has_table(table) ==> self.schema_of(table).readable()
    }

    /// Gives the columns that `assignments` name their new values, in
    /// every row of table `table_name` that passes `filter`.
    pub fn update(
        &mut self,
        table_name: String,
        assignments: Vec<(String, Field)>,
        filter: Option<Filter>,
    ) -> (result: Result<QueryResult, String>)
        requires
            old(self).wf(),
            old(self).admits_update(table_name@, assignment_views(assignments@)),
        ensures
            final(self).wf(),
            updated(
                *old(self),
                *final(self),
                table_name@,
                assignment_views(assignments@),
                filter_view(filter),
                result,
            ),
    {
        if !self.catalog.tables.contains_key(&table_name) {
            return Err(String::from_str("Table not found"));
        }
        let ghost before = *self;
        let mut table = self.open_table(&table_name);
        table.load_index();
        let outcome = match table.update_where(&assignments, &filter) {
            Err(message) => Err(message),
            Ok(updated_count) => {
                let mut message = String::from_str("Updated ");
                message.append(nat_to_string(updated_count as u64).as_str());
                message.append(" rows.");
                Ok(QueryResult::Message(message))
            },
        };
        self.close_table(table_name, table);
        proof {
            assert(self.files@.remove(table_name@) =~= before.files@.remove(table_name@));
        }
        outcome
    }

    /// Deletes every row of table `table_name` that passes `filter`.
    pub fn delete(&mut self, table_name: String, filter: Option<Filter>) -> (result: Result<
        QueryResult,
        String,
    >)
        requires
            old(self).wf(),
            old(self).admits_delete(table_name@),
        ensures
            final(self).wf(),
            deleted(*old(self), *final(self), table_name@, filter_view(filter), result),
    {
        if !self.catalog.tables.contains_key(&table_name) {
            return Err(String::from_str("Table not found"));
        }
        let ghost before = *self;
        let mut table = self.open_table(&table_name);
        table.load_index();
        let deleted_count = table.delete_where(&filter);
        let mut message = String::from_str("Deleted ");
        message.append(nat_to_string(deleted_count as u64).as_str());
        message.append(" rows.");
        self.close_table(table_name, table);
        proof {
            assert(self.files@.remove(table_name@) =~= before.files@.remove(table_name@));
        }
        Ok(QueryResult::Message(message))
    }

    /// Whether the database can take `command`: the heap file of every
    /// table that the command reads can be read, a row can be stored in the
    /// table that it inserts into, and what it is to write is within the
    /// machine's limits.
    pub open spec fn admits(&self, command: &Command) -> bool {
        match command {
            Command::CreateTable { .. } => true,
            Command::Insert { table_name, .. } => self.admits_insert(table_name@),
            Command::Select { table_name, join, .. } => self.admits_select(
                table_name@,
                join_view(*join),
            ),
            Command::Update { table_name, assignments, .. } => self.admits_update(
                table_name@,
                assignment_views(assignments@),
            ),
            Command::Delete { table_name, .. } => self.admits_delete(table_name@),
            Command::DropTable { .. } => true,
        }
    }

    /// Executes `command` and answers with a message or with rows.
    pub fn execute(&mut self, command: Command) -> (result: Result<QueryResult, String>)
        requires
            old(self).wf(),
            old(self).admits(&command),
        ensures
            final(self).wf(),
            executed(*old(self), *final(self), command, result),
    {
        match command {
            Command::CreateTable { name, columns } => self.create_table(name, columns),
            Command::Insert { table_name, row } => self.insert(table_name, row),
            Command::DropTable { table_name } => self.drop_table(table_name),
            Command::Delete { table_name, filter } => self.delete(table_name, filter),
            Command::Update { table_name, assignments, filter } => self.update(
                table_name,
                assignments,
                filter,
            ),
            Command::Select { table_name, join, filter } => self.select(table_name, filter, join),
        }
    }
}

/// What executing `command` does to a database and answers: what the
/// command's kind does, with the command's parts.
pub open spec fn executed(
    before: Database,
    after: Database,
    command: Command,
    result: Result<QueryResult, String>,
) -> bool {
    match command {
        Command::CreateTable { name, columns } => created(
            before,
            after,
            name@,
            column_views(columns@),
            result,
        ),
        Command::Insert { table_name, row } => inserted(before, after, table_name@, row@, result),
        Command::Select { table_name, filter, join } => selected(
            before,
            after,
            table_name@,
            filter_view(filter),
            join_view(join),
            result,
        ),
        Command::Update { table_name, assignments, filter } => updated(
            before,
            after,
            table_name@,
            assignment_views(assignments@),
            filter_view(filter),
            result,
        ),
        Command::Delete { table_name, filter } => deleted(
            before,
            after,
            table_name@,
            filter_view(filter),
            result,
        ),
        Command::DropTable { table_name } => dropped(before, after, table_name@, result),
    }
}

/// An accepted insert into a table with an autoincrement column stores
/// one more than the table's counter in that column, and leaves the counter
/// at that value.
pub proof fn lemma_insert_issues_next(
    before: Database,
    after: Database,
    table: Seq<char>,
    provided: Seq<FieldView>,
    result: Result<QueryResult, String>,
)
    requires
        before.has_table(table),
        before.schema_of(table).autoincrement_index() is Some,
        before.catalog.counter(table) < i32::MAX,
        inserted(before, after, table, provided, result),
        result is Ok,
    ensures
        after.has_table(table),
        after.schema_of(table) == before.schema_of(table),
        after.catalog.counter(table) == before.catalog.counter(table) + 1,
        prepared_row(
            table,
            before.schema_of(table),
            provided,
            (before.catalog.counter(table) + 1) as i32,
        ) matches Ok(fields) && fields[before.schema_of(table).autoincrement_index()->0]
            == FieldView::Integer((before.catalog.counter(table) + 1) as i32),
{
    lemma_column_index(before.schema_of(table), Seq::empty());
}

/// In a table with an autoincrement column whose counter starts at 0, the
/// k-th of a run of accepted inserts stores `k` in that column: where
/// `states` are the states of the database before, between and after the
/// inserts of `rows`, each accepted, insert `i` (counting from 0) stores
/// `i + 1` and leaves the counter at `i + 1`.
pub proof fn lemma_kth_insert_gets_k(
    states: Seq<Database>,
    rows: Seq<Seq<FieldView>>,
    results: Seq<Result<QueryResult, String>>,
    table: Seq<char>,
    k: int,
)
    requires
        states.len() == rows.len() + 1,
        results.len() == rows.len(),
        rows.len() < i32::MAX,
        states[0].has_table(table),
        states[0].schema_of(table).autoincrement_index() is Some,
        states[0].catalog.counter(table) == 0,
        forall|i: int|
            0 <= i < rows.len() ==> inserted(
                states[i],
                states[i + 1],
                table,
                #[trigger] rows[i],
                results[i],
            ) && results[i] is Ok,
        0 <= k < rows.len(),
    ensures
        states[k + 1].has_table(table),
        states[k + 1].schema_of(table) == states[0].schema_of(table),
        states[k + 1].catalog.counter(table) == k + 1,
        prepared_row(table, states[0].schema_of(table), rows[k], (k + 1) as i32) matches Ok(fields)
            && fields[states[0].schema_of(table).autoincrement_index()->0] == FieldView::Integer(
            (k + 1) as i32,
        ),
    decreases k,
{
    if k > 0 {
        lemma_kth_insert_gets_k(states, rows, results, table, k - 1);
    }
    assert(inserted(states[k], states[k + 1], table, rows[k], results[k]) && results[k] is Ok);
    lemma_insert_issues_next(states[k], states[k + 1], table, rows[k], results[k]);
}

impl Database {
    /// Whether each of `assignments` that names a column of `schema` has a
    /// value of that column's type.
    pub fn assignments_fit(schema: &Schema, assignments: &Vec<(String, Field)>) -> (typed: bool)
        ensures
            typed == assignments_typed(schema@, assignment_views(assignments@)),
    {
        let ghost views = assignment_views(assignments@);
        let mut i: usize = 0;
        while i < assignments.len()
            invariant
                i <= assignments@.len(),
                views == assignment_views(assignments@),
                forall|k: int|
                    0 <= k < i ==> (schema@.column_index((#[trigger] views[k]).0) matches Some(c)
                        ==> views[k].1.has_type(schema@.columns[c].data_type)),
            decreases assignments.len() - i,
        {
            match schema.find_column(&assignments[i].0) {
                Some(col_idx) => {
                    proof {
                        lemma_column_index(schema@, views[i as int].0);
                    }
                    if !assignments[i].1.has_type(&schema.columns[col_idx].data_type) {
                        assert(!(schema@.column_index(views[i as int].0) matches Some(c)
                            ==> views[i as int].1.has_type(schema@.columns[c].data_type)));
                        return false;
                    }
                },
                None => {},
            }
            i += 1;
        }
        true
    }

    /// Whether the heap file of table `name` can be read, if the database has the table.
    pub fn table_readable(&self, name: &String) -> (readable: bool)
        requires
            self.wf(),
        ensures
            readable == (self.has_table(name@) ==> self.schema_of(name@).readable()),
    {
        match self.catalog.tables.get(name) {
            Some(schema) => schema.is_readable(),
            None => true,
        }
    }

    /// Whether the database can take `command`.
    pub fn can_execute(&self, command: &Command) -> (admitted: bool)
        requires
            self.wf(),
        ensures
            admitted == self.admits(command),
    {
        match command {
            Command::CreateTable { .. } => true,
            Command::DropTable { .. } => true,
            Command::Delete { table_name, .. } => self.table_readable(table_name),
            Command::Select { table_name, join, .. } => {
                match self.catalog.tables.get(table_name) {
                    Some(schema) => {
                        let right_fits = match join {
                            Some(join_info) => self.table_readable(&join_info.right_table),
                            None => true,
                        };
                        schema.is_readable() && right_fits
                    },
                    None => true,
                }
            },
            Command::Update { table_name, assignments, .. } => {
                match self.catalog.tables.get(table_name) {
                    Some(schema) => schema.is_readable() && Self::assignments_fit(
                        schema,
                        assignments,
                    ),
                    None => true,
                }
            },
            Command::Insert { table_name, .. } => {
                match self.catalog.tables.get(table_name) {
                    Some(schema) => {
                        let room = match self.files.get(table_name) {
                            Some(pager) => (pager.num_pages() as u64) < u64::MAX / (PAGE_SIZE as u64),
                            None => true,
                        };
                        let counter: i32 = match self.catalog.sequences.get(table_name) {
                            Some(value) => *value,
                            None => 0,
                        };
                        let counts_on = match schema.find_autoincrement() {
                            Some(_) => counter < i32::MAX,
                            None => true,
                        };
                        schema.is_storable() && room && counts_on
                    },
                    None => true,
                }
            },
        }
    }
}

/// What creating table `name` with columns `columns` does to a database and answers.
pub open spec fn created(
    before: Database,
    after: Database,
    name: Seq<char>,
    columns: Seq<ColumnView>,
    result: Result<QueryResult, String>,
) -> bool {
    if before.has_table(name) {
        &&& after == before
        &&& is_error(result, table_exists_message(name))
    } else {
        &&& is_message(result, table_created_message(name))
        &&& after.has_table(name)
        &&& after.schema_of(name) == SchemaView { table_name: name, columns }
        &&& forall|other: Seq<char>|
            #![trigger after.has_table(other)]
            #![trigger before.has_table(other)]
            other != name ==> after.has_table(other) == before.has_table(other) && (
            after.has_table(other) ==> after.catalog.tables@[other]
                == before.catalog.tables@[other])
        &&& after.catalog.sequences@ == (if before.catalog.sequences@.contains_key(name) {
            before.catalog.sequences@
        } else {
            before.catalog.sequences@.insert(name, 0)
        })
        &&& after.catalog.unsaved
        &&& after.catalog.path@ == before.catalog.path@
        &&& after.files == before.files
        &&& after.data_dir == before.data_dir
    }
}

/// What dropping table `name` does to a database and answers.
pub open spec fn dropped(
    before: Database,
    after: Database,
    name: Seq<char>,
    result: Result<QueryResult, String>,
) -> bool {
    if !before.has_table(name) {
        &&& after == before
        &&& is_error(result, table_not_found_message(name))
    } else {
        &&& is_message(result, table_dropped_message(name))
        &&& after.catalog.tables@ == before.catalog.tables@.remove(name)
        &&& after.catalog.sequences@ == before.catalog.sequences@.remove(name)
        &&& after.catalog.unsaved
        &&& after.catalog.path@ == before.catalog.path@
        &&& after.files@ == before.files@.remove(name)
        &&& after.data_dir == before.data_dir
    }
}

} // verus!
