//! Filtering and joining rows, and shaping the answer to a query.

use crate::catalog::schema::{Column, ColumnView, Schema, SchemaView, column_views};
use crate::seqs::{keep, lemma_keep_step};
use crate::sql::{
    Filter, FilterView, QueryResponse, QueryResult, ResponseView, ResultView, filter_view,
    name_views, record_views,
};
use crate::storage::record::{
    Field, FieldView, Row, clone_fields, field_views, filter_matches, row_views,
};
use vstd::prelude::*;
use vstd::string::StringExecFns;

verus! {

/// Whether a row with fields `fields` passes `filter`; every row passes where there is no filter.
pub open spec fn passes(filter: Option<FilterView>, fields: Seq<FieldView>, schema: SchemaView) -> bool {
    match filter {
        Some(f) => filter_matches(fields, f, schema),
        None => true,
    }
}

/// The rows of `rows` that pass `filter`, in their order.
pub open spec fn matching_rows(
    rows: Seq<Seq<FieldView>>,
    filter: Option<FilterView>,
    schema: SchemaView,
) -> Seq<Seq<FieldView>> {
    keep(rows, |fields: Seq<FieldView>| passes(filter, fields, schema))
}

/// The row `left` joined with each row of `right` whose field `ri` equals
/// field `li` of `left`: the fields of `left` followed by those of the right
/// row, in the order of `right`.
pub open spec fn join_one(left: Seq<FieldView>, right: Seq<Seq<FieldView>>, li: int, ri: int) -> Seq<
    Seq<FieldView>,
>
    decreases right.len(),
{
    if right.len() == 0 {
        Seq::empty()
    } else if left[li] == right.last()[ri] {
        join_one(left, right.drop_last(), li, ri).push(left + right.last())
    } else {
        join_one(left, right.drop_last(), li, ri)
    }
}

/// The inner join of `left` and `right` on field `li` of the left rows and
/// field `ri` of the right rows: for each left row in order, its joins with
/// the right rows.
pub open spec fn join_rows(
    left: Seq<Seq<FieldView>>,
    right: Seq<Seq<FieldView>>,
    li: int,
    ri: int,
) -> Seq<Seq<FieldView>>
    decreases left.len(),
{
    if left.len() == 0 {
        Seq::empty()
    } else {
        join_rows(left.drop_last(), right, li, ri) + join_one(left.last(), right, li, ri)
    }
}

/// The names of `columns`, in order.
pub open spec fn column_names(columns: Seq<ColumnView>) -> Seq<Seq<char>> {
    columns.map_values(|column: ColumnView| column.name)
}

/// Whether `result` is the answer to a query that found `rows` with columns
/// `columns`: the rows with the column names, or a message if there are no rows.
pub open spec fn answers(
    result: Result<QueryResult, String>,
    columns: Seq<Seq<char>>,
    rows: Seq<Seq<FieldView>>,
) -> bool {
    if rows.len() == 0 {
        result matches Ok(answer) && answer@ == ResultView::Message("No rows found."@)
    } else {
        result matches Ok(answer) && answer@ == ResultView::Data(ResponseView { columns, rows })
    }
}

/// The rows of `rows` that pass `filter`, in their order.
pub fn retain_matching(rows: Vec<Row>, filter: &Option<Filter>, schema: &Schema) -> (kept: Vec<Row>)
    requires
        forall|k: int| 0 <= k < rows@.len() ==> (#[trigger] rows@[k])@.len() >= schema@.columns.len(),
    ensures
        row_views(kept@) == matching_rows(row_views(rows@), filter_view(*filter), schema@),
{
    let ghost pick = |fields: Seq<FieldView>| passes(filter_view(*filter), fields, schema@);
    let mut kept: Vec<Row> = Vec::new();
    let mut i: usize = 0;
    proof {
        assert(row_views(rows@).take(0) =~= Seq::<Seq<FieldView>>::empty());
    }
    while i < rows.len()
        invariant
            i <= rows@.len(),
            forall|k: int|
                0 <= k < rows@.len() ==> (#[trigger] rows@[k])@.len() >= schema@.columns.len(),
            pick == |fields: Seq<FieldView>| passes(filter_view(*filter), fields, schema@),
            row_views(kept@) == keep(row_views(rows@).take(i as int), pick),
        decreases rows.len() - i,
    {
        let ghost before = row_views(kept@);
        let row = &rows[i];
        let keep_it = match filter {
            Some(f) => Row::row_matches_filter(row, f, schema),
            None => true,
        };
        if keep_it {
            kept.push(row.clone());
            assert(row_views(kept@) =~= before.push(row@));
        }
        proof {
            lemma_keep_step(row_views(rows@), pick, i as int);
        }
        i += 1;
    }
    proof {
        assert(row_views(rows@).take(rows@.len() as int) =~= row_views(rows@));
    }
    kept
}

/// The inner join of `left` and `right` on field `li` of the left rows and
/// field `ri` of the right rows.
pub fn join(left: &Vec<Row>, right: &Vec<Row>, li: usize, ri: usize) -> (joined: Vec<Row>)
    requires
        forall|k: int| 0 <= k < left@.len() ==> li < (#[trigger] left@[k])@.len(),
        forall|k: int| 0 <= k < right@.len() ==> ri < (#[trigger] right@[k])@.len(),
    ensures
        row_views(joined@) == join_rows(row_views(left@), row_views(right@), li as int, ri as int),
{
    let ghost lefts = row_views(left@);
    let ghost rights = row_views(right@);
    let mut joined: Vec<Row> = Vec::new();
    let mut a: usize = 0;
    proof {
        assert(lefts.take(0) =~= Seq::<Seq<FieldView>>::empty());
    }
    while a < left.len()
        invariant
            a <= left@.len(),
            lefts == row_views(left@),
            rights == row_views(right@),
            forall|k: int| 0 <= k < left@.len() ==> li < (#[trigger] left@[k])@.len(),
            forall|k: int| 0 <= k < right@.len() ==> ri < (#[trigger] right@[k])@.len(),
            row_views(joined@) == join_rows(lefts.take(a as int), rights, li as int, ri as int),
        decreases left.len() - a,
    {
        let row_a = &left[a];
        let ghost done = row_views(joined@);
        let mut b: usize = 0;
        proof {
            assert(rights.take(0) =~= Seq::<Seq<FieldView>>::empty());
        }
        while b < right.len()
            invariant
                b <= right@.len(),
                a < left@.len(),
                row_a == &left@[a as int],
                li < row_a@.len(),
                rights == row_views(right@),
                forall|k: int| 0 <= k < right@.len() ==> ri < (#[trigger] right@[k])@.len(),
                row_views(joined@) == done + join_one(
                    row_a@,
                    rights.take(b as int),
                    li as int,
                    ri as int,
                ),
            decreases right.len() - b,
        {
            let row_b = &right[b];
            let ghost so_far = row_views(joined@);
            assert(row_a.fields@.len() == row_a@.len());
            assert(row_b.fields@.len() == row_b@.len());
            if row_a.fields[li] == row_b.fields[ri] {
                let mut merged_fields = clone_fields(&row_a.fields);
                let mut more = clone_fields(&row_b.fields);
                merged_fields.append(&mut more);
                let merged = Row { fields: merged_fields };
                assert(merged@ =~= row_a@ + row_b@);
                joined.push(merged);
                assert(row_views(joined@) =~= so_far.push(row_a@ + row_b@));
            }
            proof {
                let next = rights.take(b as int + 1);
                assert(next.drop_last() =~= rights.take(b as int));
                assert(next.last() == row_b@);
            }
            b += 1;
        }
        proof {
            assert(rights.take(right@.len() as int) =~= rights);
            let next = lefts.take(a as int + 1);
            assert(next.drop_last() =~= lefts.take(a as int));
            assert(next.last() == row_a@);
        }
        a += 1;
    }
    proof {
        assert(lefts.take(left@.len() as int) =~= lefts);
    }
    joined
}

/// Appends the names of `columns` to `names`.
pub fn push_names(names: &mut Vec<String>, columns: &Vec<Column>)
    ensures
        name_views(final(names)@) == name_views(old(names)@) + column_names(column_views(columns@)),
{
    let ghost wanted = column_names(column_views(columns@));
    let mut i: usize = 0;
    assert(name_views(names@) =~= name_views(old(names)@) + wanted.take(0));
    while i < columns.len()
        invariant
            i <= columns@.len(),
            wanted == column_names(column_views(columns@)),
            name_views(names@) == name_views(old(names)@) + wanted.take(i as int),
        decreases columns.len() - i,
    {
        let ghost before = name_views(names@);
        names.push(columns[i].name.clone());
        assert(name_views(names@) =~= before.push(columns@[i as int].name@));
        i += 1;
        assert(name_views(names@) =~= name_views(old(names)@) + wanted.take(i as int));
    }
    assert(wanted.take(columns@.len() as int) =~= wanted);
}

/// The answer to a query that found `rows` with columns named `columns`.
pub fn answer(columns: Vec<String>, rows: Vec<Row>) -> (result: Result<QueryResult, String>)
    ensures
        answers(result, name_views(columns@), row_views(rows@)),
{
    if rows.len() == 0 {
        return Ok(QueryResult::Message(String::from_str("No rows found.")));
    }
    let mut records: Vec<Vec<Field>> = Vec::new();
    let mut i: usize = 0;
    while i < rows.len()
        invariant
            i <= rows@.len(),
            records@.len() == i,
            forall|k: int|
                0 <= k < i ==> field_views((#[trigger] records@[k])@)
                    == rows@[k]@,
        decreases rows.len() - i,
    {
        records.push(clone_fields(&rows[i].fields));
        i += 1;
    }
    assert(record_views(records@) =~= row_views(rows@));
    Ok(QueryResult::Data(QueryResponse { columns, rows: records }))
}

} // verus!
