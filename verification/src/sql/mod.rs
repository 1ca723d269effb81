//! The typed commands that the executor accepts, and the results it gives.

pub mod ast;
pub mod parser;

use crate::catalog::schema::{Column, ColumnView, column_views};
use crate::storage::record::{Field, FieldView, Row, field_views};
use vstd::prelude::*;

verus! {

/// The comparison that a filter applies.
#[derive(Debug, Clone, Copy, PartialEq, Eq, Structural)]
pub enum Operator {
    Eq,
    NotEq,
    GreaterThan,
    LessThan,
}

/// A single predicate: the named column compared with a value.
#[derive(Debug)]
pub struct Filter {
    pub column_name: String,
    pub operator: Operator,
    pub value: Field,
}

/// What a [`Filter`] is in contracts.
pub ghost struct FilterView {
    pub column_name: Seq<char>,
    pub operator: Operator,
    pub value: FieldView,
}

impl View for Filter {
    type V = FilterView;

    open spec fn view(&self) -> FilterView {
        FilterView {
            column_name: self.column_name@,
            operator: self.operator,
            value: self.value@,
        }
    }
}

/// An inner join of the selected table with `right_table` on equal column values.
#[derive(Debug)]
pub struct JoinClause {
    pub left_column: String,
    pub right_table: String,
    pub right_column: String,
}

/// What a [`JoinClause`] is in contracts.
pub ghost struct JoinView {
    pub left_column: Seq<char>,
    pub right_table: Seq<char>,
    pub right_column: Seq<char>,
}

impl View for JoinClause {
    type V = JoinView;

    open spec fn view(&self) -> JoinView {
        JoinView {
            left_column: self.left_column@,
            right_table: self.right_table@,
            right_column: self.right_column@,
        }
    }
}

/// One command for the executor, as the SQL front end hands it over.
#[derive(Debug)]
pub enum Command {
    CreateTable { name: String, columns: Vec<Column> },
    Insert { table_name: String, row: Row },
    Select { table_name: String, filter: Option<Filter>, join: Option<JoinClause> },
    Update { table_name: String, assignments: Vec<(String, Field)>, filter: Option<Filter> },
    Delete { table_name: String, filter: Option<Filter> },
    DropTable { table_name: String },
}

/// What a [`Command`] is in contracts.
pub ghost enum CommandView {
    CreateTable { name: Seq<char>, columns: Seq<ColumnView> },
    Insert { table_name: Seq<char>, row: Seq<FieldView> },
    Select { table_name: Seq<char>, filter: Option<FilterView>, join: Option<JoinView> },
    Update {
        table_name: Seq<char>,
        assignments: Seq<(Seq<char>, FieldView)>,
        filter: Option<FilterView>,
    },
    Delete { table_name: Seq<char>, filter: Option<FilterView> },
    DropTable { table_name: Seq<char> },
}

impl View for Command {
    type V = CommandView;

    open spec fn view(&self) -> CommandView {
        match self {
            Command::CreateTable { name, columns } => CommandView::CreateTable {
                name: name@,
                columns: column_views(columns@),
            },
            Command::Insert { table_name, row } => CommandView::Insert {
                table_name: table_name@,
                row: row@,
            },
            Command::Select { table_name, filter, join } => CommandView::Select {
                table_name: table_name@,
                filter: filter_view(*filter),
                join: join_view(*join),
            },
            Command::Update { table_name, assignments, filter } => CommandView::Update {
                table_name: table_name@,
                assignments: assignment_views(assignments@),
                filter: filter_view(*filter),
            },
            Command::Delete { table_name, filter } => CommandView::Delete {
                table_name: table_name@,
                filter: filter_view(*filter),
            },
            Command::DropTable { table_name } => CommandView::DropTable { table_name: table_name@ },
        }
    }
}

/// The views of `commands`, in order.
pub open spec fn command_views(commands: Seq<Command>) -> Seq<CommandView> {
    Seq::new(commands.len(), |i: int| commands[i]@)
}

/// The rows that a query found, with the names of their columns.
#[derive(Debug, PartialEq)]
pub struct QueryResponse {
    pub columns: Vec<String>,
    pub rows: Vec<Vec<Field>>,
}

/// What a [`QueryResponse`] is in contracts.
pub ghost struct ResponseView {
    pub columns: Seq<Seq<char>>,
    pub rows: Seq<Seq<FieldView>>,
}

/// What the executor answers: a message, or the rows of a query.
#[derive(Debug, PartialEq)]
pub enum QueryResult {
    Message(String),
    Data(QueryResponse),
}

/// What a [`QueryResult`] is in contracts.
pub ghost enum ResultView {
    Message(Seq<char>),
    Data(ResponseView),
}

/// The views of `names`, in order.
pub open spec fn name_views(names: Seq<String>) -> Seq<Seq<char>> {
    Seq::new(names.len(), |i: int| names[i]@)
}

/// The views of `rows`, each a list of fields, in order.
pub open spec fn record_views(rows: Seq<Vec<Field>>) -> Seq<Seq<FieldView>> {
    Seq::new(rows.len(), |i: int| field_views(rows[i]@))
}

/// The views of `assignments`, each a column name with its new value, in order.
pub open spec fn assignment_views(assignments: Seq<(String, Field)>) -> Seq<(Seq<char>, FieldView)> {
    Seq::new(assignments.len(), |i: int| (assignments[i].0@, assignments[i].1@))
}

/// The view of an optional filter.
pub open spec fn filter_view(filter: Option<Filter>) -> Option<FilterView> {
    match filter {
        Some(f) => Some(f@),
        None => None,
    }
}

/// The view of an optional join.
pub open spec fn join_view(join: Option<JoinClause>) -> Option<JoinView> {
    match join {
        Some(j) => Some(j@),
        None => None,
    }
}

impl View for QueryResponse {
    type V = ResponseView;

    open spec fn view(&self) -> ResponseView {
        ResponseView { columns: name_views(self.columns@), rows: record_views(self.rows@) }
    }
}

impl View for QueryResult {
    type V = ResultView;

    open spec fn view(&self) -> ResultView {
        match self {
            QueryResult::Message(text) => ResultView::Message(text@),
            QueryResult::Data(response) => ResultView::Data(response@),
        }
    }
}

} // verus!
