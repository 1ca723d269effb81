//! Parsed SQL statements, as the SQL front end hands them over: the parts
//! of a statement that commands are made from, as plain values.

use vstd::prelude::*;

verus! {

/// A binary operator of an expression.
#[derive(Debug, Clone, Copy, PartialEq, Eq, Structural)]
pub enum BinaryOperator {
    Eq,
    NotEq,
    Gt,
    Lt,
    Other,
}

/// What kind of expression an [`Expr`] is, with its parts.
#[derive(Debug)]
pub enum ExprKind {
    /// A number literal, as it was written.
    Number(String),
    /// A string literal in single quotes, without the quotes.
    SingleQuotedString(String),
    /// A boolean literal.
    Boolean(bool),
    /// A plain identifier.
    Identifier(String),
    /// An identifier in several parts, as in `table.column`.
    CompoundIdentifier(Vec<String>),
    /// Two expressions joined by a binary operator.
    BinaryOp { left: Box<Expr>, op: BinaryOperator, right: Box<Expr> },
    /// Any other expression.
    Other,
}

/// An expression, with the text that messages show for it.
#[derive(Debug)]
pub struct Expr {
    pub kind: ExprKind,
    pub shown: String,
}

/// What kind of type a column was declared with.
#[derive(Debug)]
pub enum SqlTypeKind {
    Int,
    Integer,
    Boolean,
    /// `VARCHAR`, with its length as written if it has one.
    Varchar(Option<String>),
    Text,
    /// Any other type.
    Other,
}

/// The declared type of a column, with the text that messages show for it.
#[derive(Debug)]
pub struct SqlType {
    pub kind: SqlTypeKind,
    pub shown: String,
}

/// One option of a column definition.
#[derive(Debug)]
pub enum ColumnOption {
    /// `UNIQUE`, or `PRIMARY KEY` where `is_primary` is set.
    Unique { is_primary: bool },
    /// Words that only some dialects know, each as it was written.
    DialectSpecific(Vec<String>),
    /// Any other option.
    Other,
}

/// One column of a `CREATE TABLE` statement.
#[derive(Debug)]
pub struct ColumnDef {
    pub name: String,
    pub data_type: SqlType,
    pub options: Vec<ColumnOption>,
}

/// One `column = value` of an `UPDATE` statement.
#[derive(Debug)]
pub struct Assignment {
    /// The parts of the column's name.
    pub id: Vec<String>,
    pub value: Expr,
}

/// What a `FROM` or `JOIN` names.
#[derive(Debug)]
pub enum TableFactor {
    /// A table, by name.
    Table { name: String },
    /// Anything else.
    Other,
}

/// How a join relates its two sides.
#[derive(Debug)]
pub enum JoinOperator {
    /// `INNER JOIN ... ON` the given condition.
    InnerOn(Expr),
    /// Any other join.
    Other,
}

/// One join of a `FROM` entry.
#[derive(Debug)]
pub struct Join {
    pub relation: TableFactor,
    pub join_operator: JoinOperator,
}

/// One entry of a `FROM` clause: a relation, the joins on it, and the text
/// of the entry as it reads in SQL.
#[derive(Debug)]
pub struct TableWithJoins {
    pub relation: TableFactor,
    pub joins: Vec<Join>,
    pub shown: String,
}

/// The parts of a `SELECT` that a query is made from.
#[derive(Debug)]
pub struct Select {
    pub from: Vec<TableWithJoins>,
    pub selection: Option<Expr>,
}

/// The body of a query, or the source of an insert.
#[derive(Debug)]
pub enum SetExpr {
    Select(Select),
    /// `VALUES`, row by row.
    Values(Vec<Vec<Expr>>),
    /// Any other body.
    Other,
}

/// One parsed statement.
#[derive(Debug)]
pub enum Statement {
    CreateTable { name: String, columns: Vec<ColumnDef> },
    Update { table: TableWithJoins, assignments: Vec<Assignment>, selection: Option<Expr> },
    Insert { table_name: String, source: Option<SetExpr> },
    Query(SetExpr),
    Delete { from: Vec<TableWithJoins>, selection: Option<Expr> },
    /// `DROP`, of tables where `is_table` is set, with the names dropped.
    Drop { is_table: bool, names: Vec<String> },
    /// Any other statement.
    Other,
}

} // verus!
