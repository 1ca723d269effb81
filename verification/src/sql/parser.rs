//! From parsed statements to commands.

use crate::catalog::schema::{Column, ColumnView, DataType, column_views};
use crate::seqs::{collect, lemma_collect_error, lemma_collect_step};
use crate::sql::ast::{
    Assignment, BinaryOperator, ColumnDef, ColumnOption, Expr, ExprKind, JoinOperator, Select,
    SetExpr, SqlType, SqlTypeKind, Statement, TableFactor, TableWithJoins,
};
use crate::sql::{
    Command, CommandView, Filter, FilterView, JoinClause, JoinView, Operator, assignment_views,
    command_views, filter_view, join_view,
};
use crate::storage::record::{Field, FieldView, Row, field_views};
use crate::text::{parse_i32, parse_usize, parsed_i32, parsed_usize};
use vstd::prelude::*;
use vstd::string::StringExecFns;

verus! {

/// Whether `result` is what `want` says: the value whose view under `view`
/// is the wanted one, or the error with the wanted text.
pub open spec fn gives<T, V>(
    result: Result<T, String>,
    want: Result<V, Seq<char>>,
    view: spec_fn(T) -> V,
) -> bool {
    match want {
        Ok(value) => result matches Ok(got) && view(got) == value,
        Err(text) => result matches Err(message) && message@ == text,
    }
}

/// What `String::to_uppercase` makes of a text.
pub uninterp spec fn uppercased(text: Seq<char>) -> Seq<char>;

/// Calls `str::to_uppercase`. The contract names the result and says no more of it.
#[verifier::external_body]
fn to_uppercase(text: &str) -> (out: String)
    ensures
        out@ == uppercased(text@),
{
    text.to_uppercase()
}

/// The error for an expression that is no literal.
pub open spec fn unsupported_expression_message(expr: Expr) -> Seq<char> {
    "Unsupported expression type: "@ + expr.shown@
}

/// The error for an expression that is no column name.
pub open spec fn expected_column_message(expr: Expr) -> Seq<char> {
    "Expected column name, found "@ + expr.shown@
}

/// The value that a literal expression stands for: an integer for a
/// number that fits 32 bits, a text for a quoted string, a truth value for
/// a boolean. Any other expression is an error.
pub open spec fn field_of(expr: Expr) -> Result<FieldView, Seq<char>> {
    match expr.kind {
        ExprKind::Number(n) => match parsed_i32(n@) {
            Some(v) => Ok(FieldView::Integer(v)),
            None => Err("Invalid integer: "@ + n@),
        },
        ExprKind::SingleQuotedString(s) => Ok(FieldView::Text(s@)),
        ExprKind::Boolean(b) => Ok(FieldView::Boolean(b)),
        _ => Err(unsupported_expression_message(expr)),
    }
}

/// The column that an expression names: an identifier, or the last part
/// of an identifier in several parts. Any other expression is an error.
pub open spec fn column_name_of(expr: Expr) -> Result<Seq<char>, Seq<char>> {
    match expr.kind {
        ExprKind::Identifier(name) => Ok(name@),
        ExprKind::CompoundIdentifier(parts) => if parts@.len() > 0 {
            Ok(parts@.last()@)
        } else {
            Err(expected_column_message(expr))
        },
        _ => Err(expected_column_message(expr)),
    }
}

/// The comparison that a binary operator stands for, if it is one of the four.
pub open spec fn operator_of(op: BinaryOperator) -> Option<Operator> {
    match op {
        BinaryOperator::Eq => Some(Operator::Eq),
        BinaryOperator::NotEq => Some(Operator::NotEq),
        BinaryOperator::Gt => Some(Operator::GreaterThan),
        BinaryOperator::Lt => Some(Operator::LessThan),
        BinaryOperator::Other => None,
    }
}

/// The filter that a `WHERE` clause stands for: a column compared with a
/// literal. A clause that is no comparison of two expressions stands for no
/// filter at all.
pub open spec fn filter_of(selection: Option<Expr>) -> Result<Option<FilterView>, Seq<char>> {
    match selection {
        Some(expr) => match expr.kind {
            ExprKind::BinaryOp { left, op, right } => match column_name_of(*left) {
                Err(message) => Err(message),
                Ok(column_name) => match operator_of(op) {
                    None => Err("Unsupported operator"@),
                    Some(operator) => match field_of(*right) {
                        Err(message) => Err(message),
                        Ok(value) => Ok(Some(FilterView { column_name, operator, value })),
                    },
                },
            },
            _ => Ok(None),
        },
        None => Ok(None),
    }
}

/// The value of a literal expression.
pub fn convert_expr_to_field(expr: &Expr) -> (result: Result<Field, String>)
    ensures
        gives(result, field_of(*expr), |f: Field| f@),
{
    match &expr.kind {
        ExprKind::Number(n) => match parse_i32(n.as_str()) {
            Some(i) => Ok(Field::Integer(i)),
            None => {
                let mut message = String::from_str("Invalid integer: ");
                message.append(n.as_str());
                Err(message)
            },
        },
        ExprKind::SingleQuotedString(s) => Ok(Field::Text(s.clone())),
        ExprKind::Boolean(b) => Ok(Field::Boolean(*b)),
        _ => {
            let mut message = String::from_str("Unsupported expression type: ");
            message.append(expr.shown.as_str());
            Err(message)
        },
    }
}

/// The column that an expression names.
pub fn extract_column_name(expr: &Expr) -> (result: Result<String, String>)
    ensures
        gives(result, column_name_of(*expr), |name: String| name@),
{
    match &expr.kind {
        ExprKind::Identifier(name) => Ok(name.clone()),
        ExprKind::CompoundIdentifier(parts) => {
            if parts.len() > 0 {
                Ok(parts[parts.len() - 1].clone())
            } else {
                let mut message = String::from_str("Expected column name, found ");
                message.append(expr.shown.as_str());
                Err(message)
            }
        },
        _ => {
            let mut message = String::from_str("Expected column name, found ");
            message.append(expr.shown.as_str());
            Err(message)
        },
    }
}

/// The filter that a `WHERE` clause stands for.
pub fn convert_selection(selection: &Option<Expr>) -> (result: Result<Option<Filter>, String>)
    ensures
        gives(result, filter_of(*selection), |f: Option<Filter>| filter_view(f)),
{
    match selection {
        Some(expr) => match &expr.kind {
            ExprKind::BinaryOp { left, op, right } => {
                let col_name = match extract_column_name(left) {
                    Ok(name) => name,
                    Err(message) => {
                        return Err(message);
                    },
                };
                let op_type = match op {
                    BinaryOperator::Eq => Operator::Eq,
                    BinaryOperator::NotEq => Operator::NotEq,
                    BinaryOperator::Gt => Operator::GreaterThan,
                    BinaryOperator::Lt => Operator::LessThan,
                    BinaryOperator::Other => {
                        return Err(String::from_str("Unsupported operator"));
                    },
                };
                let val = match convert_expr_to_field(right) {
                    Ok(value) => value,
                    Err(message) => {
                        return Err(message);
                    },
                };
                Ok(Some(Filter { column_name: col_name, operator: op_type, value: val }))
            },
            _ => Ok(None),
        },
        None => Ok(None),
    }
}

/// The error for a column type that tables cannot have.
pub open spec fn unsupported_type_message(data_type: SqlType) -> Seq<char> {
    "Unsupported data type: "@ + data_type.shown@
}

/// The column type that a declared type stands for: `INT` and `INTEGER`
/// for integers, `BOOLEAN` for truth values, `VARCHAR` with a length for
/// text of that width, `TEXT` for text of width 255. Any other type, and a
/// `VARCHAR` without a length that is a number, is an error.
pub open spec fn data_type_of(data_type: SqlType) -> Result<DataType, Seq<char>> {
    match data_type.kind {
        SqlTypeKind::Int => Ok(DataType::Integer),
        SqlTypeKind::Integer => Ok(DataType::Integer),
        SqlTypeKind::Boolean => Ok(DataType::Boolean),
        SqlTypeKind::Varchar(Some(length)) => match parsed_usize(length@) {
            Some(width) => Ok(DataType::Text(width)),
            None => Err(unsupported_type_message(data_type)),
        },
        SqlTypeKind::Text => Ok(DataType::Text(255)),
        _ => Err(unsupported_type_message(data_type)),
    }
}

/// Whether `option` marks its column as the primary key.
pub open spec fn is_primary_marker(option: ColumnOption) -> bool {
    match option {
        ColumnOption::Unique { is_primary } => is_primary,
        _ => false,
    }
}

/// Whether `word` is one of the words that mark an autoincrement column,
/// in whatever case.
pub open spec fn is_autoincrement_word(word: Seq<char>) -> bool {
    uppercased(word) == "AUTOINCREMENT"@ || uppercased(word) == "AUTO_INCREMENT"@
}

/// Whether one of `words` marks an autoincrement column.
pub open spec fn has_autoincrement_word(words: Seq<String>) -> bool {
    exists|j: int| 0 <= j < words.len() && is_autoincrement_word(#[trigger] words[j]@)
}

/// Whether `option` marks its column as autoincrement.
pub open spec fn is_autoincrement_marker(option: ColumnOption) -> bool {
    match option {
        ColumnOption::DialectSpecific(words) => has_autoincrement_word(words@),
        _ => false,
    }
}

/// The column that a column definition stands for.
pub open spec fn column_of(def: ColumnDef) -> Result<ColumnView, Seq<char>> {
    match data_type_of(def.data_type) {
        Err(message) => Err(message),
        Ok(data_type) => Ok(
            ColumnView {
                name: def.name@,
                data_type,
                is_primary: exists|i: int|
                    0 <= i < def.options@.len() && is_primary_marker(#[trigger] def.options@[i]),
                is_autoincrement: exists|i: int|
                    0 <= i < def.options@.len() && is_autoincrement_marker(
                        #[trigger] def.options@[i],
                    ),
            },
        ),
    }
}

/// The name of the table that a `FROM` or `JOIN` names, if it names a table.
pub open spec fn table_name_of(factor: TableFactor) -> Option<Seq<char>> {
    match factor {
        TableFactor::Table { name } => Some(name@),
        TableFactor::Other => None,
    }
}

/// The join that the first join of a `FROM` entry stands for: an inner
/// join on the equality of two columns. A first join of any other form
/// stands for no join at all; one with anything but a table is an error.
pub open spec fn join_of(entry: TableWithJoins) -> Result<Option<JoinView>, Seq<char>> {
    if entry.joins@.len() == 0 {
        Ok(None)
    } else {
        match table_name_of(entry.joins@[0].relation) {
            None => Err("Unsupported JOIN table"@),
            Some(right_table) => match entry.joins@[0].join_operator {
                JoinOperator::InnerOn(condition) => match condition.kind {
                    ExprKind::BinaryOp { left, op, right } => if op == BinaryOperator::Eq {
                        match column_name_of(*left) {
                            Err(message) => Err(message),
                            Ok(left_column) => match column_name_of(*right) {
                                Err(message) => Err(message),
                                Ok(right_column) => Ok(
                                    Some(JoinView { left_column, right_table, right_column }),
                                ),
                            },
                        }
                    } else {
                        Ok(None)
                    },
                    _ => Ok(None),
                },
                JoinOperator::Other => Ok(None),
            },
        }
    }
}

/// The table that the first entry of a `FROM` clause names.
pub open spec fn first_table_of(from: Seq<TableWithJoins>) -> Result<Seq<char>, Seq<char>> {
    if from.len() == 0 {
        Err("Missing FROM clause"@)
    } else {
        match table_name_of(from[0].relation) {
            None => Err("Unsupported table reference"@),
            Some(name) => Ok(name),
        }
    }
}

/// The command that a `SELECT` stands for.
pub open spec fn select_of(select: Select) -> Result<CommandView, Seq<char>> {
    match first_table_of(select.from@) {
        Err(message) => Err(message),
        Ok(table_name) => match join_of(select.from@[0]) {
            Err(message) => Err(message),
            Ok(join) => match filter_of(select.selection) {
                Err(message) => Err(message),
                Ok(filter) => Ok(CommandView::Select { table_name, filter, join }),
            },
        },
    }
}

/// The column and value that an assignment stands for: the first part of
/// the column's name, with the value of the literal.
pub open spec fn assignment_of(assignment: Assignment) -> Result<(Seq<char>, FieldView), Seq<char>> {
    if assignment.id@.len() == 0 {
        Err(expected_column_message(assignment.value))
    } else {
        match field_of(assignment.value) {
            Err(message) => Err(message),
            Ok(value) => Ok((assignment.id@[0]@, value)),
        }
    }
}

/// The command that an `UPDATE` stands for.
pub open spec fn update_of(
    table: TableWithJoins,
    assignments: Seq<Assignment>,
    selection: Option<Expr>,
) -> Result<CommandView, Seq<char>> {
    match collect(assignments, |a: Assignment| assignment_of(a)) {
        Err(message) => Err(message),
        Ok(list) => match filter_of(selection) {
            Err(message) => Err(message),
            Ok(filter) => Ok(
                CommandView::Update { table_name: table.shown@, assignments: list, filter },
            ),
        },
    }
}

/// The command that one row of an `INSERT ... VALUES` stands for.
pub open spec fn insert_of(table_name: Seq<char>, values: Vec<Expr>) -> Result<CommandView, Seq<char>> {
    match collect(values@, |e: Expr| field_of(e)) {
        Err(message) => Err(message),
        Ok(row) => Ok(CommandView::Insert { table_name, row }),
    }
}

/// The command that a `DELETE` stands for.
pub open spec fn delete_of(from: Seq<TableWithJoins>, selection: Option<Expr>) -> Result<
    CommandView,
    Seq<char>,
> {
    match first_table_of(from) {
        Err(message) => Err(message),
        Ok(table_name) => match filter_of(selection) {
            Err(message) => Err(message),
            Ok(filter) => Ok(CommandView::Delete { table_name, filter }),
        },
    }
}

/// The commands that one statement stands for: one for a `CREATE TABLE`,
/// an `UPDATE`, a `DELETE` or a `SELECT`, one for each row of an `INSERT`,
/// one for each table of a `DROP TABLE`, none for a query that is no
/// `SELECT`. Any other statement is an error.
pub open spec fn statement_commands(statement: Statement) -> Result<Seq<CommandView>, Seq<char>> {
    match statement {
        Statement::CreateTable { name, columns } => match collect(
            columns@,
            |def: ColumnDef| column_of(def),
        ) {
            Err(message) => Err(message),
            Ok(list) => Ok(seq![CommandView::CreateTable { name: name@, columns: list }]),
        },
        Statement::Update { table, assignments, selection } => match update_of(
            table,
            assignments@,
            selection,
        ) {
            Err(message) => Err(message),
            Ok(command) => Ok(seq![command]),
        },
        Statement::Insert { table_name, source } => match source {
            None => Err("INSERT statement missing values"@),
            Some(SetExpr::Values(rows)) => collect(
                rows@,
                |values: Vec<Expr>| insert_of(table_name@, values),
            ),
            Some(_) => Err("Unsupported INSERT format"@),
        },
        Statement::Query(body) => match body {
            SetExpr::Select(select) => match select_of(select) {
                Err(message) => Err(message),
                Ok(command) => Ok(seq![command]),
            },
            _ => Ok(Seq::empty()),
        },
        Statement::Delete { from, selection } => match delete_of(from@, selection) {
            Err(message) => Err(message),
            Ok(command) => Ok(seq![command]),
        },
        Statement::Drop { is_table, names } => if is_table {
            Ok(names@.map_values(|name: String| CommandView::DropTable { table_name: name@ }))
        } else {
            Err("Unsupported SQL statement"@)
        },
        Statement::Other => Err("Unsupported SQL statement"@),
    }
}

/// The commands that `statements` stand for, in order; if any statement
/// is refused, the error of the first that is.
pub open spec fn commands_of(statements: Seq<Statement>) -> Result<Seq<CommandView>, Seq<char>>
    decreases statements.len(),
{
    if statements.len() == 0 {
        Ok(Seq::empty())
    } else {
        match commands_of(statements.drop_last()) {
            Err(message) => Err(message),
            Ok(done) => match statement_commands(statements.last()) {
                Err(message) => Err(message),
                Ok(more) => Ok(done + more),
            },
        }
    }
}

/// The column type that a declared type stands for.
pub fn convert_data_type(data_type: &SqlType) -> (result: Result<DataType, String>)
    ensures
        gives(result, data_type_of(*data_type), |t: DataType| t),
{
    match &data_type.kind {
        SqlTypeKind::Int => Ok(DataType::Integer),
        SqlTypeKind::Integer => Ok(DataType::Integer),
        SqlTypeKind::Boolean => Ok(DataType::Boolean),
        SqlTypeKind::Varchar(Some(length)) => match parse_usize(length.as_str()) {
            Some(width) => Ok(DataType::Text(width)),
            None => {
                let mut message = String::from_str("Unsupported data type: ");
                message.append(data_type.shown.as_str());
                Err(message)
            },
        },
        SqlTypeKind::Text => Ok(DataType::Text(255)),
        _ => {
            let mut message = String::from_str("Unsupported data type: ");
            message.append(data_type.shown.as_str());
            Err(message)
        },
    }
}

/// Whether one of `words` marks an autoincrement column.
fn any_autoincrement_word(words: &Vec<String>) -> (found: bool)
    ensures
        found == has_autoincrement_word(words@),
{
    let first = String::from_str("AUTOINCREMENT");
    let second = String::from_str("AUTO_INCREMENT");
    let mut j: usize = 0;
    while j < words.len()
        invariant
            j <= words@.len(),
            first@ == "AUTOINCREMENT"@,
            second@ == "AUTO_INCREMENT"@,
            forall|k: int| 0 <= k < j ==> !is_autoincrement_word(#[trigger] words@[k]@),
        decreases words.len() - j,
    {
        let upper = to_uppercase(words[j].as_str());
        if upper == first || upper == second {
            return true;
        }
        j += 1;
    }
    false
}

/// The column that a column definition stands for.
pub fn convert_column(col: &ColumnDef) -> (result: Result<Column, String>)
    ensures
        gives(result, column_of(*col), |c: Column| c@),
{
    let data_type = match convert_data_type(&col.data_type) {
        Ok(data_type) => data_type,
        Err(message) => {
            return Err(message);
        },
    };
    let mut is_primary = false;
    let mut is_autoincrement = false;
    let mut i: usize = 0;
    while i < col.options.len()
        invariant
            i <= col.options@.len(),
            is_primary == exists|k: int|
                0 <= k < i && is_primary_marker(#[trigger] col.options@[k]),
            is_autoincrement == exists|k: int|
                0 <= k < i && is_autoincrement_marker(#[trigger] col.options@[k]),
        decreases col.options.len() - i,
    {
        let marks_primary = match &col.options[i] {
            ColumnOption::Unique { is_primary } => *is_primary,
            _ => false,
        };
        let marks_autoincrement = match &col.options[i] {
            ColumnOption::DialectSpecific(words) => any_autoincrement_word(words),
            _ => false,
        };
        proof {
            if marks_primary {
                assert(is_primary_marker(col.options@[i as int]));
            }
            if marks_autoincrement {
                assert(is_autoincrement_marker(col.options@[i as int]));
            }
        }
        is_primary = is_primary || marks_primary;
        is_autoincrement = is_autoincrement || marks_autoincrement;
        i += 1;
    }
    Ok(Column { name: col.name.clone(), data_type, is_primary, is_autoincrement })
}

/// The values that literal expressions stand for, in order.
pub fn convert_values(values: &Vec<Expr>) -> (result: Result<Vec<Field>, String>)
    ensures
        gives(
            result,
            collect(values@, |e: Expr| field_of(e)),
            |fields: Vec<Field>| field_views(fields@),
        ),
{
    let ghost convert = |e: Expr| field_of(e);
    let mut fields: Vec<Field> = Vec::new();
    let mut i: usize = 0;
    proof {
        assert(values@.take(0) =~= Seq::<Expr>::empty());
        assert(field_views(fields@) =~= Seq::<FieldView>::empty());
    }
    while i < values.len()
        invariant
            i <= values@.len(),
            convert == |e: Expr| field_of(e),
            collect(values@.take(i as int), convert) == Ok::<Seq<FieldView>, Seq<char>>(
                field_views(fields@),
            ),
        decreases values.len() - i,
    {
        proof {
            lemma_collect_step(values@, convert, i as int);
        }
        let ghost before = field_views(fields@);
        match convert_expr_to_field(&values[i]) {
            Ok(field) => {
                fields.push(field);
                assert(field_views(fields@) =~= before.push(field@));
            },
            Err(message) => {
                proof {
                    lemma_collect_error(values@, convert, i as int + 1);
                }
                return Err(message);
            },
        }
        i += 1;
    }
    proof {
        assert(values@.take(values@.len() as int) =~= values@);
    }
    Ok(fields)
}

/// The columns and values that the assignments of an `UPDATE` stand for, in order.
pub fn convert_assignments(assignments: &Vec<Assignment>) -> (result: Result<
    Vec<(String, Field)>,
    String,
>)
    ensures
        gives(
            result,
            collect(assignments@, |a: Assignment| assignment_of(a)),
            |list: Vec<(String, Field)>| assignment_views(list@),
        ),
{
    let ghost convert = |a: Assignment| assignment_of(a);
    let mut update_list: Vec<(String, Field)> = Vec::new();
    let mut i: usize = 0;
    proof {
        assert(assignments@.take(0) =~= Seq::<Assignment>::empty());
        assert(assignment_views(update_list@) =~= Seq::<(Seq<char>, FieldView)>::empty());
    }
    while i < assignments.len()
        invariant
            i <= assignments@.len(),
            convert == |a: Assignment| assignment_of(a),
            collect(assignments@.take(i as int), convert) == Ok::<
                Seq<(Seq<char>, FieldView)>,
                Seq<char>,
            >(assignment_views(update_list@)),
        decreases assignments.len() - i,
    {
        proof {
            lemma_collect_step(assignments@, convert, i as int);
        }
        let ghost before = assignment_views(update_list@);
        let assignment = &assignments[i];
        if assignment.id.len() == 0 {
            proof {
                lemma_collect_error(assignments@, convert, i as int + 1);
            }
            let mut message = String::from_str("Expected column name, found ");
            message.append(assignment.value.shown.as_str());
            return Err(message);
        }
        let col_name = assignment.id[0].clone();
        match convert_expr_to_field(&assignment.value) {
            Ok(val) => {
                update_list.push((col_name, val));
                assert(assignment_views(update_list@) =~= before.push((col_name@, val@)));
            },
            Err(message) => {
                proof {
                    lemma_collect_error(assignments@, convert, i as int + 1);
                }
                return Err(message);
            },
        }
        i += 1;
    }
    proof {
        assert(assignments@.take(assignments@.len() as int) =~= assignments@);
    }
    Ok(update_list)
}

/// The table that the first entry of a `FROM` clause names.
pub fn first_table(from: &Vec<TableWithJoins>) -> (result: Result<String, String>)
    ensures
        gives(result, first_table_of(from@), |name: String| name@),
{
    if from.len() == 0 {
        return Err(String::from_str("Missing FROM clause"));
    }
    match &from[0].relation {
        TableFactor::Table { name } => Ok(name.clone()),
        TableFactor::Other => Err(String::from_str("Unsupported table reference")),
    }
}

/// The join that the first join of a `FROM` entry stands for.
pub fn convert_join(entry: &TableWithJoins) -> (result: Result<Option<JoinClause>, String>)
    ensures
        gives(result, join_of(*entry), |j: Option<JoinClause>| join_view(j)),
{
    if entry.joins.len() == 0 {
        return Ok(None);
    }
    let join = &entry.joins[0];
    let right_table = match &join.relation {
        TableFactor::Table { name } => name.clone(),
        TableFactor::Other => {
            return Err(String::from_str("Unsupported JOIN table"));
        },
    };
    match &join.join_operator {
        JoinOperator::InnerOn(condition) => match &condition.kind {
            ExprKind::BinaryOp { left, op, right } => {
                let on_equality = match op {
                    BinaryOperator::Eq => true,
                    _ => false,
                };
                if on_equality {
                    let left_column = match extract_column_name(left) {
                        Ok(name) => name,
                        Err(message) => {
                            return Err(message);
                        },
                    };
                    let right_column = match extract_column_name(right) {
                        Ok(name) => name,
                        Err(message) => {
                            return Err(message);
                        },
                    };
                    Ok(Some(JoinClause { left_column, right_table, right_column }))
                } else {
                    Ok(None)
                }
            },
            _ => Ok(None),
        },
        JoinOperator::Other => Ok(None),
    }
}

/// Appends the commands that `statement` stands for to `commands`.
#[verifier::loop_isolation(false)]
pub fn convert_statement(statement: &Statement, commands: &mut Vec<Command>) -> (result: Result<
    (),
    String,
>)
    ensures
        match statement_commands(*statement) {
            Ok(more) => result is Ok && command_views(final(commands)@) == command_views(
                old(commands)@,
            ) + more,
            Err(text) => result matches Err(message) && message@ == text,
        },
{
    let ghost before = command_views(commands@);
    match statement {
        Statement::CreateTable { name, columns } => {
            let ghost convert = |def: ColumnDef| column_of(def);
            let mut my_columns: Vec<Column> = Vec::new();
            let mut i: usize = 0;
            proof {
                assert(columns@.take(0) =~= Seq::<ColumnDef>::empty());
                assert(column_views(my_columns@) =~= Seq::<ColumnView>::empty());
            }
            while i < columns.len()
                invariant
                    i <= columns@.len(),
                    convert == |def: ColumnDef| column_of(def),
                    collect(columns@.take(i as int), convert) == Ok::<Seq<ColumnView>, Seq<char>>(
                        column_views(my_columns@),
                    ),
                decreases columns.len() - i,
            {
                proof {
                    lemma_collect_step(columns@, convert, i as int);
                }
                let ghost so_far = column_views(my_columns@);
                match convert_column(&columns[i]) {
                    Ok(column) => {
                        my_columns.push(column);
                        assert(column_views(my_columns@) =~= so_far.push(column@));
                    },
                    Err(message) => {
                        proof {
                            lemma_collect_error(columns@, convert, i as int + 1);
                        }
                        return Err(message);
                    },
                }
                i += 1;
            }
            proof {
                assert(columns@.take(columns@.len() as int) =~= columns@);
            }
            let command = Command::CreateTable { name: name.clone(), columns: my_columns };
            commands.push(command);
            assert(command_views(commands@) =~= before + seq![command@]);
            Ok(())
        },
        Statement::Update { table, assignments, selection } => {
            let update_list = match convert_assignments(assignments) {
                Ok(list) => list,
                Err(message) => {
                    return Err(message);
                },
            };
            let filter = match convert_selection(selection) {
                Ok(filter) => filter,
                Err(message) => {
                    return Err(message);
                },
            };
            let command = Command::Update {
                table_name: table.shown.clone(),
                assignments: update_list,
                filter,
            };
            commands.push(command);
            assert(command_views(commands@) =~= before + seq![command@]);
            Ok(())
        },
        Statement::Insert { table_name, source } => {
            match source {
                None => Err(String::from_str("INSERT statement missing values")),
                Some(SetExpr::Values(rows)) => {
                    let ghost convert = |values: Vec<Expr>| insert_of(table_name@, values);
                    let mut i: usize = 0;
                    proof {
                        assert(rows@.take(0) =~= Seq::<Vec<Expr>>::empty());
                        assert(command_views(commands@) =~= before + Seq::<CommandView>::empty());
                    }
                    while i < rows.len()
                        invariant
                            i <= rows@.len(),
                            convert == |values: Vec<Expr>| insert_of(table_name@, values),
                            collect(rows@.take(i as int), convert) is Ok,
                            command_views(commands@) == before + collect(
                                rows@.take(i as int),
                                convert,
                            )->Ok_0,
                        decreases rows.len() - i,
                    {
                        proof {
                            lemma_collect_step(rows@, convert, i as int);
                        }
                        let ghost so_far = command_views(commands@);
                        match convert_values(&rows[i]) {
                            Ok(fields) => {
                                let command = Command::Insert {
                                    table_name: table_name.clone(),
                                    row: Row { fields },
                                };
                                commands.push(command);
                                assert(command_views(commands@) =~= so_far.push(command@));
                                assert(command_views(commands@) =~= before + collect(
                                    rows@.take(i as int + 1),
                                    convert,
                                )->Ok_0);
                            },
                            Err(message) => {
                                proof {
                                    lemma_collect_error(rows@, convert, i as int + 1);
                                }
                                return Err(message);
                            },
                        }
                        i += 1;
                    }
                    proof {
                        assert(rows@.take(rows@.len() as int) =~= rows@);
                    }
                    Ok(())
                },
                Some(_) => Err(String::from_str("Unsupported INSERT format")),
            }
        },
        Statement::Query(body) => {
            match body {
                SetExpr::Select(select) => {
                    let left_table = match first_table(&select.from) {
                        Ok(name) => name,
                        Err(message) => {
                            return Err(message);
                        },
                    };
                    let join_info = match convert_join(&select.from[0]) {
                        Ok(join) => join,
                        Err(message) => {
                            return Err(message);
                        },
                    };
                    let filter = match convert_selection(&select.selection) {
                        Ok(filter) => filter,
                        Err(message) => {
                            return Err(message);
                        },
                    };
                    let command = Command::Select {
                        table_name: left_table,
                        join: join_info,
                        filter,
                    };
                    commands.push(command);
                    assert(command_views(commands@) =~= before + seq![command@]);
                    Ok(())
                },
                _ => {
                    assert(command_views(commands@) =~= before + Seq::<CommandView>::empty());
                    Ok(())
                },
            }
        },
        Statement::Delete { from, selection } => {
            let table_name = match first_table(from) {
                Ok(name) => name,
                Err(message) => {
                    return Err(message);
                },
            };
            let filter = match convert_selection(selection) {
                Ok(filter) => filter,
                Err(message) => {
                    return Err(message);
                },
            };
            let command = Command::Delete { table_name, filter };
            commands.push(command);
            assert(command_views(commands@) =~= before + seq![command@]);
            Ok(())
        },
        Statement::Drop { is_table, names } => {
            if !*is_table {
                return Err(String::from_str("Unsupported SQL statement"));
            }
            let ghost wanted = names@.map_values(
                |name: String| CommandView::DropTable { table_name: name@ },
            );
            let mut i: usize = 0;
            proof {
                assert(command_views(commands@) =~= before + wanted.take(0));
            }
            while i < names.len()
                invariant
                    i <= names@.len(),
                    wanted == names@.map_values(
                        |name: String| CommandView::DropTable { table_name: name@ },
                    ),
                    command_views(commands@) == before + wanted.take(i as int),
                decreases names.len() - i,
            {
                let ghost so_far = command_views(commands@);
                let command = Command::DropTable { table_name: names[i].clone() };
                commands.push(command);
                assert(command_views(commands@) =~= so_far.push(command@));
                i += 1;
                assert(command_views(commands@) =~= before + wanted.take(i as int));
            }
            proof {
                assert(wanted.take(names@.len() as int) =~= wanted);
            }
            Ok(())
        },
        Statement::Other => Err(String::from_str("Unsupported SQL statement")),
    }
}

/// The commands that parsed statements stand for, in order. The first
/// statement that is refused refuses them all.
pub fn parse_sql(statements: &Vec<Statement>) -> (result: Result<Vec<Command>, String>)
    ensures
        gives(result, commands_of(statements@), |commands: Vec<Command>| command_views(commands@)),
{
    let mut commands: Vec<Command> = Vec::new();
    let mut i: usize = 0;
    proof {
        assert(statements@.take(0) =~= Seq::<Statement>::empty());
        assert(command_views(commands@) =~= Seq::<CommandView>::empty());
    }
    while i < statements.len()
        invariant
            i <= statements@.len(),
            commands_of(statements@.take(i as int)) == Ok::<Seq<CommandView>, Seq<char>>(
                command_views(commands@),
            ),
        decreases statements.len() - i,
    {
        proof {
            assert(statements@.take(i as int + 1).drop_last() =~= statements@.take(i as int));
        }
        match convert_statement(&statements[i], &mut commands) {
            Ok(()) => {},
            Err(message) => {
                proof {
                    lemma_commands_error(statements@, i as int + 1);
                }
                return Err(message);
            },
        }
        i += 1;
    }
    proof {
        assert(statements@.take(statements@.len() as int) =~= statements@);
    }
    Ok(commands)
}

/// An error among the first `i` statements is the error of them all.
pub proof fn lemma_commands_error(statements: Seq<Statement>, i: int)
    requires
        0 <= i <= statements.len(),
        commands_of(statements.take(i)) is Err,
    ensures
        commands_of(statements) == commands_of(statements.take(i)),
    decreases statements.len() - i,
{
    if i < statements.len() {
        assert(statements.take(i + 1).drop_last() =~= statements.take(i));
        lemma_commands_error(statements, i + 1);
    } else {
        assert(statements.take(i) =~= statements);
    }
}

} // verus!
