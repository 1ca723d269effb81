//! Rows, their fields, and the fixed-width row codec.

use crate::catalog::schema::{
    ColumnView, DataType, Schema, SchemaView, column_offset, lemma_column_offset_monotonic,
    lemma_column_offset_step, row_width,
};
use crate::seqs::{first_where, lemma_first_where_is};
use crate::sql::{Filter, FilterView, Operator};
use crate::text::{bool_to_string, decimal, int_to_string, joined, quote, quoted, truth_text};
use vstd::prelude::*;
use vstd::std_specs::cmp::PartialEqSpecImpl;
use vstd::string::StringExecFns;
use vstd::string::StringSliceAdditionalSpecFns;
use vstd::utf8::{
    decode_utf8, encode_utf8, encode_utf8_decode_utf8, encode_utf8_valid_utf8, valid_utf8,
};

verus! {

/// One value of a row.
#[derive(Debug)]
pub enum Field {
    Integer(i32),
    Boolean(bool),
    Text(String),
}

/// What a [`Field`] is in contracts.
pub ghost enum FieldView {
    Integer(i32),
    Boolean(bool),
    Text(Seq<char>),
}

impl View for Field {
    type V = FieldView;

    open spec fn view(&self) -> FieldView {
        match self {
            Field::Integer(v) => FieldView::Integer(*v),
            Field::Boolean(v) => FieldView::Boolean(*v),
            Field::Text(v) => FieldView::Text(v@),
        }
    }
}

impl Clone for Field {
    fn clone(&self) -> (copy: Self)
        ensures
            copy@ == self@,
    {
        match self {
            Field::Integer(v) => Field::Integer(*v),
            Field::Boolean(v) => Field::Boolean(*v),
            Field::Text(v) => Field::Text(v.clone()),
        }
    }
}

impl PartialEq for Field {
    /// Two fields are equal when they have the same tag and the same value.
    fn eq(&self, other: &Self) -> (equal: bool) {
        match (self, other) {
            (Field::Integer(a), Field::Integer(b)) => *a == *b,
            (Field::Boolean(a), Field::Boolean(b)) => *a == *b,
            (Field::Text(a), Field::Text(b)) => *a == *b,
            _ => false,
        }
    }
}

impl PartialEqSpecImpl for Field {
    open spec fn obeys_eq_spec() -> bool {
        true
    }

    open spec fn eq_spec(&self, other: &Self) -> bool {
        self@ == other@
    }
}

impl FieldView {
    /// The value as the string that the primary-key index is keyed by: an
    /// integer in decimal, a truth value as `true` or `false`, a text as it is.
    pub open spec fn key_text(self) -> Seq<char> {
        match self {
            FieldView::Integer(v) => decimal(v as int),
            FieldView::Boolean(v) => truth_text(v),
            FieldView::Text(v) => v,
        }
    }

    /// The value as it is shown in messages: its tag, and in brackets an
    /// integer in decimal, a truth value as a word, or a text quoted.
    pub open spec fn debug_text(self) -> Seq<char> {
        match self {
            FieldView::Integer(v) => "Integer("@ + decimal(v as int) + ")"@,
            FieldView::Boolean(v) => "Boolean("@ + truth_text(v) + ")"@,
            FieldView::Text(v) => "Text("@ + quoted(v) + ")"@,
        }
    }

    /// Whether a value with this tag belongs in a column of type `data_type`.
    pub open spec fn has_type(self, data_type: DataType) -> bool {
        match (data_type, self) {
            (DataType::Integer, FieldView::Integer(_)) => true,
            (DataType::Boolean, FieldView::Boolean(_)) => true,
            (DataType::Text(_), FieldView::Text(_)) => true,
            _ => false,
        }
    }
}

impl Field {
    /// The value as the string that the primary-key index is keyed by.
    pub fn key(&self) -> (key: String)
        ensures
            key@ == self@.key_text(),
    {
        match self {
            Field::Integer(v) => int_to_string(*v),
            Field::Boolean(v) => bool_to_string(*v),
            Field::Text(v) => v.clone(),
        }
    }

    /// The value as it is shown in messages.
    pub fn to_debug_string(&self) -> (s: String)
        ensures
            s@ == self@.debug_text(),
    {
        match self {
            Field::Integer(v) => {
                let mut s = String::from_str("Integer(");
                s.append(int_to_string(*v).as_str());
                s.append(")");
                s
            },
            Field::Boolean(v) => {
                let mut s = String::from_str("Boolean(");
                s.append(bool_to_string(*v).as_str());
                s.append(")");
                s
            },
            Field::Text(v) => {
                let mut s = String::from_str("Text(");
                s.append(quote(v.as_str()).as_str());
                s.append(")");
                s
            },
        }
    }

    /// Whether this value belongs in a column of type `data_type`.
    pub fn has_type(&self, data_type: &DataType) -> (fits: bool)
        ensures
            fits == self@.has_type(*data_type),
    {
        match (data_type, self) {
            (DataType::Integer, Field::Integer(_)) => true,
            (DataType::Boolean, Field::Boolean(_)) => true,
            (DataType::Text(_), Field::Text(_)) => true,
            _ => false,
        }
    }
}

/// The views of `fields`, in order.
pub open spec fn field_views(fields: Seq<Field>) -> Seq<FieldView> {
    Seq::new(fields.len(), |i: int| fields[i]@)
}

/// The views of `rows`, in order.
pub open spec fn row_views(rows: Seq<Row>) -> Seq<Seq<FieldView>> {
    Seq::new(rows.len(), |i: int| rows[i]@)
}

/// A copy of `fields` that has the same views.
pub fn clone_fields(fields: &Vec<Field>) -> (copy: Vec<Field>)
    ensures
        field_views(copy@) == field_views(fields@),
{
    let mut copy: Vec<Field> = Vec::new();
    let mut i: usize = 0;
    while i < fields.len()
        invariant
            i <= fields.len(),
            copy.len() == i,
            forall|k: int| 0 <= k < i ==> copy[k]@ == fields[k]@,
        decreases fields.len() - i,
    {
        copy.push(fields[i].clone());
        i += 1;
    }
    assert(field_views(copy@) =~= field_views(fields@));
    copy
}

/// The four bytes of `v`, least significant first, in two's complement.
pub open spec fn int_bytes(v: i32) -> Seq<u8> {
    let u = v as u32;
    seq![
        (u & 0xff) as u8,
        ((u >> 8) & 0xff) as u8,
        ((u >> 16) & 0xff) as u8,
        ((u >> 24) & 0xff) as u8,
    ]
}

/// The integer whose little-endian two's-complement bytes are the first four of `bytes`.
pub open spec fn int_from_bytes(bytes: Seq<u8>) -> i32 {
    ((bytes[0] as u32) | ((bytes[1] as u32) << 8) | ((bytes[2] as u32) << 16) | ((bytes[3] as u32)
        << 24)) as i32
}

/// `n` zero bytes.
pub open spec fn zeros(n: nat) -> Seq<u8> {
    Seq::new(n, |i: int| 0u8)
}

/// The UTF-8 bytes of `text`, cut to `max_len` bytes and zero-padded to exactly that width.
pub open spec fn text_bytes(text: Seq<char>, max_len: nat) -> Seq<u8> {
    let raw = encode_utf8(text);
    let kept = if raw.len() <= max_len {
        raw
    } else {
        raw.take(max_len as int)
    };
    kept + zeros((max_len - kept.len()) as nat)
}

/// The bytes that `field` contributes to a row in a column of type `data_type`:
/// its encoding when the tag matches the type, and nothing when it does not.
pub open spec fn encode_field(field: FieldView, data_type: DataType) -> Seq<u8> {
    match (data_type, field) {
        (DataType::Integer, FieldView::Integer(v)) => int_bytes(v),
        (DataType::Boolean, FieldView::Boolean(v)) => seq![if v { 1u8 } else { 0u8 }],
        (DataType::Text(max_len), FieldView::Text(v)) => text_bytes(v, max_len as nat),
        _ => Seq::empty(),
    }
}

/// The serialized form of `fields` against `columns`: the encodings of the
/// fields in column order, one after the other.
pub open spec fn encode_row(fields: Seq<FieldView>, columns: Seq<ColumnView>) -> Seq<u8>
    decreases columns.len(),
{
    if columns.len() == 0 {
        Seq::empty()
    } else {
        encode_row(fields, columns.drop_last()) + encode_field(
            fields[columns.len() - 1],
            columns.last().data_type,
        )
    }
}

/// What `String::from_utf8_lossy` makes of bytes that are not valid UTF-8.
pub uninterp spec fn utf8_lossy(bytes: Seq<u8>) -> Seq<char>;

/// The text that `bytes` decode to: their characters when they are valid
/// UTF-8, and otherwise the lossy decoding, which stands in for what is invalid.
pub open spec fn lossy_text(bytes: Seq<u8>) -> Seq<char> {
    if valid_utf8(bytes) {
        decode_utf8(bytes)
    } else {
        utf8_lossy(bytes)
    }
}

/// The bytes of `bytes` before its first zero byte; all of them if none is zero.
pub open spec fn until_zero(bytes: Seq<u8>) -> Seq<u8> {
    bytes.take(first_where(bytes, |b: u8| b == 0))
}

/// The value of type `data_type` that `chunk`, the bytes of one column, holds.
pub open spec fn decode_field(chunk: Seq<u8>, data_type: DataType) -> FieldView {
    match data_type {
        DataType::Integer => FieldView::Integer(int_from_bytes(chunk)),
        DataType::Boolean => FieldView::Boolean(chunk[0] != 0),
        DataType::Text(_) => FieldView::Text(lossy_text(until_zero(chunk))),
    }
}

/// The bytes of column `i` within a serialized row.
pub open spec fn column_bytes(bytes: Seq<u8>, columns: Seq<ColumnView>, i: int) -> Seq<u8> {
    bytes.subrange(column_offset(columns, i) as int, column_offset(columns, i + 1) as int)
}

/// The row that `bytes` hold against `columns`: one field per column, each
/// decoded from that column's bytes.
pub open spec fn decode_row(bytes: Seq<u8>, columns: Seq<ColumnView>) -> Seq<FieldView> {
    Seq::new(
        columns.len(),
        |i: int| decode_field(column_bytes(bytes, columns, i), columns[i].data_type),
    )
}

/// Whether `actual` stands in relation `operator` to `expected`. Equality is
/// by tag and value; the order comparisons hold between integers only.
pub open spec fn compare_fields(actual: FieldView, operator: Operator, expected: FieldView) -> bool {
    match operator {
        Operator::Eq => actual == expected,
        Operator::NotEq => actual != expected,
        Operator::GreaterThan => match (actual, expected) {
            (FieldView::Integer(a), FieldView::Integer(b)) => a > b,
            _ => false,
        },
        Operator::LessThan => match (actual, expected) {
            (FieldView::Integer(a), FieldView::Integer(b)) => a < b,
            _ => false,
        },
    }
}

/// Whether a row with fields `fields` passes `filter` in a table with schema
/// `schema`. A filter on a column that the table lacks passes no row.
pub open spec fn filter_matches(fields: Seq<FieldView>, filter: FilterView, schema: SchemaView) -> bool {
    match schema.column_index(filter.column_name) {
        Some(i) => compare_fields(fields[i], filter.operator, filter.value),
        None => false,
    }
}

/// Whether `text` can be stored in `max_len` bytes and read back unchanged:
/// its UTF-8 bytes fit, and none of them is zero.
pub open spec fn text_fits(text: Seq<char>, max_len: nat) -> bool {
    &&& encode_utf8(text).len() <= max_len
    &&& forall|i: int| 0 <= i < encode_utf8(text).len() ==> #[trigger] encode_utf8(text)[i] != 0
}

/// Whether `field` belongs in a column of type `data_type` and can be read back unchanged.
pub open spec fn field_fits(field: FieldView, data_type: DataType) -> bool {
    match (data_type, field) {
        (DataType::Integer, FieldView::Integer(_)) => true,
        (DataType::Boolean, FieldView::Boolean(_)) => true,
        (DataType::Text(max_len), FieldView::Text(text)) => text_fits(text, max_len as nat),
        _ => false,
    }
}

/// Whether `fields` has one field of the right type for each of the first
/// `columns.len()` positions.
pub open spec fn row_well_typed(fields: Seq<FieldView>, columns: Seq<ColumnView>) -> bool {
    &&& fields.len() >= columns.len()
    &&& forall|i: int|
        0 <= i < columns.len() ==> (#[trigger] fields[i]).has_type(columns[i].data_type)
}

/// Whether `fields` is a row of a table with columns `columns` that can be
/// stored and read back unchanged.
pub open spec fn row_fits(fields: Seq<FieldView>, columns: Seq<ColumnView>) -> bool {
    &&& fields.len() == columns.len()
    &&& forall|i: int| 0 <= i < columns.len() ==> field_fits(#[trigger] fields[i], columns[i].data_type)
}

/// Decoding the four bytes of an integer gives the integer back.
pub proof fn lemma_int_round_trip(v: i32)
    ensures
        int_bytes(v).len() == 4,
        int_from_bytes(int_bytes(v)) == v,
{
    let u = v as u32;
    let b0 = (u & 0xff) as u8;
    let b1 = ((u >> 8) & 0xff) as u8;
    let b2 = ((u >> 16) & 0xff) as u8;
    let b3 = ((u >> 24) & 0xff) as u8;
    assert(((b0 as u32) | ((b1 as u32) << 8) | ((b2 as u32) << 16) | ((b3 as u32) << 24)) == u)
        by (bit_vector)
        requires
            b0 == (u & 0xff) as u8,
            b1 == ((u >> 8) & 0xff) as u8,
            b2 == ((u >> 16) & 0xff) as u8,
            b3 == ((u >> 24) & 0xff) as u8,
    ;
    assert(u as i32 == v) by (bit_vector)
        requires
            u == v as u32,
    ;
}

/// A text that fits its column is read back from its stored bytes as it was.
pub proof fn lemma_text_round_trip(text: Seq<char>, max_len: nat)
    requires
        text_fits(text, max_len),
    ensures
        text_bytes(text, max_len).len() == max_len,
        lossy_text(until_zero(text_bytes(text, max_len))) == text,
{
    let raw = encode_utf8(text);
    let stored = text_bytes(text, max_len);
    assert(stored =~= raw + zeros((max_len - raw.len()) as nat));
    lemma_first_where_is(stored, |b: u8| b == 0, raw.len() as int);
    assert(until_zero(stored) =~= raw);
    encode_utf8_valid_utf8(text);
    encode_utf8_decode_utf8(text);
}

/// A field of its column's type is encoded in exactly the column's width.
pub proof fn lemma_encode_field_len(field: FieldView, data_type: DataType)
    requires
        field.has_type(data_type),
    ensures
        encode_field(field, data_type).len() == data_type.spec_byte_size(),
{
}

/// A field that fits its column is decoded from its encoding as it was.
pub proof fn lemma_field_round_trip(field: FieldView, data_type: DataType)
    requires
        field_fits(field, data_type),
    ensures
        field.has_type(data_type),
        decode_field(encode_field(field, data_type), data_type) == field,
{
    match (data_type, field) {
        (DataType::Integer, FieldView::Integer(v)) => {
            lemma_int_round_trip(v);
        },
        (DataType::Text(max_len), FieldView::Text(text)) => {
            lemma_text_round_trip(text, max_len as nat);
        },
        _ => {},
    }
}

/// In the encoding of a well-typed row against the first `m` columns, the
/// bytes of column `k` are the encoding of field `k`, and the whole is as wide
/// as those columns.
pub proof fn lemma_encode_row_chunk(
    fields: Seq<FieldView>,
    columns: Seq<ColumnView>,
    m: int,
    k: int,
)
    requires
        row_well_typed(fields, columns),
        0 <= k < m <= columns.len(),
    ensures
        encode_row(fields, columns.take(m)).len() == column_offset(columns, m),
        column_bytes(encode_row(fields, columns.take(m)), columns, k) == encode_field(
            fields[k],
            columns[k].data_type,
        ),
    decreases m,
{
    let init = columns.take(m - 1);
    assert(columns.take(m).drop_last() =~= init);
    assert(columns.take(m).last() == columns[m - 1]);
    let head = encode_row(fields, init);
    let tail = encode_field(fields[m - 1], columns[m - 1].data_type);
    assert(encode_row(fields, columns.take(m)) == head + tail);
    lemma_encode_field_len(fields[m - 1], columns[m - 1].data_type);
    lemma_column_offset_step(columns, m - 1);
    lemma_encode_row_len(fields, columns, m - 1);
    if k == m - 1 {
        assert(column_bytes(head + tail, columns, k) =~= tail);
    } else {
        lemma_encode_row_chunk(fields, columns, m - 1, k);
        lemma_column_offset_monotonic(columns, k + 1, m - 1);
        lemma_column_offset_monotonic(columns, k, k + 1);
        assert(column_bytes(head + tail, columns, k) =~= column_bytes(head, columns, k));
    }
}

/// The encoding of a well-typed row against the first `m` columns is as wide as those columns.
pub proof fn lemma_encode_row_len(fields: Seq<FieldView>, columns: Seq<ColumnView>, m: int)
    requires
        row_well_typed(fields, columns),
        0 <= m <= columns.len(),
    ensures
        encode_row(fields, columns.take(m)).len() == column_offset(columns, m),
    decreases m,
{
    if m > 0 {
        assert(columns.take(m).drop_last() =~= columns.take(m - 1));
        assert(columns.take(m).last() == columns[m - 1]);
        lemma_encode_row_len(fields, columns, m - 1);
        lemma_encode_field_len(fields[m - 1], columns[m - 1].data_type);
        lemma_column_offset_step(columns, m - 1);
    } else {
        assert(columns.take(0) =~= Seq::<ColumnView>::empty());
    }
}

/// A well-typed row is serialized in exactly the schema's row size.
pub proof fn lemma_serialized_len(fields: Seq<FieldView>, columns: Seq<ColumnView>)
    requires
        row_well_typed(fields, columns),
    ensures
        encode_row(fields, columns).len() == row_width(columns),
{
    lemma_encode_row_len(fields, columns, columns.len() as int);
    assert(columns.take(columns.len() as int) =~= columns);
}

/// Deserializing the serialized form of a row gives the row back, provided
/// the row is well-typed for the schema and each of its texts fits its column
/// (no more bytes than the column is wide, and no zero byte among them).
pub proof fn lemma_round_trip(fields: Seq<FieldView>, columns: Seq<ColumnView>)
    requires
        row_fits(fields, columns),
    ensures
        encode_row(fields, columns).len() == row_width(columns),
        decode_row(encode_row(fields, columns), columns) == fields,
{
    assert forall|i: int| 0 <= i < columns.len() implies (#[trigger] fields[i]).has_type(
        columns[i].data_type,
    ) by {
        lemma_field_round_trip(fields[i], columns[i].data_type);
    }
    lemma_serialized_len(fields, columns);
    let bytes = encode_row(fields, columns);
    assert(columns.take(columns.len() as int) =~= columns);
    assert forall|i: int| 0 <= i < columns.len() implies decode_row(bytes, columns)[i]
        == fields[i] by {
        lemma_encode_row_chunk(fields, columns, columns.len() as int, i);
        lemma_field_round_trip(fields[i], columns[i].data_type);
    }
    assert(decode_row(bytes, columns) =~= fields);
}

/// Calls `String::from_utf8_lossy`. Valid UTF-8 comes back as the text it
/// encodes; of other input the contract only names the result.
#[verifier::external_body]
fn string_from_utf8_lossy(bytes: &[u8]) -> (text: String)
    ensures
        valid_utf8(bytes@) ==> text@ == decode_utf8(bytes@),
        !valid_utf8(bytes@) ==> text@ == utf8_lossy(bytes@),
{
    String::from_utf8_lossy(bytes).into_owned()
}

/// Reads the integer stored little-endian in the four bytes at `at`.
fn read_int(bytes: &[u8], at: usize) -> (v: i32)
    requires
        at + 4 <= bytes@.len(),
    ensures
        v == int_from_bytes(bytes@.subrange(at as int, at + 4)),
{
    let b0: u32 = bytes[at] as u32;
    let b1: u32 = bytes[at + 1] as u32;
    let b2: u32 = bytes[at + 2] as u32;
    let b3: u32 = bytes[at + 3] as u32;
    let u: u32 = b0 | (b1 << 8) | (b2 << 16) | (b3 << 24);
    #[verifier::truncate]
    (u as i32)
}

/// Reads the text stored in the `max_len` bytes at `at`: what precedes the first zero byte.
fn read_text(bytes: &[u8], at: usize, max_len: usize) -> (text: String)
    requires
        at + max_len <= bytes@.len(),
    ensures
        text@ == lossy_text(until_zero(bytes@.subrange(at as int, at + max_len))),
{
    let ghost chunk = bytes@.subrange(at as int, at + max_len);
    let total: usize = bytes.len();
    let mut trimmed: Vec<u8> = Vec::new();
    let mut j: usize = 0;
    while j < max_len && bytes[at + j] != 0
        invariant
            j <= max_len,
            at + max_len <= bytes@.len() == total,
            chunk == bytes@.subrange(at as int, at + max_len),
            trimmed@ == chunk.take(j as int),
            forall|k: int| 0 <= k < j ==> #[trigger] chunk[k] != 0,
        decreases max_len - j,
    {
        trimmed.push(bytes[at + j]);
        j += 1;
        assert(trimmed@ =~= chunk.take(j as int));
    }
    proof {
        lemma_first_where_is(chunk, |b: u8| b == 0, j as int);
    }
    string_from_utf8_lossy(trimmed.as_slice())
}

/// Appends the four little-endian bytes of `v`.
fn push_int(bytes: &mut Vec<u8>, v: i32)
    ensures
        final(bytes)@ == old(bytes)@ + int_bytes(v),
{
    let u: u32 = #[verifier::truncate]
    (v as u32);
    let b0: u8 = #[verifier::truncate]
    ((u & 0xff) as u8);
    let b1: u8 = #[verifier::truncate]
    (((u >> 8) & 0xff) as u8);
    let b2: u8 = #[verifier::truncate]
    (((u >> 16) & 0xff) as u8);
    let b3: u8 = #[verifier::truncate]
    (((u >> 24) & 0xff) as u8);
    bytes.push(b0);
    bytes.push(b1);
    bytes.push(b2);
    bytes.push(b3);
    assert(bytes@ =~= old(bytes)@ + int_bytes(v));
}

/// Appends `text` as exactly `max_len` bytes: its UTF-8 bytes, cut or zero-padded.
fn push_text(bytes: &mut Vec<u8>, text: &String, max_len: usize)
    ensures
        final(bytes)@ == old(bytes)@ + text_bytes(text@, max_len as nat),
{
    let raw: &[u8] = text.as_str().as_bytes();
    let len_to_copy: usize = if raw.len() <= max_len {
        raw.len()
    } else {
        max_len
    };
    let mut i: usize = 0;
    while i < len_to_copy
        invariant
            i <= len_to_copy <= raw@.len(),
            bytes@ == old(bytes)@ + raw@.take(i as int),
        decreases len_to_copy - i,
    {
        bytes.push(raw[i]);
        i += 1;
        assert(bytes@ =~= old(bytes)@ + raw@.take(i as int));
    }
    let mut j: usize = len_to_copy;
    while j < max_len
        invariant
            len_to_copy <= j <= max_len,
            len_to_copy <= raw@.len(),
            bytes@ == old(bytes)@ + raw@.take(len_to_copy as int) + zeros((j - len_to_copy) as nat),
        decreases max_len - j,
    {
        bytes.push(0u8);
        j += 1;
        assert(bytes@ =~= old(bytes)@ + raw@.take(len_to_copy as int) + zeros(
            (j - len_to_copy) as nat,
        ));
    }
    assert(raw@.take(raw@.len() as int) =~= raw@);
    assert(bytes@ =~= old(bytes)@ + text_bytes(text@, max_len as nat));
}

/// A row as it is shown in messages: its fields, each as shown in messages,
/// separated by commas and enclosed in `Row { fields: [` and `] }`.
pub open spec fn row_debug_text(fields: Seq<FieldView>) -> Seq<char> {
    "Row { fields: ["@ + joined(fields.map_values(|f: FieldView| f.debug_text()), ", "@) + "] }"@
}

/// An ordered sequence of fields, one per column of its table.
#[derive(Debug)]
pub struct Row {
    pub fields: Vec<Field>,
}

impl View for Row {
    type V = Seq<FieldView>;

    open spec fn view(&self) -> Seq<FieldView> {
        field_views(self.fields@)
    }
}

impl Clone for Row {
    fn clone(&self) -> (copy: Self)
        ensures
            copy@ == self@,
    {
        Row { fields: clone_fields(&self.fields) }
    }
}

impl PartialEq for Row {
    /// Two rows are equal when they have the same fields in the same order.
    fn eq(&self, other: &Self) -> (equal: bool) {
        if self.fields.len() != other.fields.len() {
            assert(self@.len() != other@.len());
            return false;
        }
        let mut i: usize = 0;
        while i < self.fields.len()
            invariant
                i <= self.fields.len(),
                self.fields.len() == other.fields.len(),
                forall|k: int| 0 <= k < i ==> self.fields[k]@ == other.fields[k]@,
            decreases self.fields.len() - i,
        {
            if !(self.fields[i] == other.fields[i]) {
                assert(self@[i as int] != other@[i as int]);
                return false;
            }
            i += 1;
        }
        assert(self@ =~= other@);
        true
    }
}

impl PartialEqSpecImpl for Row {
    open spec fn obeys_eq_spec() -> bool {
        true
    }

    open spec fn eq_spec(&self, other: &Self) -> bool {
        self@ == other@
    }
}

impl Row {
    /// The row as it is shown in messages.
    pub fn to_debug_string(&self) -> (s: String)
        ensures
            s@ == row_debug_text(self@),
    {
        let ghost parts = self@.map_values(|f: FieldView| f.debug_text());
        let mut list = String::new();
        let mut i: usize = 0;
        while i < self.fields.len()
            invariant
                i <= self.fields@.len(),
                parts == self@.map_values(|f: FieldView| f.debug_text()),
                list@ == joined(parts.take(i as int), ", "@),
            decreases self.fields.len() - i,
        {
            if i > 0 {
                list.append(", ");
            }
            list.append(self.fields[i].to_debug_string().as_str());
            proof {
                let next = parts.take(i as int + 1);
                assert(next.drop_last() =~= parts.take(i as int));
                assert(next.last() == self@[i as int].debug_text());
                if i == 0 {
                    assert(list@ =~= next[0]);
                }
            }
            i += 1;
        }
        proof {
            assert(parts.take(parts.len() as int) =~= parts);
        }
        let mut s = String::from_str("Row { fields: [");
        s.append(list.as_str());
        s.append("] }");
        s
    }

    /// The row as bytes, column by column. A field whose tag disagrees with
    /// its column's type contributes no bytes.
    pub fn serialize(&self, schema: &Schema) -> (bytes: Vec<u8>)
        requires
            self@.len() >= schema@.columns.len(),
        ensures
            bytes@ == encode_row(self@, schema@.columns),
    {
        let mut bytes: Vec<u8> = Vec::new();
        let mut i: usize = 0;
        while i < schema.columns.len()
            invariant
                i <= schema.columns.len(),
                self@.len() >= schema@.columns.len(),
                bytes@ == encode_row(self@, schema@.columns.take(i as int)),
            decreases schema.columns.len() - i,
        {
            let ghost before = bytes@;
            let field = &self.fields[i];
            match &schema.columns[i].data_type {
                DataType::Integer => {
                    if let Field::Integer(val) = field {
                        push_int(&mut bytes, *val);
                    }
                },
                DataType::Boolean => {
                    if let Field::Boolean(val) = field {
                        bytes.push(if *val { 1u8 } else { 0u8 });
                    }
                },
                DataType::Text(max_len) => {
                    if let Field::Text(val) = field {
                        push_text(&mut bytes, val, *max_len);
                    }
                },
            }
            proof {
                let next = schema@.columns.take(i as int + 1);
                assert(next.drop_last() =~= schema@.columns.take(i as int));
                assert(next.last() == schema@.columns[i as int]);
                assert(bytes@ =~= before + encode_field(self@[i as int], next.last().data_type));
            }
            i += 1;
        }
        proof {
            assert(schema@.columns.take(schema.columns.len() as int) =~= schema@.columns);
        }
        bytes
    }

    /// The row that the first `schema.row_size()` bytes of `bytes` hold.
    pub fn deserialize(bytes: &[u8], schema: &Schema) -> (row: Self)
        requires
            bytes@.len() >= schema@.row_size(),
        ensures
            row@ == decode_row(bytes@, schema@.columns),
    {
        let mut fields: Vec<Field> = Vec::new();
        let total: usize = bytes.len();
        let mut cursor: usize = 0;
        let mut i: usize = 0;
        while i < schema.columns.len()
            invariant
                i <= schema.columns.len(),
                total == bytes@.len() >= schema@.row_size(),
                cursor == column_offset(schema@.columns, i as int),
                fields.len() == i,
                forall|k: int|
                    0 <= k < i ==> (#[trigger] fields[k])@ == decode_field(
                        column_bytes(bytes@, schema@.columns, k),
                        schema@.columns[k].data_type,
                    ),
            decreases schema.columns.len() - i,
        {
            proof {
                lemma_column_offset_step(schema@.columns, i as int);
                lemma_column_offset_monotonic(
                    schema@.columns,
                    i as int + 1,
                    schema.columns.len() as int,
                );
            }
            match schema.columns[i].data_type {
                DataType::Integer => {
                    let val = read_int(bytes, cursor);
                    fields.push(Field::Integer(val));
                    cursor += 4;
                },
                DataType::Boolean => {
                    assert(column_bytes(bytes@, schema@.columns, i as int)[0] == bytes@[cursor as int]);
                    fields.push(Field::Boolean(bytes[cursor] != 0));
                    cursor += 1;
                },
                DataType::Text(max_len) => {
                    let val = read_text(bytes, cursor, max_len);
                    fields.push(Field::Text(val));
                    cursor += max_len;
                },
            }
            i += 1;
        }
        let row = Row { fields };
        assert(row@ =~= decode_row(bytes@, schema@.columns));
        row
    }

    /// Whether `row` passes `filter`.
    pub fn row_matches_filter(row: &Row, filter: &Filter, schema: &Schema) -> (matches: bool)
        requires
            schema@.column_index(filter@.column_name) matches Some(i) ==> i < row@.len(),
        ensures
            matches == filter_matches(row@, filter@, schema@),
    {
        let col_idx = match schema.find_column(&filter.column_name) {
            Some(idx) => idx,
            None => {
                return false;
            },
        };
        let actual_value = &row.fields[col_idx];
        match filter.operator {
            Operator::Eq => *actual_value == filter.value,
            Operator::NotEq => !(*actual_value == filter.value),
            Operator::GreaterThan => match (actual_value, &filter.value) {
                (Field::Integer(a), Field::Integer(b)) => *a > *b,
                _ => false,
            },
            Operator::LessThan => match (actual_value, &filter.value) {
                (Field::Integer(a), Field::Integer(b)) => *a < *b,
                _ => false,
            },
        }
    }
}

} // verus!
