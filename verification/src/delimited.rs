//! Tables of delimited text.
//!
//! A table is a sheet of rows: a header that names the columns, then one
//! record per row, each field as text. Which bytes make up which rows is the
//! business of the `csv` crate. Of that crate only this is believed: the
//! same bytes always hold the same rows, and the same row is always written
//! as the same bytes. That written rows are read back is not believed but
//! looked at each time a table is written. What a sheet must look like for a
//! given schema, and which records it then holds, is decided and proved
//! here.

use crate::error::{ModelError, ModelErrorView};
use crate::fields::{
    is_decimal, is_decimal_text, parse_flag, parse_number, parsed_flag, parsed_number,
};
use crate::text::{rank, Rank};
use vstd::prelude::*;
use vstd::string::StringExecFns;

verus! {

/// The fields of one row.
pub type Row = Seq<Seq<char>>;

/// The rows of one table, the header first.
pub type Sheet = Seq<Seq<Seq<char>>>;

/// The byte that parts the fields of a row: a semicolon.
pub const DELIMITER: u8 = 59;

/// The failure of the `csv` crate's reader or writer, passed on unopened.
#[verifier::external_type_specification]
#[verifier::external_body]
pub struct ExCsvError(csv::Error);

/// The rows that the `csv` crate's reader finds in `data` when fields are
/// parted by `delimiter`, or `None` where it reports an error.
pub uninterp spec fn delimited_records(data: Seq<u8>, delimiter: u8) -> Option<Seq<Seq<Seq<char>>>>;

/// The bytes that the `csv` crate's writer produces for one row when fields
/// are parted by `delimiter`, or `None` where it reports an error.
pub uninterp spec fn delimited_record(fields: Seq<Seq<char>>, delimiter: u8) -> Option<Seq<u8>>;

/// Reads every row of `data` with `csv::Reader::records`, on a reader built
/// by `csv::ReaderBuilder` with the given delimiter, without a header row of
/// its own and otherwise as the builder makes it.
///
/// Believed, not proved: the rows returned, or the failure, depend on `data`
/// and `delimiter` alone.
#[verifier::external_body]
fn read_records(data: &Vec<u8>, delimiter: u8) -> (r: Result<Vec<Vec<String>>, csv::Error>)
    ensures
        match r {
            Ok(rows) => delimited_records(data@, delimiter) == Some(rows.deep_view()),
            Err(_) => delimited_records(data@, delimiter).is_none(),
        },
{
    csv::ReaderBuilder::new()
        .delimiter(delimiter)
        .has_headers(false)
        .from_reader(data.as_slice())
        .records()
        .map(|record| record.map(|fields| fields.iter().map(String::from).collect()))
        .collect()
}

/// Writes one row with `csv::Writer::write_record`, on a writer built by
/// `csv::WriterBuilder` with the given delimiter and otherwise as the builder
/// makes it, and takes the bytes with `csv::Writer::into_inner`.
///
/// Believed, not proved: the bytes returned, or the failure, depend on
/// `fields` and `delimiter` alone.
#[verifier::external_body]
fn write_record(fields: &Vec<String>, delimiter: u8) -> (r: Result<Vec<u8>, csv::Error>)
    ensures
        match r {
            Ok(bytes) => delimited_record(fields.deep_view(), delimiter) == Some(bytes@),
            Err(_) => delimited_record(fields.deep_view(), delimiter).is_none(),
        },
{
    let mut writer = csv::WriterBuilder::new().delimiter(delimiter).from_writer(Vec::new());
    writer.write_record(fields)?;
    writer.into_inner().map_err(|e| csv::Error::from(e.into_error()))
}

/// The text that `csv::Error` shows for itself. Nothing is claimed of it.
#[verifier::external_body]
fn describe(error: &csv::Error) -> String {
    error.to_string()
}

/// What the fields of a column hold.
#[derive(Debug, Clone, Copy, PartialEq, Eq, Structural)]
pub enum Kind {
    /// Any text.
    Text,
    /// A number of 32 bits.
    Number,
    /// A flag.
    Flag,
    /// A decimal.
    Decimal,
}

/// A column of a schema: its name in the header and the kind of its fields.
#[derive(Debug)]
pub struct Column {
    pub name: String,
    pub kind: Kind,
}

/// A [`Column`] with its name as a sequence of characters.
pub struct ColumnView {
    pub name: Seq<char>,
    pub kind: Kind,
}

impl View for Column {
    type V = ColumnView;

    open spec fn view(&self) -> ColumnView {
        ColumnView { name: self.name@, kind: self.kind }
    }
}

impl DeepView for Column {
    type V = ColumnView;

    open spec fn deep_view(&self) -> ColumnView {
        self@
    }
}

/// `text` can stand in a column of this kind.
pub open spec fn valid_field(kind: Kind, text: Seq<char>) -> bool {
    match kind {
        Kind::Text => true,
        Kind::Number => parsed_number(text) is Some,
        Kind::Flag => parsed_flag(text) is Some,
        Kind::Decimal => is_decimal(text),
    }
}

/// `fields` has one field for each column of `schema`, each of its column's
/// kind.
pub open spec fn conforms(schema: Seq<ColumnView>, fields: Row) -> bool {
    &&& fields.len() == schema.len()
    &&& forall|k: int| 0 <= k < schema.len() ==> valid_field((#[trigger] schema[k]).kind, fields[k])
}

/// The position of the column that `header` names `name`, where it names
/// exactly one so.
pub open spec fn column(header: Row, name: Seq<char>) -> Option<int> {
    if header.contains(name) && (forall|i: int, j: int|
        0 <= i < header.len() && 0 <= j < header.len() && header[i] == name && header[j] == name
            ==> i == j) {
        Some(header.index_of(name))
    } else {
        None
    }
}

/// Column `k` of `schema` cannot be found in `header`.
pub open spec fn missing_column(header: Row, schema: Seq<ColumnView>, k: int) -> bool {
    0 <= k < schema.len() && column(header, schema[k].name) is None
}

/// The first column of `schema` that cannot be found in `header`.
pub open spec fn first_missing_column(header: Row, schema: Seq<ColumnView>) -> int {
    choose|k: int|
        missing_column(header, schema, k) && forall|j: int|
            0 <= j < k ==> !missing_column(header, schema, j)
}

/// The fields that `row` holds for the columns of `schema`, in the order of
/// `schema`: `row` is as long as `header`, `header` names every column once,
/// and each field is of its column's kind. Columns that `schema` does not
/// name are passed over.
pub open spec fn record_of(header: Row, schema: Seq<ColumnView>, row: Row) -> Option<Row> {
    let fields = Seq::new(schema.len(), |k: int| row[column(header, schema[k].name).unwrap()]);
    if row.len() == header.len() && (forall|k: int| 0 <= k < schema.len() ==> !missing_column(header, schema, k))
        && conforms(schema, fields) {
        Some(fields)
    } else {
        None
    }
}

/// Record `i` of `sheet`, counted from 0 after the header, is not a record of
/// `schema`.
pub open spec fn invalid_record(sheet: Sheet, schema: Seq<ColumnView>, i: int) -> bool {
    0 <= i < sheet.len() - 1 && record_of(sheet[0], schema, sheet[i + 1]) is None
}

/// The first record of `sheet` that is not a record of `schema`.
pub open spec fn first_invalid_record(sheet: Sheet, schema: Seq<ColumnView>) -> int {
    choose|i: int|
        invalid_record(sheet, schema, i) && forall|j: int|
            0 <= j < i ==> !invalid_record(sheet, schema, j)
}

/// The records of the table named `table`, read for `schema` from what the
/// reader found.
///
/// A sheet without records, with or without a header, is the empty table.
/// Any other sheet must name every column of `schema` once in its header,
/// and each of its records must be a record of `schema`. The first column
/// that is missing, else the first record that is not valid, is reported.
pub open spec fn records_of(table: Seq<char>, found: Option<Sheet>, schema: Seq<ColumnView>) -> Result<
    Seq<Row>,
    ModelErrorView,
> {
    match found {
        None => Err(ModelErrorView::MalformedTable { table }),
        Some(sheet) => if sheet.len() <= 1 {
            Ok(Seq::empty())
        } else if exists|k: int| missing_column(sheet[0], schema, k) {
            Err(
                ModelErrorView::MissingColumn {
                    table,
                    column: schema[first_missing_column(sheet[0], schema)].name,
                },
            )
        } else if exists|i: int| invalid_record(sheet, schema, i) {
            Err(
                ModelErrorView::InvalidRecord {
                    table,
                    record: first_invalid_record(sheet, schema) as nat,
                },
            )
        } else {
            Ok(
                Seq::new(
                    (sheet.len() - 1) as nat,
                    |i: int| record_of(sheet[0], schema, sheet[i + 1]).unwrap(),
                ),
            )
        },
    }
}

/// Every record read from a table is a record of the schema.
pub proof fn lemma_records_conform(table: Seq<char>, found: Option<Sheet>, schema: Seq<ColumnView>)
    ensures
        records_of(table, found, schema) matches Ok(records) ==> forall|i: int|
            0 <= i < records.len() ==> conforms(schema, #[trigger] records[i]),
{
    match records_of(table, found, schema) {
        Ok(records) => {
            let sheet = found->Some_0;
            assert forall|i: int| 0 <= i < records.len() implies conforms(
                schema,
                #[trigger] records[i],
            ) by {
                if sheet.len() > 1 {
                    assert(!invalid_record(sheet, schema, i));
                }
            }
        },
        Err(_) => {},
    }
}

/// A table that cannot be read fails for its format.
pub proof fn lemma_failures_are_of_format(
    table: Seq<char>,
    found: Option<Sheet>,
    schema: Seq<ColumnView>,
)
    ensures
        records_of(table, found, schema) matches Err(e) ==> e.kind()
            == crate::error::ErrorKind::Format,
{
}

/// No two columns of `schema` have the same name.
pub open spec fn distinct_names(schema: Seq<ColumnView>) -> bool {
    forall|i: int, j: int|
        0 <= i < schema.len() && 0 <= j < schema.len() && i != j ==> (#[trigger] schema[i]).name != (
        #[trigger] schema[j]).name
}

/// The header that names the columns of `schema`.
pub open spec fn header_of(schema: Seq<ColumnView>) -> Row {
    Seq::new(schema.len(), |k: int| schema[k].name)
}

/// The sheet of a table: the header of `schema`, then `records`.
pub open spec fn sheet_of(schema: Seq<ColumnView>, records: Seq<Row>) -> Sheet {
    seq![header_of(schema)] + records
}

/// The bytes of a sheet: those of its rows, one after the other, or `None`
/// where the writer refuses a row.
pub open spec fn delimited(sheet: Sheet, delimiter: u8) -> Option<Seq<u8>>
    decreases sheet.len(),
{
    if sheet.len() == 0 {
        Some(Seq::empty())
    } else {
        match (delimited(sheet.drop_last(), delimiter), delimited_record(sheet.last(), delimiter)) {
            (Some(before), Some(last)) => Some(before + last),
            _ => None,
        }
    }
}

/// A table that was written is read back as it was: the sheet of some
/// records of a schema holds just these records.
pub proof fn lemma_sheet_round_trip(table: Seq<char>, schema: Seq<ColumnView>, records: Seq<Row>)
    requires
        distinct_names(schema),
        forall|i: int| 0 <= i < records.len() ==> conforms(schema, #[trigger] records[i]),
    ensures
        records_of(table, Some(sheet_of(schema, records)), schema) == Ok::<Seq<Row>, ModelErrorView>(
            records,
        ),
{
    let sheet = sheet_of(schema, records);
    let header = header_of(schema);
    assert(sheet[0] == header);
    if records.len() == 0 {
        assert(records =~= Seq::<Row>::empty());
    } else {
        assert forall|k: int| 0 <= k < schema.len() implies column(header, schema[k].name) == Some(
            k,
        ) by {
            assert(header[k] == schema[k].name);
            assert(header.contains(schema[k].name));
            assert forall|i: int, j: int|
                0 <= i < header.len() && 0 <= j < header.len() && header[i] == schema[k].name
                    && header[j] == schema[k].name implies i == j by {
                assert(schema[i].name == schema[k].name);
                assert(schema[j].name == schema[k].name);
            }
            assert(header[header.index_of(schema[k].name)] == schema[k].name);
            assert(schema[header.index_of(schema[k].name)].name == schema[k].name);
        }
        assert forall|k: int| !missing_column(header, schema, k) by {}
        assert forall|i: int| 0 <= i < records.len() implies record_of(header, schema, sheet[i + 1])
            == Some(records[i]) by {
            let row = records[i];
            assert(sheet[i + 1] == row);
            let fields = Seq::new(schema.len(), |k: int| row[column(header, schema[k].name).unwrap()]);
            assert(fields =~= row);
        }
        assert forall|i: int| !invalid_record(sheet, schema, i) by {}
        assert(Seq::new(
            (sheet.len() - 1) as nat,
            |i: int| record_of(sheet[0], schema, sheet[i + 1]).unwrap(),
        ) =~= records);
    }
}

/// The bytes that a sheet is written as: those of its rows, where the reader
/// finds just this sheet in them again; `None` where the writer refuses a
/// row or the reader finds something else.
pub open spec fn written(sheet: Sheet, delimiter: u8) -> Option<Seq<u8>> {
    match delimited(sheet, delimiter) {
        Some(data) => if delimited_records(data, delimiter) == Some(sheet) {
            Some(data)
        } else {
            None
        },
        None => None,
    }
}

/// Record `i` of `records` is not a record of `schema`.
pub open spec fn unfit_record(schema: Seq<ColumnView>, records: Seq<Row>, i: int) -> bool {
    0 <= i < records.len() && !conforms(schema, records[i])
}

/// The first of `records` that is not a record of `schema`.
pub open spec fn first_unfit_record(schema: Seq<ColumnView>, records: Seq<Row>) -> int {
    choose|i: int|
        unfit_record(schema, records, i) && forall|j: int|
            0 <= j < i ==> !unfit_record(schema, records, j)
}

/// What writing the table named `table` comes to.
///
/// Each record must be a record of `schema`: the first that is not is
/// reported. The table's sheet is then written, if it can be written so
/// that it is read back.
pub open spec fn table_written(table: Seq<char>, schema: Seq<ColumnView>, records: Seq<Row>) -> Result<
    Seq<u8>,
    ModelErrorView,
> {
    if exists|i: int| unfit_record(schema, records, i) {
        Err(
            ModelErrorView::InvalidRecord {
                table,
                record: first_unfit_record(schema, records) as nat,
            },
        )
    } else {
        match written(sheet_of(schema, records), DELIMITER) {
            Some(data) => Ok(data),
            None => Err(ModelErrorView::Unencodable { table }),
        }
    }
}

/// The views of a result's two sides.
pub open spec fn bytes_outcome(r: Result<Vec<u8>, ModelError>) -> Result<Seq<u8>, ModelErrorView> {
    match r {
        Ok(data) => Ok(data@),
        Err(e) => Err(e@),
    }
}

/// The views of a result's two sides.
pub open spec fn rows_outcome(r: Result<Vec<Vec<String>>, ModelError>) -> Result<Seq<Row>, ModelErrorView> {
    match r {
        Ok(rows) => Ok(rows.deep_view()),
        Err(e) => Err(e@),
    }
}

/// Finds the one column of `header` that is named `name`.
fn find_column(header: &Vec<String>, name: &str) -> (r: Option<usize>)
    ensures
        match r {
            Some(at) => column(header.deep_view(), name@) == Some(at as int) && at < header.len(),
            None => column(header.deep_view(), name@) is None,
        },
{
    let ghost names = header.deep_view();
    let mut found: Option<usize> = None;
    let mut i: usize = 0;
    while i < header.len()
        invariant
            i <= header.len(),
            names == header.deep_view(),
            match found {
                Some(at) => at < i && names[at as int] == name@ && forall|j: int|
                    0 <= j < i && names[j] == name@ ==> j == at,
                None => forall|j: int| 0 <= j < i ==> names[j] != name@,
            },
        decreases header.len() - i,
    {
        assert(names[i as int] == header[i as int]@);
        if rank(header[i].as_str(), name) == Rank::Same {
            match found {
                Some(at) => {
                    assert(names[at as int] == name@ && names[i as int] == name@);
                    return None;
                },
                None => {
                    found = Some(i);
                },
            }
        }
        i = i + 1;
    }
    proof {
        match found {
            Some(at) => {
                assert(names.contains(name@));
                let chosen = names.index_of(name@);
                assert(names[chosen] == name@);
            },
            None => {},
        }
    }
    found
}

/// Finds every column of `schema` in `header`. Where one cannot be found, the
/// position in `schema` of the first such is the failure.
fn find_columns(header: &Vec<String>, schema: &Vec<Column>) -> (r: Result<Vec<usize>, usize>)
    ensures
        match r {
            Ok(columns) => {
                &&& columns.len() == schema.len()
                &&& forall|k: int|
                    0 <= k < schema.len() ==> column(header.deep_view(), (#[trigger] schema[k])@.name)
                        == Some(columns[k] as int) && columns[k] < header.len()
            },
            Err(k) => {
                &&& missing_column(header.deep_view(), schema.deep_view(), k as int)
                &&& forall|j: int| 0 <= j < k ==> !missing_column(header.deep_view(), schema.deep_view(), j)
            },
        },
{
    let mut columns: Vec<usize> = Vec::new();
    let mut k: usize = 0;
    while k < schema.len()
        invariant
            k <= schema.len(),
            columns.len() == k,
            forall|j: int|
                0 <= j < k ==> column(header.deep_view(), (#[trigger] schema[j])@.name) == Some(
                    columns[j] as int,
                ) && columns[j] < header.len(),
        decreases schema.len() - k,
    {
        match find_column(header, schema[k].name.as_str()) {
            Some(at) => {
                columns.push(at);
            },
            None => {
                proof {
                    assert(schema.deep_view()[k as int] == schema[k as int]@);
                    assert forall|j: int| 0 <= j < k implies !missing_column(
                        header.deep_view(),
                        schema.deep_view(),
                        j,
                    ) by {
                        assert(schema.deep_view()[j] == schema[j]@);
                    }
                }
                return Err(k);
            },
        }
        k = k + 1;
    }
    Ok(columns)
}

/// Whether `text` can stand in a column of this kind.
fn check_field(kind: Kind, text: &str) -> (r: bool)
    ensures
        r == valid_field(kind, text@),
{
    match kind {
        Kind::Text => true,
        Kind::Number => parse_number(text).is_some(),
        Kind::Flag => parse_flag(text).is_some(),
        Kind::Decimal => is_decimal_text(text),
    }
}

/// Takes from `row` the fields of the columns of `schema`, which stand in
/// `header` at the positions `columns`.
fn pick(header: &Vec<String>, schema: &Vec<Column>, columns: &Vec<usize>, row: &Vec<String>) -> (r:
    Option<Vec<String>>)
    requires
        columns.len() == schema.len(),
        forall|k: int|
            0 <= k < schema.len() ==> column(header.deep_view(), (#[trigger] schema[k])@.name) == Some(
                columns[k] as int,
            ) && columns[k] < header.len(),
    ensures
        match r {
            Some(fields) => record_of(header.deep_view(), schema.deep_view(), row.deep_view()) == Some(
                fields.deep_view(),
            ),
            None => record_of(header.deep_view(), schema.deep_view(), row.deep_view()) is None,
        },
{
    let ghost h = header.deep_view();
    let ghost s = schema.deep_view();
    let ghost w = row.deep_view();
    let ghost wanted = Seq::new(s.len(), |k: int| w[column(h, s[k].name).unwrap()]);
    proof {
        assert forall|k: int| 0 <= k < s.len() implies !missing_column(h, s, k) by {
            assert(s[k] == schema[k]@);
        }
    }
    if row.len() != header.len() {
        return None;
    }
    let mut fields: Vec<String> = Vec::new();
    let mut k: usize = 0;
    while k < schema.len()
        invariant
            k <= schema.len(),
            fields.len() == k,
            columns.len() == schema.len(),
            row.len() == header.len(),
            h == header.deep_view(),
            s == schema.deep_view(),
            w == row.deep_view(),
            wanted == Seq::new(s.len(), |k: int| w[column(h, s[k].name).unwrap()]),
            forall|j: int|
                0 <= j < schema.len() ==> column(h, (#[trigger] schema[j])@.name) == Some(
                    columns[j] as int,
                ) && columns[j] < header.len(),
            forall|j: int| 0 <= j < k ==> (#[trigger] fields[j])@ == wanted[j],
            forall|j: int| 0 <= j < k ==> valid_field((#[trigger] s[j]).kind, wanted[j]),
        decreases schema.len() - k,
    {
        proof {
            assert(s[k as int] == schema[k as int]@);
            assert(w[columns[k as int] as int] == row[columns[k as int] as int]@);
        }
        let field = row[columns[k]].clone();
        if !check_field(schema[k].kind, field.as_str()) {
            assert(!valid_field(s[k as int].kind, wanted[k as int]));
            return None;
        }
        fields.push(field);
        k = k + 1;
    }
    assert(fields.deep_view() =~= wanted);
    Some(fields)
}

/// Reads the table named `table` from the bytes of its entry.
pub fn read_table(data: &Vec<u8>, table: &str, schema: &Vec<Column>) -> (r: Result<
    Vec<Vec<String>>,
    ModelError,
>)
    ensures
        rows_outcome(r) == records_of(
            table@,
            delimited_records(data@, DELIMITER),
            schema.deep_view(),
        ),
{
    match read_records(data, DELIMITER) {
        Ok(sheet) => records_in(&sheet, table, schema),
        Err(e) => Err(
            ModelError::MalformedTable { table: String::from_str(table), detail: describe(&e) },
        ),
    }
}

/// The records that a sheet holds for `schema`: what [`read_table`] makes of
/// the rows that it found.
pub fn records_in(sheet: &Vec<Vec<String>>, table: &str, schema: &Vec<Column>) -> (r: Result<
    Vec<Vec<String>>,
    ModelError,
>)
    ensures
        rows_outcome(r) == records_of(table@, Some(sheet.deep_view()), schema.deep_view()),
{
    let ghost s = schema.deep_view();
    let ghost rows = sheet.deep_view();
    let mut records: Vec<Vec<String>> = Vec::new();
    if sheet.len() <= 1 {
        assert(records.deep_view() =~= Seq::<Row>::empty());
        return Ok(records);
    }
    assert(rows[0] == sheet[0].deep_view());
    let columns = match find_columns(&sheet[0], schema) {
        Ok(columns) => columns,
        Err(k) => {
            proof {
                let first = first_missing_column(rows[0], s);
                assert(missing_column(rows[0], s, k as int));
                assert(first == k);
                assert(s[k as int] == schema[k as int]@);
            }
            return Err(
                ModelError::MissingColumn {
                    table: String::from_str(table),
                    column: schema[k].name.clone(),
                },
            );
        },
    };
    proof {
        assert forall|k: int| !missing_column(rows[0], s, k) by {
            if 0 <= k < s.len() {
                assert(s[k] == schema[k]@);
            }
        }
    }
    let mut i: usize = 1;
    while i < sheet.len()
        invariant
            1 <= i <= sheet.len(),
            forall|k: int| !missing_column(rows[0], s, k),
            rows == sheet.deep_view(),
            s == schema.deep_view(),
            rows[0] == sheet[0].deep_view(),
            columns.len() == schema.len(),
            forall|k: int|
                0 <= k < schema.len() ==> column(sheet[0].deep_view(), (#[trigger] schema[k])@.name)
                    == Some(columns[k] as int) && columns[k] < sheet[0].len(),
            records.len() == i - 1,
            forall|j: int| 0 <= j < i - 1 ==> !invalid_record(rows, s, j),
            forall|j: int|
                0 <= j < i - 1 ==> (#[trigger] records[j]).deep_view() == record_of(
                    rows[0],
                    s,
                    rows[j + 1],
                ).unwrap(),
        decreases sheet.len() - i,
    {
        assert(rows[i as int] == sheet[i as int].deep_view());
        match pick(&sheet[0], schema, &columns, &sheet[i]) {
            Some(fields) => {
                records.push(fields);
            },
            None => {
                proof {
                    let first = first_invalid_record(rows, s);
                    assert(invalid_record(rows, s, i - 1));
                    assert(first == i - 1);
                }
                return Err(ModelError::InvalidRecord { table: String::from_str(table), record: i - 1 });
            },
        }
        i = i + 1;
    }
    proof {
        assert forall|j: int| !invalid_record(rows, s, j) by {}
        assert(records.deep_view() =~= Seq::new(
            (rows.len() - 1) as nat,
            |i: int| record_of(rows[0], s, rows[i + 1]).unwrap(),
        ));
    }
    Ok(records)
}

/// The header row of `schema`.
fn header_row(schema: &Vec<Column>) -> (r: Vec<String>)
    ensures
        r.deep_view() == header_of(schema.deep_view()),
{
    let mut header: Vec<String> = Vec::new();
    let mut k: usize = 0;
    while k < schema.len()
        invariant
            k <= schema.len(),
            header.len() == k,
            forall|j: int| 0 <= j < k ==> (#[trigger] header[j])@ == schema[j]@.name,
        decreases schema.len() - k,
    {
        header.push(schema[k].name.clone());
        k = k + 1;
    }
    assert(header.deep_view() =~= header_of(schema.deep_view()));
    header
}

/// The bytes of the rows of a table, one row after the other.
fn table_bytes(table: &str, header: &Vec<String>, records: &Vec<Vec<String>>) -> (r: Result<
    Vec<u8>,
    ModelError,
>)
    ensures
        match r {
            Ok(data) => delimited(seq![header.deep_view()] + records.deep_view(), DELIMITER) == Some(
                data@,
            ),
            Err(e) => {
                &&& e@ == ModelErrorView::Unencodable { table: table@ }
                &&& delimited(seq![header.deep_view()] + records.deep_view(), DELIMITER) is None
            },
        },
{
    let ghost sheet = seq![header.deep_view()] + records.deep_view();
    let mut data = match write_record(header, DELIMITER) {
        Ok(bytes) => bytes,
        Err(_) => {
            proof {
                lemma_delimited_refused(sheet, DELIMITER, 0);
            }
            return Err(ModelError::Unencodable { table: String::from_str(table) });
        },
    };
    proof {
        assert(sheet.take(1) =~= seq![header.deep_view()]);
        assert(sheet.take(1).drop_last() =~= Seq::<Row>::empty());
        assert(delimited(sheet.take(1).drop_last(), DELIMITER) == Some(Seq::<u8>::empty()));
        assert(Seq::<u8>::empty() + data@ =~= data@);
    }
    let mut i: usize = 0;
    while i < records.len()
        invariant
            i <= records.len(),
            sheet == seq![header.deep_view()] + records.deep_view(),
            sheet.len() == records.len() + 1,
            delimited(sheet.take(i + 1), DELIMITER) == Some(data@),
        decreases records.len() - i,
    {
        proof {
            assert(sheet[i + 1] == records[i as int].deep_view());
            assert(sheet.take(i + 2).drop_last() =~= sheet.take(i + 1));
            assert(sheet.take(i + 2).last() == sheet[i + 1]);
        }
        match write_record(&records[i], DELIMITER) {
            Ok(mut bytes) => {
                data.append(&mut bytes);
            },
            Err(_) => {
                proof {
                    lemma_delimited_refused(sheet, DELIMITER, i + 1);
                }
                return Err(ModelError::Unencodable { table: String::from_str(table) });
            },
        }
        i = i + 1;
    }
    assert(sheet.take(records.len() + 1) =~= sheet);
    Ok(data)
}

/// Whether two rows hold the same fields.
fn same_row(a: &Vec<String>, b: &Vec<String>) -> (r: bool)
    ensures
        r == (a.deep_view() == b.deep_view()),
{
    if a.len() != b.len() {
        assert(a.deep_view().len() != b.deep_view().len());
        return false;
    }
    let mut k: usize = 0;
    while k < a.len()
        invariant
            k <= a.len(),
            a.len() == b.len(),
            forall|j: int| 0 <= j < k ==> a[j]@ == b[j]@,
        decreases a.len() - k,
    {
        if a[k] != b[k] {
            assert(a.deep_view()[k as int] != b.deep_view()[k as int]);
            return false;
        }
        k = k + 1;
    }
    assert(a.deep_view() =~= b.deep_view());
    true
}

/// Whether `sheet` is the header of `schema` followed by `records`.
pub fn is_sheet_of(sheet: &Vec<Vec<String>>, schema: &Vec<Column>, records: &Vec<Vec<String>>) -> (r:
    bool)
    ensures
        r == (sheet.deep_view() == sheet_of(schema.deep_view(), records.deep_view())),
{
    let header = header_row(schema);
    let ghost wanted = sheet_of(schema.deep_view(), records.deep_view());
    if sheet.len() == 0 || sheet.len() - 1 != records.len() {
        assert(sheet.deep_view().len() != wanted.len());
        return false;
    }
    if !same_row(&sheet[0], &header) {
        assert(sheet.deep_view()[0] != wanted[0]);
        return false;
    }
    let mut i: usize = 0;
    while i < records.len()
        invariant
            i <= records.len(),
            sheet.len() == records.len() + 1,
            wanted == sheet_of(schema.deep_view(), records.deep_view()),
            header.deep_view() == header_of(schema.deep_view()),
            sheet[0].deep_view() == header.deep_view(),
            forall|j: int| 0 <= j < i ==> (#[trigger] sheet[j + 1]).deep_view() == records[j].deep_view(),
        decreases records.len() - i,
    {
        if !same_row(&sheet[i + 1], &records[i]) {
            assert(sheet.deep_view()[i + 1] != wanted[i + 1]);
            return false;
        }
        i = i + 1;
    }
    assert forall|j: int| 0 <= j < sheet.len() implies sheet.deep_view()[j] == wanted[j] by {
        if j > 0 {
            assert(sheet[(j - 1) + 1].deep_view() == records[j - 1].deep_view());
        }
    }
    assert(sheet.deep_view() =~= wanted);
    true
}

/// Whether `row` is a record of `schema`.
pub fn fits(schema: &Vec<Column>, row: &Vec<String>) -> (r: bool)
    ensures
        r == conforms(schema.deep_view(), row.deep_view()),
{
    let ghost s = schema.deep_view();
    let ghost fields = row.deep_view();
    if row.len() != schema.len() {
        return false;
    }
    let mut k: usize = 0;
    while k < schema.len()
        invariant
            k <= schema.len(),
            row.len() == schema.len(),
            s == schema.deep_view(),
            fields == row.deep_view(),
            forall|j: int| 0 <= j < k ==> valid_field((#[trigger] s[j]).kind, fields[j]),
        decreases schema.len() - k,
    {
        proof {
            assert(s[k as int] == schema[k as int]@);
            assert(fields[k as int] == row[k as int]@);
        }
        if !check_field(schema[k].kind, row[k].as_str()) {
            return false;
        }
        k = k + 1;
    }
    true
}

/// Writes the sheet of a table and looks whether it is read back.
fn write_sheet(table: &str, schema: &Vec<Column>, records: &Vec<Vec<String>>) -> (r: Result<
    Vec<u8>,
    ModelError,
>)
    ensures
        match r {
            Ok(data) => written(sheet_of(schema.deep_view(), records.deep_view()), DELIMITER)
                == Some(data@),
            Err(e) => {
                &&& e@ == ModelErrorView::Unencodable { table: table@ }
                &&& written(sheet_of(schema.deep_view(), records.deep_view()), DELIMITER) is None
            },
        },
{
    let header = header_row(schema);
    let data = table_bytes(table, &header, records)?;
    let found = match read_records(&data, DELIMITER) {
        Ok(back) => is_sheet_of(&back, schema, records),
        Err(_) => false,
    };
    if found {
        Ok(data)
    } else {
        Err(ModelError::Unencodable { table: String::from_str(table) })
    }
}

/// Writes the table named `table`: the header of `schema`, then `records`.
///
/// The bytes are read again before they are handed out, and handed out only
/// where the rows that were written are found in them.
pub fn write_table(table: &str, schema: &Vec<Column>, records: &Vec<Vec<String>>) -> (r: Result<
    Vec<u8>,
    ModelError,
>)
    ensures
        bytes_outcome(r) == table_written(table@, schema.deep_view(), records.deep_view()),
{
    let ghost s = schema.deep_view();
    let ghost rows = records.deep_view();
    let mut i: usize = 0;
    while i < records.len()
        invariant
            i <= records.len(),
            s == schema.deep_view(),
            rows == records.deep_view(),
            forall|j: int| 0 <= j < i ==> !unfit_record(s, rows, j),
        decreases records.len() - i,
    {
        assert(rows[i as int] == records[i as int].deep_view());
        if !fits(schema, &records[i]) {
            proof {
                assert(unfit_record(s, rows, i as int));
                assert(first_unfit_record(s, rows) == i);
            }
            return Err(ModelError::InvalidRecord { table: String::from_str(table), record: i });
        }
        i = i + 1;
    }
    proof {
        assert forall|j: int| !unfit_record(s, rows, j) by {}
    }
    write_sheet(table, schema, records)
}

/// A sheet with a row that the writer refuses has no bytes.
proof fn lemma_delimited_refused(sheet: Sheet, delimiter: u8, i: int)
    requires
        0 <= i < sheet.len(),
        delimited_record(sheet[i], delimiter) is None,
    ensures
        delimited(sheet, delimiter) is None,
    decreases sheet.len(),
{
    if i < sheet.len() - 1 {
        lemma_delimited_refused(sheet.drop_last(), delimiter, i);
    }
}

} // verus!
