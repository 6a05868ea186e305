//! The archive of a catalog: three tables of delimited text, each an entry
//! with a name of its own.
//!
//! Opening and filling the container that holds the entries is the caller's
//! part. This module reads the tables out of the entries' bytes and writes
//! them into bytes.

use crate::delimited::{
    delimited_records, read_table, records_of, table_written, write_table, ColumnView, Row,
    DELIMITER,
};
use crate::error::{ModelError, ModelErrorView};
use crate::objects::PoiTypeView;
use crate::records::{
    poi_columns, poi_record, poi_row, poi_type_columns, poi_type_record, poi_type_row,
    poi_type_schema, poi_schema, property_columns, property_record, property_row,
    property_schema, PoiProperty, PoiPropertyView, PoiRecord, PoiRecordView, PoiTypeRecord,
};
use vstd::pervasive::unreached;
use vstd::prelude::*;
use vstd::string::StringExecFns;

verus! {

/// One entry of an archive: its name and its bytes.
#[derive(Debug, Clone, PartialEq, Eq)]
pub struct Entry {
    pub name: String,
    pub data: Vec<u8>,
}

/// An [`Entry`] with its name as a sequence of characters and its bytes as a
/// sequence.
pub struct EntryView {
    pub name: Seq<char>,
    pub data: Seq<u8>,
}

impl View for Entry {
    type V = EntryView;

    open spec fn view(&self) -> EntryView {
        EntryView { name: self.name@, data: self.data@ }
    }
}

impl DeepView for Entry {
    type V = EntryView;

    open spec fn deep_view(&self) -> EntryView {
        self@
    }
}

/// The records of the three tables.
#[derive(Debug, Clone)]
pub struct Tables {
    pub pois: Vec<PoiRecord>,
    pub poi_types: Vec<PoiTypeRecord>,
    pub properties: Vec<PoiProperty>,
}

/// The records of the three tables, as sequences.
pub struct TablesView {
    pub pois: Seq<PoiRecordView>,
    pub poi_types: Seq<PoiTypeView>,
    pub properties: Seq<PoiPropertyView>,
}

impl View for Tables {
    type V = TablesView;

    open spec fn view(&self) -> TablesView {
        TablesView {
            pois: self.pois.deep_view(),
            poi_types: self.poi_types.deep_view(),
            properties: self.properties.deep_view(),
        }
    }
}

/// The extension of the file that holds an archive.
pub const ARCHIVE_EXTENSION: &'static str = "poi";

/// The name of the entry that holds the point table.
pub open spec fn poi_entry() -> Seq<char> {
    "poi.txt"@
}

/// The name of the entry that holds the type table.
pub open spec fn poi_type_entry() -> Seq<char> {
    "poi_type.txt"@
}

/// The name of the entry that holds the property table.
pub open spec fn property_entry() -> Seq<char> {
    "poi_properties.txt"@
}

/// The bytes of the first entry of `archive` that is named `name`.
pub open spec fn entry_data(archive: Seq<EntryView>, name: Seq<char>) -> Option<Seq<u8>>
    decreases archive.len(),
{
    if archive.len() == 0 {
        None
    } else if archive[0].name == name {
        Some(archive[0].data)
    } else {
        entry_data(archive.drop_first(), name)
    }
}

/// The table that `archive` holds under `name`, read for `schema`; `None`
/// where `archive` has no entry of that name.
pub open spec fn table_in(archive: Seq<EntryView>, name: Seq<char>, schema: Seq<ColumnView>) -> Option<
    Result<Seq<Row>, ModelErrorView>,
> {
    match entry_data(archive, name) {
        None => None,
        Some(data) => Some(records_of(name, delimited_records(data, DELIMITER), schema)),
    }
}

/// The tables that `archive` holds.
///
/// The point table and the type table must be there; an archive without a
/// property table holds no properties. The tables are read in this order,
/// and the first failure is the failure of the whole.
pub open spec fn tables_in(archive: Seq<EntryView>) -> Result<TablesView, ModelErrorView> {
    match table_in(archive, poi_entry(), poi_columns()) {
        None => Err(ModelErrorView::MissingEntry { name: poi_entry() }),
        Some(Err(e)) => Err(e),
        Some(Ok(pois)) => match table_in(archive, poi_type_entry(), poi_type_columns()) {
            None => Err(ModelErrorView::MissingEntry { name: poi_type_entry() }),
            Some(Err(e)) => Err(e),
            Some(Ok(poi_types)) => match table_in(archive, property_entry(), property_columns()) {
                None => Ok(
                    TablesView {
                        pois: pois.map_values(|row: Row| poi_record(row)),
                        poi_types: poi_types.map_values(|row: Row| poi_type_record(row)),
                        properties: Seq::empty(),
                    },
                ),
                Some(Err(e)) => Err(e),
                Some(Ok(properties)) => Ok(
                    TablesView {
                        pois: pois.map_values(|row: Row| poi_record(row)),
                        poi_types: poi_types.map_values(|row: Row| poi_type_record(row)),
                        properties: properties.map_values(|row: Row| property_record(row)),
                    },
                ),
            },
        },
    }
}

/// The archive that holds `tables`: the point table, the type table and the
/// property table, in this order, each written even where it has no record.
/// The first table that cannot be written is the failure.
pub open spec fn archive_of(tables: TablesView) -> Result<Seq<EntryView>, ModelErrorView> {
    let pois = table_written(
        poi_entry(),
        poi_columns(),
        tables.pois.map_values(|r: PoiRecordView| poi_row(r)),
    );
    let poi_types = table_written(
        poi_type_entry(),
        poi_type_columns(),
        tables.poi_types.map_values(|r: PoiTypeView| poi_type_row(r)),
    );
    let properties = table_written(
        property_entry(),
        property_columns(),
        tables.properties.map_values(|r: PoiPropertyView| property_row(r)),
    );
    match (pois, poi_types, properties) {
        (Err(e), _, _) => Err(e),
        (Ok(_), Err(e), _) => Err(e),
        (Ok(_), Ok(_), Err(e)) => Err(e),
        (Ok(a), Ok(b), Ok(c)) => Ok(
            seq![
                EntryView { name: poi_entry(), data: a },
                EntryView { name: poi_type_entry(), data: b },
                EntryView { name: property_entry(), data: c },
            ],
        ),
    }
}

/// An archive without a property table is read like one whose property
/// table has no record: whether it can be read lies with the other two
/// tables alone, and what is read holds no property.
pub proof fn lemma_property_table_is_optional(archive: Seq<EntryView>)
    requires
        entry_data(archive, property_entry()) is None,
    ensures
        tables_in(archive) is Ok <==> (table_in(archive, poi_entry(), poi_columns()) matches Some(
            Ok(_),
        ) && table_in(archive, poi_type_entry(), poi_type_columns()) matches Some(Ok(_))),
        tables_in(archive) matches Ok(tables) ==> tables.properties.len() == 0,
{
}

/// An archive that lacks the point table or the type table cannot be read.
pub proof fn lemma_required_tables(archive: Seq<EntryView>)
    requires
        entry_data(archive, poi_entry()) is None || entry_data(archive, poi_type_entry()) is None,
    ensures
        tables_in(archive) is Err,
        tables_in(archive)->Err_0.kind() == crate::error::ErrorKind::Format,
{
    crate::delimited::lemma_failures_are_of_format(
        poi_entry(),
        delimited_records(entry_data(archive, poi_entry())->Some_0, DELIMITER),
        poi_columns(),
    );
}

/// The views of a result's two sides.
pub open spec fn tables_outcome(r: Result<Tables, ModelError>) -> Result<TablesView, ModelErrorView> {
    match r {
        Ok(tables) => Ok(tables@),
        Err(e) => Err(e@),
    }
}

/// The views of a result's two sides.
pub open spec fn archive_outcome(r: Result<Vec<Entry>, ModelError>) -> Result<
    Seq<EntryView>,
    ModelErrorView,
> {
    match r {
        Ok(archive) => Ok(archive.deep_view()),
        Err(e) => Err(e@),
    }
}

/// The names of the entries of an archive, in the order in which they are
/// written: the point table, the type table, the property table.
pub fn entry_names() -> (names: Vec<String>)
    ensures
        names.deep_view() == seq![poi_entry(), poi_type_entry(), property_entry()],
{
    let mut names: Vec<String> = Vec::new();
    names.push(String::from_str("poi.txt"));
    names.push(String::from_str("poi_type.txt"));
    names.push(String::from_str("poi_properties.txt"));
    assert(names.deep_view() =~= seq![poi_entry(), poi_type_entry(), property_entry()]);
    names
}

/// The bytes of the first entry of `archive` that is named `name`.
fn find_entry<'a>(archive: &'a Vec<Entry>, name: &str) -> (r: Option<&'a Vec<u8>>)
    ensures
        match r {
            Some(data) => entry_data(archive.deep_view(), name@) == Some(data@),
            None => entry_data(archive.deep_view(), name@) is None,
        },
{
    let ghost entries = archive.deep_view();
    let mut i: usize = 0;
    proof {
        assert(entries.skip(0) =~= entries);
    }
    while i < archive.len()
        invariant
            i <= archive.len(),
            entries == archive.deep_view(),
            entry_data(entries, name@) == entry_data(entries.skip(i as int), name@),
        decreases archive.len() - i,
    {
        proof {
            assert(entries.skip(i as int)[0] == archive[i as int]@);
            assert(entries.skip(i as int).drop_first() =~= entries.skip(i + 1));
        }
        if crate::text::rank(archive[i].name.as_str(), name) == crate::text::Rank::Same {
            return Some(&archive[i].data);
        }
        i = i + 1;
    }
    None
}

/// The records of the point table that the rows hold.
fn poi_records(rows: &Vec<Vec<String>>) -> (records: Vec<PoiRecord>)
    requires
        forall|i: int|
            0 <= i < rows.len() ==> crate::delimited::conforms(
                poi_columns(),
                #[trigger] rows.deep_view()[i],
            ),
    ensures
        records.deep_view() == rows.deep_view().map_values(|row: Row| poi_record(row)),
{
    let mut records: Vec<PoiRecord> = Vec::new();
    let mut i: usize = 0;
    while i < rows.len()
        invariant
            i <= rows.len(),
            records.len() == i,
            forall|j: int|
                0 <= j < rows.len() ==> crate::delimited::conforms(
                    poi_columns(),
                    #[trigger] rows.deep_view()[j],
                ),
            forall|j: int| 0 <= j < i ==> (#[trigger] records[j])@ == poi_record(rows.deep_view()[j]),
        decreases rows.len() - i,
    {
        assert(rows.deep_view()[i as int] == rows[i as int].deep_view());
        match PoiRecord::from_row(&rows[i]) {
            Some(record) => {
                records.push(record);
            },
            None => {
                unreached::<()>();
            },
        }
        i = i + 1;
    }
    assert(records.deep_view() =~= rows.deep_view().map_values(|row: Row| poi_record(row)));
    records
}

/// The records of the type table that the rows hold.
fn poi_type_records(rows: &Vec<Vec<String>>) -> (records: Vec<PoiTypeRecord>)
    requires
        forall|i: int|
            0 <= i < rows.len() ==> crate::delimited::conforms(
                poi_type_columns(),
                #[trigger] rows.deep_view()[i],
            ),
    ensures
        records.deep_view() == rows.deep_view().map_values(|row: Row| poi_type_record(row)),
{
    let mut records: Vec<PoiTypeRecord> = Vec::new();
    let mut i: usize = 0;
    while i < rows.len()
        invariant
            i <= rows.len(),
            records.len() == i,
            forall|j: int|
                0 <= j < rows.len() ==> crate::delimited::conforms(
                    poi_type_columns(),
                    #[trigger] rows.deep_view()[j],
                ),
            forall|j: int|
                0 <= j < i ==> (#[trigger] records[j])@ == poi_type_record(rows.deep_view()[j]),
        decreases rows.len() - i,
    {
        assert(rows.deep_view()[i as int] == rows[i as int].deep_view());
        match PoiTypeRecord::from_row(&rows[i]) {
            Some(record) => {
                records.push(record);
            },
            None => {
                unreached::<()>();
            },
        }
        i = i + 1;
    }
    assert(records.deep_view() =~= rows.deep_view().map_values(|row: Row| poi_type_record(row)));
    records
}

/// The records of the property table that the rows hold.
fn property_records(rows: &Vec<Vec<String>>) -> (records: Vec<PoiProperty>)
    requires
        forall|i: int|
            0 <= i < rows.len() ==> crate::delimited::conforms(
                property_columns(),
                #[trigger] rows.deep_view()[i],
            ),
    ensures
        records.deep_view() == rows.deep_view().map_values(|row: Row| property_record(row)),
{
    let mut records: Vec<PoiProperty> = Vec::new();
    let mut i: usize = 0;
    while i < rows.len()
        invariant
            i <= rows.len(),
            records.len() == i,
            forall|j: int|
                0 <= j < rows.len() ==> crate::delimited::conforms(
                    property_columns(),
                    #[trigger] rows.deep_view()[j],
                ),
            forall|j: int|
                0 <= j < i ==> (#[trigger] records[j])@ == property_record(rows.deep_view()[j]),
        decreases rows.len() - i,
    {
        assert(rows.deep_view()[i as int] == rows[i as int].deep_view());
        match PoiProperty::from_row(&rows[i]) {
            Some(record) => {
                records.push(record);
            },
            None => {
                unreached::<()>();
            },
        }
        i = i + 1;
    }
    assert(records.deep_view() =~= rows.deep_view().map_values(|row: Row| property_record(row)));
    records
}

/// Reads the tables of an archive from its entries.
pub fn read_tables(archive: &Vec<Entry>) -> (r: Result<Tables, ModelError>)
    ensures
        tables_outcome(r) == tables_in(archive.deep_view()),
{
    let pois = match find_entry(archive, "poi.txt") {
        None => {
            return Err(ModelError::MissingEntry { name: String::from_str("poi.txt") });
        },
        Some(data) => {
            let schema = poi_schema();
            let rows = read_table(data, "poi.txt", &schema)?;
            proof {
                crate::delimited::lemma_records_conform(
                    poi_entry(),
                    delimited_records(data@, DELIMITER),
                    poi_columns(),
                );
            }
            poi_records(&rows)
        },
    };
    let poi_types = match find_entry(archive, "poi_type.txt") {
        None => {
            return Err(ModelError::MissingEntry { name: String::from_str("poi_type.txt") });
        },
        Some(data) => {
            let schema = poi_type_schema();
            let rows = read_table(data, "poi_type.txt", &schema)?;
            proof {
                crate::delimited::lemma_records_conform(
                    poi_type_entry(),
                    delimited_records(data@, DELIMITER),
                    poi_type_columns(),
                );
            }
            poi_type_records(&rows)
        },
    };
    let properties = match find_entry(archive, "poi_properties.txt") {
        None => {
            let none: Vec<PoiProperty> = Vec::new();
            assert(none.deep_view() =~= Seq::<PoiPropertyView>::empty());
            none
        },
        Some(data) => {
            let schema = property_schema();
            let rows = read_table(data, "poi_properties.txt", &schema)?;
            proof {
                crate::delimited::lemma_records_conform(
                    property_entry(),
                    delimited_records(data@, DELIMITER),
                    property_columns(),
                );
            }
            property_records(&rows)
        },
    };
    Ok(Tables { pois, poi_types, properties })
}

/// The rows that the records of the point table are written as.
fn poi_rows(records: &Vec<PoiRecord>) -> (rows: Vec<Vec<String>>)
    ensures
        rows.deep_view() == records.deep_view().map_values(|r: PoiRecordView| poi_row(r)),
{
    let mut rows: Vec<Vec<String>> = Vec::new();
    let mut i: usize = 0;
    while i < records.len()
        invariant
            i <= records.len(),
            rows.len() == i,
            forall|j: int| 0 <= j < i ==> (#[trigger] rows[j]).deep_view() == poi_row(records[j]@),
        decreases records.len() - i,
    {
        rows.push(records[i].to_row());
        i = i + 1;
    }
    assert(rows.deep_view() =~= records.deep_view().map_values(|r: PoiRecordView| poi_row(r)));
    rows
}

/// The rows that the records of the type table are written as.
fn poi_type_rows(records: &Vec<PoiTypeRecord>) -> (rows: Vec<Vec<String>>)
    ensures
        rows.deep_view() == records.deep_view().map_values(|r: PoiTypeView| poi_type_row(r)),
{
    let mut rows: Vec<Vec<String>> = Vec::new();
    let mut i: usize = 0;
    while i < records.len()
        invariant
            i <= records.len(),
            rows.len() == i,
            forall|j: int|
                0 <= j < i ==> (#[trigger] rows[j]).deep_view() == poi_type_row(records[j]@),
        decreases records.len() - i,
    {
        rows.push(records[i].to_row());
        i = i + 1;
    }
    assert(rows.deep_view() =~= records.deep_view().map_values(|r: PoiTypeView| poi_type_row(r)));
    rows
}

/// The rows that the records of the property table are written as.
fn property_rows(records: &Vec<PoiProperty>) -> (rows: Vec<Vec<String>>)
    ensures
        rows.deep_view() == records.deep_view().map_values(|r: PoiPropertyView| property_row(r)),
{
    let mut rows: Vec<Vec<String>> = Vec::new();
    let mut i: usize = 0;
    while i < records.len()
        invariant
            i <= records.len(),
            rows.len() == i,
            forall|j: int|
                0 <= j < i ==> (#[trigger] rows[j]).deep_view() == property_row(records[j]@),
        decreases records.len() - i,
    {
        rows.push(records[i].to_row());
        i = i + 1;
    }
    assert(rows.deep_view() =~= records.deep_view().map_values(
        |r: PoiPropertyView| property_row(r),
    ));
    rows
}

/// Writes the tables into the entries of an archive.
pub fn write_tables(tables: &Tables) -> (r: Result<Vec<Entry>, ModelError>)
    ensures
        archive_outcome(r) == archive_of(tables@),
{
    let pois = write_table("poi.txt", &poi_schema(), &poi_rows(&tables.pois))?;
    let poi_types = write_table("poi_type.txt", &poi_type_schema(), &poi_type_rows(&tables.poi_types))?;
    let properties = write_table(
        "poi_properties.txt",
        &property_schema(),
        &property_rows(&tables.properties),
    )?;
    let mut archive: Vec<Entry> = Vec::new();
    archive.push(Entry { name: String::from_str("poi.txt"), data: pois });
    archive.push(Entry { name: String::from_str("poi_type.txt"), data: poi_types });
    archive.push(Entry { name: String::from_str("poi_properties.txt"), data: properties });
    assert(archive.deep_view() =~= archive_of(tables@)->Ok_0);
    Ok(archive)
}

} // verus!
