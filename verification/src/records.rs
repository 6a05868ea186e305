//! The records of the three tables, and the rows that they are written as.
//!
//! A record of the point table keeps the two numbers of its coordinate as the
//! decimal text that stands in the table. Turning that text into a
//! [`Coord`], and back, is left to the caller.

use crate::delimited::{conforms, Column, ColumnView, Kind, Row};
use crate::fields::{
    flag_text, format_flag, format_number, is_decimal, is_decimal_text, lemma_flag_round_trip,
    lemma_number_round_trip, number_text, parse_flag, parse_number, parsed_flag, parsed_number,
};
use crate::objects::{Coord, Poi, PoiType, PoiTypeView, PoiView, Property};
use crate::string_map::StringMap;
use vstd::prelude::*;
use vstd::std_specs::convert::FromSpecImpl;
use vstd::string::StringExecFns;

verus! {

/// A record of the point table.
#[derive(Debug, Clone)]
pub struct PoiRecord {
    pub id: String,
    pub type_id: String,
    pub name: String,
    /// The latitude in decimal text.
    pub lat: String,
    /// The longitude in decimal text.
    pub lon: String,
    pub weight: u32,
    pub visible: bool,
}

/// A [`PoiRecord`] with its texts as sequences of characters.
pub struct PoiRecordView {
    pub id: Seq<char>,
    pub type_id: Seq<char>,
    pub name: Seq<char>,
    pub lat: Seq<char>,
    pub lon: Seq<char>,
    pub weight: u32,
    pub visible: bool,
}

impl View for PoiRecord {
    type V = PoiRecordView;

    open spec fn view(&self) -> PoiRecordView {
        PoiRecordView {
            id: self.id@,
            type_id: self.type_id@,
            name: self.name@,
            lat: self.lat@,
            lon: self.lon@,
            weight: self.weight,
            visible: self.visible,
        }
    }
}

impl DeepView for PoiRecord {
    type V = PoiRecordView;

    open spec fn deep_view(&self) -> PoiRecordView {
        self@
    }
}

/// A record of the type table. The table names its columns otherwise than
/// [`PoiType`] names its fields.
#[derive(Debug, Clone, PartialEq, Eq, PartialOrd, Ord)]
pub struct PoiTypeRecord {
    pub id: String,
    pub name: String,
}

impl View for PoiTypeRecord {
    type V = PoiTypeView;

    open spec fn view(&self) -> PoiTypeView {
        PoiTypeView { id: self.id@, name: self.name@ }
    }
}

impl DeepView for PoiTypeRecord {
    type V = PoiTypeView;

    open spec fn deep_view(&self) -> PoiTypeView {
        self@
    }
}

/// A record of the property table: a property and the point that it belongs
/// to.
#[derive(Debug, Clone, PartialEq, Eq, PartialOrd, Ord)]
pub struct PoiProperty {
    pub poi_id: String,
    pub key: String,
    pub value: String,
}

/// A [`PoiProperty`] with its texts as sequences of characters.
pub struct PoiPropertyView {
    pub poi_id: Seq<char>,
    pub key: Seq<char>,
    pub value: Seq<char>,
}

impl View for PoiProperty {
    type V = PoiPropertyView;

    open spec fn view(&self) -> PoiPropertyView {
        PoiPropertyView { poi_id: self.poi_id@, key: self.key@, value: self.value@ }
    }
}

impl DeepView for PoiProperty {
    type V = PoiPropertyView;

    open spec fn deep_view(&self) -> PoiPropertyView {
        self@
    }
}

/// The columns of the point table.
pub open spec fn poi_columns() -> Seq<ColumnView> {
    seq![
        ColumnView { name: "poi_id"@, kind: Kind::Text },
        ColumnView { name: "poi_type_id"@, kind: Kind::Text },
        ColumnView { name: "poi_name"@, kind: Kind::Text },
        ColumnView { name: "poi_lat"@, kind: Kind::Decimal },
        ColumnView { name: "poi_lon"@, kind: Kind::Decimal },
        ColumnView { name: "poi_weight"@, kind: Kind::Number },
        ColumnView { name: "poi_visible"@, kind: Kind::Flag },
    ]
}

/// The columns of the type table.
pub open spec fn poi_type_columns() -> Seq<ColumnView> {
    seq![
        ColumnView { name: "poi_type_id"@, kind: Kind::Text },
        ColumnView { name: "poi_type_name"@, kind: Kind::Text },
    ]
}

/// The columns of the property table.
pub open spec fn property_columns() -> Seq<ColumnView> {
    seq![
        ColumnView { name: "poi_id"@, kind: Kind::Text },
        ColumnView { name: "key"@, kind: Kind::Text },
        ColumnView { name: "value"@, kind: Kind::Text },
    ]
}

/// The row that a record of the point table is written as.
pub open spec fn poi_row(record: PoiRecordView) -> Row {
    seq![
        record.id,
        record.type_id,
        record.name,
        record.lat,
        record.lon,
        number_text(record.weight as nat),
        flag_text(record.visible),
    ]
}

/// The record of the point table that a row of its schema holds.
pub open spec fn poi_record(row: Row) -> PoiRecordView {
    PoiRecordView {
        id: row[0],
        type_id: row[1],
        name: row[2],
        lat: row[3],
        lon: row[4],
        weight: parsed_number(row[5]).unwrap(),
        visible: parsed_flag(row[6]).unwrap(),
    }
}

/// The row that a record of the type table is written as.
pub open spec fn poi_type_row(record: PoiTypeView) -> Row {
    seq![record.id, record.name]
}

/// The record of the type table that a row of its schema holds.
pub open spec fn poi_type_record(row: Row) -> PoiTypeView {
    PoiTypeView { id: row[0], name: row[1] }
}

/// The row that a record of the property table is written as.
pub open spec fn property_row(record: PoiPropertyView) -> Row {
    seq![record.poi_id, record.key, record.value]
}

/// The record of the property table that a row of its schema holds.
pub open spec fn property_record(row: Row) -> PoiPropertyView {
    PoiPropertyView { poi_id: row[0], key: row[1], value: row[2] }
}

/// A record of the point table is read back from its row as it was, and its
/// row is a row of the table's schema where the texts of its coordinate are
/// decimals. A point that is not visible has `0` in the last column, a
/// visible one `1`.
pub proof fn lemma_poi_row_round_trip(record: PoiRecordView)
    ensures
        conforms(poi_columns(), poi_row(record)) <==> is_decimal(record.lat) && is_decimal(
            record.lon,
        ),
        poi_record(poi_row(record)) == record,
        poi_row(record)[6] == (if record.visible {
            seq!['1']
        } else {
            seq!['0']
        }),
{
    lemma_number_round_trip(record.weight);
    lemma_flag_round_trip(record.visible);
    let row = poi_row(record);
    let columns = poi_columns();
    if is_decimal(record.lat) && is_decimal(record.lon) {
        assert forall|k: int| 0 <= k < 7 implies crate::delimited::valid_field(
            (#[trigger] columns[k]).kind,
            row[k],
        ) by {}
    } else {
        assert(!crate::delimited::valid_field(columns[3].kind, row[3])
            || !crate::delimited::valid_field(columns[4].kind, row[4]));
    }
}

/// A record of the type table is read back from its row as it was.
pub proof fn lemma_poi_type_row_round_trip(record: PoiTypeView)
    ensures
        conforms(poi_type_columns(), poi_type_row(record)),
        poi_type_record(poi_type_row(record)) == record,
{
}

/// A record of the property table is read back from its row as it was.
pub proof fn lemma_property_row_round_trip(record: PoiPropertyView)
    ensures
        conforms(property_columns(), property_row(record)),
        property_record(property_row(record)) == record,
{
}

/// A row of the point table is a record only where the field of its last
/// column is a flag.
pub proof fn lemma_visible_must_be_a_flag(header: Row, row: Row)
    ensures
        crate::delimited::record_of(header, poi_columns(), row) matches Some(fields)
            ==> parsed_flag(fields[6]) is Some,
{
    match crate::delimited::record_of(header, poi_columns(), row) {
        Some(fields) => {
            assert(crate::delimited::valid_field(poi_columns()[6].kind, fields[6]));
        },
        None => {},
    }
}

/// The columns of each table have names of their own.
pub proof fn lemma_distinct_columns()
    ensures
        crate::delimited::distinct_names(poi_columns()),
        crate::delimited::distinct_names(poi_type_columns()),
        crate::delimited::distinct_names(property_columns()),
{
    reveal_strlit("poi_id");
    reveal_strlit("poi_type_id");
    reveal_strlit("poi_name");
    reveal_strlit("poi_lat");
    reveal_strlit("poi_lon");
    reveal_strlit("poi_weight");
    reveal_strlit("poi_visible");
    reveal_strlit("poi_type_name");
    reveal_strlit("key");
    reveal_strlit("value");
    let p = poi_columns();
    assert(p[0].name.len() == 6);
    assert(p[1].name.len() == 11);
    assert(p[2].name.len() == 8);
    assert(p[3].name.len() == 7);
    assert(p[4].name.len() == 7);
    assert(p[5].name.len() == 10);
    assert(p[6].name.len() == 11);
    assert(p[3].name[5] != p[4].name[5]);
    assert(p[1].name[4] != p[6].name[4]);
    let t = poi_type_columns();
    assert(t[0].name.len() == 11);
    assert(t[1].name.len() == 13);
    let q = property_columns();
    assert(q[0].name.len() == 6);
    assert(q[1].name.len() == 3);
    assert(q[2].name.len() == 5);
}

/// A column named `name`.
fn named(name: &str, kind: Kind) -> (c: Column)
    ensures
        c@ == (ColumnView { name: name@, kind }),
{
    Column { name: String::from_str(name), kind }
}

/// The schema of the point table.
pub fn poi_schema() -> (schema: Vec<Column>)
    ensures
        schema.deep_view() == poi_columns(),
{
    let mut schema: Vec<Column> = Vec::new();
    schema.push(named("poi_id", Kind::Text));
    schema.push(named("poi_type_id", Kind::Text));
    schema.push(named("poi_name", Kind::Text));
    schema.push(named("poi_lat", Kind::Decimal));
    schema.push(named("poi_lon", Kind::Decimal));
    schema.push(named("poi_weight", Kind::Number));
    schema.push(named("poi_visible", Kind::Flag));
    assert(schema.deep_view() =~= poi_columns());
    schema
}

/// The schema of the type table.
pub fn poi_type_schema() -> (schema: Vec<Column>)
    ensures
        schema.deep_view() == poi_type_columns(),
{
    let mut schema: Vec<Column> = Vec::new();
    schema.push(named("poi_type_id", Kind::Text));
    schema.push(named("poi_type_name", Kind::Text));
    assert(schema.deep_view() =~= poi_type_columns());
    schema
}

/// The schema of the property table.
pub fn property_schema() -> (schema: Vec<Column>)
    ensures
        schema.deep_view() == property_columns(),
{
    let mut schema: Vec<Column> = Vec::new();
    schema.push(named("poi_id", Kind::Text));
    schema.push(named("key", Kind::Text));
    schema.push(named("value", Kind::Text));
    assert(schema.deep_view() =~= property_columns());
    schema
}

impl PoiRecord {
    /// The record of a point of interest. `lat` and `lon` are the decimal
    /// texts of the point's latitude and longitude.
    pub fn from_poi(poi: &Poi, lat: String, lon: String) -> (record: PoiRecord)
        ensures
            record@ == (PoiRecordView {
                id: poi@.id,
                type_id: poi@.poi_type_id,
                name: poi@.name,
                lat: lat@,
                lon: lon@,
                weight: poi@.weight,
                visible: poi@.visible,
            }),
    {
        PoiRecord {
            id: poi.id.clone(),
            type_id: poi.poi_type_id.clone(),
            name: poi.name.clone(),
            lat,
            lon,
            weight: poi.weight,
            visible: poi.visible,
        }
    }

    /// The row that the record is written as.
    pub fn to_row(&self) -> (row: Vec<String>)
        ensures
            row.deep_view() == poi_row(self@),
    {
        let mut row: Vec<String> = Vec::new();
        row.push(self.id.clone());
        row.push(self.type_id.clone());
        row.push(self.name.clone());
        row.push(self.lat.clone());
        row.push(self.lon.clone());
        row.push(format_number(self.weight));
        row.push(format_flag(self.visible));
        assert(row.deep_view() =~= poi_row(self@));
        row
    }

    /// The record that a row holds, if the row is one of the point table's
    /// schema.
    pub fn from_row(row: &Vec<String>) -> (r: Option<PoiRecord>)
        ensures
            r.is_some() == conforms(poi_columns(), row.deep_view()),
            r matches Some(record) ==> record@ == poi_record(row.deep_view()),
    {
        let ghost fields = row.deep_view();
        if row.len() != 7 {
            return None;
        }
        proof {
            assert(fields[3] == row[3]@);
            assert(fields[4] == row[4]@);
            assert(fields[5] == row[5]@);
            assert(fields[6] == row[6]@);
        }
        if !is_decimal_text(row[3].as_str()) {
            assert(!crate::delimited::valid_field(poi_columns()[3].kind, fields[3]));
            return None;
        }
        if !is_decimal_text(row[4].as_str()) {
            assert(!crate::delimited::valid_field(poi_columns()[4].kind, fields[4]));
            return None;
        }
        let weight = match parse_number(row[5].as_str()) {
            Some(weight) => weight,
            None => {
                assert(!crate::delimited::valid_field(poi_columns()[5].kind, fields[5]));
                return None;
            },
        };
        let visible = match parse_flag(row[6].as_str()) {
            Some(visible) => visible,
            None => {
                assert(!crate::delimited::valid_field(poi_columns()[6].kind, fields[6]));
                return None;
            },
        };
        proof {
            assert forall|k: int| 0 <= k < 7 implies crate::delimited::valid_field(
                (#[trigger] poi_columns()[k]).kind,
                fields[k],
            ) by {}
            assert(fields[0] == row[0]@);
            assert(fields[1] == row[1]@);
            assert(fields[2] == row[2]@);
        }
        Some(
            PoiRecord {
                id: row[0].clone(),
                type_id: row[1].clone(),
                name: row[2].clone(),
                lat: row[3].clone(),
                lon: row[4].clone(),
                weight,
                visible,
            },
        )
    }
}

impl PoiTypeRecord {
    /// The row that the record is written as.
    pub fn to_row(&self) -> (row: Vec<String>)
        ensures
            row.deep_view() == poi_type_row(self@),
    {
        let mut row: Vec<String> = Vec::new();
        row.push(self.id.clone());
        row.push(self.name.clone());
        assert(row.deep_view() =~= poi_type_row(self@));
        row
    }

    /// The record that a row holds, if the row is one of the type table's
    /// schema.
    pub fn from_row(row: &Vec<String>) -> (r: Option<PoiTypeRecord>)
        ensures
            r.is_some() == conforms(poi_type_columns(), row.deep_view()),
            r matches Some(record) ==> record@ == poi_type_record(row.deep_view()),
    {
        let ghost fields = row.deep_view();
        if row.len() != 2 {
            return None;
        }
        proof {
            assert(fields[0] == row[0]@);
            assert(fields[1] == row[1]@);
            assert forall|k: int| 0 <= k < 2 implies crate::delimited::valid_field(
                (#[trigger] poi_type_columns()[k]).kind,
                fields[k],
            ) by {}
        }
        Some(PoiTypeRecord { id: row[0].clone(), name: row[1].clone() })
    }
}

impl PoiProperty {
    /// The row that the record is written as.
    pub fn to_row(&self) -> (row: Vec<String>)
        ensures
            row.deep_view() == property_row(self@),
    {
        let mut row: Vec<String> = Vec::new();
        row.push(self.poi_id.clone());
        row.push(self.key.clone());
        row.push(self.value.clone());
        assert(row.deep_view() =~= property_row(self@));
        row
    }

    /// The record that a row holds, if the row is one of the property
    /// table's schema.
    pub fn from_row(row: &Vec<String>) -> (r: Option<PoiProperty>)
        ensures
            r.is_some() == conforms(property_columns(), row.deep_view()),
            r matches Some(record) ==> record@ == property_record(row.deep_view()),
    {
        let ghost fields = row.deep_view();
        if row.len() != 3 {
            return None;
        }
        proof {
            assert(fields[0] == row[0]@);
            assert(fields[1] == row[1]@);
            assert(fields[2] == row[2]@);
            assert forall|k: int| 0 <= k < 3 implies crate::delimited::valid_field(
                (#[trigger] property_columns()[k]).kind,
                fields[k],
            ) by {}
        }
        Some(PoiProperty { poi_id: row[0].clone(), key: row[1].clone(), value: row[2].clone() })
    }
}

impl Poi {
    /// The point of interest of a record, at `coord` and without properties.
    /// The record's own coordinate texts are not looked at.
    pub fn from_record(record: PoiRecord, coord: Coord) -> (poi: Poi)
        ensures
            poi@ == blank_poi(record@, coord),
    {
        let poi = Poi {
            id: record.id,
            name: record.name,
            coord,
            poi_type_id: record.type_id,
            properties: StringMap::new(),
            visible: record.visible,
            weight: record.weight,
        };
        assert(poi@.properties =~= Map::<Seq<char>, Seq<char>>::empty());
        poi
    }
}

/// The point of interest of a record, at `coord` and without properties.
pub open spec fn blank_poi(record: PoiRecordView, coord: Coord) -> PoiView {
    PoiView {
        id: record.id,
        name: record.name,
        coord,
        poi_type_id: record.type_id,
        properties: Map::empty(),
        visible: record.visible,
        weight: record.weight,
    }
}

impl From<PoiTypeRecord> for PoiType {
    fn from(record: PoiTypeRecord) -> (poi_type: PoiType) {
        PoiType { id: record.id, name: record.name }
    }
}

impl FromSpecImpl<PoiTypeRecord> for PoiType {
    open spec fn obeys_from_spec() -> bool {
        true
    }

    open spec fn from_spec(record: PoiTypeRecord) -> PoiType {
        PoiType { id: record.id, name: record.name }
    }
}

impl From<PoiType> for PoiTypeRecord {
    fn from(poi_type: PoiType) -> (record: PoiTypeRecord) {
        PoiTypeRecord { id: poi_type.id, name: poi_type.name }
    }
}

impl FromSpecImpl<PoiType> for PoiTypeRecord {
    open spec fn obeys_from_spec() -> bool {
        true
    }

    open spec fn from_spec(poi_type: PoiType) -> PoiTypeRecord {
        PoiTypeRecord { id: poi_type.id, name: poi_type.name }
    }
}

impl From<PoiProperty> for Property {
    fn from(property: PoiProperty) -> (r: Property) {
        Property { key: property.key, value: property.value }
    }
}

impl FromSpecImpl<PoiProperty> for Property {
    open spec fn obeys_from_spec() -> bool {
        true
    }

    open spec fn from_spec(property: PoiProperty) -> Property {
        Property { key: property.key, value: property.value }
    }
}

} // verus!
