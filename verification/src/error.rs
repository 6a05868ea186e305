//! What can go wrong when tables are read, a catalog is assembled, or two
//! catalogs are merged.

use crate::fields::{format_natural, number_text};
use vstd::prelude::*;
use vstd::string::StringExecFns;

verus! {

/// A failure of one of the catalog's operations.
#[derive(Debug, Clone, PartialEq, Eq)]
pub enum ModelError {
    /// The archive lacks an entry that every archive must hold.
    MissingEntry { name: String },
    /// The bytes of an entry are not a delimited table. `detail` is the
    /// reader's own account of what it met.
    MalformedTable { table: String, detail: String },
    /// A table with records lacks a column, or holds it more than once.
    MissingColumn { table: String, column: String },
    /// A record is not as long as the header, or holds a field that is not
    /// of its column's kind. Records are counted from 0, the header left out.
    InvalidRecord { table: String, record: usize },
    /// A property names a point of interest that the point table lacks.
    UnknownPoi { poi_id: String },
    /// There is not one coordinate for each point of interest.
    CoordinateCount { expected: usize, found: usize },
    /// A table could not be written as delimited text that is read back as
    /// the same table.
    Unencodable { table: String },
    /// Both catalogs hold a point of interest under this identifier.
    DuplicatePoi { id: String },
    /// The catalogs give different names to the type with this identifier.
    PoiTypeConflict { id: String },
}

/// A [`ModelError`] with its texts as sequences of characters. The reader's
/// account of a malformed table is left out: nothing is stated of it.
pub enum ModelErrorView {
    MissingEntry { name: Seq<char> },
    MalformedTable { table: Seq<char> },
    MissingColumn { table: Seq<char>, column: Seq<char> },
    InvalidRecord { table: Seq<char>, record: nat },
    UnknownPoi { poi_id: Seq<char> },
    CoordinateCount { expected: nat, found: nat },
    Unencodable { table: Seq<char> },
    DuplicatePoi { id: Seq<char> },
    PoiTypeConflict { id: Seq<char> },
}

/// The four kinds of failure that callers tell apart.
#[derive(Debug, Clone, Copy, PartialEq, Eq, Structural)]
pub enum ErrorKind {
    /// An archive or one of its tables is not laid out as it must be.
    Format,
    /// A table refers to a record that another table lacks.
    Reference,
    /// Two catalogs cannot be merged.
    Conflict,
    /// The caller handed over values that do not fit together.
    Usage,
}

impl View for ModelError {
    type V = ModelErrorView;

    open spec fn view(&self) -> ModelErrorView {
        match self {
            ModelError::MissingEntry { name } => ModelErrorView::MissingEntry { name: name@ },
            ModelError::MalformedTable { table, detail } => ModelErrorView::MalformedTable { table: table@ },
            ModelError::MissingColumn { table, column } => ModelErrorView::MissingColumn {
                table: table@,
                column: column@,
            },
            ModelError::InvalidRecord { table, record } => ModelErrorView::InvalidRecord {
                table: table@,
                record: *record as nat,
            },
            ModelError::UnknownPoi { poi_id } => ModelErrorView::UnknownPoi { poi_id: poi_id@ },
            ModelError::CoordinateCount { expected, found } => ModelErrorView::CoordinateCount {
                expected: *expected as nat,
                found: *found as nat,
            },
            ModelError::Unencodable { table } => ModelErrorView::Unencodable { table: table@ },
            ModelError::DuplicatePoi { id } => ModelErrorView::DuplicatePoi { id: id@ },
            ModelError::PoiTypeConflict { id } => ModelErrorView::PoiTypeConflict { id: id@ },
        }
    }
}

impl ModelErrorView {
    /// The kind of failure that this is.
    pub open spec fn kind(self) -> ErrorKind {
        match self {
            ModelErrorView::MissingEntry { .. } => ErrorKind::Format,
            ModelErrorView::MalformedTable { .. } => ErrorKind::Format,
            ModelErrorView::MissingColumn { .. } => ErrorKind::Format,
            ModelErrorView::InvalidRecord { .. } => ErrorKind::Format,
            ModelErrorView::UnknownPoi { .. } => ErrorKind::Reference,
            ModelErrorView::CoordinateCount { .. } => ErrorKind::Usage,
            ModelErrorView::Unencodable { .. } => ErrorKind::Format,
            ModelErrorView::DuplicatePoi { .. } => ErrorKind::Conflict,
            ModelErrorView::PoiTypeConflict { .. } => ErrorKind::Conflict,
        }
    }
}

impl ModelError {
    /// What the failure is, in words.
    pub open spec fn spec_message(&self) -> Seq<char> {
        match self {
            ModelError::MissingEntry { name } => "archive has no entry '"@ + name@ + "'"@,
            ModelError::MalformedTable { table, detail } => "err "@ + detail@,
            ModelError::MissingColumn { table, column } => "in table '"@ + table@
                + "', column '"@ + column@ + "' is missing or repeated"@,
            ModelError::InvalidRecord { table, record } => "in table '"@ + table@
                + "', cannot read record "@ + number_text(*record as nat),
            ModelError::UnknownPoi { poi_id } => "cannot find poi '"@ + poi_id@
                + "' for property insertion"@,
            ModelError::CoordinateCount { expected, found } => "expected "@ + number_text(
                *expected as nat,
            ) + " coordinates, found "@ + number_text(*found as nat),
            ModelError::Unencodable { table } => "in table '"@ + table@
                + "', cannot write a record"@,
            ModelError::DuplicatePoi { id } => "POI with id "@ + id@ + " already in the model"@,
            ModelError::PoiTypeConflict { id } => "Trying to override POI Type with id "@ + id@,
        }
    }

    /// What the failure is, in words.
    pub fn message(&self) -> (text: String)
        ensures
            text@ == self.spec_message(),
    {
        match self {
            ModelError::MissingEntry { name } => {
                let mut text = String::from_str("archive has no entry '");
                text.append(name.as_str());
                text.append("'");
                text
            },
            ModelError::MalformedTable { table, detail } => {
                let mut text = String::from_str("err ");
                text.append(detail.as_str());
                text
            },
            ModelError::MissingColumn { table, column } => {
                let mut text = String::from_str("in table '");
                text.append(table.as_str());
                text.append("', column '");
                text.append(column.as_str());
                text.append("' is missing or repeated");
                text
            },
            ModelError::InvalidRecord { table, record } => {
                let mut text = String::from_str("in table '");
                text.append(table.as_str());
                text.append("', cannot read record ");
                text.append(format_natural(*record as u64).as_str());
                text
            },
            ModelError::UnknownPoi { poi_id } => {
                let mut text = String::from_str("cannot find poi '");
                text.append(poi_id.as_str());
                text.append("' for property insertion");
                text
            },
            ModelError::CoordinateCount { expected, found } => {
                let mut text = String::from_str("expected ");
                text.append(format_natural(*expected as u64).as_str());
                text.append(" coordinates, found ");
                text.append(format_natural(*found as u64).as_str());
                text
            },
            ModelError::Unencodable { table } => {
                let mut text = String::from_str("in table '");
                text.append(table.as_str());
                text.append("', cannot write a record");
                text
            },
            ModelError::DuplicatePoi { id } => {
                let mut text = String::from_str("POI with id ");
                text.append(id.as_str());
                text.append(" already in the model");
                text
            },
            ModelError::PoiTypeConflict { id } => {
                let mut text = String::from_str("Trying to override POI Type with id ");
                text.append(id.as_str());
                text
            },
        }
    }

    /// The kind of failure that this is.
    pub fn kind(&self) -> (k: ErrorKind)
        ensures
            k == self@.kind(),
    {
        match self {
            ModelError::MissingEntry { .. } => ErrorKind::Format,
            ModelError::MalformedTable { .. } => ErrorKind::Format,
            ModelError::MissingColumn { .. } => ErrorKind::Format,
            ModelError::InvalidRecord { .. } => ErrorKind::Format,
            ModelError::UnknownPoi { .. } => ErrorKind::Reference,
            ModelError::CoordinateCount { .. } => ErrorKind::Usage,
            ModelError::Unencodable { .. } => ErrorKind::Format,
            ModelError::DuplicatePoi { .. } => ErrorKind::Conflict,
            ModelError::PoiTypeConflict { .. } => ErrorKind::Conflict,
        }
    }
}

} // verus!
