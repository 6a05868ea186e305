//! A catalog of points of interest: what it holds, how two catalogs are
//! merged, and how a catalog is written to and read from the three tables of
//! its archive.

pub mod assembly;
pub mod delimited;
pub mod error;
pub mod fields;
pub mod io;
pub mod objects;
pub mod records;
pub mod round_trip;
pub mod string_map;
pub mod text;

pub use assembly::CoordText;
pub use error::{ErrorKind, ModelError};
pub use io::{entry_names, read_tables, write_tables, Entry, Tables};
pub use objects::{Coord, Model, Poi, PoiType, Property};
pub use records::{PoiProperty, PoiRecord, PoiTypeRecord};
pub use string_map::StringMap;
