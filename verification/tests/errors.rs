use navitia_poi_model::{ErrorKind, ModelError};

#[test]
fn messages_of_conflicts() {
    assert_eq!(
        ModelError::DuplicatePoi { id: "poi1".to_string() }.message(),
        "POI with id poi1 already in the model"
    );
    assert_eq!(
        ModelError::PoiTypeConflict { id: "t1".to_string() }.message(),
        "Trying to override POI Type with id t1"
    );
}

#[test]
fn message_of_a_property_without_its_poi() {
    assert_eq!(
        ModelError::UnknownPoi { poi_id: "poi9".to_string() }.message(),
        "cannot find poi 'poi9' for property insertion"
    );
}

#[test]
fn messages_of_tables() {
    assert_eq!(
        ModelError::MissingEntry { name: "poi.txt".to_string() }.message(),
        "archive has no entry 'poi.txt'"
    );
    assert_eq!(
        ModelError::MalformedTable { table: "poi.txt".to_string(), detail: "unequal lengths".to_string() }.message(),
        "err unequal lengths"
    );
    assert_eq!(
        ModelError::MissingColumn { table: "poi.txt".to_string(), column: "poi_id".to_string() }.message(),
        "in table 'poi.txt', column 'poi_id' is missing or repeated"
    );
    assert_eq!(
        ModelError::InvalidRecord { table: "poi.txt".to_string(), record: 120 }.message(),
        "in table 'poi.txt', cannot read record 120"
    );
    assert_eq!(
        ModelError::Unencodable { table: "poi.txt".to_string() }.message(),
        "in table 'poi.txt', cannot write a record"
    );
    assert_eq!(
        ModelError::CoordinateCount { expected: 3, found: 18446744073709551615 }.message(),
        "expected 3 coordinates, found 18446744073709551615"
    );
}

#[test]
fn kinds_of_failures() {
    assert_eq!(ModelError::MissingEntry { name: String::new() }.kind(), ErrorKind::Format);
    assert_eq!(ModelError::MalformedTable { table: String::new(), detail: String::new() }.kind(), ErrorKind::Format);
    assert_eq!(ModelError::MissingColumn { table: String::new(), column: String::new() }.kind(), ErrorKind::Format);
    assert_eq!(ModelError::InvalidRecord { table: String::new(), record: 0 }.kind(), ErrorKind::Format);
    assert_eq!(ModelError::Unencodable { table: String::new() }.kind(), ErrorKind::Format);
    assert_eq!(ModelError::UnknownPoi { poi_id: String::new() }.kind(), ErrorKind::Reference);
    assert_eq!(ModelError::DuplicatePoi { id: String::new() }.kind(), ErrorKind::Conflict);
    assert_eq!(ModelError::PoiTypeConflict { id: String::new() }.kind(), ErrorKind::Conflict);
    assert_eq!(ModelError::CoordinateCount { expected: 0, found: 1 }.kind(), ErrorKind::Usage);
}
