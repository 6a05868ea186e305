use navitia_poi_model::{
    entry_names, read_tables, write_tables, Coord, CoordText, Entry, ErrorKind, Model, ModelError,
    Poi, PoiProperty, PoiRecord, PoiType, PoiTypeRecord, Property, StringMap, Tables,
};

fn entry(name: &str, data: &str) -> Entry {
    Entry { name: name.to_string(), data: data.as_bytes().to_vec() }
}

fn text(data: &[u8]) -> String {
    String::from_utf8(data.to_vec()).unwrap()
}

fn coord_of(record: &PoiRecord) -> Coord {
    let lon: f64 = record.lon.parse().unwrap();
    let lat: f64 = record.lat.parse().unwrap();
    Coord::new(lon.to_bits(), lat.to_bits())
}

fn text_of(coord: &Coord) -> CoordText {
    CoordText {
        lon: f64::from_bits(coord.lon()).to_string(),
        lat: f64::from_bits(coord.lat()).to_string(),
    }
}

fn load(archive: &Vec<Entry>) -> Result<Model, ModelError> {
    let tables = read_tables(archive)?;
    let coords: Vec<Coord> = tables.pois.iter().map(coord_of).collect();
    Model::from_tables(tables, &coords)
}

fn save(model: &Model) -> Result<Vec<Entry>, ModelError> {
    let texts: Vec<CoordText> =
        (0..model.pois.len()).map(|i| text_of(&model.pois.entry(i).unwrap().1.coord)).collect();
    write_tables(&model.to_tables(&texts)?)
}

fn poi(id: &str, name: &str, lon: f64, lat: f64, type_id: &str, props: &[(&str, &str)], visible: bool, weight: u32) -> Poi {
    let mut properties = StringMap::new();
    for (k, v) in props {
        properties.insert(k.to_string(), v.to_string());
    }
    Poi {
        id: id.to_string(),
        name: name.to_string(),
        coord: Coord::new(lon.to_bits(), lat.to_bits()),
        poi_type_id: type_id.to_string(),
        properties,
        visible,
        weight,
    }
}

fn sample() -> Model {
    let mut m = Model::default();
    for p in [
        poi("poi2", "Louvre; the museum", 2.3376, 48.8606, "museum", &[("wifi", "yes"), ("entrance", "pyramid \"main\"")], true, 10),
        poi("poi1", "Tour Eiffel", 2.2945, 48.8584, "tower", &[("height", "330")], false, 4294967295),
        poi("poi3", "Nowhere", 0., 0., "void", &[], true, 0),
        poi("poi0", "South", -70.5, -33.25, "tower", &[("b", "2"), ("a", "1"), ("c", "")], false, 7),
    ] {
        m.pois.insert(p.id.clone(), p);
    }
    for (id, name) in [("tower", "Tower"), ("museum", "Museum")] {
        m.poi_types.insert(id.to_string(), PoiType { id: id.to_string(), name: name.to_string() });
    }
    m
}

fn assert_same_poi(a: &Poi, b: &Poi) {
    assert_eq!(a.id, b.id);
    assert_eq!(a.name, b.name);
    assert_eq!(a.coord.lon(), b.coord.lon());
    assert_eq!(a.coord.lat(), b.coord.lat());
    assert_eq!(a.poi_type_id, b.poi_type_id);
    assert_eq!(a.visible, b.visible);
    assert_eq!(a.weight, b.weight);
    assert_eq!(a.properties.len(), b.properties.len());
    for i in 0..a.properties.len() {
        assert_eq!(a.properties.entry(i), b.properties.entry(i));
    }
}

fn assert_same_model(a: &Model, b: &Model) {
    assert_eq!(a.pois.len(), b.pois.len());
    for i in 0..a.pois.len() {
        let (ka, pa) = a.pois.entry(i).unwrap();
        let (kb, pb) = b.pois.entry(i).unwrap();
        assert_eq!(ka, kb);
        assert_same_poi(pa, pb);
    }
    assert_eq!(a.poi_types.len(), b.poi_types.len());
    for i in 0..a.poi_types.len() {
        assert_eq!(a.poi_types.entry(i), b.poi_types.entry(i));
    }
}

#[test]
fn an_archive_has_three_entries() {
    assert_eq!(entry_names(), vec!["poi.txt", "poi_type.txt", "poi_properties.txt"]);
}

#[test]
fn a_catalog_is_written_as_three_tables() {
    let archive = save(&sample()).unwrap();
    assert_eq!(archive.len(), 3);
    assert_eq!(archive[0].name, "poi.txt");
    assert_eq!(archive[1].name, "poi_type.txt");
    assert_eq!(archive[2].name, "poi_properties.txt");
    assert_eq!(
        text(&archive[0].data),
        "poi_id;poi_type_id;poi_name;poi_lat;poi_lon;poi_weight;poi_visible\n\
         poi0;tower;South;-33.25;-70.5;7;0\n\
         poi1;tower;Tour Eiffel;48.8584;2.2945;4294967295;0\n\
         poi2;museum;\"Louvre; the museum\";48.8606;2.3376;10;1\n\
         poi3;void;Nowhere;0;0;0;1\n"
    );
    assert_eq!(text(&archive[1].data), "poi_type_id;poi_type_name\nmuseum;Museum\ntower;Tower\n");
    assert_eq!(
        text(&archive[2].data),
        "poi_id;key;value\n\
         poi0;a;1\n\
         poi0;b;2\n\
         poi0;c;\n\
         poi1;height;330\n\
         poi2;entrance;\"pyramid \"\"main\"\"\"\n\
         poi2;wifi;yes\n"
    );
}

#[test]
fn an_empty_catalog_is_written_as_three_headers() {
    let archive = save(&Model::default()).unwrap();
    assert_eq!(archive.len(), 3);
    assert_eq!(text(&archive[0].data), "poi_id;poi_type_id;poi_name;poi_lat;poi_lon;poi_weight;poi_visible\n");
    assert_eq!(text(&archive[1].data), "poi_type_id;poi_type_name\n");
    assert_eq!(text(&archive[2].data), "poi_id;key;value\n");
}

#[test]
fn a_catalog_without_properties_still_has_a_property_table() {
    let mut m = Model::default();
    let p = poi("poi1", "One", 1., 2., "t", &[], true, 1);
    m.pois.insert(p.id.clone(), p);
    let archive = save(&m).unwrap();
    assert_eq!(archive[2].name, "poi_properties.txt");
    assert_eq!(text(&archive[2].data), "poi_id;key;value\n");
}

#[test]
fn a_hidden_poi_is_written_with_zero() {
    let mut m = Model::default();
    let p = poi("poi1", "One", 1., 2., "t", &[], false, 1);
    m.pois.insert(p.id.clone(), p);
    let archive = save(&m).unwrap();
    assert_eq!(text(&archive[0].data).lines().nth(1).unwrap(), "poi1;t;One;2;1;1;0");
    let q = poi("poi1", "One", 1., 2., "t", &[], true, 1);
    let mut m = Model::default();
    m.pois.insert(q.id.clone(), q);
    let archive = save(&m).unwrap();
    assert_eq!(text(&archive[0].data).lines().nth(1).unwrap(), "poi1;t;One;2;1;1;1");
}

#[test]
fn a_written_catalog_is_read_back() {
    let m = sample();
    let archive = save(&m).unwrap();
    let back = load(&archive).unwrap();
    assert_same_model(&m, &back);
}

#[test]
fn an_empty_catalog_is_read_back() {
    let back = load(&save(&Model::default()).unwrap()).unwrap();
    assert_eq!(back.pois.len(), 0);
    assert_eq!(back.poi_types.len(), 0);
}

#[test]
fn odd_texts_are_read_back() {
    let mut m = Model::default();
    for p in [
        poi("", "", 1e-7, -1e21, "", &[("", "")], true, 1),
        poi("a;b", "x\ny", 179.99999999999997, -89.99999999999999, "t\"1\"", &[("k;1", "v\n1"), ("k\"2\"", " v ")], false, 2),
        poi("日本", "été", f64::MIN_POSITIVE, f64::MAX, "#", &[("#k", "'v'")], true, 3),
    ] {
        m.pois.insert(p.id.clone(), p);
    }
    m.poi_types.insert("".to_string(), PoiType { id: "".to_string(), name: "".to_string() });
    m.poi_types.insert("t\"1\"".to_string(), PoiType { id: "t\"1\"".to_string(), name: "a;b\r\nc".to_string() });
    let back = load(&save(&m).unwrap()).unwrap();
    assert_same_model(&m, &back);
}

#[test]
fn tables_are_read_from_an_archive() {
    let archive = vec![
        entry("poi.txt", "poi_id;poi_type_id;poi_name;poi_lat;poi_lon;poi_weight;poi_visible\npoi1;t1;One;48.85;2.35;3;1\n"),
        entry("poi_type.txt", "poi_type_id;poi_type_name\nt1;Cafe\n"),
        entry("poi_properties.txt", "poi_id;key;value\npoi1;wifi;yes\n"),
    ];
    let tables = read_tables(&archive).unwrap();
    assert_eq!(tables.pois.len(), 1);
    let record = &tables.pois[0];
    assert_eq!(record.id, "poi1");
    assert_eq!(record.type_id, "t1");
    assert_eq!(record.name, "One");
    assert_eq!(record.lat, "48.85");
    assert_eq!(record.lon, "2.35");
    assert_eq!(record.weight, 3);
    assert!(record.visible);
    assert_eq!(tables.poi_types, vec![PoiTypeRecord { id: "t1".to_string(), name: "Cafe".to_string() }]);
    assert_eq!(
        tables.properties,
        vec![PoiProperty { poi_id: "poi1".to_string(), key: "wifi".to_string(), value: "yes".to_string() }]
    );
}

#[test]
fn an_archive_without_a_property_table_is_read() {
    let archive = vec![
        entry("poi.txt", "poi_id;poi_type_id;poi_name;poi_lat;poi_lon;poi_weight;poi_visible\npoi1;t1;One;48.85;2.35;3;1\npoi2;t1;Two;1;2;0;0\n"),
        entry("poi_type.txt", "poi_type_id;poi_type_name\nt1;Cafe\n"),
    ];
    let tables = read_tables(&archive).unwrap();
    assert!(tables.properties.is_empty());
    let m = load(&archive).unwrap();
    assert_eq!(m.pois.len(), 2);
    assert_eq!(m.pois.get("poi1").unwrap().properties.len(), 0);
    assert_eq!(m.pois.get("poi2").unwrap().properties.len(), 0);
    assert_eq!(m.poi_types.get("t1").unwrap().name, "Cafe");
}

#[test]
fn an_archive_without_a_poi_table_is_refused() {
    let archive = vec![entry("poi_type.txt", "poi_type_id;poi_type_name\nt1;Cafe\n")];
    let e = read_tables(&archive).unwrap_err();
    assert_eq!(e, ModelError::MissingEntry { name: "poi.txt".to_string() });
    assert_eq!(e.kind(), ErrorKind::Format);
    assert_eq!(read_tables(&vec![]).unwrap_err(), ModelError::MissingEntry { name: "poi.txt".to_string() });
}

#[test]
fn an_archive_without_a_type_table_is_refused() {
    let archive = vec![
        entry("poi.txt", "poi_id;poi_type_id;poi_name;poi_lat;poi_lon;poi_weight;poi_visible\n"),
        entry("poi_properties.txt", "poi_id;key;value\n"),
    ];
    let e = read_tables(&archive).unwrap_err();
    assert_eq!(e, ModelError::MissingEntry { name: "poi_type.txt".to_string() });
    assert_eq!(e.kind(), ErrorKind::Format);
}

#[test]
fn entries_of_other_names_are_passed_over() {
    let archive = vec![
        entry("readme.txt", "hello"),
        entry("poi_type.txt", "poi_type_id;poi_type_name\nt1;Cafe\n"),
        entry("poi.txt", "poi_id;poi_type_id;poi_name;poi_lat;poi_lon;poi_weight;poi_visible\n"),
    ];
    let tables = read_tables(&archive).unwrap();
    assert_eq!(tables.poi_types.len(), 1);
    assert!(tables.pois.is_empty());
}

#[test]
fn the_first_entry_of_a_name_is_read() {
    let archive = vec![
        entry("poi.txt", ""),
        entry("poi_type.txt", "poi_type_id;poi_type_name\nt1;Cafe\n"),
        entry("poi_type.txt", "poi_type_id;poi_type_name\nt2;Bar\n"),
    ];
    let tables = read_tables(&archive).unwrap();
    assert_eq!(tables.poi_types, vec![PoiTypeRecord { id: "t1".to_string(), name: "Cafe".to_string() }]);
}

#[test]
fn empty_entries_are_empty_tables() {
    let archive = vec![entry("poi.txt", ""), entry("poi_type.txt", ""), entry("poi_properties.txt", "")];
    let m = load(&archive).unwrap();
    assert_eq!(m.pois.len(), 0);
    assert_eq!(m.poi_types.len(), 0);
}

#[test]
fn a_property_of_an_unknown_poi_is_refused() {
    let archive = vec![
        entry("poi.txt", "poi_id;poi_type_id;poi_name;poi_lat;poi_lon;poi_weight;poi_visible\npoi1;t1;One;48.85;2.35;3;1\n"),
        entry("poi_type.txt", "poi_type_id;poi_type_name\nt1;Cafe\n"),
        entry("poi_properties.txt", "poi_id;key;value\npoi1;wifi;yes\npoi9;wifi;no\npoi8;wifi;no\n"),
    ];
    let e = load(&archive).unwrap_err();
    assert_eq!(e, ModelError::UnknownPoi { poi_id: "poi9".to_string() });
    assert_eq!(e.kind(), ErrorKind::Reference);
}

#[test]
fn visible_zero_is_false_and_one_is_true() {
    let archive = vec![
        entry("poi.txt", "poi_id;poi_type_id;poi_name;poi_lat;poi_lon;poi_weight;poi_visible\npoi1;t1;One;48.85;2.35;3;0\npoi2;t1;Two;48.85;2.35;3;1\n"),
        entry("poi_type.txt", ""),
    ];
    let m = load(&archive).unwrap();
    assert!(!m.pois.get("poi1").unwrap().visible);
    assert!(m.pois.get("poi2").unwrap().visible);
}

#[test]
fn visible_other_than_zero_or_one_is_refused() {
    for bad in ["2", "true", "false", "", "-1", "0.5", "256"] {
        let archive = vec![
            entry(
                "poi.txt",
                &format!("poi_id;poi_type_id;poi_name;poi_lat;poi_lon;poi_weight;poi_visible\npoi0;t1;Zero;1;1;3;1\npoi1;t1;One;48.85;2.35;3;{}\n", bad),
            ),
            entry("poi_type.txt", ""),
        ];
        let e = read_tables(&archive).unwrap_err();
        assert_eq!(e, ModelError::InvalidRecord { table: "poi.txt".to_string(), record: 1 }, "{:?}", bad);
        assert_eq!(e.kind(), ErrorKind::Format);
    }
}

#[test]
fn a_weight_that_is_no_number_is_refused() {
    let archive = vec![
        entry("poi.txt", "poi_id;poi_type_id;poi_name;poi_lat;poi_lon;poi_weight;poi_visible\npoi1;t1;One;48.85;2.35;heavy;1\n"),
        entry("poi_type.txt", ""),
    ];
    assert_eq!(
        read_tables(&archive).unwrap_err(),
        ModelError::InvalidRecord { table: "poi.txt".to_string(), record: 0 }
    );
}

#[test]
fn a_poi_table_without_a_column_is_refused() {
    let archive = vec![
        entry("poi.txt", "poi_id;poi_type_id;poi_name;poi_lat;poi_lon;poi_weight\npoi1;t1;One;48.85;2.35;3\n"),
        entry("poi_type.txt", ""),
    ];
    assert_eq!(
        read_tables(&archive).unwrap_err(),
        ModelError::MissingColumn { table: "poi.txt".to_string(), column: "poi_visible".to_string() }
    );
}

#[test]
fn a_failure_in_the_property_table_is_a_failure() {
    let archive = vec![
        entry("poi.txt", ""),
        entry("poi_type.txt", ""),
        entry("poi_properties.txt", "poi_id;key\npoi1;wifi\n"),
    ];
    assert_eq!(
        read_tables(&archive).unwrap_err(),
        ModelError::MissingColumn { table: "poi_properties.txt".to_string(), column: "value".to_string() }
    );
}

#[test]
fn the_poi_table_is_read_before_the_type_table() {
    let archive = vec![
        entry("poi_type.txt", "poi_type_id\nt1\n"),
        entry("poi.txt", "poi_id\npoi1\n"),
    ];
    assert_eq!(
        read_tables(&archive).unwrap_err(),
        ModelError::MissingColumn { table: "poi.txt".to_string(), column: "poi_type_id".to_string() }
    );
}

#[test]
fn later_records_take_the_place_of_earlier_ones() {
    let archive = vec![
        entry("poi.txt", "poi_id;poi_type_id;poi_name;poi_lat;poi_lon;poi_weight;poi_visible\npoi1;t1;First;1;1;1;1\npoi1;t2;Second;2;2;2;0\n"),
        entry("poi_type.txt", "poi_type_id;poi_type_name\nt1;Cafe\nt1;Bar\n"),
        entry("poi_properties.txt", "poi_id;key;value\npoi1;k;old\npoi1;k;new\n"),
    ];
    let m = load(&archive).unwrap();
    assert_eq!(m.pois.len(), 1);
    let p = m.pois.get("poi1").unwrap();
    assert_eq!(p.name, "Second");
    assert_eq!(p.poi_type_id, "t2");
    assert_eq!(p.weight, 2);
    assert!(!p.visible);
    assert_eq!(f64::from_bits(p.coord.lat()), 2.);
    assert_eq!(p.properties.len(), 1);
    assert_eq!(p.properties.get("k").unwrap(), "new");
    assert_eq!(m.poi_types.len(), 1);
    assert_eq!(m.poi_types.get("t1").unwrap().name, "Bar");
}

#[test]
fn a_poi_may_name_a_type_that_the_catalog_lacks() {
    let archive = vec![
        entry("poi.txt", "poi_id;poi_type_id;poi_name;poi_lat;poi_lon;poi_weight;poi_visible\npoi1;ghost;One;1;1;1;1\n"),
        entry("poi_type.txt", "poi_type_id;poi_type_name\nt1;Cafe\n"),
    ];
    let m = load(&archive).unwrap();
    assert_eq!(m.pois.get("poi1").unwrap().poi_type_id, "ghost");
    assert!(!m.poi_types.contains_key("ghost"));
}

#[test]
fn coordinates_are_not_checked_when_a_catalog_is_assembled() {
    let archive = vec![
        entry("poi.txt", "poi_id;poi_type_id;poi_name;poi_lat;poi_lon;poi_weight;poi_visible\npoi1;t;One;95;200;1;1\npoi2;t;Two;0;0;1;1\n"),
        entry("poi_type.txt", ""),
    ];
    let m = load(&archive).unwrap();
    assert!(!m.pois.get("poi1").unwrap().coord.is_valid());
    assert!(m.pois.get("poi2").unwrap().coord.is_default());
}

#[test]
fn one_coordinate_is_needed_for_each_record() {
    let tables = Tables {
        pois: vec![PoiRecord {
            id: "poi1".to_string(),
            type_id: "t".to_string(),
            name: "One".to_string(),
            lat: "1".to_string(),
            lon: "2".to_string(),
            weight: 0,
            visible: true,
        }],
        poi_types: vec![],
        properties: vec![],
    };
    let e = Model::from_tables(tables.clone(), &vec![]).unwrap_err();
    assert_eq!(e, ModelError::CoordinateCount { expected: 1, found: 0 });
    assert_eq!(e.kind(), ErrorKind::Usage);
    let c = Coord::new(2f64.to_bits(), 1f64.to_bits());
    assert_eq!(
        Model::from_tables(tables.clone(), &vec![c, c]).unwrap_err(),
        ModelError::CoordinateCount { expected: 1, found: 2 }
    );
    let m = Model::from_tables(tables, &vec![c]).unwrap();
    assert_eq!(m.pois.get("poi1").unwrap().coord.lon(), 2f64.to_bits());
    assert_eq!(m.pois.get("poi1").unwrap().coord.lat(), 1f64.to_bits());
}

#[test]
fn one_text_is_needed_for_each_poi() {
    let m = sample();
    let e = m.to_tables(&vec![]).unwrap_err();
    assert_eq!(e, ModelError::CoordinateCount { expected: 4, found: 0 });
}

#[test]
fn tables_follow_the_order_of_the_identifiers() {
    let m = sample();
    let texts: Vec<CoordText> =
        (0..4).map(|i| CoordText { lon: format!("lon{}", i), lat: format!("lat{}", i) }).collect();
    let tables = m.to_tables(&texts).unwrap();
    let ids: Vec<&str> = tables.pois.iter().map(|r| r.id.as_str()).collect();
    assert_eq!(ids, vec!["poi0", "poi1", "poi2", "poi3"]);
    assert_eq!(tables.pois[2].lon, "lon2");
    assert_eq!(tables.pois[2].lat, "lat2");
    assert_eq!(tables.pois[1].weight, 4294967295);
    assert_eq!(tables.pois[1].type_id, "tower");
    let type_ids: Vec<&str> = tables.poi_types.iter().map(|r| r.id.as_str()).collect();
    assert_eq!(type_ids, vec!["museum", "tower"]);
    let props: Vec<(&str, &str, &str)> =
        tables.properties.iter().map(|p| (p.poi_id.as_str(), p.key.as_str(), p.value.as_str())).collect();
    assert_eq!(
        props,
        vec![
            ("poi0", "a", "1"),
            ("poi0", "b", "2"),
            ("poi0", "c", ""),
            ("poi1", "height", "330"),
            ("poi2", "entrance", "pyramid \"main\""),
            ("poi2", "wifi", "yes"),
        ]
    );
}

#[test]
fn records_and_rows() {
    let record = PoiRecord {
        id: "poi1".to_string(),
        type_id: "t".to_string(),
        name: "One".to_string(),
        lat: "1.5".to_string(),
        lon: "-2".to_string(),
        weight: 12,
        visible: false,
    };
    let row = record.to_row();
    assert_eq!(row, vec!["poi1", "t", "One", "1.5", "-2", "12", "0"]);
    let back = PoiRecord::from_row(&row).unwrap();
    assert_eq!(back.id, "poi1");
    assert_eq!(back.lat, "1.5");
    assert_eq!(back.lon, "-2");
    assert_eq!(back.weight, 12);
    assert!(!back.visible);
    assert!(PoiRecord::from_row(&vec!["poi1".to_string()]).is_none());
    let t = PoiTypeRecord { id: "t".to_string(), name: "T".to_string() };
    assert_eq!(PoiTypeRecord::from_row(&t.to_row()), Some(t));
    let p = PoiProperty { poi_id: "p".to_string(), key: "k".to_string(), value: "v".to_string() };
    assert_eq!(PoiProperty::from_row(&p.to_row()), Some(p));
}

#[test]
fn conversions_between_records_and_entities() {
    let t = PoiType::from(PoiTypeRecord { id: "t".to_string(), name: "T".to_string() });
    assert_eq!(t, PoiType { id: "t".to_string(), name: "T".to_string() });
    let r = PoiTypeRecord::from(t);
    assert_eq!(r, PoiTypeRecord { id: "t".to_string(), name: "T".to_string() });
    let p = Property::from(PoiProperty { poi_id: "p".to_string(), key: "k".to_string(), value: "v".to_string() });
    assert_eq!(p, Property { key: "k".to_string(), value: "v".to_string() });
    let poi = poi("poi1", "One", 2.35, 48.85, "t", &[("k", "v")], true, 5);
    let record = PoiRecord::from_poi(&poi, "48.85".to_string(), "2.35".to_string());
    assert_eq!(record.id, "poi1");
    assert_eq!(record.type_id, "t");
    assert_eq!(record.name, "One");
    assert_eq!(record.lat, "48.85");
    assert_eq!(record.lon, "2.35");
    assert_eq!(record.weight, 5);
    assert!(record.visible);
    let back = Poi::from_record(record, poi.coord);
    assert_eq!(back.id, "poi1");
    assert_eq!(back.name, "One");
    assert_eq!(back.poi_type_id, "t");
    assert_eq!(back.coord.lon(), 2.35f64.to_bits());
    assert_eq!(back.properties.len(), 0);
    assert!(back.visible);
    assert_eq!(back.weight, 5);
}

#[test]
fn to_archive_is_to_tables_then_write_tables() {
    let m = sample();
    let texts: Vec<CoordText> =
        (0..m.pois.len()).map(|i| text_of(&m.pois.entry(i).unwrap().1.coord)).collect();
    let direct = m.to_archive(&texts).unwrap();
    let by_steps = write_tables(&m.to_tables(&texts).unwrap()).unwrap();
    assert_eq!(direct, by_steps);
    assert_eq!(m.to_archive(&vec![]).unwrap_err(), ModelError::CoordinateCount { expected: 4, found: 0 });
}

#[test]
fn the_archive_extension() {
    assert_eq!(navitia_poi_model::io::ARCHIVE_EXTENSION, "poi");
}

#[test]
fn a_coordinate_that_is_no_number_is_refused() {
    for (lat, lon) in [("north", "2.35"), ("48.85", ""), ("48,85", "2.35"), ("48.85", "2.35 ")] {
        let archive = vec![
            entry(
                "poi.txt",
                &format!("poi_id;poi_type_id;poi_name;poi_lat;poi_lon;poi_weight;poi_visible\na;t;A;1;2;3;1\nb;t;B;{};{};3;1\n", lat, lon),
            ),
            entry("poi_type.txt", ""),
        ];
        let e = read_tables(&archive).unwrap_err();
        assert_eq!(e, ModelError::InvalidRecord { table: "poi.txt".to_string(), record: 1 }, "{:?} {:?}", lat, lon);
        assert_eq!(e.kind(), ErrorKind::Format);
    }
}

#[test]
fn a_coordinate_text_that_is_no_number_is_not_written() {
    let m = sample();
    let mut texts: Vec<CoordText> =
        (0..m.pois.len()).map(|i| text_of(&m.pois.entry(i).unwrap().1.coord)).collect();
    texts[2].lat = "north".to_string();
    assert_eq!(
        m.to_archive(&texts).unwrap_err(),
        ModelError::InvalidRecord { table: "poi.txt".to_string(), record: 2 }
    );
}

#[test]
fn every_number_that_is_written_is_read_as_a_coordinate() {
    let mut m = Model::default();
    let numbers = [0., -0., 1e-320, 5e-324, 0.1, 2.35, 48.85, 1e21, 1e-7, 123456789.123456789, f64::MAX, f64::MIN, f64::INFINITY, f64::NEG_INFINITY];
    for (i, lon) in numbers.iter().enumerate() {
        for (j, lat) in numbers.iter().enumerate() {
            let p = poi(&format!("{:02}-{:02}", i, j), "", *lon, *lat, "", &[], true, 0);
            m.pois.insert(p.id.clone(), p);
        }
    }
    let back = load(&save(&m).unwrap()).unwrap();
    assert_same_model(&m, &back);
}
