use navitia_poi_model::{Coord, ErrorKind, Model, ModelError, Poi, PoiType, StringMap};

fn poi(id: &str, name: &str, poi_type_id: &str) -> Poi {
    Poi {
        id: id.to_string(),
        name: name.to_string(),
        coord: Coord::new(2.35f64.to_bits(), 48.85f64.to_bits()),
        poi_type_id: poi_type_id.to_string(),
        properties: StringMap::new(),
        visible: true,
        weight: 1,
    }
}

fn model(pois: Vec<Poi>, poi_types: Vec<(&str, &str)>) -> Model {
    let mut m = Model::default();
    for p in pois {
        m.pois.insert(p.id.clone(), p);
    }
    for (id, name) in poi_types {
        m.poi_types.insert(id.to_string(), PoiType { id: id.to_string(), name: name.to_string() });
    }
    m
}

fn poi_ids(m: &Model) -> Vec<String> {
    (0..m.pois.len()).map(|i| m.pois.entry(i).unwrap().0.clone()).collect()
}

fn types(m: &Model) -> Vec<(String, String)> {
    (0..m.poi_types.len())
        .map(|i| {
            let (key, poi_type) = m.poi_types.entry(i).unwrap();
            assert_eq!(key, &poi_type.id);
            (poi_type.id.clone(), poi_type.name.clone())
        })
        .collect()
}

#[test]
fn default_model_is_empty() {
    let m = Model::default();
    assert_eq!(m.pois.len(), 0);
    assert_eq!(m.poi_types.len(), 0);
}

#[test]
fn merge_of_disjoint_catalogs_holds_both() {
    let a = model(vec![poi("a1", "A one", "t1"), poi("a2", "A two", "t1")], vec![("t1", "Cafe")]);
    let b = model(
        vec![poi("b1", "B one", "t2"), poi("a0", "A zero", "t2"), poi("b2", "B two", "t2")],
        vec![("t2", "Bar")],
    );
    let merged = a.try_merge(b).unwrap();
    assert_eq!(merged.pois.len(), 2 + 3);
    assert_eq!(poi_ids(&merged), vec!["a0", "a1", "a2", "b1", "b2"]);
    assert_eq!(merged.pois.get("a0").unwrap().name, "A zero");
    assert_eq!(merged.pois.get("a2").unwrap().name, "A two");
    assert_eq!(merged.pois.get("b1").unwrap().poi_type_id, "t2");
    assert_eq!(
        types(&merged),
        vec![("t1".to_string(), "Cafe".to_string()), ("t2".to_string(), "Bar".to_string())]
    );
}

#[test]
fn merge_of_disjoint_pois_with_identical_types() {
    let a = model(vec![poi("a1", "A one", "t1")], vec![("t1", "Cafe"), ("t2", "Bar")]);
    let b = model(vec![poi("b1", "B one", "t1")], vec![("t1", "Cafe"), ("t2", "Bar")]);
    let merged = a.try_merge(b).unwrap();
    assert_eq!(merged.pois.len(), 2);
    assert_eq!(merged.poi_types.len(), 2);
}

#[test]
fn merge_with_an_empty_catalog_changes_nothing() {
    let a = model(vec![poi("a1", "A one", "t1")], vec![("t1", "Cafe")]);
    let merged = a.try_merge(Model::default()).unwrap();
    assert_eq!(poi_ids(&merged), vec!["a1"]);
    assert_eq!(types(&merged), vec![("t1".to_string(), "Cafe".to_string())]);
    let b = model(vec![poi("b1", "B one", "t1")], vec![("t1", "Cafe")]);
    let merged = Model::default().try_merge(b).unwrap();
    assert_eq!(poi_ids(&merged), vec!["b1"]);
    assert_eq!(types(&merged), vec![("t1".to_string(), "Cafe".to_string())]);
}

#[test]
fn merge_keeps_properties() {
    let mut p = poi("a1", "A one", "t1");
    p.properties.insert("wifi".to_string(), "yes".to_string());
    let a = model(vec![p], vec![]);
    let mut q = poi("b1", "B one", "t1");
    q.properties.insert("seats".to_string(), "12".to_string());
    let b = model(vec![q], vec![]);
    let merged = a.try_merge(b).unwrap();
    assert_eq!(merged.pois.get("a1").unwrap().properties.get("wifi").unwrap(), "yes");
    assert_eq!(merged.pois.get("b1").unwrap().properties.get("seats").unwrap(), "12");
}

#[test]
fn merge_fails_on_a_shared_poi_even_if_identical() {
    let a = model(vec![poi("poi1", "Same", "t1")], vec![("t1", "Cafe")]);
    let b = model(vec![poi("poi1", "Same", "t1")], vec![("t1", "Cafe")]);
    let e = a.try_merge(b).unwrap_err();
    assert_eq!(e, ModelError::DuplicatePoi { id: "poi1".to_string() });
    assert_eq!(e.kind(), ErrorKind::Conflict);
}

#[test]
fn merge_fails_on_a_shared_poi_that_differs() {
    let a = model(vec![poi("poi0", "Zero", "t1"), poi("poi1", "One", "t1")], vec![]);
    let b = model(vec![poi("poi1", "Other", "t2"), poi("poi2", "Two", "t1")], vec![]);
    let e = a.try_merge(b).unwrap_err();
    assert_eq!(e, ModelError::DuplicatePoi { id: "poi1".to_string() });
}

#[test]
fn merge_names_the_first_shared_poi() {
    let a = model(vec![poi("c", "", ""), poi("a", "", ""), poi("b", "", "")], vec![]);
    let b = model(vec![poi("c", "", ""), poi("b", "", ""), poi("z", "", "")], vec![]);
    let e = a.try_merge(b).unwrap_err();
    assert_eq!(e, ModelError::DuplicatePoi { id: "b".to_string() });
}

#[test]
fn merge_fails_on_a_type_with_two_names() {
    let a = model(vec![poi("a1", "A one", "t1")], vec![("t1", "Cafe")]);
    let b = model(vec![poi("b1", "B one", "t1")], vec![("t1", "Coffee Shop")]);
    let e = a.try_merge(b).unwrap_err();
    assert_eq!(e, ModelError::PoiTypeConflict { id: "t1".to_string() });
    assert_eq!(e.kind(), ErrorKind::Conflict);
}

#[test]
fn merge_accepts_a_type_that_is_the_same_in_both() {
    let a = model(vec![poi("a1", "A one", "t1")], vec![("t1", "Cafe")]);
    let b = model(vec![poi("b1", "B one", "t1")], vec![("t1", "Cafe")]);
    let merged = a.try_merge(b).unwrap();
    assert_eq!(types(&merged), vec![("t1".to_string(), "Cafe".to_string())]);
}

#[test]
fn merge_names_the_first_clashing_type() {
    let a = model(vec![], vec![("t1", "Cafe"), ("t2", "Bar"), ("t3", "Pub")]);
    let b = model(vec![], vec![("t3", "Inn"), ("t1", "Cafe"), ("t2", "Tavern")]);
    let e = a.try_merge(b).unwrap_err();
    assert_eq!(e, ModelError::PoiTypeConflict { id: "t2".to_string() });
}

#[test]
fn a_shared_poi_is_reported_before_a_clashing_type() {
    let a = model(vec![poi("poi1", "One", "t1")], vec![("t1", "Cafe")]);
    let b = model(vec![poi("poi1", "One", "t1")], vec![("t1", "Coffee Shop")]);
    let e = a.try_merge(b).unwrap_err();
    assert_eq!(e, ModelError::DuplicatePoi { id: "poi1".to_string() });
}

#[test]
fn same_type_compares_both_fields() {
    let cafe = PoiType { id: "t1".to_string(), name: "Cafe".to_string() };
    assert!(cafe.same_as(&PoiType { id: "t1".to_string(), name: "Cafe".to_string() }));
    assert!(!cafe.same_as(&PoiType { id: "t1".to_string(), name: "cafe".to_string() }));
    assert!(!cafe.same_as(&PoiType { id: "t2".to_string(), name: "Cafe".to_string() }));
}
