use navitia_poi_model::text::{rank, Rank};
use navitia_poi_model::StringMap;

fn keys(m: &StringMap<u32>) -> Vec<String> {
    (0..m.len()).map(|i| m.entry(i).unwrap().0.clone()).collect()
}

#[test]
fn rank_orders_text_as_the_standard_library_does() {
    let samples = ["", "a", "A", "ab", "abc", "abd", "b", "é", "e", "z", "zz", "日本", "日", "\u{10FFFF}", "\u{FFFF}", "~"];
    for a in samples {
        for b in samples {
            let expected = match a.cmp(b) {
                std::cmp::Ordering::Less => Rank::Before,
                std::cmp::Ordering::Equal => Rank::Same,
                std::cmp::Ordering::Greater => Rank::After,
            };
            assert_eq!(rank(a, b), expected, "{:?} {:?}", a, b);
        }
    }
}

#[test]
fn a_prefix_comes_first() {
    assert_eq!(rank("poi", "poi_1"), Rank::Before);
    assert_eq!(rank("poi_1", "poi"), Rank::After);
    assert_eq!(rank("poi_1", "poi_1"), Rank::Same);
}

#[test]
fn new_map_is_empty() {
    let m: StringMap<u32> = StringMap::new();
    assert_eq!(m.len(), 0);
    assert!(m.entry(0).is_none());
    assert!(m.get("a").is_none());
    assert!(!m.contains_key("a"));
}

#[test]
fn entries_are_kept_in_key_order() {
    let mut m = StringMap::new();
    for (i, k) in ["m", "c", "x", "a", "d", "b", "z", "y"].iter().enumerate() {
        assert_eq!(m.insert(k.to_string(), i as u32), None);
    }
    assert_eq!(keys(&m), vec!["a", "b", "c", "d", "m", "x", "y", "z"]);
    assert_eq!(m.len(), 8);
    assert_eq!(m.get("m"), Some(&0));
    assert_eq!(m.get("y"), Some(&7));
    assert_eq!(m.get("q"), None);
    assert_eq!(m.entry(3), Some((&"d".to_string(), &4)));
    assert!(m.entry(8).is_none());
}

#[test]
fn insert_under_a_bound_key_puts_the_new_value_in() {
    let mut m = StringMap::new();
    assert_eq!(m.insert("k".to_string(), 1), None);
    assert_eq!(m.insert("k".to_string(), 2), Some(1));
    assert_eq!(m.len(), 1);
    assert_eq!(m.get("k"), Some(&2));
}

#[test]
fn replace_changes_only_bound_keys() {
    let mut m = StringMap::new();
    m.insert("a".to_string(), 1);
    m.insert("b".to_string(), 2);
    assert_eq!(m.replace("b", 20), Some(2));
    assert_eq!(m.replace("c", 30), None);
    assert_eq!(keys(&m), vec!["a", "b"]);
    assert_eq!(m.get("b"), Some(&20));
    assert_eq!(m.get("a"), Some(&1));
    assert!(!m.contains_key("c"));
}

#[test]
fn into_entries_gives_the_entries_in_order() {
    let mut m = StringMap::new();
    m.insert("b".to_string(), 2);
    m.insert("a".to_string(), 1);
    assert_eq!(m.into_entries(), vec![("a".to_string(), 1), ("b".to_string(), 2)]);
}

#[test]
fn clone_has_the_same_entries() {
    let mut m = StringMap::new();
    m.insert("b".to_string(), "two".to_string());
    m.insert("a".to_string(), "one".to_string());
    let c = m.clone();
    assert_eq!(c.len(), 2);
    assert_eq!(c.get("a").unwrap(), "one");
    assert_eq!(c.get("b").unwrap(), "two");
    m.insert("c".to_string(), "three".to_string());
    assert_eq!(c.len(), 2);
}

#[test]
fn many_keys_are_all_found() {
    let mut m = StringMap::new();
    for i in 0..500u32 {
        let k = format!("key{}", (i * 7919) % 500);
        m.insert(k, i);
    }
    assert_eq!(m.len(), 500);
    for i in 0..500u32 {
        assert!(m.contains_key(&format!("key{}", i)));
    }
    let ks = keys(&m);
    let mut sorted = ks.clone();
    sorted.sort();
    assert_eq!(ks, sorted);
}

fn map_of(keys: &[&str]) -> StringMap<u32> {
    let mut m = StringMap::new();
    for (i, k) in keys.iter().enumerate() {
        m.insert(k.to_string(), i as u32);
    }
    m
}

#[test]
fn union_of_maps_without_a_common_key() {
    let u = map_of(&["b", "d", "f"]).try_union(map_of(&["a", "c", "e", "g", "h"])).unwrap();
    assert_eq!(keys(&u), vec!["a", "b", "c", "d", "e", "f", "g", "h"]);
    assert_eq!(u.get("b"), Some(&0));
    assert_eq!(u.get("f"), Some(&2));
    assert_eq!(u.get("a"), Some(&0));
    assert_eq!(u.get("h"), Some(&4));
    let u = map_of(&["x", "y"]).try_union(map_of(&["a", "b"])).unwrap();
    assert_eq!(keys(&u), vec!["a", "b", "x", "y"]);
    let u = map_of(&["a", "b"]).try_union(map_of(&["x", "y"])).unwrap();
    assert_eq!(keys(&u), vec!["a", "b", "x", "y"]);
}

#[test]
fn union_with_an_empty_map() {
    let u = map_of(&["a", "b"]).try_union(map_of(&[])).unwrap();
    assert_eq!(keys(&u), vec!["a", "b"]);
    let u = map_of(&[]).try_union(map_of(&["a", "b"])).unwrap();
    assert_eq!(keys(&u), vec!["a", "b"]);
    let u = map_of(&[]).try_union(map_of(&[])).unwrap();
    assert_eq!(u.len(), 0);
}

#[test]
fn union_fails_on_the_first_common_key() {
    assert_eq!(map_of(&["a", "c", "e"]).try_union(map_of(&["b", "e", "c"])).unwrap_err(), "c");
    assert_eq!(map_of(&["a"]).try_union(map_of(&["a"])).unwrap_err(), "a");
    assert_eq!(map_of(&["a", "z"]).try_union(map_of(&["b", "z"])).unwrap_err(), "z");
}
