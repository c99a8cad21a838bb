use casefold::ascii;
use casefold::CaseFoldMap;

#[test]
fn ascii_map_get_ignores_case() {
    let mut m: ascii::CaseFoldMap<&str, i32> = ascii::CaseFoldMap::new();
    assert_eq!(m.insert("Foo", 1), None);
    assert_eq!(m.get(&"FOO"), Some(&1));
    assert_eq!(m.get(&"foo"), Some(&1));
    assert_eq!(m.get(&"bar"), None);
    assert!(m.contains_key(&"fOo"));
    assert!(!m.contains_key(&"fo"));
    assert_eq!(m.len(), 1);
}

#[test]
fn ascii_map_insert_keeps_first_key() {
    let mut m: ascii::CaseFoldMap<&str, i32> = ascii::CaseFoldMap::with_capacity(4);
    assert_eq!(m.insert("Foo", 1), None);
    assert_eq!(m.insert("FOO", 2), Some(1));
    assert_eq!(m.len(), 1);
    let (k, v) = m.get_key_value(&"foo").unwrap();
    assert_eq!(*k.get_ref(), "Foo");
    assert_eq!(*v, 2);
}

#[test]
fn ascii_map_remove() {
    let mut m: ascii::CaseFoldMap<String, i32> = ascii::CaseFoldMap::new();
    m.insert("Alpha".to_string(), 1);
    m.insert("Beta".to_string(), 2);
    m.insert("Gamma".to_string(), 3);
    assert_eq!(m.remove(&"ALPHA"), Some(1));
    assert_eq!(m.remove(&"alpha"), None);
    assert_eq!(m.len(), 2);
    assert_eq!(m.get(&"beta"), Some(&2));
    assert_eq!(m.get(&"gamma"), Some(&3));
    let (k, v) = m.remove_entry(&"GAMMA").unwrap();
    assert_eq!(k.into_inner(), "Gamma".to_string());
    assert_eq!(v, 3);
    assert_eq!(m.get(&"beta"), Some(&2));
    assert_eq!(m.remove(&"beta"), Some(2));
    assert!(m.is_empty());
}

#[test]
fn ascii_map_get_mut() {
    let mut m: ascii::CaseFoldMap<&str, i32> = ascii::CaseFoldMap::new();
    m.insert("key", 10);
    if let Some(v) = m.get_mut(&"KEY") {
        *v += 5;
    }
    assert_eq!(m.get(&"Key"), Some(&15));
    assert!(m.get_mut(&"other").is_none());
}

#[test]
fn ascii_map_from_pairs_last_value_wins() {
    let m: ascii::CaseFoldMap<&str, i32> =
        ascii::CaseFoldMap::from_pairs(vec![("a", 1), ("B", 2), ("A", 3)]);
    assert_eq!(m.len(), 2);
    assert_eq!(m.get(&"a"), Some(&3));
    assert_eq!(*m.get_key_value(&"a").unwrap().0.get_ref(), "a");
    assert_eq!(m.get(&"b"), Some(&2));
}

#[test]
fn ascii_map_into_keys_and_values() {
    let mut m: ascii::CaseFoldMap<&str, i32> = ascii::CaseFoldMap::new();
    m.extend(vec![("x", 1), ("Y", 2), ("X", 3)]);
    let mut keys: Vec<&str> = m.into_keys().into_iter().map(|k| k.into_inner()).collect();
    keys.sort();
    assert_eq!(keys, vec!["Y", "x"]);
    let mut m2: ascii::CaseFoldMap<&str, i32> = ascii::CaseFoldMap::new();
    m2.extend(vec![("x", 1), ("Y", 2), ("X", 3)]);
    let mut values = m2.into_values();
    values.sort();
    assert_eq!(values, vec![2, 3]);
}

#[test]
fn unicode_map_get_ignores_case() {
    let mut m: CaseFoldMap<&str, i32> = CaseFoldMap::new();
    assert_eq!(m.insert("Maße", 1), None);
    assert_eq!(m.get(&"MASSE"), Some(&1));
    assert_eq!(m.get(&"masse"), Some(&1));
    assert_eq!(m.insert("στιγμας", 2), None);
    assert_eq!(m.get(&"ΣΤΙΓΜΑΣ"), Some(&2));
    assert_eq!(m.get(&"στιγμασ"), Some(&2));
    assert_eq!(m.get(&"στιγμαα"), None);
    assert_eq!(m.len(), 2);
}

#[test]
fn unicode_map_insert_remove() {
    let mut m: CaseFoldMap<String, i32> = CaseFoldMap::with_capacity(8);
    assert_eq!(m.insert("Straße".to_string(), 1), None);
    assert_eq!(m.insert("STRASSE".to_string(), 2), Some(1));
    assert_eq!(m.len(), 1);
    let (k, _) = m.get_key_value(&"strasse").unwrap();
    assert_eq!(k.as_str(), "Straße");
    assert!(!k.is_ascii());
    if let Some(v) = m.get_mut(&"straße") {
        *v = 7;
    }
    assert_eq!(m.remove(&"STRASSE"), Some(7));
    assert!(m.is_empty());
    assert!(!m.contains_key(&"strasse"));
}

#[test]
fn unicode_map_from_pairs() {
    let m: CaseFoldMap<&str, i32> = CaseFoldMap::from_pairs(vec![("ǆ", 1), ("Ǆ", 2), ("b", 3)]);
    assert_eq!(m.len(), 2);
    assert_eq!(m.get(&"ǅ"), Some(&2));
    assert_eq!(m.get(&"B"), Some(&3));
    let mut keys: Vec<&str> = m.into_keys().into_iter().map(|k| *k.get_ref()).collect();
    keys.sort();
    assert_eq!(keys, vec!["b", "ǆ"]);
}

#[test]
fn maps_iter_and_default() {
    let mut m: ascii::CaseFoldMap<&str, i32> = Default::default();
    assert!(m.is_empty());
    m.insert("One", 1);
    m.insert("two", 2);
    m.insert("ONE", 11);
    let mut seen: Vec<(&str, i32)> = m.iter().into_iter().map(|(k, v)| (*k.get_ref(), *v)).collect();
    seen.sort();
    assert_eq!(seen, vec![("One", 11), ("two", 2)]);

    let mut u: CaseFoldMap<String, i32> = Default::default();
    u.insert("Ǳ".to_string(), 1);
    u.insert("dz".to_string(), 2);
    let seen: Vec<(String, i32)> = u.iter().into_iter().map(|(k, v)| (k.as_str().to_string(), *v)).collect();
    assert_eq!(seen.len(), 2);
    assert_eq!(u.get(&"ǲ"), Some(&1));
    assert_eq!(u.get(&"DZ"), Some(&2));
}

#[test]
fn maps_from_pairs_keep_first_key_and_last_value() {
    let m: CaseFoldMap<&str, i32> = CaseFoldMap::from_pairs(vec![("a", 1), ("A", 2)]);
    assert_eq!(m.len(), 1);
    assert_eq!(m.get(&"a"), Some(&2));
    assert_eq!(m.get_key_value(&"A").map(|(k, _)| *k.get_ref()), Some("a"));
    let big: ascii::CaseFoldMap<&str, i32> = ascii::CaseFoldMap::with_capacity(1000);
    assert!(big.is_empty());
}

#[test]
fn maps_compare_ignoring_key_case() {
    let a: ascii::CaseFoldMap<&str, i32> = ascii::CaseFoldMap::from_pairs(vec![("x", 1), ("Y", 2)]);
    let b: ascii::CaseFoldMap<&str, i32> = ascii::CaseFoldMap::from_pairs(vec![("y", 2), ("X", 1)]);
    let c: ascii::CaseFoldMap<&str, i32> = ascii::CaseFoldMap::from_pairs(vec![("y", 2), ("X", 3)]);
    let d: ascii::CaseFoldMap<&str, i32> = ascii::CaseFoldMap::from_pairs(vec![("y", 2)]);
    let e: ascii::CaseFoldMap<&str, i32> = ascii::CaseFoldMap::from_pairs(vec![("y", 2), ("z", 1)]);
    assert!(a == b);
    assert!(a != c);
    assert!(a != d);
    assert!(a != e);

    let u: CaseFoldMap<&str, i32> = CaseFoldMap::from_pairs(vec![("Maße", 1)]);
    let v: CaseFoldMap<&str, i32> = CaseFoldMap::from_pairs(vec![("MASSE", 1)]);
    let w: CaseFoldMap<&str, i32> = CaseFoldMap::from_pairs(vec![("MASE", 1)]);
    assert!(u == v);
    assert!(u != w);
}
