use hashmap::{grown_bucket_count, needs_growth, Entry, HashMap};
use std::cell::Cell;

#[test]
fn insert() {
    let mut map = HashMap::new();
    assert_eq!(map.len(), 0);
    assert_eq!(map.is_empty(), true);
    map.insert("normal", 42);
    assert_eq!(map.contains_key(&"normal"), true);
    assert_eq!(map.get(&"normal"), Some(&42));
    assert_eq!(map.remove(&"normal"), Some(42));
    assert_eq!(map.remove(&"normal"), None);
}

#[test]
fn iter() {
    let mut map = HashMap::new();
    map.insert("foo", 42);
    map.insert("bar", 44);
    map.insert("sha", 41);
    map.insert("you", 40);

    let mut it = map.iter();
    while let Some((&k, &v)) = it.next() {
        match k {
            "foo" => assert_eq!(v, 42),
            "bar" => assert_eq!(v, 44),
            "sha" => assert_eq!(v, 41),
            "you" => assert_eq!(v, 40),
            _ => unreachable!(),
        }
    }
}

#[test]
fn iter_gives_each_pair_once() {
    let mut map = HashMap::new();
    map.insert("foo", 42);
    map.insert("bar", 44);
    map.insert("sha", 41);
    map.insert("you", 40);
    assert_eq!(map.len(), 4);
    assert_eq!(map.get(&"foo"), Some(&42));
    let mut seen: Vec<(&str, i32)> = Vec::new();
    let mut it = map.iter();
    while let Some((&k, &v)) = it.next() {
        seen.push((k, v));
    }
    assert_eq!(it.next(), None);
    seen.sort();
    assert_eq!(seen, vec![("bar", 44), ("foo", 42), ("sha", 41), ("you", 40)]);
}

#[test]
fn iter_on_empty_table() {
    let map: HashMap<&str, i32> = HashMap::new();
    let mut it = map.iter();
    assert_eq!(it.next(), None);
}

#[test]
fn len_counts_distinct_keys() {
    let mut map = HashMap::new();
    map.insert("a", 1);
    map.insert("b", 2);
    map.insert("a", 3);
    map.insert("a", 4);
    assert_eq!(map.len(), 2);
    assert_eq!(map.is_empty(), false);
}

#[test]
fn second_insert_returns_first_value() {
    let mut map = HashMap::new();
    assert_eq!(map.insert("k", 1), None);
    assert_eq!(map.insert("k", 2), Some(1));
    assert_eq!(map.get(&"k"), Some(&2));
    assert_eq!(map.len(), 1);
}

#[test]
fn remove_absent_and_present() {
    let mut map = HashMap::new();
    assert_eq!(map.remove(&"x"), None);
    map.insert("x", 7);
    map.insert("y", 8);
    assert_eq!(map.remove(&"z"), None);
    assert_eq!(map.remove(&"x"), Some(7));
    assert_eq!(map.get(&"x"), None);
    assert_eq!(map.contains_key(&"x"), false);
    assert_eq!(map.get(&"y"), Some(&8));
    assert_eq!(map.len(), 1);
}

#[test]
fn growth_keeps_every_pair() {
    let mut map: HashMap<u64, u64> = HashMap::new();
    for i in 0..1000u64 {
        assert_eq!(map.insert(i, i * 10), None);
    }
    for i in 0..1000u64 {
        assert_eq!(map.insert(i, i * 10 + 1), Some(i * 10));
    }
    assert_eq!(map.len(), 1000);
    for i in 0..1000u64 {
        assert_eq!(map.get(&i), Some(&(i * 10 + 1)));
    }
    for i in (0..1000u64).step_by(2) {
        assert_eq!(map.remove(&i), Some(i * 10 + 1));
    }
    assert_eq!(map.len(), 500);
    for i in 0..1000u64 {
        assert_eq!(map.contains_key(&i), i % 2 == 1);
    }
    let mut n = 0;
    let mut it = map.iter();
    while let Some((&k, &v)) = it.next() {
        assert_eq!(k % 2, 1);
        assert_eq!(v, k * 10 + 1);
        n += 1;
    }
    assert_eq!(n, 500);
}

#[test]
fn string_keys() {
    let mut map: HashMap<String, i32> = HashMap::new();
    map.insert("one".to_string(), 1);
    map.insert("two".to_string(), 2);
    assert_eq!(map.get(&"one".to_string()), Some(&1));
    assert_eq!(map.get(&"three".to_string()), None);
    assert_eq!(map.insert("two".to_string(), 22), Some(2));
    assert_eq!(map.len(), 2);
}

#[test]
fn bucket_lies_within_the_table() {
    let mut map = HashMap::new();
    map.insert("a", 1);
    assert_eq!(map.bucket(&"a"), 0);
    map.insert("b", 2);
    map.insert("c", 3);
    assert!(map.bucket(&"a") < 4);
    assert_eq!(map.bucket(&"c"), map.bucket(&"c"));
}

#[test]
fn growth_policy() {
    assert_eq!(needs_growth(0, 0), true);
    assert_eq!(needs_growth(1, 0), false);
    assert_eq!(needs_growth(1, 1), true);
    assert_eq!(needs_growth(2, 1), false);
    assert_eq!(needs_growth(2, 2), true);
    assert_eq!(needs_growth(4, 3), false);
    assert_eq!(needs_growth(4, 4), true);
    assert_eq!(needs_growth(8, 6), false);
    assert_eq!(needs_growth(8, 7), true);
    assert_eq!(needs_growth(usize::MAX, usize::MAX), true);
    assert_eq!(grown_bucket_count(0), 1);
    assert_eq!(grown_bucket_count(1), 2);
    assert_eq!(grown_bucket_count(64), 128);
}

#[test]
fn resize_keeps_pairs() {
    let mut map = HashMap::new();
    map.insert("a", 1);
    map.insert("b", 2);
    map.resize();
    map.resize();
    assert_eq!(map.get(&"a"), Some(&1));
    assert_eq!(map.get(&"b"), Some(&2));
    assert_eq!(map.len(), 2);
    let mut empty: HashMap<&str, i32> = HashMap::new();
    empty.resize();
    assert_eq!(empty.len(), 0);
    assert_eq!(empty.bucket(&"a"), 0);
}

#[test]
fn or_insert_on_both_kinds() {
    let mut map = HashMap::new();
    let e = map.entry("a");
    assert!(matches!(e, Entry::Vacant(_)));
    *e.or_insert(&mut map, 1) += 10;
    assert_eq!(map.get(&"a"), Some(&11));
    let e = map.entry("a");
    assert!(matches!(e, Entry::Occupied(_)));
    assert_eq!(*e.or_insert(&mut map, 5), 11);
    assert_eq!(map.len(), 1);
}

#[test]
fn or_insert_with_calls_maker_only_when_absent() {
    let calls = Cell::new(0);
    let mut map = HashMap::new();
    let v = *map.entry("a").or_insert_with(&mut map, || {
        calls.set(calls.get() + 1);
        7
    });
    assert_eq!(v, 7);
    assert_eq!(calls.get(), 1);
    let v = *map.entry("a").or_insert_with(&mut map, || {
        calls.set(calls.get() + 1);
        9
    });
    assert_eq!(v, 7);
    assert_eq!(calls.get(), 1);
    assert_eq!(map.len(), 1);
}

#[test]
fn or_insert_default_counts_words() {
    let mut map: HashMap<&str, u32> = HashMap::new();
    for w in ["x", "y", "x", "x"] {
        *map.entry(w).or_insert_default(&mut map) += 1;
    }
    assert_eq!(map.get(&"x"), Some(&3));
    assert_eq!(map.get(&"y"), Some(&1));
    assert_eq!(map.len(), 2);
}

#[test]
fn vacant_entry_insert() {
    let mut map = HashMap::new();
    match map.entry("q") {
        Entry::Vacant(v) => {
            assert_eq!(*v.insert(&mut map, 3), 3);
        }
        Entry::Occupied(_) => unreachable!(),
    }
    match map.entry("q") {
        Entry::Occupied(o) => {
            *o.into_mut(&mut map) = 4;
        }
        Entry::Vacant(_) => unreachable!(),
    }
    assert_eq!(map.get(&"q"), Some(&4));
}
