use hashmap::{HashMap, MapKey};

#[test]
fn insert() {
    let mut map = HashMap::new();
    assert_eq!(map.len(), 0);
    assert!(map.is_empty());
    map.insert("foo", 42);
    assert_eq!(map.get(&"foo"), Some(&42));
    assert_eq!(map.remove(&"foo"), Some(42));
    assert_eq!(map.get(&"foo"), None);
    assert_eq!(map.len(), 0);
    assert!(map.is_empty());
}

#[test]
fn iter() {
    let mut map = HashMap::new();
    map.insert("a", 1);
    map.insert("b", 10);
    map.insert("c", 100);
    map.insert("d", 1000);

    let mut it = map.iter();
    while let Some((&k, &v)) = it.next() {
        match k {
            "a" => assert_eq!(v, 1),
            "b" => assert_eq!(v, 10),
            "c" => assert_eq!(v, 100),
            "d" => assert_eq!(v, 1000),
            _ => unreachable!(),
        }
    }

    let mut count = 0;
    let mut it = map.iter();
    while it.next().is_some() {
        count += 1;
    }
    assert_eq!(count, 4);
}

#[test]
fn index() {
    let mut map = HashMap::new();
    map.insert("foo", 42);
    assert_eq!(*map.index(&"foo"), 42);
    assert!(!map.contains_key(&"bar"));
}

#[test]
fn entry() {
    let mut map = HashMap::new();
    map.insert("foo", 42);
    *map.entry("foo").or_insert(42) += 1;

    assert_eq!(*map.index(&"foo"), 43);

    *map.entry("bar").or_insert(70) -= 1;
    assert_eq!(*map.index(&"bar"), 69);
}

#[test]
fn overwrite_returns_previous_value() {
    let mut map = HashMap::new();
    assert_eq!(map.insert("k", 1), None);
    assert_eq!(map.len(), 1);
    assert_eq!(map.insert("k", 2), Some(1));
    assert_eq!(map.len(), 1);
    assert_eq!(map.get(&"k"), Some(&2));
}

#[test]
fn remove_then_get_and_len() {
    let mut map = HashMap::new();
    map.insert(1u64, "one");
    map.insert(2u64, "two");
    assert_eq!(map.len(), 2);
    assert_eq!(map.remove(&1), Some("one"));
    assert_eq!(map.get(&1), None);
    assert_eq!(map.len(), 1);
    assert_eq!(map.remove(&1), None);
    assert_eq!(map.len(), 1);
    assert_eq!(map.get(&2), Some(&"two"));
}

#[test]
fn remove_from_empty_table() {
    let mut map: HashMap<u64, u64> = HashMap::new();
    assert_eq!(map.remove(&7), None);
    assert_eq!(map.get(&7), None);
    assert!(!map.contains_key(&7));
    assert!(map.is_empty());
}

#[test]
fn len_counts_distinct_keys() {
    let mut map = HashMap::new();
    map.insert(5u64, 0u64);
    map.insert(6u64, 0u64);
    map.insert(5u64, 1u64);
    map.insert(7u64, 0u64);
    map.remove(&6);
    map.remove(&8);
    assert_eq!(map.len(), 2);
}

fn fill_and_check(n: u64) {
    let mut map = HashMap::new();
    let mut i = 0u64;
    while i < n {
        map.insert(i, i * 10);
        let mut j = 0u64;
        while j <= i {
            assert_eq!(map.get(&j), Some(&(j * 10)));
            j += 1;
        }
        assert_eq!(map.len() as u64, i + 1);
        i += 1;
    }
    assert_eq!(map.get(&n), None);
}

#[test]
fn resizing_keeps_every_pair() {
    fill_and_check(1);
    fill_and_check(3);
    fill_and_check(4);
    fill_and_check(100);
}

#[test]
fn explicit_resize_keeps_pairs() {
    let mut map = HashMap::new();
    map.resize();
    map.insert("x", 1);
    map.insert("y", 2);
    map.resize();
    map.resize();
    assert_eq!(map.get(&"x"), Some(&1));
    assert_eq!(map.get(&"y"), Some(&2));
    assert_eq!(map.len(), 2);
}

#[test]
fn iteration_visits_each_pair_once() {
    let mut map = HashMap::new();
    let mut i = 0u64;
    while i < 50 {
        map.insert(i, i + 1);
        i += 1;
    }
    map.remove(&10);
    let mut seen = vec![false; 50];
    let mut count = 0;
    let mut it = map.iter();
    while let Some((&k, &v)) = it.next() {
        assert_eq!(v, k + 1);
        assert!(!seen[k as usize]);
        seen[k as usize] = true;
        count += 1;
    }
    assert_eq!(count, map.len());
    assert!(!seen[10]);
}

#[test]
fn iteration_over_empty_table() {
    let map: HashMap<u64, u64> = HashMap::new();
    let mut it = map.iter();
    assert!(it.next().is_none());
    assert!(it.next().is_none());
}

#[test]
fn or_insert_with_is_lazy_when_present() {
    let mut map = HashMap::new();
    map.insert("k", 5);
    let v = map.entry("k").or_insert_with(|| panic!("maker must not run"));
    assert_eq!(*v, 5);
}

#[test]
fn or_insert_with_makes_value_when_absent() {
    let mut map = HashMap::new();
    *map.entry("k").or_insert_with(|| 7) *= 2;
    assert_eq!(map.get(&"k"), Some(&14));
}

#[test]
fn or_default_inserts_default() {
    let mut map: HashMap<&str, u64> = HashMap::new();
    *map.entry("n").or_default() += 3;
    *map.entry("n").or_default() += 3;
    assert_eq!(map.get(&"n"), Some(&6));
}

#[test]
fn vacant_entry_counts_the_new_pair() {
    let mut map = HashMap::new();
    map.entry("a").or_insert(1);
    map.entry("b").or_insert(2);
    map.entry("a").or_insert(3);
    assert_eq!(map.len(), 2);
    assert_eq!(map.get(&"a"), Some(&1));
}

#[test]
fn keys_digest_by_value() {
    let a = String::from("same");
    let b = String::from("same");
    assert_eq!(a.as_str().digest(), b.as_str().digest());
    assert!(a.as_str().same_key(&b.as_str()));
    assert!(!"same".same_key(&"other"));
    assert_eq!(42u64.digest(), 42u64.digest());
    assert!(!42u64.same_key(&43u64));
}

#[test]
fn from_pairs_later_pair_wins() {
    let map = HashMap::from_pairs(vec![("a", 1), ("b", 2), ("a", 3)]);
    assert_eq!(map.len(), 2);
    assert_eq!(map.get(&"a"), Some(&3));
    assert_eq!(map.get(&"b"), Some(&2));
}

#[test]
fn from_no_pairs_is_empty() {
    let map: HashMap<u64, u64> = HashMap::from_pairs(Vec::new());
    assert!(map.is_empty());
    assert_eq!(map.get(&0), None);
}

#[test]
fn owned_string_keys() {
    let mut map = HashMap::new();
    map.insert(String::from("alpha"), 1u64);
    map.insert(String::from("beta"), 2u64);
    assert_eq!(map.get(&String::from("alpha")), Some(&1));
    assert_eq!(map.insert(String::from("beta"), 3), Some(2));
    assert_eq!(map.len(), 2);
    assert_eq!(String::from("x").digest(), "x".digest());
}
