use growable::error::CollectionError;
use growable::hash_table::HashTable;
use growable::text::TextBuffer;
use std::cell::Cell;

fn key(text: &str) -> TextBuffer {
    TextBuffer::from_str(text)
}

fn sorted_pairs(t: &HashTable<i32, i32>) -> Vec<(i32, i32)> {
    let mut pairs: Vec<(i32, i32)> = t.pairs().into_iter().map(|(k, v)| (*k, *v)).collect();
    pairs.sort();
    pairs
}

fn table_of(pairs: &[(i32, i32)]) -> HashTable<i32, i32> {
    let mut t = HashTable::new();
    for (k, v) in pairs {
        t.insert(*k, *v);
    }
    t
}

#[test]
fn new_table_is_empty_with_no_buckets() {
    let t: HashTable<i32, i32> = HashTable::new();
    assert_eq!(t.len(), 0);
    assert_eq!(t.capacity(), 0);
    assert!(t.is_empty());
    assert_eq!(t.get(&1), None);
    assert!(!t.contains_key(&1));
}

#[test]
fn with_capacity_sizes_the_buckets_for_the_load_factor() {
    let t: HashTable<i32, i32> = HashTable::with_capacity(10);
    assert_eq!(t.capacity(), 14);
    assert_eq!(t.len(), 0);
    let small: HashTable<i32, i32> = HashTable::with_capacity(3);
    assert_eq!(small.capacity(), 4);
    let none: HashTable<i32, i32> = HashTable::with_capacity(0);
    assert_eq!(none.capacity(), 0);
}

#[test]
fn insert_twice_replaces_and_returns_the_old_value() {
    let mut t: HashTable<TextBuffer, i32> = HashTable::new();
    assert_eq!(t.insert(key("a"), 1), None);
    assert_eq!(t.insert(key("a"), 2), Some(1));
    assert_eq!(t.get(&key("a")), Some(&2));
    assert_eq!(t.len(), 1);
}

#[test]
fn inserted_values_are_found_until_removed_or_replaced() {
    let mut t: HashTable<i32, i32> = HashTable::new();
    for k in 0..50 {
        assert_eq!(t.insert(k, k * 10), None);
    }
    for k in 0..50 {
        assert_eq!(t.get(&k), Some(&(k * 10)));
    }
    assert_eq!(t.insert(7, 77), Some(70));
    assert_eq!(t.get(&7), Some(&77));
    assert_eq!(t.get(&8), Some(&80));
    assert_eq!(t.remove(&8), Some(80));
    assert_eq!(t.get(&8), None);
    assert_eq!(t.get(&9), Some(&90));
    assert_eq!(t.len(), 49);
}

#[test]
fn remove_then_get_signals_absence() {
    let mut t: HashTable<TextBuffer, i32> = HashTable::new();
    t.insert(key("Rust"), 2015);
    t.insert(key("Python"), 1991);
    assert_eq!(t.remove(&key("Rust")), Some(2015));
    assert_eq!(t.get(&key("Rust")), None);
    assert!(!t.contains_key(&key("Rust")));
    assert_eq!(t.remove(&key("Java")), None);
    assert_eq!(t.len(), 1);
    assert_eq!(t.get(&key("Python")), Some(&1991));
}

#[test]
fn at_reports_a_missing_key() {
    let mut t: HashTable<i32, i32> = HashTable::new();
    t.insert(1, 42);
    assert_eq!(t.at(&1), Ok(&42));
    assert_eq!(t.at(&2), Err(CollectionError::KeyAbsent));
}

#[test]
fn growth_follows_the_load_factor() {
    let mut t: HashTable<i32, i32> = HashTable::new();
    t.insert(1, 1);
    assert_eq!(t.capacity(), 4);
    t.insert(2, 2);
    t.insert(3, 3);
    assert_eq!(t.capacity(), 4);
    t.insert(4, 4);
    assert_eq!(t.capacity(), 8);
    t.insert(5, 5);
    t.insert(6, 6);
    assert_eq!(t.capacity(), 8);
    t.insert(7, 7);
    assert_eq!(t.capacity(), 16);
    assert_eq!(sorted_pairs(&t), (1..=7).map(|k| (k, k)).collect::<Vec<_>>());
}

#[test]
fn replacing_a_value_does_not_grow_the_table() {
    let mut t = table_of(&[(1, 1), (2, 2), (3, 3)]);
    assert_eq!(t.capacity(), 4);
    assert_eq!(t.insert(3, 30), Some(3));
    assert_eq!(t.capacity(), 4);
}

#[test]
fn entries_stay_within_three_quarters_of_the_capacity() {
    let mut t: HashTable<i32, i32> = HashTable::new();
    for k in 0..200 {
        t.insert(k * 7, k);
        assert!(4 * t.len() <= 3 * t.capacity());
        assert!(t.len() <= t.capacity());
    }
    for k in 0..200 {
        t.remove(&(k * 7));
        assert!(4 * t.len() <= 3 * t.capacity());
    }
    assert_eq!(t.len(), 0);
}

#[test]
fn keys_that_share_a_bucket_stay_apart() {
    let mut t: HashTable<u64, i32> = HashTable::with_capacity(3);
    assert_eq!(t.capacity(), 4);
    t.insert(1, 10);
    t.insert(5, 50);
    t.insert(9, 90);
    assert_eq!(t.get(&1), Some(&10));
    assert_eq!(t.get(&5), Some(&50));
    assert_eq!(t.get(&9), Some(&90));
    assert_eq!(t.get(&13), None);
    assert_eq!(t.remove(&5), Some(50));
    assert_eq!(t.get(&1), Some(&10));
    assert_eq!(t.get(&9), Some(&90));
    assert_eq!(t.get(&5), None);
}

#[test]
fn get_mut_changes_the_value_in_place() {
    let mut t: HashTable<TextBuffer, i32> = HashTable::new();
    t.insert(key("Ana"), 10);
    if let Some(v) = t.get_mut(&key("Ana")) {
        *v += 5;
    }
    assert_eq!(t.get(&key("Ana")), Some(&15));
    assert!(t.get_mut(&key("Luis")).is_none());
}

#[test]
fn upsert_stores_only_the_first_default() {
    let mut t: HashTable<TextBuffer, i32> = HashTable::new();
    let first_runs = Cell::new(0);
    let second_runs = Cell::new(0);
    let v = t.get_or_insert_with(key("clave"), || {
        first_runs.set(first_runs.get() + 1);
        42
    });
    assert_eq!(*v, 42);
    let v = t.get_or_insert_with(key("clave"), || {
        second_runs.set(second_runs.get() + 1);
        100
    });
    assert_eq!(*v, 42);
    assert_eq!(t.get(&key("clave")), Some(&42));
    assert_eq!(first_runs.get(), 1);
    assert_eq!(second_runs.get(), 0);
    assert_eq!(t.len(), 1);
}

#[test]
fn upsert_does_not_run_the_default_for_a_stored_key() {
    let mut t = table_of(&[(1, 10)]);
    let runs = Cell::new(0);
    let v = t.get_or_insert_with(1, || {
        runs.set(runs.get() + 1);
        99
    });
    assert_eq!(*v, 10);
    assert_eq!(runs.get(), 0);
}

#[test]
fn upsert_handle_counts_words() {
    let mut counts: HashTable<TextBuffer, i32> = HashTable::new();
    for word in ["hola", "mundo", "hola", "rust", "mundo", "hola"] {
        *counts.get_or_insert_with(key(word), || 0) += 1;
    }
    assert_eq!(counts.get(&key("hola")), Some(&3));
    assert_eq!(counts.get(&key("mundo")), Some(&2));
    assert_eq!(counts.get(&key("rust")), Some(&1));
    assert_eq!(counts.len(), 3);
}

#[test]
fn and_modify_applies_only_to_stored_keys() {
    let mut t: HashTable<TextBuffer, i32> = HashTable::new();
    t.insert(key("a"), 10);
    assert!(t.and_modify(&key("a"), |v| v + 5));
    assert!(!t.and_modify(&key("b"), |v| v + 5));
    assert_eq!(t.get(&key("a")), Some(&15));
    assert_eq!(t.get(&key("b")), None);
    assert_eq!(t.len(), 1);
}

#[test]
fn modify_or_insert_runs_exactly_one_of_the_two() {
    let mut t: HashTable<TextBuffer, i32> = HashTable::new();
    t.insert(key("a"), 10);
    let defaults = Cell::new(0);
    let changes = Cell::new(0);
    t.modify_or_insert_with(
        key("a"),
        |v| {
            changes.set(changes.get() + 1);
            v + 5
        },
        || {
            defaults.set(defaults.get() + 1);
            1
        },
    );
    assert_eq!((changes.get(), defaults.get()), (1, 0));
    t.modify_or_insert_with(
        key("b"),
        |v| {
            changes.set(changes.get() + 1);
            v + 5
        },
        || {
            defaults.set(defaults.get() + 1);
            1
        },
    );
    assert_eq!((changes.get(), defaults.get()), (1, 1));
    assert_eq!(t.get(&key("a")), Some(&15));
    assert_eq!(t.get(&key("b")), Some(&1));
}

#[test]
fn retain_keeps_the_entries_that_pass() {
    let mut t = table_of(&[(1, 1), (2, 2), (3, 3), (4, 4)]);
    let capacity = t.capacity();
    t.retain(|_k, v| *v % 2 == 0);
    assert_eq!(sorted_pairs(&t), vec![(2, 2), (4, 4)]);
    assert_eq!(t.len(), 2);
    assert_eq!(t.capacity(), capacity);
    t.retain(|k, _v| *k > 10);
    assert_eq!(t.len(), 0);
}

#[test]
fn extend_lets_the_other_table_win() {
    let mut a = table_of(&[(1, 1), (2, 2)]);
    let b = table_of(&[(1, 100), (3, 3)]);
    a.extend(b);
    assert_eq!(sorted_pairs(&a), vec![(1, 100), (2, 2), (3, 3)]);
}

#[test]
fn extend_with_disjoint_keys_takes_all() {
    let mut a = table_of(&[(1, 1), (2, 2)]);
    let b = table_of(&[(3, 3), (4, 4)]);
    a.extend(b);
    assert_eq!(sorted_pairs(&a), vec![(1, 1), (2, 2), (3, 3), (4, 4)]);
    let mut c = table_of(&[(9, 9)]);
    c.extend(HashTable::new());
    assert_eq!(sorted_pairs(&c), vec![(9, 9)]);
}

#[test]
fn pairs_keys_and_values_cover_every_entry_once() {
    let t = table_of(&[(3, 30), (1, 10), (2, 20)]);
    assert_eq!(sorted_pairs(&t), vec![(1, 10), (2, 20), (3, 30)]);
    let mut keys: Vec<i32> = t.keys().into_iter().copied().collect();
    keys.sort();
    assert_eq!(keys, vec![1, 2, 3]);
    let mut values: Vec<i32> = t.values().into_iter().copied().collect();
    values.sort();
    assert_eq!(values, vec![10, 20, 30]);
}

#[test]
fn two_walks_of_an_unchanged_table_agree() {
    let t = table_of(&[(5, 1), (17, 2), (2, 3), (40, 4), (9, 5)]);
    let first: Vec<(i32, i32)> = t.pairs().into_iter().map(|(k, v)| (*k, *v)).collect();
    let second: Vec<(i32, i32)> = t.pairs().into_iter().map(|(k, v)| (*k, *v)).collect();
    assert_eq!(first, second);
    let keys: Vec<i32> = t.keys().into_iter().copied().collect();
    assert_eq!(keys, first.iter().map(|p| p.0).collect::<Vec<_>>());
}

#[test]
fn equality_ignores_the_order_of_insertion() {
    let a = table_of(&[(1, 1), (2, 2)]);
    let b = table_of(&[(2, 2), (1, 1)]);
    let c = table_of(&[(1, 1), (2, 3)]);
    let d = table_of(&[(1, 1)]);
    let e = table_of(&[(1, 1), (3, 2)]);
    assert!(a.equals(&b));
    assert!(!a.equals(&c));
    assert!(!a.equals(&d));
    assert!(!a.equals(&e));
}

#[test]
fn equality_ignores_the_capacity() {
    let a = table_of(&[(1, 1), (2, 2)]);
    let mut b: HashTable<i32, i32> = HashTable::with_capacity(100);
    b.insert(2, 2);
    b.insert(1, 1);
    assert!(a.equals(&b));
    assert!(b.equals(&a));
}

#[test]
fn clear_keeps_the_buckets() {
    let mut t = table_of(&[(1, 1), (2, 2)]);
    t.clear();
    assert_eq!(t.len(), 0);
    assert_eq!(t.capacity(), 4);
    assert_eq!(t.get(&1), None);
    t.insert(1, 5);
    assert_eq!(t.get(&1), Some(&5));
}

#[test]
fn reserve_and_shrink_keep_the_entries() {
    let mut t = table_of(&[(1, 1), (2, 2), (3, 3)]);
    t.reserve(100);
    assert_eq!(t.capacity(), 138);
    assert_eq!(sorted_pairs(&t), vec![(1, 1), (2, 2), (3, 3)]);
    t.shrink_to_fit();
    assert_eq!(t.capacity(), 4);
    assert_eq!(sorted_pairs(&t), vec![(1, 1), (2, 2), (3, 3)]);
    t.clear();
    t.shrink_to_fit();
    assert_eq!(t.capacity(), 0);
}

#[test]
fn negative_and_other_kinds_of_keys() {
    let mut t: HashTable<i32, &str> = HashTable::new();
    t.insert(-1, "minus one");
    t.insert(i32::MIN, "least");
    t.insert(i32::MAX, "most");
    assert_eq!(t.get(&-1), Some(&"minus one"));
    assert_eq!(t.get(&i32::MIN), Some(&"least"));
    assert_eq!(t.get(&i32::MAX), Some(&"most"));
    let mut c: HashTable<char, i32> = HashTable::new();
    c.insert('a', 1);
    c.insert('ñ', 2);
    assert_eq!(c.get(&'ñ'), Some(&2));
    let mut b: HashTable<bool, i32> = HashTable::new();
    b.insert(true, 1);
    b.insert(false, 0);
    assert_eq!(b.get(&true), Some(&1));
    assert_eq!(b.len(), 2);
}

#[test]
fn tables_inside_tables() {
    let mut users: HashTable<TextBuffer, HashTable<TextBuffer, i32>> = HashTable::new();
    let mut ana = HashTable::new();
    ana.insert(key("edad"), 25);
    users.insert(key("Ana"), ana);
    let found = users.get(&key("Ana")).and_then(|info| info.get(&key("edad")));
    assert_eq!(found, Some(&25));
}

#[test]
fn upsert_with_a_ready_value() {
    let mut t: HashTable<TextBuffer, i32> = HashTable::new();
    assert_eq!(*t.get_or_insert(key("clave"), 42), 42);
    assert_eq!(*t.get_or_insert(key("clave"), 100), 42);
    assert_eq!(t.get(&key("clave")), Some(&42));
    *t.get_or_insert(key("contador"), 0) += 1;
    *t.get_or_insert(key("contador"), 0) += 1;
    assert_eq!(t.get(&key("contador")), Some(&2));
}

#[test]
fn from_pairs_lets_the_later_pair_win() {
    let t = HashTable::from_pairs(vec![(1, 10), (2, 20), (1, 11), (3, 30), (2, 21)]);
    assert_eq!(sorted_pairs(&t), vec![(1, 11), (2, 21), (3, 30)]);
    assert_eq!(t.capacity(), 7);
    let empty: HashTable<i32, i32> = HashTable::from_pairs(Vec::new());
    assert_eq!(empty.len(), 0);
}

#[test]
fn clone_copies_every_entry() {
    let mut a: HashTable<TextBuffer, i32> = HashTable::new();
    a.insert(key("a"), 1);
    a.insert(key("b"), 2);
    let mut b = a.clone();
    assert!(a.equals(&b));
    assert_eq!(b.capacity(), a.capacity());
    b.insert(key("c"), 3);
    b.insert(key("a"), 10);
    assert_eq!(a.len(), 2);
    assert_eq!(a.get(&key("a")), Some(&1));
    assert_eq!(a.get(&key("c")), None);
    assert_eq!(b.get(&key("a")), Some(&10));
    assert_eq!(b.len(), 3);
}
