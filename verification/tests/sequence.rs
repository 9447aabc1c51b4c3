use growable::capability::{Equality, Order, Ordered};
use growable::error::CollectionError;
use growable::sequence::Sequence;

fn seq_of(items: &[i32]) -> Sequence<i32> {
    Sequence::from_vec(items.to_vec())
}

fn contents(s: &Sequence<i32>) -> Vec<i32> {
    s.as_slice().to_vec()
}

#[test]
fn new_sequence_is_empty_and_unallocated() {
    let s: Sequence<i32> = Sequence::new();
    assert_eq!(s.len(), 0);
    assert_eq!(s.capacity(), 0);
    assert!(s.is_empty());
}

#[test]
fn with_capacity_reserves_without_elements() {
    let s: Sequence<i32> = Sequence::with_capacity(10);
    assert_eq!(s.len(), 0);
    assert_eq!(s.capacity(), 10);
}

#[test]
fn from_vec_and_back() {
    let s = seq_of(&[1, 2, 3]);
    assert_eq!(s.len(), 3);
    assert_eq!(s.capacity(), 3);
    assert_eq!(s.into_vec(), vec![1, 2, 3]);
}

#[test]
fn push_below_capacity_does_not_reallocate() {
    let mut s: Sequence<i32> = Sequence::with_capacity(2);
    s.push(1);
    assert_eq!((s.len(), s.capacity()), (1, 2));
    s.push(2);
    assert_eq!((s.len(), s.capacity()), (2, 2));
    assert_eq!(contents(&s), vec![1, 2]);
}

#[test]
fn push_at_capacity_grows_and_keeps_the_elements() {
    let mut s: Sequence<i32> = Sequence::with_capacity(2);
    s.push(1);
    s.push(2);
    s.push(3);
    assert_eq!(s.capacity(), 4);
    assert_eq!(contents(&s), vec![1, 2, 3]);
}

#[test]
fn push_on_a_new_sequence_allocates_four() {
    let mut s: Sequence<i32> = Sequence::new();
    s.push(7);
    assert_eq!(s.capacity(), 4);
    for x in 0..4 {
        s.push(x);
    }
    assert_eq!(s.capacity(), 8);
    assert_eq!(contents(&s), vec![7, 0, 1, 2, 3]);
}

#[test]
fn length_never_exceeds_capacity() {
    let mut s: Sequence<i32> = Sequence::new();
    for x in 0..100 {
        s.push(x);
        assert!(s.len() <= s.capacity());
    }
    s.retain(|x| *x % 3 == 0);
    assert!(s.len() <= s.capacity());
    s.truncate(5);
    assert!(s.len() <= s.capacity());
    s.shrink_to_fit();
    assert!(s.len() <= s.capacity());
    let _ = s.insert(0, 1);
    assert!(s.len() <= s.capacity());
}

#[test]
fn pop_returns_the_last_element() {
    let mut s = seq_of(&[1, 2, 3]);
    assert_eq!(s.pop(), Some(3));
    assert_eq!(contents(&s), vec![1, 2]);
    assert_eq!(s.capacity(), 3);
}

#[test]
fn pop_on_empty_is_none() {
    let mut s: Sequence<i32> = Sequence::new();
    assert_eq!(s.pop(), None);
    assert_eq!(s.len(), 0);
}

#[test]
fn get_in_and_out_of_range() {
    let s = seq_of(&[10, 20, 30]);
    assert_eq!(s.get(1), Ok(&20));
    assert_eq!(s.get(3), Err(CollectionError::IndexOutOfBounds));
    assert_eq!(s.get(5), Err(CollectionError::IndexOutOfBounds));
    assert_eq!(*s.index(2), 30);
}

#[test]
fn get_mut_changes_one_element() {
    let mut s = seq_of(&[10, 20, 30]);
    match s.get_mut(1) {
        Ok(slot) => *slot = 50,
        Err(_) => panic!("index 1 is in range"),
    }
    assert_eq!(contents(&s), vec![10, 50, 30]);
    assert!(matches!(
        s.get_mut(3),
        Err(CollectionError::IndexOutOfBounds)
    ));
}

#[test]
fn first_and_last() {
    let s = seq_of(&[10, 20, 30, 40]);
    assert_eq!(s.first(), Some(&10));
    assert_eq!(s.last(), Some(&40));
    let empty: Sequence<i32> = Sequence::new();
    assert_eq!(empty.first(), None);
    assert_eq!(empty.last(), None);
}

#[test]
fn insert_shifts_later_elements() {
    let mut s = seq_of(&[10, 20, 30, 40, 50]);
    assert_eq!(s.insert(2, 25), Ok(()));
    assert_eq!(contents(&s), vec![10, 20, 25, 30, 40, 50]);
    assert_eq!(s.capacity(), 10);
}

#[test]
fn insert_at_the_length_appends() {
    let mut s = seq_of(&[1, 2]);
    assert_eq!(s.insert(2, 3), Ok(()));
    assert_eq!(contents(&s), vec![1, 2, 3]);
}

#[test]
fn insert_past_the_length_is_refused() {
    let mut s = seq_of(&[1, 2]);
    assert_eq!(s.insert(3, 9), Err(CollectionError::IndexOutOfBounds));
    assert_eq!(contents(&s), vec![1, 2]);
    assert_eq!(s.capacity(), 2);
}

#[test]
fn remove_shifts_later_elements() {
    let mut s = seq_of(&[10, 20, 30, 40]);
    assert_eq!(s.remove(1), Ok(20));
    assert_eq!(contents(&s), vec![10, 30, 40]);
    assert_eq!(s.remove(3), Err(CollectionError::IndexOutOfBounds));
    assert_eq!(contents(&s), vec![10, 30, 40]);
}

#[test]
fn remove_then_insert_restores_the_sequence() {
    let start = vec![10, 20, 30, 40, 50];
    for i in 0..start.len() {
        let mut s = seq_of(&start);
        let taken = s.remove(i).unwrap();
        assert_eq!(s.insert(i, taken), Ok(()));
        assert_eq!(contents(&s), start);
    }
}

#[test]
fn swap_remove_moves_the_last_element_in() {
    let mut s: Sequence<&str> = Sequence::from_vec(vec!["foo", "bar", "baz", "qux"]);
    assert_eq!(s.swap_remove(1), Ok("bar"));
    assert_eq!(s.as_slice().to_vec(), vec!["foo", "qux", "baz"]);
    assert_eq!(s.swap_remove(2), Ok("baz"));
    assert_eq!(s.as_slice().to_vec(), vec!["foo", "qux"]);
    assert_eq!(s.swap_remove(2), Err(CollectionError::IndexOutOfBounds));
}

#[test]
fn swap_exchanges_two_elements() {
    let mut s = seq_of(&[1, 2, 3, 4, 5]);
    assert_eq!(s.swap(1, 3), Ok(()));
    assert_eq!(contents(&s), vec![1, 4, 3, 2, 5]);
    assert_eq!(s.swap(3, 1), Ok(()));
    assert_eq!(contents(&s), vec![1, 2, 3, 4, 5]);
    assert_eq!(s.swap(2, 2), Ok(()));
    assert_eq!(contents(&s), vec![1, 2, 3, 4, 5]);
    assert_eq!(s.swap(0, 5), Err(CollectionError::IndexOutOfBounds));
}

#[test]
fn retain_keeps_matching_elements_in_order() {
    let mut s = seq_of(&[1, 2, 3, 4, 5, 6]);
    s.retain(|x| *x % 2 == 0);
    assert_eq!(contents(&s), vec![2, 4, 6]);
    assert_eq!(s.capacity(), 6);
}

#[test]
fn retain_twice_is_retain_once() {
    let mut s = seq_of(&[5, 12, 7, 30, 8, 1, 44]);
    s.retain(|x| *x > 7);
    let once = contents(&s);
    s.retain(|x| *x > 7);
    assert_eq!(contents(&s), once);
    assert_eq!(once, vec![12, 30, 8, 44]);
}

#[test]
fn retain_nothing_and_everything() {
    let mut s = seq_of(&[1, 2, 3]);
    s.retain(|_| true);
    assert_eq!(contents(&s), vec![1, 2, 3]);
    s.retain(|_| false);
    assert_eq!(contents(&s), Vec::<i32>::new());
}

#[test]
fn dedup_removes_consecutive_repeats_only() {
    let mut s = seq_of(&[1, 2, 2, 3, 3, 3, 4]);
    s.dedup();
    assert_eq!(contents(&s), vec![1, 2, 3, 4]);
    let mut t = seq_of(&[3, 1, 2, 1, 3, 2]);
    t.dedup();
    assert_eq!(contents(&t), vec![3, 1, 2, 1, 3, 2]);
    let mut u = seq_of(&[1, 1, 2, 1, 1]);
    u.dedup();
    assert_eq!(contents(&u), vec![1, 2, 1]);
}

#[test]
fn dedup_on_short_sequences() {
    let mut empty = seq_of(&[]);
    empty.dedup();
    assert_eq!(contents(&empty), Vec::<i32>::new());
    let mut one = seq_of(&[7]);
    one.dedup();
    assert_eq!(contents(&one), vec![7]);
    let mut same = seq_of(&[7, 7, 7]);
    same.dedup();
    assert_eq!(contents(&same), vec![7]);
}

#[test]
fn drain_yields_the_range_and_closes_the_gap() {
    let mut s = seq_of(&[10, 20, 30, 40, 50]);
    let drained = s.drain(1..4).unwrap();
    assert_eq!(contents(&drained), vec![20, 30, 40]);
    assert_eq!(contents(&s), vec![10, 50]);
    assert_eq!(s.capacity(), 5);
}

#[test]
fn drain_of_an_empty_range_takes_nothing() {
    let mut s = seq_of(&[1, 2, 3]);
    let drained = s.drain(2..2).unwrap();
    assert_eq!(drained.len(), 0);
    assert_eq!(contents(&s), vec![1, 2, 3]);
}

#[test]
fn drain_past_the_end_is_refused() {
    let mut s = seq_of(&[1, 2, 3]);
    assert!(matches!(
        s.drain(1..4),
        Err(CollectionError::IndexOutOfBounds)
    ));
    assert!(matches!(
        s.drain(reversed_range()),
        Err(CollectionError::IndexOutOfBounds)
    ));
    assert_eq!(contents(&s), vec![1, 2, 3]);
}

fn reversed_range() -> core::ops::Range<usize> {
    core::ops::Range { start: 2, end: 1 }
}

#[test]
fn truncate_keeps_the_capacity() {
    let mut s = seq_of(&[1, 2, 3, 4, 5]);
    s.truncate(2);
    assert_eq!(contents(&s), vec![1, 2]);
    assert_eq!(s.capacity(), 5);
    s.truncate(10);
    assert_eq!(contents(&s), vec![1, 2]);
    s.truncate(0);
    assert_eq!(s.len(), 0);
}

#[test]
fn clear_keeps_the_capacity() {
    let mut s = seq_of(&[10, 20, 30]);
    s.clear();
    assert_eq!(s.len(), 0);
    assert_eq!(s.capacity(), 3);
}

#[test]
fn binary_search_finds_an_element() {
    let s = seq_of(&[1, 3, 5, 7, 9]);
    assert_eq!(s.binary_search(&5), Ok(2));
    assert_eq!(s.binary_search(&1), Ok(0));
    assert_eq!(s.binary_search(&9), Ok(4));
}

#[test]
fn binary_search_gives_the_insertion_point() {
    let s = seq_of(&[1, 3, 5, 7, 9]);
    assert_eq!(s.binary_search(&4), Err(2));
    assert_eq!(s.binary_search(&0), Err(0));
    assert_eq!(s.binary_search(&10), Err(5));
    let empty = seq_of(&[]);
    assert_eq!(empty.binary_search(&1), Err(0));
}

#[test]
fn binary_search_insertion_point_keeps_the_order() {
    let mut s = seq_of(&[1, 3, 5, 7, 9]);
    if let Err(at) = s.binary_search(&6) {
        s.insert(at, 6).unwrap();
    }
    assert_eq!(contents(&s), vec![1, 3, 5, 6, 7, 9]);
}

#[test]
fn reverse_turns_the_order_around() {
    let mut s = seq_of(&[1, 2, 3, 4, 5]);
    s.reverse();
    assert_eq!(contents(&s), vec![5, 4, 3, 2, 1]);
    let mut even = seq_of(&[1, 2, 3, 4]);
    even.reverse();
    assert_eq!(contents(&even), vec![4, 3, 2, 1]);
    let mut empty = seq_of(&[]);
    empty.reverse();
    assert_eq!(empty.len(), 0);
}

#[test]
fn rotate_left_and_right() {
    let mut s = seq_of(&[1, 2, 3, 4, 5]);
    assert_eq!(s.rotate_left(2), Ok(()));
    assert_eq!(contents(&s), vec![3, 4, 5, 1, 2]);
    let mut t = seq_of(&[1, 2, 3, 4, 5]);
    assert_eq!(t.rotate_right(2), Ok(()));
    assert_eq!(contents(&t), vec![4, 5, 1, 2, 3]);
    assert_eq!(t.rotate_left(6), Err(CollectionError::IndexOutOfBounds));
    assert_eq!(t.rotate_right(6), Err(CollectionError::IndexOutOfBounds));
    assert_eq!(contents(&t), vec![4, 5, 1, 2, 3]);
    assert_eq!(t.rotate_left(5), Ok(()));
    assert_eq!(contents(&t), vec![4, 5, 1, 2, 3]);
}

#[test]
fn split_off_divides_the_sequence() {
    let mut s = seq_of(&[1, 2, 3, 4, 5]);
    let tail = s.split_off(3).unwrap();
    assert_eq!(contents(&s), vec![1, 2, 3]);
    assert_eq!(contents(&tail), vec![4, 5]);
    assert!(matches!(
        s.split_off(4),
        Err(CollectionError::IndexOutOfBounds)
    ));
}

#[test]
fn append_empties_the_other_sequence() {
    let mut a = seq_of(&[1, 2, 3]);
    let mut b = seq_of(&[4, 5, 6]);
    a.append(&mut b);
    assert_eq!(contents(&a), vec![1, 2, 3, 4, 5, 6]);
    assert_eq!(b.len(), 0);
    assert_eq!(b.capacity(), 3);
    assert_eq!(a.capacity(), 6);
}

#[test]
fn extend_appends_in_order() {
    let mut s = seq_of(&[1, 2, 3]);
    s.extend(vec![4, 5, 6]);
    assert_eq!(contents(&s), vec![1, 2, 3, 4, 5, 6]);
}

#[test]
fn reserve_rounds_up_and_reserve_exact_does_not() {
    let mut s = seq_of(&[1, 2, 3]);
    s.reserve(10);
    assert_eq!(s.capacity(), 13);
    s.shrink_to_fit();
    assert_eq!(s.capacity(), 3);
    s.reserve_exact(5);
    assert_eq!(s.capacity(), 8);
    s.reserve_exact(2);
    assert_eq!(s.capacity(), 8);
    s.reserve(6);
    assert_eq!(s.capacity(), 16);
    assert_eq!(contents(&s), vec![1, 2, 3]);
}

#[test]
fn shrink_to_fit_keeps_the_elements() {
    let mut s: Sequence<i32> = Sequence::with_capacity(100);
    s.push(1);
    s.push(2);
    s.shrink_to_fit();
    assert_eq!(s.capacity(), 2);
    assert_eq!(contents(&s), vec![1, 2]);
}

#[test]
fn try_reserve_reports_overflow() {
    let mut s = seq_of(&[1, 2, 3]);
    assert_eq!(
        s.try_reserve(usize::MAX),
        Err(CollectionError::CapacityOverflow)
    );
    assert_eq!(s.capacity(), 3);
    assert_eq!(s.try_reserve(1), Ok(()));
    assert_eq!(s.capacity(), 6);
}

#[test]
fn contains_and_position() {
    let s = seq_of(&[10, 20, 30, 20]);
    assert!(s.contains(&20));
    assert!(!s.contains(&99));
    assert_eq!(s.position(&20), Some(1));
    assert_eq!(s.position(&99), None);
}

#[test]
fn equality_is_element_by_element() {
    let a = seq_of(&[1, 2, 3]);
    let b: Sequence<i32> = {
        let mut b = Sequence::with_capacity(16);
        b.push(1);
        b.push(2);
        b.push(3);
        b
    };
    let c = seq_of(&[1, 2, 4]);
    let d = seq_of(&[1, 2]);
    assert!(a.equals(&b));
    assert!(!a.equals(&c));
    assert!(!a.equals(&d));
}

#[test]
fn ordering_is_lexicographic() {
    let a = seq_of(&[1, 2, 3]);
    let b = seq_of(&[1, 2, 3]);
    let c = seq_of(&[1, 2, 4]);
    assert_eq!(a.compare(&b), Order::Equal);
    assert_eq!(a.compare(&c), Order::Less);
    assert_eq!(c.compare(&a), Order::Greater);
}

#[test]
fn a_proper_prefix_is_less() {
    let short = seq_of(&[1, 2]);
    let long = seq_of(&[1, 2, 0]);
    let empty = seq_of(&[]);
    assert_eq!(short.compare(&long), Order::Less);
    assert_eq!(long.compare(&short), Order::Greater);
    assert_eq!(empty.compare(&short), Order::Less);
    assert_eq!(empty.compare(&empty), Order::Equal);
    assert_eq!(seq_of(&[2]).compare(&seq_of(&[1, 9, 9])), Order::Greater);
}

#[test]
fn clone_is_independent_of_its_source() {
    let a = seq_of(&[1, 2, 3]);
    let mut b = a.clone();
    b.push(4);
    assert_eq!(contents(&a), vec![1, 2, 3]);
    assert_eq!(contents(&b), vec![1, 2, 3, 4]);
}

#[test]
fn sequences_of_sequences() {
    let mut rows: Sequence<Sequence<i32>> = Sequence::new();
    rows.push(seq_of(&[1, 2, 3]));
    rows.push(seq_of(&[4, 5, 6]));
    assert_eq!(*rows.index(1).index(2), 6);
    let mut same: Sequence<Sequence<i32>> = Sequence::new();
    same.push(seq_of(&[1, 2, 3]));
    same.push(seq_of(&[4, 5, 6]));
    assert!(rows.equals(&same));
}

#[test]
fn sequences_can_be_searched_among_sequences() {
    let mut rows: Sequence<Sequence<i32>> = Sequence::new();
    rows.push(seq_of(&[1]));
    rows.push(seq_of(&[1, 2]));
    rows.push(seq_of(&[2, 0]));
    rows.push(seq_of(&[3]));
    assert_eq!(rows.binary_search(&seq_of(&[2, 0])), Ok(2));
    assert_eq!(rows.binary_search(&seq_of(&[2])), Err(2));
    assert_eq!(rows.binary_search(&seq_of(&[])), Err(0));
}

#[test]
fn from_slice_copies_the_elements() {
    let s = Sequence::from_slice(&[1, 2, 3]);
    assert_eq!(contents(&s), vec![1, 2, 3]);
    assert_eq!(s.capacity(), 3);
    let empty: Sequence<i32> = Sequence::from_slice(&[]);
    assert_eq!(empty.len(), 0);
}

#[test]
fn a_failed_search_means_the_element_is_absent() {
    let s = seq_of(&[2, 4, 4, 4, 8]);
    for target in 0..10 {
        let found = s.binary_search(&target);
        assert_eq!(found.is_ok(), s.contains(&target));
        match found {
            Ok(i) => assert_eq!(s.get(i), Ok(&target)),
            Err(i) => {
                assert!(s.as_slice()[..i].iter().all(|x| *x < target));
                assert!(s.as_slice()[i..].iter().all(|x| *x > target));
            }
        }
    }
}
