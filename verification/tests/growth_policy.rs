use growable::error::CollectionError;
use growable::growth::{
    next_capacity, required_capacity, reserve_capacity, reserve_exact_capacity, shrink_to_fit,
    MIN_NON_ZERO_CAPACITY,
};

#[test]
fn first_allocation_jumps_to_the_minimum() {
    assert_eq!(MIN_NON_ZERO_CAPACITY, 4);
    assert_eq!(next_capacity(0, 1), 4);
    assert_eq!(next_capacity(0, 4), 4);
}

#[test]
fn growth_doubles_when_doubling_covers_the_need() {
    assert_eq!(next_capacity(4, 5), 8);
    assert_eq!(next_capacity(8, 9), 16);
    assert_eq!(next_capacity(2, 3), 4);
}

#[test]
fn growth_goes_to_the_need_when_doubling_falls_short() {
    assert_eq!(next_capacity(4, 9), 9);
    assert_eq!(next_capacity(0, 100), 100);
}

#[test]
fn no_growth_while_the_need_is_covered() {
    assert_eq!(next_capacity(8, 3), 8);
    assert_eq!(next_capacity(8, 8), 8);
    assert_eq!(next_capacity(0, 0), 0);
}

#[test]
fn doubling_stops_at_the_largest_capacity() {
    let big = usize::MAX / 2 + 1;
    assert_eq!(next_capacity(big, big + 1), usize::MAX);
    assert_eq!(next_capacity(usize::MAX, usize::MAX), usize::MAX);
}

#[test]
fn a_thousand_appends_reallocate_a_handful_of_times() {
    let mut capacity = 0usize;
    let mut reallocations = 0;
    for length in 0..1000usize {
        let next = next_capacity(capacity, length + 1);
        if next != capacity {
            reallocations += 1;
            capacity = next;
        }
    }
    assert_eq!(capacity, 1024);
    assert_eq!(reallocations, 9);
}

#[test]
fn shrinking_leaves_exactly_what_is_in_use() {
    assert_eq!(shrink_to_fit(3), 3);
    assert_eq!(shrink_to_fit(0), 0);
}

#[test]
fn required_capacity_adds_or_overflows() {
    assert_eq!(required_capacity(3, 10), Ok(13));
    assert_eq!(required_capacity(usize::MAX, 0), Ok(usize::MAX));
    assert_eq!(
        required_capacity(usize::MAX, 1),
        Err(CollectionError::CapacityOverflow)
    );
}

#[test]
fn reserve_exact_asks_for_precisely_the_sum() {
    assert_eq!(reserve_exact_capacity(3, 3, 5), Ok(8));
    assert_eq!(reserve_exact_capacity(10, 3, 5), Ok(10));
    assert_eq!(
        reserve_exact_capacity(usize::MAX, 2, usize::MAX),
        Err(CollectionError::CapacityOverflow)
    );
}

#[test]
fn reserve_rounds_up_by_the_geometric_rule() {
    assert_eq!(reserve_capacity(3, 3, 10), Ok(13));
    assert_eq!(reserve_capacity(8, 8, 1), Ok(16));
    assert_eq!(reserve_capacity(8, 2, 3), Ok(8));
    assert_eq!(
        reserve_capacity(usize::MAX, 1, usize::MAX),
        Err(CollectionError::CapacityOverflow)
    );
}
