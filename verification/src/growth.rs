use vstd::prelude::*;
use crate::error::CollectionError;

verus! {

/// Capacity given to a container that grows from no storage at all.
pub const MIN_NON_ZERO_CAPACITY: usize = 4;

/// One geometric step from `current`: the first allocation jumps to
/// `MIN_NON_ZERO_CAPACITY`, every later one doubles, and nothing goes past
/// the largest `usize`.
pub open spec fn geometric_step(current: nat) -> nat {
    if current == 0 {
        MIN_NON_ZERO_CAPACITY as nat
    } else if 2 * current <= usize::MAX {
        2 * current
    } else {
        usize::MAX as nat
    }
}

/// The capacity a container moves to when it holds `current` and needs
/// `required_minimum`: unchanged while the need is covered, otherwise the
/// larger of the need and one geometric step.
pub open spec fn next_capacity_spec(current: nat, required_minimum: nat) -> nat {
    if required_minimum <= current {
        current
    } else if geometric_step(current) >= required_minimum {
        geometric_step(current)
    } else {
        required_minimum
    }
}

/// Decides the capacity after growth. The result is the smallest capacity
/// that covers `required_minimum` and, when growth is needed at all, is at
/// least one geometric step away from `current_capacity`.
pub fn next_capacity(current_capacity: usize, required_minimum: usize) -> (next: usize)
    ensures
        next == next_capacity_spec(current_capacity as nat, required_minimum as nat),
        next >= required_minimum,
        next >= current_capacity,
        required_minimum > current_capacity ==> next > current_capacity,
{
    if required_minimum <= current_capacity {
        return current_capacity;
    }
    let step: usize = if current_capacity == 0 {
        MIN_NON_ZERO_CAPACITY
    } else if current_capacity <= usize::MAX / 2 {
        2 * current_capacity
    } else {
        usize::MAX
    };
    if step >= required_minimum {
        step
    } else {
        required_minimum
    }
}

/// The capacity left after an explicit request to give back unused
/// storage: exactly what is in use.
pub fn shrink_to_fit(length: usize) -> (capacity: usize)
    ensures
        capacity == length,
{
    length
}

/// The capacity needed to hold `additional` more elements on top of
/// `length`, or `CapacityOverflow` when that count does not fit a `usize`.
pub fn required_capacity(length: usize, additional: usize) -> (r: Result<usize, CollectionError>)
    ensures
        length + additional <= usize::MAX ==> r == Ok::<usize, CollectionError>(
            (length + additional) as usize,
        ),
        length + additional > usize::MAX ==> r == Err::<usize, CollectionError>(
            CollectionError::CapacityOverflow,
        ),
{
    if additional <= usize::MAX - length {
        Ok(length + additional)
    } else {
        Err(CollectionError::CapacityOverflow)
    }
}

/// Capacity after `reserve_exact`: room for precisely `length + additional`
/// elements, unless the container already has at least that much.
pub open spec fn reserve_exact_spec(capacity: nat, length: nat, additional: nat) -> nat {
    if length + additional <= capacity {
        capacity
    } else {
        length + additional
    }
}

/// Capacity after `reserve`: at least `length + additional`, rounded up by
/// the geometric rule so that a run of small reserves reallocates rarely.
pub open spec fn reserve_spec(capacity: nat, length: nat, additional: nat) -> nat {
    next_capacity_spec(capacity, length + additional)
}

/// The exact variant of reserving: see [`reserve_exact_spec`].
pub fn reserve_exact_capacity(capacity: usize, length: usize, additional: usize) -> (r: Result<
    usize,
    CollectionError,
>)
    ensures
        length + additional <= usize::MAX ==> r == Ok::<usize, CollectionError>(
            reserve_exact_spec(capacity as nat, length as nat, additional as nat) as usize,
        ),
        length + additional > usize::MAX ==> r == Err::<usize, CollectionError>(
            CollectionError::CapacityOverflow,
        ),
{
    match required_capacity(length, additional) {
        Ok(needed) => {
            if needed <= capacity {
                Ok(capacity)
            } else {
                Ok(needed)
            }
        },
        Err(e) => Err(e),
    }
}

/// The at-least variant of reserving: see [`reserve_spec`].
pub fn reserve_capacity(capacity: usize, length: usize, additional: usize) -> (r: Result<
    usize,
    CollectionError,
>)
    ensures
        length + additional <= usize::MAX ==> r == Ok::<usize, CollectionError>(
            reserve_spec(capacity as nat, length as nat, additional as nat) as usize,
        ),
        length + additional > usize::MAX ==> r == Err::<usize, CollectionError>(
            CollectionError::CapacityOverflow,
        ),
{
    match required_capacity(length, additional) {
        Ok(needed) => Ok(next_capacity(capacity, needed)),
        Err(e) => Err(e),
    }
}

/// Growth never loses room, always covers the need, and is a real step
/// whenever the need exceeds what is there.
pub proof fn lemma_next_capacity_bounds(current: nat, required_minimum: nat)
    requires
        current <= usize::MAX,
        required_minimum <= usize::MAX,
    ensures
        next_capacity_spec(current, required_minimum) >= current,
        next_capacity_spec(current, required_minimum) >= required_minimum,
        next_capacity_spec(current, required_minimum) <= usize::MAX,
        required_minimum > current ==> next_capacity_spec(current, required_minimum) > current,
        required_minimum > current && 2 * current <= usize::MAX ==> next_capacity_spec(
            current,
            required_minimum,
        ) >= 2 * current,
{
}

} // verus!
