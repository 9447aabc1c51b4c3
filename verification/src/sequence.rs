use vstd::prelude::*;
use crate::capability::{Equality, Order, Ordered};
use crate::error::CollectionError;
use crate::growth::{next_capacity, next_capacity_spec, reserve_exact_spec, reserve_spec};
use core::ops::Range;

verus! {

/// A growable, index-addressable sequence that owns its elements.
///
/// The elements in use are the view; the capacity is the number of
/// elements the sequence has storage for, and it moves only as the growth
/// policy says.
pub struct Sequence<T> {
    items: Vec<T>,
    cap: usize,
}

impl<T> View for Sequence<T> {
    type V = Seq<T>;

    closed spec fn view(&self) -> Seq<T> {
        self.items@
    }
}

/// `Vec::shrink_to`: gives storage beyond `keep` elements back to the
/// allocator, never going below the length, and leaves the elements of
/// the vector as they are.
#[verifier::external_body]
fn release_storage<T>(items: &mut Vec<T>, keep: usize)
    ensures
        final(items)@ == old(items)@,
{
    items.shrink_to(keep);
}

impl<T> Sequence<T> {
    /// Number of elements the sequence has storage for.
    pub closed spec fn spec_capacity(&self) -> nat {
        self.cap as nat
    }

    /// The standing invariant: the length never exceeds the capacity.
    pub open spec fn wf(&self) -> bool {
        self@.len() <= self.spec_capacity() <= usize::MAX
    }

    /// An empty sequence that has allocated nothing.
    pub fn new() -> (s: Self)
        ensures
            s.wf(),
            s@ == Seq::<T>::empty(),
            s.spec_capacity() == 0,
    {
        Sequence { items: Vec::new(), cap: 0 }
    }

    /// An empty sequence with room for `capacity` elements.
    pub fn with_capacity(capacity: usize) -> (s: Self)
        ensures
            s.wf(),
            s@ == Seq::<T>::empty(),
            s.spec_capacity() == capacity,
    {
        let mut s = Sequence { items: Vec::new(), cap: 0 };
        s.grow_to(capacity);
        s
    }

    /// Takes over the elements of `items`, in order, with no spare room.
    pub fn from_vec(items: Vec<T>) -> (s: Self)
        ensures
            s.wf(),
            s@ == items@,
            s.spec_capacity() == items@.len(),
    {
        let cap = items.len();
        Sequence { items, cap }
    }

    /// A sequence that holds copies of the elements of `items`, in order,
    /// with no spare room.
    pub fn from_slice(items: &[T]) -> (s: Self) where T: Copy
        ensures
            s.wf(),
            s@ == items@,
            s.spec_capacity() == items@.len(),
    {
        let mut copies: Vec<T> = Vec::new();
        let mut i: usize = 0;
        while i < items.len()
            invariant
                i <= items@.len(),
                copies@ == items@.subrange(0, i as int),
            decreases items@.len() - i,
        {
            copies.push(items[i]);
            assert(items@.subrange(0, i as int + 1) =~= items@.subrange(0, i as int).push(
                items@[i as int],
            ));
            i = i + 1;
        }
        assert(items@.subrange(0, items@.len() as int) =~= items@);
        Sequence::from_vec(copies)
    }

    /// Gives the elements up as a plain vector.
    pub fn into_vec(self) -> (items: Vec<T>)
        ensures
            items@ == self@,
    {
        self.items
    }

    /// The elements as a slice.
    pub fn as_slice(&self) -> (items: &[T])
        ensures
            items@ == self@,
    {
        self.items.as_slice()
    }

    /// Number of elements in use.
    pub fn len(&self) -> (n: usize)
        ensures
            n == self@.len(),
            self.wf() ==> n <= self.spec_capacity(),
    {
        self.items.len()
    }

    /// Number of elements the sequence has storage for.
    pub fn capacity(&self) -> (n: usize)
        ensures
            n == self.spec_capacity(),
            self.wf() ==> n >= self@.len(),
    {
        self.cap
    }

    /// Whether the sequence holds no element.
    pub fn is_empty(&self) -> (b: bool)
        ensures
            b == (self@.len() == 0),
    {
        self.items.len() == 0
    }

    /// Moves the capacity to `target` and asks the allocator to follow.
    /// An allocator that cannot is asked again when elements arrive.
    fn grow_to(&mut self, target: usize)
        requires
            old(self).wf(),
            target >= old(self).spec_capacity(),
        ensures
            final(self).wf(),
            final(self)@ == old(self)@,
            final(self).spec_capacity() == target,
    {
        let spare = target - self.items.len();
        let _ = self.items.try_reserve(spare);
        self.cap = target;
    }

    /// Appends `value`. Storage is reallocated only when the sequence is
    /// full, and then by the growth policy.
    pub fn push(&mut self, value: T)
        requires
            old(self).wf(),
            old(self)@.len() < usize::MAX,
        ensures
            final(self).wf(),
            final(self)@ == old(self)@.push(value),
            final(self).spec_capacity() == next_capacity_spec(
                old(self).spec_capacity(),
                old(self)@.len() + 1,
            ),
            old(self)@.len() < old(self).spec_capacity() ==> final(self).spec_capacity() == old(self).spec_capacity(),
            old(self)@.len() == old(self).spec_capacity() ==> final(self).spec_capacity() > old(self).spec_capacity(),
    {
        let target = next_capacity(self.cap, self.items.len() + 1);
        self.grow_to(target);
        self.items.push(value);
    }

    /// Removes and returns the last element; `None` on an empty sequence.
    pub fn pop(&mut self) -> (r: Option<T>)
        requires
            old(self).wf(),
        ensures
            final(self).wf(),
            final(self).spec_capacity() == old(self).spec_capacity(),
            old(self)@.len() == 0 ==> r is None && final(self)@ == old(self)@,
            old(self)@.len() > 0 ==> r == Some(old(self)@.last()) && final(self)@ == old(self)@.drop_last(),
    {
        self.items.pop()
    }

    /// The element at `i`, or `IndexOutOfBounds` when there is none.
    pub fn get(&self, i: usize) -> (r: Result<&T, CollectionError>)
        ensures
            i < self@.len() ==> r == Ok::<&T, CollectionError>(&self@[i as int]),
            i >= self@.len() ==> r == Err::<&T, CollectionError>(
                CollectionError::IndexOutOfBounds,
            ),
    {
        if i < self.items.len() {
            Ok(&self.items[i])
        } else {
            Err(CollectionError::IndexOutOfBounds)
        }
    }

    /// A handle through which the element at `i` can be changed in place.
    pub fn get_mut(&mut self, i: usize) -> (r: Result<&mut T, CollectionError>)
        requires
            old(self).wf(),
        ensures
            final(self).wf(),
            final(self).spec_capacity() == old(self).spec_capacity(),
            i >= old(self)@.len() ==> r == Err::<&mut T, CollectionError>(
                CollectionError::IndexOutOfBounds,
            ) && final(self)@ == old(self)@,
            i < old(self)@.len() ==> r is Ok && *r->Ok_0 == old(self)@[i as int] && final(self)@
                == old(self)@.update(i as int, *final(r->Ok_0)),
    {
        if i < self.items.len() {
            Ok(&mut self.items[i])
        } else {
            Err(CollectionError::IndexOutOfBounds)
        }
    }

    /// The element at `i`, for callers who know that `i` is in range.
    pub fn index(&self, i: usize) -> (r: &T)
        requires
            i < self@.len(),
        ensures
            *r == self@[i as int],
    {
        &self.items[i]
    }

    /// The first element, if there is one.
    pub fn first(&self) -> (r: Option<&T>)
        ensures
            self@.len() == 0 ==> r is None,
            self@.len() > 0 ==> r == Some(&self@[0]),
    {
        if self.items.len() == 0 {
            None
        } else {
            Some(&self.items[0])
        }
    }

    /// The last element, if there is one.
    pub fn last(&self) -> (r: Option<&T>)
        ensures
            self@.len() == 0 ==> r is None,
            self@.len() > 0 ==> r == Some(&self@.last()),
    {
        let n = self.items.len();
        if n == 0 {
            None
        } else {
            Some(&self.items[n - 1])
        }
    }

    /// Inserts `value` before index `i`, moving every later element one
    /// place up. `i` may be the length, which appends.
    pub fn insert(&mut self, i: usize, value: T) -> (r: Result<(), CollectionError>)
        requires
            old(self).wf(),
            old(self)@.len() < usize::MAX,
        ensures
            final(self).wf(),
            i <= old(self)@.len() ==> r is Ok && final(self)@ == old(self)@.insert(i as int, value)
                && final(self).spec_capacity() == next_capacity_spec(
                old(self).spec_capacity(),
                old(self)@.len() + 1,
            ),
            i > old(self)@.len() ==> r == Err::<(), CollectionError>(
                CollectionError::IndexOutOfBounds,
            ) && final(self)@ == old(self)@ && final(self).spec_capacity() == old(self).spec_capacity(),
    {
        if i > self.items.len() {
            return Err(CollectionError::IndexOutOfBounds);
        }
        let target = next_capacity(self.cap, self.items.len() + 1);
        self.grow_to(target);
        self.items.insert(i, value);
        Ok(())
    }

    /// Removes the element at `i` and returns it, moving every later
    /// element one place down.
    pub fn remove(&mut self, i: usize) -> (r: Result<T, CollectionError>)
        requires
            old(self).wf(),
        ensures
            final(self).wf(),
            final(self).spec_capacity() == old(self).spec_capacity(),
            i < old(self)@.len() ==> r == Ok::<T, CollectionError>(old(self)@[i as int]) && final(self)@ == old(self)@.remove(i as int),
            i >= old(self)@.len() ==> r == Err::<T, CollectionError>(
                CollectionError::IndexOutOfBounds,
            ) && final(self)@ == old(self)@,
    {
        if i < self.items.len() {
            Ok(self.items.remove(i))
        } else {
            Err(CollectionError::IndexOutOfBounds)
        }
    }

    /// Removes the element at `i` in constant time by moving the last
    /// element into its place. The order of the elements is not kept.
    pub fn swap_remove(&mut self, i: usize) -> (r: Result<T, CollectionError>)
        requires
            old(self).wf(),
        ensures
            final(self).wf(),
            final(self).spec_capacity() == old(self).spec_capacity(),
            i < old(self)@.len() ==> r == Ok::<T, CollectionError>(old(self)@[i as int]) && final(self)@ == old(self)@.update(i as int, old(self)@.last()).drop_last(),
            i >= old(self)@.len() ==> r == Err::<T, CollectionError>(
                CollectionError::IndexOutOfBounds,
            ) && final(self)@ == old(self)@,
    {
        if i < self.items.len() {
            Ok(self.items.swap_remove(i))
        } else {
            Err(CollectionError::IndexOutOfBounds)
        }
    }

    /// Drops every element from index `n` on. The capacity stays.
    pub fn truncate(&mut self, n: usize)
        requires
            old(self).wf(),
        ensures
            final(self).wf(),
            final(self).spec_capacity() == old(self).spec_capacity(),
            n <= old(self)@.len() ==> final(self)@ == old(self)@.subrange(0, n as int),
            n > old(self)@.len() ==> final(self)@ == old(self)@,
    {
        self.items.truncate(n);
    }

    /// Drops every element. The capacity stays.
    pub fn clear(&mut self)
        requires
            old(self).wf(),
        ensures
            final(self).wf(),
            final(self).spec_capacity() == old(self).spec_capacity(),
            final(self)@ == Seq::<T>::empty(),
    {
        self.items.clear();
    }

    /// Makes room for at least `additional` more elements, rounding up by
    /// the growth policy.
    pub fn reserve(&mut self, additional: usize)
        requires
            old(self).wf(),
            old(self)@.len() + additional <= usize::MAX,
        ensures
            final(self).wf(),
            final(self)@ == old(self)@,
            final(self).spec_capacity() == reserve_spec(
                old(self).spec_capacity(),
                old(self)@.len(),
                additional as nat,
            ),
            final(self).spec_capacity() >= old(self)@.len() + additional,
    {
        let target = next_capacity(self.cap, self.items.len() + additional);
        self.grow_to(target);
    }

    /// Makes room for exactly `additional` more elements, unless there is
    /// already that much.
    pub fn reserve_exact(&mut self, additional: usize)
        requires
            old(self).wf(),
            old(self)@.len() + additional <= usize::MAX,
        ensures
            final(self).wf(),
            final(self)@ == old(self)@,
            final(self).spec_capacity() == reserve_exact_spec(
                old(self).spec_capacity(),
                old(self)@.len(),
                additional as nat,
            ),
    {
        let needed = self.items.len() + additional;
        if needed > self.cap {
            self.grow_to(needed);
        }
    }

    /// Like [`Sequence::reserve`], but reports a request that no `usize`
    /// can express instead of ruling it out.
    pub fn try_reserve(&mut self, additional: usize) -> (r: Result<(), CollectionError>)
        requires
            old(self).wf(),
        ensures
            final(self).wf(),
            final(self)@ == old(self)@,
            old(self)@.len() + additional <= usize::MAX ==> r is Ok && final(self).spec_capacity()
                == reserve_spec(old(self).spec_capacity(), old(self)@.len(), additional as nat),
            old(self)@.len() + additional > usize::MAX ==> r == Err::<(), CollectionError>(
                CollectionError::CapacityOverflow,
            ) && final(self).spec_capacity() == old(self).spec_capacity(),
    {
        if additional > usize::MAX - self.items.len() {
            return Err(CollectionError::CapacityOverflow);
        }
        self.reserve(additional);
        Ok(())
    }

    /// Gives back all spare room: the capacity becomes the length.
    pub fn shrink_to_fit(&mut self)
        requires
            old(self).wf(),
        ensures
            final(self).wf(),
            final(self)@ == old(self)@,
            final(self).spec_capacity() == old(self)@.len(),
    {
        let keep = crate::growth::shrink_to_fit(self.items.len());
        release_storage(&mut self.items, keep);
        self.cap = keep;
    }
}


/// Exchanges the elements at `i` and `j` in constant time.
fn swap_items<T>(items: &mut Vec<T>, i: usize, j: usize)
    requires
        i < old(items)@.len(),
        j < old(items)@.len(),
    ensures
        final(items)@ == old(items)@.update(i as int, old(items)@[j as int]).update(
            j as int,
            old(items)@[i as int],
        ),
{
    if i == j {
        assert(items@ =~= items@.update(i as int, items@[j as int]).update(j as int, items@[i as int]));
        return ;
    }
    let lo = if i < j { i } else { j };
    let hi = if i < j { j } else { i };
    let ghost before = items@;
    let (left, right) = items.as_mut_slice().split_at_mut(hi);
    core::mem::swap(&mut left[lo], &mut right[0]);
    assert(items@ =~= before.update(i as int, before[j as int]).update(j as int, before[i as int]));
}

/// The elements of `s` whose flag in `keep` is set, in their order.
pub open spec fn kept<T>(s: Seq<T>, keep: Seq<bool>) -> Seq<T>
    recommends
        keep.len() == s.len(),
    decreases s.len(),
{
    if s.len() == 0 {
        Seq::empty()
    } else {
        let rest = kept(s.drop_last(), keep.drop_last());
        if keep.last() {
            rest.push(s.last())
        } else {
            rest
        }
    }
}

/// `keep` holds, element by element, an answer that `pred` gives.
pub open spec fn decided_by<T, F: Fn(&T) -> bool>(pred: F, s: Seq<T>, keep: Seq<bool>) -> bool {
    &&& keep.len() == s.len()
    &&& forall|i: int| 0 <= i < s.len() ==> call_ensures(pred, (&s[i],), #[trigger] keep[i])
}

impl<T> Sequence<T> {
    /// Exchanges the elements at `i` and `j`.
    pub fn swap(&mut self, i: usize, j: usize) -> (r: Result<(), CollectionError>)
        requires
            old(self).wf(),
        ensures
            final(self).wf(),
            final(self).spec_capacity() == old(self).spec_capacity(),
            i < old(self)@.len() && j < old(self)@.len() ==> r is Ok && final(self)@ == old(
                self)@.update(i as int, old(self)@[j as int]).update(j as int, old(self)@[i as int]),
            i >= old(self)@.len() || j >= old(self)@.len() ==> r == Err::<(), CollectionError>(
                CollectionError::IndexOutOfBounds,
            ) && final(self)@ == old(self)@,
    {
        if i < self.items.len() && j < self.items.len() {
            swap_items(&mut self.items, i, j);
            Ok(())
        } else {
            Err(CollectionError::IndexOutOfBounds)
        }
    }

    /// Keeps the elements for which `pred` answers `true`, in their order,
    /// in one pass and in place. The capacity stays.
    pub fn retain<F: Fn(&T) -> bool>(&mut self, pred: F)
        requires
            old(self).wf(),
            forall|i: int| 0 <= i < old(self)@.len() ==> call_requires(pred, (&old(self)@[i],)),
        ensures
            final(self).wf(),
            final(self).spec_capacity() == old(self).spec_capacity(),
            exists|keep: Seq<bool>|
                decided_by(pred, old(self)@, keep) && final(self)@ == #[trigger] kept(
                    old(self)@,
                    keep,
                ),
    {
        let n = self.items.len();
        let ghost orig = self.items@;
        let ghost mut keep: Seq<bool> = Seq::empty();
        let mut write: usize = 0;
        let mut read: usize = 0;
        while read < n
            invariant
                orig == old(self)@,
                self.cap == old(self).cap,
                self.items@.len() == n,
                orig.len() == n,
                n <= self.cap,
                write <= read <= n,
                keep.len() == read,
                forall|i: int| 0 <= i < n ==> call_requires(pred, (&orig[i],)),
                forall|i: int| 0 <= i < read ==> call_ensures(pred, (&orig[i],), #[trigger] keep[i]),
                self.items@.subrange(0, write as int) == kept(orig.subrange(0, read as int), keep),
                forall|i: int| read <= i < n ==> self.items@[i] == orig[i],
            decreases n - read,
        {
            let ghost before = self.items@;
            assert(self.items@[read as int] == orig[read as int]);
            let keep_it = pred(&self.items[read]);
            proof {
                let prefix = orig.subrange(0, read as int + 1);
                assert(prefix.drop_last() =~= orig.subrange(0, read as int));
                assert(keep.push(keep_it).drop_last() =~= keep);
                keep = keep.push(keep_it);
            }
            if keep_it {
                swap_items(&mut self.items, write, read);
                assert(self.items@.subrange(0, write as int + 1) =~= before.subrange(
                    0,
                    write as int,
                ).push(orig[read as int]));
                write = write + 1;
            } else {
                assert(self.items@.subrange(0, write as int) =~= before.subrange(0, write as int));
            }
            read = read + 1;
        }
        self.items.truncate(write);
        proof {
            assert(orig.subrange(0, n as int) =~= orig);
            assert(decided_by(pred, orig, keep));
        }
    }

    /// Turns the order of the elements around, in place.
    pub fn reverse(&mut self)
        requires
            old(self).wf(),
        ensures
            final(self).wf(),
            final(self).spec_capacity() == old(self).spec_capacity(),
            final(self)@ == old(self)@.reverse(),
    {
        let n = self.items.len();
        let ghost orig = self.items@;
        let mut i: usize = 0;
        while i < n / 2
            invariant
                self.cap == old(self).cap,
                n <= self.cap,
                orig.len() == n,
                self.items@.len() == n,
                i <= n / 2,
                forall|k: int| 0 <= k < i ==> self.items@[k] == orig[n - 1 - k],
                forall|k: int| n - i <= k < n ==> self.items@[k] == orig[n - 1 - k],
                forall|k: int| i <= k < n - i ==> self.items@[k] == orig[k],
            decreases n / 2 - i,
        {
            swap_items(&mut self.items, i, n - 1 - i);
            i = i + 1;
        }
        assert(self.items@ =~= orig.reverse());
    }

    /// Removes the elements in `range` and returns them in order; what
    /// remains closes the gap.
    pub fn drain(&mut self, range: Range<usize>) -> (r: Result<Sequence<T>, CollectionError>)
        requires
            old(self).wf(),
        ensures
            final(self).wf(),
            final(self).spec_capacity() == old(self).spec_capacity(),
            range.start <= range.end <= old(self)@.len() ==> r is Ok && r->Ok_0.wf() && r->Ok_0@
                == old(self)@.subrange(range.start as int, range.end as int) && final(self)@ == old(
                self)@.subrange(0, range.start as int) + old(self)@.subrange(
                range.end as int,
                old(self)@.len() as int,
            ),
            !(range.start <= range.end <= old(self)@.len()) ==> r == Err::<
                Sequence<T>,
                CollectionError,
            >(CollectionError::IndexOutOfBounds) && final(self)@ == old(self)@,
    {
        let start = range.start;
        let end = range.end;
        if start > end || end > self.items.len() {
            return Err(CollectionError::IndexOutOfBounds);
        }
        let mut tail = self.items.split_off(end);
        let removed = self.items.split_off(start);
        self.items.append(&mut tail);
        Ok(Sequence::from_vec(removed))
    }

    /// Splits the sequence at `at`: the elements from `at` on are
    /// returned, the ones before stay.
    pub fn split_off(&mut self, at: usize) -> (r: Result<Sequence<T>, CollectionError>)
        requires
            old(self).wf(),
        ensures
            final(self).wf(),
            final(self).spec_capacity() == old(self).spec_capacity(),
            at <= old(self)@.len() ==> r is Ok && r->Ok_0.wf() && r->Ok_0@ == old(self)@.subrange(
                at as int,
                old(self)@.len() as int,
            ) && final(self)@ == old(self)@.subrange(0, at as int),
            at > old(self)@.len() ==> r == Err::<Sequence<T>, CollectionError>(
                CollectionError::IndexOutOfBounds,
            ) && final(self)@ == old(self)@,
    {
        if at > self.items.len() {
            return Err(CollectionError::IndexOutOfBounds);
        }
        let tail = self.items.split_off(at);
        Ok(Sequence::from_vec(tail))
    }

    /// Moves the first `k` elements behind the others.
    pub fn rotate_left(&mut self, k: usize) -> (r: Result<(), CollectionError>)
        requires
            old(self).wf(),
        ensures
            final(self).wf(),
            final(self).spec_capacity() == old(self).spec_capacity(),
            k <= old(self)@.len() ==> r is Ok && final(self)@ == old(self)@.subrange(
                k as int,
                old(self)@.len() as int,
            ) + old(self)@.subrange(0, k as int),
            k > old(self)@.len() ==> r == Err::<(), CollectionError>(
                CollectionError::IndexOutOfBounds,
            ) && final(self)@ == old(self)@,
    {
        if k > self.items.len() {
            return Err(CollectionError::IndexOutOfBounds);
        }
        let mut back = self.items.split_off(k);
        back.append(&mut self.items);
        self.items = back;
        Ok(())
    }

    /// Moves the last `k` elements before the others.
    pub fn rotate_right(&mut self, k: usize) -> (r: Result<(), CollectionError>)
        requires
            old(self).wf(),
        ensures
            final(self).wf(),
            final(self).spec_capacity() == old(self).spec_capacity(),
            k <= old(self)@.len() ==> r is Ok && final(self)@ == old(self)@.subrange(
                old(self)@.len() - k,
                old(self)@.len() as int,
            ) + old(self)@.subrange(0, old(self)@.len() - k),
            k > old(self)@.len() ==> r == Err::<(), CollectionError>(
                CollectionError::IndexOutOfBounds,
            ) && final(self)@ == old(self)@,
    {
        let n = self.items.len();
        if k > n {
            return Err(CollectionError::IndexOutOfBounds);
        }
        self.rotate_left(n - k)
    }

    /// Moves every element of `other` to the end of this sequence and
    /// leaves `other` empty.
    pub fn append(&mut self, other: &mut Sequence<T>)
        requires
            old(self).wf(),
            old(other).wf(),
            old(self)@.len() + old(other)@.len() <= usize::MAX,
        ensures
            final(self).wf(),
            final(other).wf(),
            final(self)@ == old(self)@ + old(other)@,
            final(other)@ == Seq::<T>::empty(),
            final(other).spec_capacity() == old(other).spec_capacity(),
            final(self).spec_capacity() == next_capacity_spec(
                old(self).spec_capacity(),
                old(self)@.len() + old(other)@.len(),
            ),
    {
        let target = next_capacity(self.cap, self.items.len() + other.items.len());
        self.grow_to(target);
        self.items.append(&mut other.items);
    }

    /// Appends the elements of `items` in order.
    pub fn extend(&mut self, items: Vec<T>)
        requires
            old(self).wf(),
            old(self)@.len() + items@.len() <= usize::MAX,
        ensures
            final(self).wf(),
            final(self)@ == old(self)@ + items@,
            final(self).spec_capacity() == next_capacity_spec(
                old(self).spec_capacity(),
                old(self)@.len() + items@.len(),
            ),
    {
        let mut items = items;
        let target = next_capacity(self.cap, self.items.len() + items.len());
        self.grow_to(target);
        self.items.append(&mut items);
    }
}


/// `s` without the repeats inside each run of equal neighbours: the first
/// element of every run stays.
pub open spec fn deduped<T: Equality>(s: Seq<T>) -> Seq<T>
    decreases s.len(),
{
    if s.len() <= 1 {
        s
    } else {
        let rest = deduped(s.drop_last());
        if s[s.len() - 2].id() == s.last().id() {
            rest
        } else {
            rest.push(s.last())
        }
    }
}

/// The identities of the elements of `s`, in order.
pub open spec fn ids_of<T: Equality>(s: Seq<T>) -> Seq<T::Id> {
    Seq::new(s.len(), |i: int| s[i].id())
}

impl<T: Equality> Sequence<T> {
    /// Removes the repeats inside each run of consecutive equal elements,
    /// in one pass and in place. Equal elements that are not neighbours
    /// all stay: sort first to remove every duplicate.
    pub fn dedup(&mut self)
        requires
            old(self).wf(),
        ensures
            final(self).wf(),
            final(self).spec_capacity() == old(self).spec_capacity(),
            final(self)@ == deduped(old(self)@),
    {
        let n = self.items.len();
        if n <= 1 {
            return ;
        }
        let ghost orig = self.items@;
        let mut write: usize = 1;
        let mut read: usize = 1;
        assert(self.items@.subrange(0, 1) =~= orig.subrange(0, 1));
        while read < n
            invariant
                self.cap == old(self).cap,
                n <= self.cap,
                orig == old(self)@,
                orig.len() == n,
                self.items@.len() == n,
                1 <= write <= read <= n,
                self.items@.subrange(0, write as int) == deduped(orig.subrange(0, read as int)),
                self.items@[write - 1].id() == orig[read - 1].id(),
                forall|i: int| read <= i < n ==> self.items@[i] == orig[i],
            decreases n - read,
        {
            let ghost before = self.items@;
            let ghost prefix = orig.subrange(0, read as int + 1);
            assert(prefix.drop_last() =~= orig.subrange(0, read as int));
            assert(self.items@[read as int] == orig[read as int]);
            let repeat = self.items[read].equals(&self.items[write - 1]);
            if !repeat {
                swap_items(&mut self.items, write, read);
                assert(self.items@.subrange(0, write as int + 1) =~= before.subrange(
                    0,
                    write as int,
                ).push(orig[read as int]));
                write = write + 1;
            } else {
                assert(self.items@.subrange(0, write as int) =~= before.subrange(0, write as int));
            }
            read = read + 1;
        }
        self.items.truncate(write);
        assert(orig.subrange(0, n as int) =~= orig);
    }

    /// Whether some element equals `target`.
    pub fn contains(&self, target: &T) -> (found: bool)
        ensures
            found == exists|i: int| 0 <= i < self@.len() && #[trigger] self@[i].id() == target.id(),
    {
        let mut i: usize = 0;
        while i < self.items.len()
            invariant
                i <= self.items@.len(),
                forall|k: int| 0 <= k < i ==> #[trigger] self.items@[k].id() != target.id(),
            decreases self.items@.len() - i,
        {
            if self.items[i].equals(target) {
                assert(self@[i as int].id() == target.id());
                return true;
            }
            i = i + 1;
        }
        false
    }

    /// Index of the first element that equals `target`.
    pub fn position(&self, target: &T) -> (r: Option<usize>)
        ensures
            r matches Some(i) ==> i < self@.len() && self@[i as int].id() == target.id()
                && forall|k: int| 0 <= k < i ==> #[trigger] self@[k].id() != target.id(),
            r is None ==> forall|k: int| 0 <= k < self@.len() ==> #[trigger] self@[k].id()
                != target.id(),
    {
        let mut i: usize = 0;
        while i < self.items.len()
            invariant
                i <= self.items@.len(),
                forall|k: int| 0 <= k < i ==> #[trigger] self.items@[k].id() != target.id(),
            decreases self.items@.len() - i,
        {
            if self.items[i].equals(target) {
                return Some(i);
            }
            i = i + 1;
        }
        None
    }
}

/// Two sequences are equal when they have the same length and equal
/// elements at every index.
impl<T: Equality> Equality for Sequence<T> {
    type Id = Seq<T::Id>;

    open spec fn id(&self) -> Seq<T::Id> {
        ids_of(self@)
    }

    fn equals(&self, other: &Self) -> (same: bool) {
        if self.items.len() != other.items.len() {
            assert(self.id().len() != other.id().len());
            return false;
        }
        let mut i: usize = 0;
        while i < self.items.len()
            invariant
                self.items@.len() == other.items@.len(),
                i <= self.items@.len(),
                forall|k: int| 0 <= k < i ==> self.items@[k].id() == other.items@[k].id(),
            decreases self.items@.len() - i,
        {
            if !self.items[i].equals(&other.items[i]) {
                assert(self.id()[i as int] != other.id()[i as int]);
                return false;
            }
            i = i + 1;
        }
        assert(self.id() =~= other.id());
        true
    }
}

/// No element comes before one that stands earlier.
pub open spec fn sorted<T: Ordered>(s: Seq<T>) -> bool {
    forall|i: int, j: int| 0 <= i < j < s.len() ==> !T::precedes(#[trigger] s[j].id(), #[trigger] s[i].id())
}

/// Dictionary order on sequences of identities: `a` comes first when it
/// is a proper prefix of `b`, or when the first element in which they
/// differ is the smaller one in `a`.
pub open spec fn lex_precedes<T: Ordered>(a: Seq<T::Id>, b: Seq<T::Id>) -> bool {
    exists|k: int| #[trigger] differs_first_at::<T>(a, b, k)
}

/// `a` and `b` agree before index `k`, and at `k` either `a` ends while
/// `b` goes on or `a` holds the smaller element.
pub open spec fn differs_first_at<T: Ordered>(a: Seq<T::Id>, b: Seq<T::Id>, k: int) -> bool {
    &&& 0 <= k <= a.len()
    &&& k < b.len()
    &&& a.subrange(0, k) == b.subrange(0, k)
    &&& (k < a.len() ==> T::precedes(a[k], b[k]))
}

impl<T: Ordered> Sequence<T> {
    /// Looks for `target` by halving. On a sorted sequence `Ok` holds the
    /// index of an equal element and `Err` the index at which `target`
    /// can be inserted to keep the order. On an unsorted sequence an `Ok`
    /// is still a hit, but a miss and the index that comes with it mean
    /// nothing.
    pub fn binary_search(&self, target: &T) -> (r: Result<usize, usize>)
        ensures
            r matches Ok(i) ==> i < self@.len() && self@[i as int].id() == target.id(),
            r matches Err(i) ==> i <= self@.len() && (sorted(self@) ==> {
                &&& forall|k: int| 0 <= k < i ==> T::precedes(#[trigger] self@[k].id(), target.id())
                &&& forall|k: int|
                    i <= k < self@.len() ==> T::precedes(target.id(), #[trigger] self@[k].id())
            }),
            sorted(self@) ==> (r is Ok <==> exists|k: int|
                0 <= k < self@.len() && #[trigger] self@[k].id() == target.id()),
    {
        let mut lo: usize = 0;
        let mut hi: usize = self.items.len();
        while lo < hi
            invariant
                lo <= hi <= self.items@.len(),
                sorted(self@) ==> forall|k: int|
                    0 <= k < lo ==> T::precedes(#[trigger] self@[k].id(), target.id()),
                sorted(self@) ==> forall|k: int|
                    hi <= k < self@.len() ==> T::precedes(target.id(), #[trigger] self@[k].id()),
            decreases hi - lo,
        {
            let mid = lo + (hi - lo) / 2;
            match self.items[mid].compare(target) {
                Order::Equal => {
                    assert(self@[mid as int].id() == target.id());
                    return Ok(mid);
                },
                Order::Less => {
                    proof {
                        if sorted(self@) {
                            assert forall|k: int| 0 <= k < mid + 1 implies T::precedes(
                                #[trigger] self@[k].id(),
                                target.id(),
                            ) by {
                                if k < mid {
                                    assert(!T::precedes(self@[mid as int].id(), self@[k].id()));
                                    T::lemma_precedes_total(self@[k].id(), self@[mid as int].id());
                                    if self@[k].id() != self@[mid as int].id() {
                                        T::lemma_precedes_transitive(
                                            self@[k].id(),
                                            self@[mid as int].id(),
                                            target.id(),
                                        );
                                    }
                                }
                            }
                        }
                    }
                    lo = mid + 1;
                },
                Order::Greater => {
                    proof {
                        if sorted(self@) {
                            assert forall|k: int| mid <= k < self@.len() implies T::precedes(
                                target.id(),
                                #[trigger] self@[k].id(),
                            ) by {
                                if k > mid {
                                    assert(!T::precedes(self@[k].id(), self@[mid as int].id()));
                                    T::lemma_precedes_total(self@[mid as int].id(), self@[k].id());
                                    if self@[k].id() != self@[mid as int].id() {
                                        T::lemma_precedes_transitive(
                                            target.id(),
                                            self@[mid as int].id(),
                                            self@[k].id(),
                                        );
                                    }
                                }
                            }
                        }
                    }
                    hi = mid;
                },
            }
        }
        proof {
            if sorted(self@) {
                assert forall|k: int| 0 <= k < self@.len() implies #[trigger] self@[k].id()
                    != target.id() by {
                    if k < lo {
                        T::lemma_precedes_asymmetric(self@[k].id(), target.id());
                    } else {
                        T::lemma_precedes_asymmetric(target.id(), self@[k].id());
                    }
                }
            }
        }
        Err(lo)
    }
}

/// Two sequences cannot each come before the other, and a sequence does
/// not come before itself.
pub proof fn lemma_lex_asymmetric<T: Ordered>(a: Seq<T::Id>, b: Seq<T::Id>)
    requires
        lex_precedes::<T>(a, b),
    ensures
        !lex_precedes::<T>(b, a),
        a != b,
{
    let k = choose|k: int| #[trigger] differs_first_at::<T>(a, b, k);
    if a == b {
        T::lemma_precedes_asymmetric(a[k], b[k]);
    }
    if lex_precedes::<T>(b, a) {
        let j = choose|j: int| #[trigger] differs_first_at::<T>(b, a, j);
        if k < j {
            assert(b.subrange(0, j)[k] == a.subrange(0, j)[k]);
            T::lemma_precedes_asymmetric(a[k], b[k]);
        } else if j < k {
            assert(a.subrange(0, k)[j] == b.subrange(0, k)[j]);
            T::lemma_precedes_asymmetric(b[j], a[j]);
        } else {
            T::lemma_precedes_asymmetric(a[k], b[k]);
        }
    }
}

/// Coming before is passed on along a chain of three sequences.
pub proof fn lemma_lex_transitive<T: Ordered>(a: Seq<T::Id>, b: Seq<T::Id>, c: Seq<T::Id>)
    requires
        lex_precedes::<T>(a, b),
        lex_precedes::<T>(b, c),
    ensures
        lex_precedes::<T>(a, c),
{
    let k = choose|k: int| #[trigger] differs_first_at::<T>(a, b, k);
    let j = choose|j: int| #[trigger] differs_first_at::<T>(b, c, j);
    let m = if k <= j { k } else { j };
    assert(a.subrange(0, m) =~= c.subrange(0, m)) by {
        assert forall|x: int| 0 <= x < m implies a[x] == c[x] by {
            assert(a.subrange(0, k)[x] == b.subrange(0, k)[x]);
            assert(b.subrange(0, j)[x] == c.subrange(0, j)[x]);
        }
    }
    if m < a.len() {
        if k < j {
            assert(b.subrange(0, j)[k] == c.subrange(0, j)[k]);
        } else if j < k {
            assert(a.subrange(0, k)[j] == b.subrange(0, k)[j]);
        } else {
            T::lemma_precedes_transitive(a[m], b[m], c[m]);
        }
    }
    assert(differs_first_at::<T>(a, c, m));
}

/// Two sequences that agree on their first `i` elements are equal, or
/// one of them comes before the other.
proof fn lemma_lex_total_from<T: Ordered>(a: Seq<T::Id>, b: Seq<T::Id>, i: int)
    requires
        0 <= i <= a.len(),
        i <= b.len(),
        a.subrange(0, i) == b.subrange(0, i),
    ensures
        a == b || lex_precedes::<T>(a, b) || lex_precedes::<T>(b, a),
    decreases a.len() - i,
{
    if i == a.len() {
        if i == b.len() {
            assert(a.subrange(0, i) =~= a);
            assert(b.subrange(0, i) =~= b);
        } else {
            assert(differs_first_at::<T>(a, b, i));
        }
    } else if i == b.len() {
        assert(differs_first_at::<T>(b, a, i));
    } else {
        T::lemma_precedes_total(a[i], b[i]);
        if T::precedes(a[i], b[i]) {
            assert(differs_first_at::<T>(a, b, i));
        } else if T::precedes(b[i], a[i]) {
            assert(differs_first_at::<T>(b, a, i));
        } else {
            assert(a.subrange(0, i + 1) =~= a.subrange(0, i).push(a[i]));
            assert(b.subrange(0, i + 1) =~= b.subrange(0, i).push(b[i]));
            lemma_lex_total_from::<T>(a, b, i + 1);
        }
    }
}

/// Sequences are ordered as in a dictionary: element by element from the
/// front, a proper prefix being the smaller one.
impl<T: Ordered> Ordered for Sequence<T> {
    open spec fn precedes(a: Seq<T::Id>, b: Seq<T::Id>) -> bool {
        lex_precedes::<T>(a, b)
    }

    proof fn lemma_precedes_asymmetric(a: Seq<T::Id>, b: Seq<T::Id>) {
        lemma_lex_asymmetric::<T>(a, b);
    }

    proof fn lemma_precedes_transitive(a: Seq<T::Id>, b: Seq<T::Id>, c: Seq<T::Id>) {
        lemma_lex_transitive::<T>(a, b, c);
    }

    proof fn lemma_precedes_total(a: Seq<T::Id>, b: Seq<T::Id>) {
        assert(a.subrange(0, 0) =~= b.subrange(0, 0));
        lemma_lex_total_from::<T>(a, b, 0);
    }

    fn compare(&self, other: &Self) -> (o: Order) {
        let n = self.items.len();
        let m = other.items.len();
        let ghost a = ids_of(self@);
        let ghost b = ids_of(other@);
        let mut i: usize = 0;
        let mut verdict = Order::Equal;
        let mut decided = false;
        while !decided && i < n && i < m
            invariant
                n == self@.len(),
                m == other@.len(),
                a == ids_of(self@),
                b == ids_of(other@),
                i <= n,
                i <= m,
                !decided ==> a.subrange(0, i as int) == b.subrange(0, i as int),
                decided ==> verdict != Order::Equal,
                !decided ==> verdict == Order::Equal,
                decided && verdict == Order::Less ==> lex_precedes::<T>(a, b),
                decided && verdict == Order::Greater ==> lex_precedes::<T>(b, a),
            decreases n - i, if decided { 0int } else { 1int },
        {
            match self.items[i].compare(&other.items[i]) {
                Order::Less => {
                    assert(differs_first_at::<T>(a, b, i as int));
                    verdict = Order::Less;
                    decided = true;
                },
                Order::Greater => {
                    assert(differs_first_at::<T>(b, a, i as int));
                    verdict = Order::Greater;
                    decided = true;
                },
                Order::Equal => {
                    assert(a.subrange(0, i as int + 1) =~= a.subrange(0, i as int).push(a[i as int]));
                    assert(b.subrange(0, i as int + 1) =~= b.subrange(0, i as int).push(b[i as int]));
                    i = i + 1;
                },
            }
        }
        if !decided {
            if n < m {
                assert(differs_first_at::<T>(a, b, i as int));
                verdict = Order::Less;
            } else if n > m {
                assert(differs_first_at::<T>(b, a, i as int));
                verdict = Order::Greater;
            } else {
                assert(a.subrange(0, n as int) =~= a);
                assert(b.subrange(0, n as int) =~= b);
            }
        }
        proof {
            if verdict == Order::Less {
                lemma_lex_asymmetric::<T>(a, b);
            } else if verdict == Order::Greater {
                lemma_lex_asymmetric::<T>(b, a);
            } else {
                if lex_precedes::<T>(a, b) {
                    lemma_lex_asymmetric::<T>(a, b);
                }
                if lex_precedes::<T>(b, a) {
                    lemma_lex_asymmetric::<T>(b, a);
                }
            }
        }
        verdict
    }
}

impl<T: Clone> Clone for Sequence<T> {
    /// A copy with the same capacity whose elements are clones of the
    /// elements of this sequence, index by index.
    fn clone(&self) -> (copy: Self)
        ensures
            copy@.len() == self@.len(),
            forall|i: int| 0 <= i < self@.len() ==> cloned::<T>(#[trigger] self@[i], copy@[i]),
            copy.spec_capacity() == self.spec_capacity(),
            self.wf() ==> copy.wf(),
    {
        Sequence { items: self.items.clone(), cap: self.cap }
    }
}


/// The answers that the predicate `p` gives on the elements of `s`.
pub open spec fn answers_of<T>(s: Seq<T>, p: spec_fn(T) -> bool) -> Seq<bool> {
    Seq::new(s.len(), |i: int| p(s[i]))
}

/// Taking an element out and putting the same element back where it
/// stood restores the sequence.
pub proof fn lemma_remove_insert_restores<T>(s: Seq<T>, i: int)
    requires
        0 <= i < s.len(),
    ensures
        s.remove(i).insert(i, s[i]) == s,
{
    assert(s.remove(i).insert(i, s[i]) =~= s);
}

/// Every element that is kept under the answers of `p` satisfies `p`,
/// and keeping under the answers of `p` is filtering by `p`.
pub proof fn lemma_kept_is_filter<T>(s: Seq<T>, p: spec_fn(T) -> bool)
    ensures
        kept(s, answers_of(s, p)) == s.filter(p),
        forall|i: int| 0 <= i < kept(s, answers_of(s, p)).len() ==> p(#[trigger] kept(s, answers_of(s, p))[i]),
    decreases s.len(),
{
    reveal(Seq::filter);
    if s.len() > 0 {
        lemma_kept_is_filter(s.drop_last(), p);
        assert(answers_of(s, p).drop_last() =~= answers_of(s.drop_last(), p));
    }
}

/// Where every answer is yes, everything is kept.
pub proof fn lemma_kept_all<T>(s: Seq<T>, keep: Seq<bool>)
    requires
        keep.len() == s.len(),
        forall|i: int| 0 <= i < keep.len() ==> #[trigger] keep[i],
    ensures
        kept(s, keep) == s,
    decreases s.len(),
{
    if s.len() > 0 {
        lemma_kept_all(s.drop_last(), keep.drop_last());
        assert(s.drop_last().push(s.last()) =~= s);
    }
}

/// Retaining by a predicate a second time changes nothing: what the
/// first pass kept satisfies the predicate, so the second pass keeps all
/// of it.
pub proof fn lemma_retain_idempotent<T>(s: Seq<T>, p: spec_fn(T) -> bool)
    ensures
        ({
            let once = kept(s, answers_of(s, p));
            kept(once, answers_of(once, p)) == once
        }),
{
    let once = kept(s, answers_of(s, p));
    lemma_kept_is_filter(s, p);
    lemma_kept_all(once, answers_of(once, p));
}

/// The same for two calls of [`Sequence::retain`] with a closure whose
/// answer depends on the element alone: whatever flags the two calls
/// went by, the second call leaves what the first one left.
pub proof fn lemma_retain_twice<T, F: Fn(&T) -> bool>(
    pred: F,
    p: spec_fn(T) -> bool,
    s: Seq<T>,
    first: Seq<bool>,
    second: Seq<bool>,
)
    requires
        forall|x: T, answer: bool| call_ensures(pred, (&x,), answer) ==> answer == p(x),
        decided_by(pred, s, first),
        decided_by(pred, kept(s, first), second),
    ensures
        kept(kept(s, first), second) == kept(s, first),
        kept(s, first) == s.filter(p),
{
    assert(first =~= answers_of(s, p));
    let once = kept(s, first);
    assert(second =~= answers_of(once, p));
    lemma_retain_idempotent(s, p);
    lemma_kept_is_filter(s, p);
}

} // verus!
