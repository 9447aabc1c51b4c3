use vstd::prelude::*;
use vstd::set_lib::{lemma_len_subset, lemma_subset_equality};
use crate::capability::{Equality, Hashing};
use crate::error::CollectionError;
use crate::growth::{next_capacity, next_capacity_spec};

verus! {

/// Whether some entry of `bucket` has the key identity `id`.
pub open spec fn bucket_has<K: Equality, V>(bucket: Seq<(K, V)>, id: K::Id) -> bool {
    exists|i: int| 0 <= i < bucket.len() && (#[trigger] bucket[i]).0.id() == id
}

/// The place in `bucket` of an entry with key identity `id`.
pub open spec fn slot_of<K: Equality, V>(bucket: Seq<(K, V)>, id: K::Id) -> int {
    choose|i: int| 0 <= i < bucket.len() && (#[trigger] bucket[i]).0.id() == id
}

/// No two entries of `bucket` have equal keys.
pub open spec fn distinct_keys<K: Equality, V>(bucket: Seq<(K, V)>) -> bool {
    forall|i: int, j: int|
        0 <= i < j < bucket.len() ==> (#[trigger] bucket[i]).0.id() != (#[trigger] bucket[j]).0.id()
}

/// The bucket that a key with identity `id` belongs to among `n` buckets.
pub open spec fn home<K: Hashing>(id: K::Id, n: int) -> int {
    (K::hash_of(id) as int) % n
}

/// Bucket number `b` of `n` holds only keys that belong there, each once.
pub open spec fn bucket_ok<K: Hashing, V>(bucket: Seq<(K, V)>, b: int, n: int) -> bool {
    &&& distinct_keys(bucket)
    &&& forall|i: int| 0 <= i < bucket.len() ==> home::<K>((#[trigger] bucket[i]).0.id(), n) == b
}

/// Every bucket of the table is in order.
pub open spec fn layout_ok<K: Hashing, V>(layout: Seq<Seq<(K, V)>>) -> bool {
    forall|b: int| 0 <= b < layout.len() ==> bucket_ok(#[trigger] layout[b], b, layout.len() as int)
}

/// Whether the table holds an entry for the key identity `id`: only the
/// bucket where that key belongs is looked at.
pub open spec fn layout_has<K: Hashing, V>(layout: Seq<Seq<(K, V)>>, id: K::Id) -> bool {
    layout.len() > 0 && bucket_has(layout[home::<K>(id, layout.len() as int)], id)
}

/// The entry that the table holds for the key identity `id`.
pub open spec fn layout_entry<K: Hashing, V>(layout: Seq<Seq<(K, V)>>, id: K::Id) -> (K, V) {
    let bucket = layout[home::<K>(id, layout.len() as int)];
    bucket[slot_of(bucket, id)]
}

/// The entries of a table, by key identity.
pub open spec fn entries_of<K: Hashing, V>(layout: Seq<Seq<(K, V)>>) -> Map<K::Id, (K, V)> {
    Map::new(|id: K::Id| layout_has(layout, id), |id: K::Id| layout_entry(layout, id))
}

/// The fewest buckets that keep `n` entries within a load factor of
/// three quarters.
pub open spec fn min_buckets(n: nat) -> nat {
    (4 * n + 2) / 3
}

/// In a bucket without repeated keys, a key is found where it stands.
pub proof fn lemma_slot_pinned<K: Equality, V>(bucket: Seq<(K, V)>, i: int)
    requires
        distinct_keys(bucket),
        0 <= i < bucket.len(),
    ensures
        bucket_has(bucket, bucket[i].0.id()),
        slot_of(bucket, bucket[i].0.id()) == i,
{
    let id = bucket[i].0.id();
    let j = slot_of(bucket, id);
    assert(0 <= j < bucket.len() && bucket[j].0.id() == id);
    if j < i {
        assert(bucket[j].0.id() != bucket[i].0.id());
    } else if i < j {
        assert(bucket[i].0.id() != bucket[j].0.id());
    }
}

/// An entry that stands in a bucket of an orderly table is the table's
/// entry for its key.
pub proof fn lemma_entry_found<K: Hashing, V>(layout: Seq<Seq<(K, V)>>, b: int, i: int)
    requires
        layout_ok(layout),
        0 <= b < layout.len(),
        0 <= i < layout[b].len(),
    ensures
        entries_of(layout).contains_key(layout[b][i].0.id()),
        entries_of(layout)[layout[b][i].0.id()] == layout[b][i],
        home::<K>(layout[b][i].0.id(), layout.len() as int) == b,
{
    assert(bucket_ok(layout[b], b, layout.len() as int));
    lemma_slot_pinned(layout[b], i);
}

/// A key that the table holds stands in the bucket where it belongs.
pub proof fn lemma_entry_place<K: Hashing, V>(layout: Seq<Seq<(K, V)>>, id: K::Id)
    requires
        layout_ok(layout),
        entries_of(layout).contains_key(id),
    ensures
        layout.len() > 0,
        0 <= home::<K>(id, layout.len() as int) < layout.len(),
        0 <= slot_of(layout[home::<K>(id, layout.len() as int)], id) < layout[home::<K>(
            id,
            layout.len() as int,
        )].len(),
        layout_entry(layout, id).0.id() == id,
{
}

/// Putting another bucket in place `b` changes the table only for the
/// keys that belong to bucket `b`.
pub proof fn lemma_bucket_replaced<K: Hashing, V>(
    layout: Seq<Seq<(K, V)>>,
    b: int,
    bucket: Seq<(K, V)>,
)
    requires
        layout_ok(layout),
        0 <= b < layout.len(),
        bucket_ok(bucket, b, layout.len() as int),
    ensures
        layout_ok(layout.update(b, bucket)),
        forall|id: K::Id|
            home::<K>(id, layout.len() as int) != b ==> layout_has(layout.update(b, bucket), id)
                == layout_has(layout, id) && layout_entry(layout.update(b, bucket), id)
                == layout_entry(layout, id),
        forall|id: K::Id|
            home::<K>(id, layout.len() as int) == b ==> layout_has(layout.update(b, bucket), id)
                == bucket_has(bucket, id) && layout_entry(layout.update(b, bucket), id)
                == bucket[slot_of(bucket, id)],
{
    let after = layout.update(b, bucket);
    assert forall|c: int| 0 <= c < after.len() implies bucket_ok(
        #[trigger] after[c],
        c,
        after.len() as int,
    ) by {
        if c != b {
            assert(after[c] == layout[c]);
        }
    }
}

/// Adding an entry with a new key to the bucket where it belongs adds
/// that entry to the table and changes nothing else.
pub proof fn lemma_entry_added<K: Hashing, V>(layout: Seq<Seq<(K, V)>>, key: K, value: V)
    requires
        layout_ok(layout),
        layout.len() > 0,
        !entries_of(layout).contains_key(key.id()),
    ensures
        ({
            let b = home::<K>(key.id(), layout.len() as int);
            let after = layout.update(b, layout[b].push((key, value)));
            &&& layout_ok(after)
            &&& entries_of(after) == entries_of(layout).insert(key.id(), (key, value))
        }),
{
    let n = layout.len() as int;
    let b = home::<K>(key.id(), n);
    let bucket = layout[b].push((key, value));
    let after = layout.update(b, bucket);
    let last = layout[b].len() as int;
    assert(bucket_ok(layout[b], b, n));
    assert(distinct_keys(bucket)) by {
        assert forall|i: int, j: int| 0 <= i < j < bucket.len() implies (#[trigger] bucket[i]).0.id()
            != (#[trigger] bucket[j]).0.id() by {
            if j == last {
                assert(bucket[i] == layout[b][i]);
            } else {
                assert(bucket[i] == layout[b][i] && bucket[j] == layout[b][j]);
            }
        }
    }
    assert(bucket_ok(bucket, b, n)) by {
        assert forall|i: int| 0 <= i < bucket.len() implies home::<K>(
            (#[trigger] bucket[i]).0.id(),
            n,
        ) == b by {
            if i < last {
                assert(bucket[i] == layout[b][i]);
            }
        }
    }
    lemma_bucket_replaced(layout, b, bucket);
    let target = entries_of(layout).insert(key.id(), (key, value));
    assert forall|id: K::Id| entries_of(after).contains_key(id) == target.contains_key(id) by {
        if home::<K>(id, n) == b {
            if bucket_has(bucket, id) {
                let i = slot_of(bucket, id);
                if i < last {
                    assert(bucket[i] == layout[b][i]);
                }
            }
            if bucket_has(layout[b], id) {
                let i = slot_of(layout[b], id);
                assert(bucket[i] == layout[b][i]);
            }
            if id == key.id() {
                assert(bucket[last].0.id() == id);
            }
        }
    }
    assert forall|id: K::Id| entries_of(after).contains_key(id) implies entries_of(after)[id]
        == target[id] by {
        if home::<K>(id, n) == b {
            let i = slot_of(bucket, id);
            lemma_slot_pinned(bucket, i);
            if i < last {
                assert(bucket[i] == layout[b][i]);
                lemma_slot_pinned(layout[b], i);
            }
        }
    }
    assert(entries_of(after) =~= target);
}

/// Taking the entry at place `i` out of bucket `b`, the last entry of
/// the bucket moving into its place, removes that key from the table and
/// changes nothing else.
pub proof fn lemma_entry_taken<K: Hashing, V>(layout: Seq<Seq<(K, V)>>, b: int, i: int)
    requires
        layout_ok(layout),
        0 <= b < layout.len(),
        0 <= i < layout[b].len(),
    ensures
        ({
            let after = layout.update(b, layout[b].update(i, layout[b].last()).drop_last());
            &&& layout_ok(after)
            &&& entries_of(after) == entries_of(layout).remove(layout[b][i].0.id())
        }),
{
    let n = layout.len() as int;
    let before = layout[b];
    let last = before.len() - 1;
    let bucket = before.update(i, before.last()).drop_last();
    let after = layout.update(b, bucket);
    let gone = before[i].0.id();
    assert(bucket_ok(before, b, n));
    lemma_entry_found(layout, b, i);
    // every entry of the new bucket is an entry of the old one, at `from(k)`
    let from = |k: int| if k == i { last } else { k };
    assert forall|k: int| 0 <= k < bucket.len() implies #[trigger] bucket[k] == before[from(k)] by {}
    assert(distinct_keys(bucket)) by {
        assert forall|x: int, y: int| 0 <= x < y < bucket.len() implies (#[trigger] bucket[x]).0.id()
            != (#[trigger] bucket[y]).0.id() by {
            let fx = from(x);
            let fy = from(y);
            assert(bucket[x] == before[fx] && bucket[y] == before[fy]);
            if fx < fy {
                assert(before[fx].0.id() != before[fy].0.id());
            } else {
                assert(before[fy].0.id() != before[fx].0.id());
            }
        }
    }
    assert(bucket_ok(bucket, b, n)) by {
        assert forall|k: int| 0 <= k < bucket.len() implies home::<K>(
            (#[trigger] bucket[k]).0.id(),
            n,
        ) == b by {
            assert(bucket[k] == before[from(k)]);
        }
    }
    lemma_bucket_replaced(layout, b, bucket);
    let target = entries_of(layout).remove(gone);
    assert forall|id: K::Id| entries_of(after).contains_key(id) == target.contains_key(id) by {
        if home::<K>(id, n) == b {
            if bucket_has(bucket, id) {
                let k = slot_of(bucket, id);
                assert(bucket[k] == before[from(k)]);
                if id == gone {
                    lemma_slot_pinned(before, i);
                    lemma_slot_pinned(before, from(k));
                }
            }
            if bucket_has(before, id) && id != gone {
                let k = slot_of(before, id);
                if k == last {
                    assert(bucket[i] == before[last]);
                } else {
                    assert(bucket[k] == before[k]);
                }
            }
        }
    }
    assert forall|id: K::Id| entries_of(after).contains_key(id) implies entries_of(after)[id]
        == target[id] by {
        if home::<K>(id, n) == b {
            let k = slot_of(bucket, id);
            assert(bucket[k] == before[from(k)]);
            lemma_slot_pinned(before, from(k));
        }
    }
    assert(entries_of(after) =~= target);
}

/// Giving the entry at place `i` of bucket `b` another value changes the
/// table's entry for that key and nothing else.
pub proof fn lemma_value_changed<K: Hashing, V>(layout: Seq<Seq<(K, V)>>, b: int, i: int, value: V)
    requires
        layout_ok(layout),
        0 <= b < layout.len(),
        0 <= i < layout[b].len(),
    ensures
        ({
            let key = layout[b][i].0;
            let after = layout.update(b, layout[b].update(i, (key, value)));
            &&& layout_ok(after)
            &&& entries_of(after) == entries_of(layout).insert(key.id(), (key, value))
        }),
{
    let n = layout.len() as int;
    let before = layout[b];
    let key = before[i].0;
    let bucket = before.update(i, (key, value));
    let after = layout.update(b, bucket);
    assert(bucket_ok(before, b, n));
    lemma_entry_found(layout, b, i);
    assert forall|k: int| 0 <= k < bucket.len() implies (#[trigger] bucket[k]).0 == before[k].0 by {}
    assert(distinct_keys(bucket)) by {
        assert forall|x: int, y: int| 0 <= x < y < bucket.len() implies (#[trigger] bucket[x]).0.id()
            != (#[trigger] bucket[y]).0.id() by {
            assert(bucket[x].0 == before[x].0 && bucket[y].0 == before[y].0);
            assert(before[x].0.id() != before[y].0.id());
        }
    }
    assert(bucket_ok(bucket, b, n)) by {
        assert forall|k: int| 0 <= k < bucket.len() implies home::<K>(
            (#[trigger] bucket[k]).0.id(),
            n,
        ) == b by {
            assert(bucket[k].0 == before[k].0);
        }
    }
    lemma_bucket_replaced(layout, b, bucket);
    let target = entries_of(layout).insert(key.id(), (key, value));
    assert forall|id: K::Id| entries_of(after).contains_key(id) == target.contains_key(id) by {
        if home::<K>(id, n) == b {
            if bucket_has(bucket, id) {
                let k = slot_of(bucket, id);
                assert(bucket[k].0 == before[k].0);
            }
            if bucket_has(before, id) {
                let k = slot_of(before, id);
                assert(bucket[k].0 == before[k].0);
            }
            if id == key.id() {
                assert(bucket[i].0.id() == id);
            }
        }
    }
    assert forall|id: K::Id| entries_of(after).contains_key(id) implies entries_of(after)[id]
        == target[id] by {
        if home::<K>(id, n) == b {
            let k = slot_of(bucket, id);
            assert(bucket[k].0 == before[k].0);
            lemma_slot_pinned(before, k);
            lemma_slot_pinned(bucket, k);
            lemma_slot_pinned(before, i);
        }
    }
    assert(entries_of(after) =~= target);
}


/// An unordered key-to-value store with unique keys. Entries live in
/// buckets chosen by the key's hash; the number of buckets is the
/// capacity, and it grows so that the entries never exceed three quarters
/// of it.
pub struct HashTable<K, V> {
    buckets: Vec<Vec<(K, V)>>,
    count: usize,
}

/// The values of the table, by key identity.
impl<K: Hashing, V> View for HashTable<K, V> {
    type V = Map<K::Id, V>;

    closed spec fn view(&self) -> Map<K::Id, V> {
        Map::new(
            |id: K::Id| self.entries().contains_key(id),
            |id: K::Id| self.entries()[id].1,
        )
    }
}

/// The bucket that `key` belongs to among `n` buckets.
fn bucket_of<K: Hashing>(key: &K, n: usize) -> (b: usize)
    requires
        n > 0,
    ensures
        b == home::<K>(key.id(), n as int),
        b < n,
{
    (key.hash() % (n as u64)) as usize
}

/// Looks for a key equal to `key` in one bucket.
fn find_slot<K: Hashing, V>(bucket: &Vec<(K, V)>, key: &K) -> (r: Option<usize>)
    ensures
        r matches Some(i) ==> i < bucket@.len() && bucket@[i as int].0.id() == key.id(),
        r is None ==> !bucket_has(bucket@, key.id()),
{
    let mut i: usize = 0;
    while i < bucket.len()
        invariant
            i <= bucket@.len(),
            forall|k: int| 0 <= k < i ==> (#[trigger] bucket@[k]).0.id() != key.id(),
        decreases bucket@.len() - i,
    {
        if bucket[i].0.equals(key) {
            return Some(i);
        }
        i = i + 1;
    }
    None
}

/// The smallest number of buckets that keeps `n` entries within the load
/// factor.
fn buckets_for(n: usize) -> (needed: usize)
    requires
        min_buckets(n as nat) <= usize::MAX,
    ensures
        needed == min_buckets(n as nat),
        4 * n <= 3 * needed,
{
    let third = n / 3;
    if n % 3 == 0 {
        n + third
    } else {
        n + third + 1
    }
}

/// `n` empty buckets.
fn empty_buckets<K: Hashing, V>(n: usize) -> (buckets: Vec<Vec<(K, V)>>)
    ensures
        buckets@.len() == n,
        forall|b: int| 0 <= b < n ==> (#[trigger] buckets@[b])@.len() == 0,
{
    let mut buckets: Vec<Vec<(K, V)>> = Vec::new();
    let mut b: usize = 0;
    while b < n
        invariant
            b <= n,
            buckets@.len() == b,
            forall|c: int| 0 <= c < b ==> (#[trigger] buckets@[c])@.len() == 0,
        decreases n - b,
    {
        buckets.push(Vec::new());
        b = b + 1;
    }
    buckets
}

/// The buckets of a table as plain sequences.
pub open spec fn layout_of<K, V>(buckets: Seq<Vec<(K, V)>>) -> Seq<Seq<(K, V)>> {
    Seq::new(buckets.len(), |b: int| buckets[b]@)
}

impl<K: Hashing, V> HashTable<K, V> {
    /// The entries of the table, each with the key object that is stored.
    pub closed spec fn entries(&self) -> Map<K::Id, (K, V)> {
        entries_of(layout_of(self.buckets@))
    }

    /// The entries in the order in which a walk of the table meets them.
    /// The order follows from where the entries stand and from nothing
    /// else, so two walks of a table that has not changed agree.
    pub closed spec fn walk(&self) -> Seq<(K, V)> {
        walk_of(layout_of(self.buckets@))
    }

    /// Number of buckets.
    pub closed spec fn spec_capacity(&self) -> nat {
        self.buckets@.len()
    }

    /// Every entry stands once, in the bucket where its key belongs, and
    /// the entry counter is right.
    pub closed spec fn layout_wf(&self) -> bool {
        &&& layout_ok(layout_of(self.buckets@))
        &&& self.entries().dom().finite()
        &&& self.entries().dom().len() == self.count
    }

    /// The standing invariant: an orderly layout, finitely many entries,
    /// and a load factor of at most three quarters.
    pub open spec fn wf(&self) -> bool {
        &&& self.layout_wf()
        &&& self@.dom().finite()
        &&& 4 * self@.dom().len() <= 3 * self.spec_capacity()
        &&& self.spec_capacity() <= usize::MAX
    }

    /// The table holds a value for exactly the keys it has an entry for,
    /// and every entry is filed under the identity of its own key.
    pub proof fn lemma_view_of_entries(&self)
        requires
            self.layout_wf(),
        ensures
            self@.dom() == self.entries().dom(),
            self@.dom().finite(),
            forall|id: K::Id| #[trigger]
                self@.contains_key(id) ==> self@[id] == self.entries()[id].1 && self.entries()[id].0.id()
                    == id,
    {
        assert(self@.dom() =~= self.entries().dom());
        assert forall|id: K::Id| #[trigger] self@.contains_key(id) implies self.entries()[id].0.id()
            == id by {
            lemma_entry_place(layout_of(self.buckets@), id);
        }
    }

    /// An empty table with no buckets.
    pub fn new() -> (t: Self)
        ensures
            t.wf(),
            t@ == Map::<K::Id, V>::empty(),
            t.spec_capacity() == 0,
    {
        let t = HashTable { buckets: Vec::new(), count: 0 };
        proof {
            assert(t.entries() =~= Map::<K::Id, (K, V)>::empty());
            assert(t@ =~= Map::<K::Id, V>::empty());
        }
        t
    }

    /// An empty table that can take `entries` entries before it has to
    /// grow.
    pub fn with_capacity(entries: usize) -> (t: Self)
        requires
            min_buckets(entries as nat) <= usize::MAX,
        ensures
            t.wf(),
            t@ == Map::<K::Id, V>::empty(),
            t.spec_capacity() == min_buckets(entries as nat),
    {
        let n = buckets_for(entries);
        let t = HashTable { buckets: empty_buckets(n), count: 0 };
        proof {
            let layout = layout_of(t.buckets@);
            assert forall|id: K::Id| !layout_has(layout, id) by {
                if layout.len() > 0 {
                    let bucket = layout[home::<K>(id, layout.len() as int)];
                    assert(bucket.len() == 0);
                }
            }
            assert(t.entries() =~= Map::<K::Id, (K, V)>::empty());
            assert(t@ =~= Map::<K::Id, V>::empty());
            assert(layout_ok(layout));
        }
        t
    }

    /// Number of entries.
    pub fn len(&self) -> (n: usize)
        requires
            self.wf(),
        ensures
            n == self@.dom().len(),
            n <= self.spec_capacity(),
    {
        proof {
            self.lemma_view_of_entries();
        }
        self.count
    }

    /// Number of buckets.
    pub fn capacity(&self) -> (n: usize)
        requires
            self.wf(),
        ensures
            n == self.spec_capacity(),
            4 * self@.dom().len() <= 3 * n,
    {
        self.buckets.len()
    }

    /// Whether nothing is stored.
    pub fn is_empty(&self) -> (b: bool)
        requires
            self.wf(),
        ensures
            b == (self@.dom().len() == 0),
    {
        proof {
            self.lemma_view_of_entries();
        }
        self.count == 0
    }

    /// Where the entry for `key` stands, if there is one.
    fn locate(&self, key: &K) -> (r: Option<(usize, usize)>)
        requires
            self.layout_wf(),
        ensures
            r is None <==> !self@.contains_key(key.id()),
            r matches Some((b, i)) ==> b < self.buckets@.len() && i < self.buckets@[b as int]@.len()
                && b == home::<K>(key.id(), self.buckets@.len() as int)
                && self.buckets@[b as int]@[i as int].0.id() == key.id()
                && self.entries()[key.id()] == self.buckets@[b as int]@[i as int],
    {
        let n = self.buckets.len();
        if n == 0 {
            return None;
        }
        let b = bucket_of(key, n);
        let ghost layout = layout_of(self.buckets@);
        assert(layout[b as int] == self.buckets@[b as int]@);
        match find_slot(&self.buckets[b], key) {
            Some(i) => {
                proof {
                    lemma_entry_found(layout, b as int, i as int);
                }
                Some((b, i))
            },
            None => None,
        }
    }

    /// The value stored under a key equal to `key`, if there is one.
    pub fn get(&self, key: &K) -> (r: Option<&V>)
        requires
            self.wf(),
        ensures
            self@.contains_key(key.id()) ==> r == Some(&self@[key.id()]),
            !self@.contains_key(key.id()) ==> r is None,
    {
        match self.locate(key) {
            Some((b, i)) => Some(&self.buckets[b][i].1),
            None => None,
        }
    }

    /// Like [`HashTable::get`], but a missing key is the error
    /// `KeyAbsent`.
    pub fn at(&self, key: &K) -> (r: Result<&V, CollectionError>)
        requires
            self.wf(),
        ensures
            self@.contains_key(key.id()) ==> r == Ok::<&V, CollectionError>(&self@[key.id()]),
            !self@.contains_key(key.id()) ==> r == Err::<&V, CollectionError>(
                CollectionError::KeyAbsent,
            ),
    {
        match self.get(key) {
            Some(value) => Ok(value),
            None => Err(CollectionError::KeyAbsent),
        }
    }

    /// Whether a value is stored under a key equal to `key`.
    pub fn contains_key(&self, key: &K) -> (b: bool)
        requires
            self.wf(),
        ensures
            b == self@.contains_key(key.id()),
    {
        self.locate(key).is_some()
    }
}


/// An empty layout holds no entry.
proof fn lemma_empty_layout<K: Hashing, V>(layout: Seq<Seq<(K, V)>>)
    requires
        forall|b: int| 0 <= b < layout.len() ==> (#[trigger] layout[b]).len() == 0,
    ensures
        layout_ok(layout),
        entries_of(layout) == Map::<K::Id, (K, V)>::empty(),
{
    assert forall|id: K::Id| !layout_has(layout, id) by {
        if layout.len() > 0 {
            let bucket = layout[home::<K>(id, layout.len() as int)];
            assert(bucket.len() == 0);
        }
    }
    assert(entries_of(layout) =~= Map::<K::Id, (K, V)>::empty());
}

/// Files every entry of `old` anew among `n` buckets.
fn redistribute<K: Hashing, V>(old: Vec<Vec<(K, V)>>, n: usize) -> (fresh: Vec<Vec<(K, V)>>)
    requires
        layout_ok(layout_of(old@)),
        n > 0,
    ensures
        fresh@.len() == n,
        layout_ok(layout_of(fresh@)),
        entries_of(layout_of(fresh@)) == entries_of(layout_of(old@)),
{
    let ghost source = layout_of(old@);
    let ghost all = entries_of(source);
    let ghost m = source.len() as int;
    let mut old = old;
    let mut fresh: Vec<Vec<(K, V)>> = empty_buckets(n);
    proof {
        lemma_empty_layout(layout_of(fresh@));
    }
    while old.len() > 0
        invariant
            n > 0,
            fresh@.len() == n,
            layout_ok(source),
            all == entries_of(source),
            m == source.len(),
            old@.len() <= m,
            forall|b: int| 0 <= b < old@.len() ==> (#[trigger] old@[b])@ == source[b],
            layout_ok(layout_of(fresh@)),
            forall|id: K::Id|
                #![trigger entries_of(layout_of(fresh@)).contains_key(id)]
                #![trigger all.contains_key(id)]
                entries_of(layout_of(fresh@)).contains_key(id) <==> all.contains_key(id) && home::<K>(
                    id,
                    m,
                ) >= old@.len(),
            forall|id: K::Id| #[trigger]
                entries_of(layout_of(fresh@)).contains_key(id) ==> entries_of(layout_of(fresh@))[id]
                    == all[id],
        decreases old@.len(),
    {
        let ghost r = old@.len() - 1;
        let mut bucket = old.pop().unwrap();
        assert(bucket@ == source[r]);
        assert(bucket_ok(source[r], r, m));
        proof {
            assert(bucket@ =~= source[r].subrange(0, bucket@.len() as int));
            assert forall|id: K::Id| all.contains_key(id) && home::<K>(id, m) == r implies bucket_has(
                bucket@,
                id,
            ) by {
                assert(layout_has(source, id));
            }
        }
        while bucket.len() > 0
            invariant
                n > 0,
                fresh@.len() == n,
                layout_ok(source),
                all == entries_of(source),
                m == source.len(),
                0 <= r < m,
                r == old@.len(),
                bucket@.len() <= source[r].len(),
                bucket@ == source[r].subrange(0, bucket@.len() as int),
                layout_ok(layout_of(fresh@)),
                forall|id: K::Id|
                    #![trigger entries_of(layout_of(fresh@)).contains_key(id)]
                    #![trigger all.contains_key(id)]
                    entries_of(layout_of(fresh@)).contains_key(id) <==> all.contains_key(id) && (
                    home::<K>(id, m) > r || (home::<K>(id, m) == r && !bucket_has(bucket@, id))),
                forall|id: K::Id| #[trigger]
                    entries_of(layout_of(fresh@)).contains_key(id) ==> entries_of(
                        layout_of(fresh@),
                    )[id] == all[id],
            decreases bucket@.len(),
        {
            let ghost shelf = bucket@;
            let ghost top = shelf.len() - 1;
            let ghost before = layout_of(fresh@);
            let entry = bucket.pop().unwrap();
            let (key, value) = entry;
            let b = bucket_of(&key, n);
            fresh[b].push((key, value));
            proof {
                let id = key.id();
                assert(shelf[top] == source[r][top]);
                assert(entry == source[r][top]);
                lemma_entry_found(source, r, top);
                assert(bucket_ok(source[r], r, m));
                assert(bucket_has(shelf, id));
                assert(!entries_of(before).contains_key(id));
                lemma_entry_added(before, key, value);
                assert(layout_of(fresh@) =~= before.update(
                    b as int,
                    before[b as int].push((key, value)),
                ));
                // the rest of the shelf no longer holds this key
                assert(!bucket_has(bucket@, id)) by {
                    if bucket_has(bucket@, id) {
                        let k = slot_of(bucket@, id);
                        assert(bucket@[k] == source[r][k]);
                        assert(source[r][k].0.id() != source[r][top].0.id());
                    }
                }
                assert forall|other: K::Id| other != id implies bucket_has(bucket@, other)
                    == bucket_has(shelf, other) by {
                    if bucket_has(bucket@, other) {
                        let k = slot_of(bucket@, other);
                        assert(shelf[k] == bucket@[k]);
                    }
                    if bucket_has(shelf, other) {
                        let k = slot_of(shelf, other);
                        assert(shelf[k] == bucket@[k]);
                    }
                }
                assert(bucket@ =~= source[r].subrange(0, bucket@.len() as int));
            }
        }
        proof {
            assert forall|id: K::Id| !bucket_has(bucket@, id) by {}
        }
    }
    proof {
        assert forall|id: K::Id| all.contains_key(id) implies home::<K>(id, m) >= 0 by {
            lemma_entry_place(source, id);
        }
        assert(entries_of(layout_of(fresh@)) =~= all);
    }
    fresh
}

impl<K: Hashing, V> HashTable<K, V> {
    /// The capacity after a table of capacity `capacity` has made room
    /// for `entries` entries.
    pub open spec fn capacity_for(capacity: nat, entries: nat) -> nat {
        next_capacity_spec(capacity, min_buckets(entries))
    }

    /// Rebuilds the table over `n` buckets; every entry is filed anew.
    fn rehash(&mut self, n: usize)
        requires
            old(self).layout_wf(),
            n > 0,
        ensures
            final(self).layout_wf(),
            final(self).entries() == old(self).entries(),
            final(self)@ == old(self)@,
            final(self).spec_capacity() == n,
    {
        let mut buckets: Vec<Vec<(K, V)>> = Vec::new();
        core::mem::swap(&mut buckets, &mut self.buckets);
        self.buckets = redistribute(buckets, n);
        proof {
            assert(self@ =~= old(self)@);
        }
    }

    /// Stores `value` under `key`. An entry with an equal key keeps its
    /// key and gets the new value, and the old value is returned. A new
    /// key makes the table grow first if the load factor would otherwise
    /// pass three quarters.
    pub fn insert(&mut self, key: K, value: V) -> (r: Option<V>)
        requires
            old(self).wf(),
            min_buckets(old(self)@.dom().len() + 1) <= usize::MAX,
        ensures
            final(self).wf(),
            final(self)@ == old(self)@.insert(key.id(), value),
            old(self)@.contains_key(key.id()) ==> r == Some(old(self)@[key.id()]) && final(
                self).spec_capacity() == old(self).spec_capacity(),
            !old(self)@.contains_key(key.id()) ==> r is None && final(self).spec_capacity()
                == Self::capacity_for(old(self).spec_capacity(), old(self)@.dom().len() + 1),
    {
        proof {
            self.lemma_view_of_entries();
        }
        match self.locate(&key) {
            Some((b, i)) => {
                let ghost before = layout_of(self.buckets@);
                let mut value = value;
                core::mem::swap(&mut self.buckets[b][i].1, &mut value);
                proof {
                    let stored = before[b as int][i as int].0;
                    lemma_value_changed(before, b as int, i as int, self.buckets@[b as int]@[i as int].1);
                    assert(layout_of(self.buckets@) =~= before.update(
                        b as int,
                        before[b as int].update(i as int, (stored, self.buckets@[b as int]@[i as int].1)),
                    ));
                    assert(self.entries().dom() =~= old(self).entries().dom());
                    assert(self@ =~= old(self)@.insert(key.id(), self.buckets@[b as int]@[i as int].1));
                }
                Some(value)
            },
            None => {
                self.add_new(key, value);
                None
            },
        }
    }

    /// Removes the entry stored under a key equal to `key` and returns
    /// its value, if there is one. The capacity stays.
    pub fn remove(&mut self, key: &K) -> (r: Option<V>)
        requires
            old(self).wf(),
        ensures
            final(self).wf(),
            final(self).spec_capacity() == old(self).spec_capacity(),
            final(self)@ == old(self)@.remove(key.id()),
            old(self)@.contains_key(key.id()) ==> r == Some(old(self)@[key.id()]),
            !old(self)@.contains_key(key.id()) ==> r is None,
    {
        proof {
            self.lemma_view_of_entries();
        }
        match self.locate(key) {
            Some((b, i)) => {
                let ghost before = layout_of(self.buckets@);
                let entry = self.buckets[b].swap_remove(i);
                self.count = self.count - 1;
                proof {
                    lemma_entry_taken(before, b as int, i as int);
                    assert(layout_of(self.buckets@) =~= before.update(
                        b as int,
                        before[b as int].update(i as int, before[b as int].last()).drop_last(),
                    ));
                    assert(self.entries().dom() =~= old(self).entries().dom().remove(key.id()));
                    assert(self@ =~= old(self)@.remove(key.id()));
                }
                Some(entry.1)
            },
            None => {
                proof {
                    assert(self@ =~= old(self)@.remove(key.id()));
                }
                None
            },
        }
    }

    /// Removes every entry. The capacity stays.
    pub fn clear(&mut self)
        requires
            old(self).wf(),
        ensures
            final(self).wf(),
            final(self).spec_capacity() == old(self).spec_capacity(),
            final(self)@ == Map::<K::Id, V>::empty(),
    {
        let n = self.buckets.len();
        self.buckets = empty_buckets(n);
        self.count = 0;
        proof {
            lemma_empty_layout(layout_of(self.buckets@));
            assert(self@ =~= Map::<K::Id, V>::empty());
        }
    }
}


/// The table that results when `default` is stored under `id` unless
/// `id` already has a value.
pub open spec fn upserted<I, V>(m: Map<I, V>, id: I, default: V) -> Map<I, V> {
    if m.contains_key(id) {
        m
    } else {
        m.insert(id, default)
    }
}

/// A second default for the same key is never stored: after one upsert
/// the key has a value, and it is the first default unless the key had a
/// value before.
pub proof fn lemma_upsert_twice<I, V>(m: Map<I, V>, id: I, first: V, second: V)
    ensures
        upserted(upserted(m, id, first), id, second) == upserted(m, id, first),
        upserted(m, id, first).contains_key(id),
        !m.contains_key(id) ==> upserted(upserted(m, id, first), id, second)[id] == first,
        m.contains_key(id) ==> upserted(upserted(m, id, first), id, second)[id] == m[id],
{
}

impl<K: Hashing, V> HashTable<K, V> {
    /// A handle on the value of the entry at place `i` of bucket `b`.
    fn slot_handle(&mut self, b: usize, i: usize) -> (r: &mut V)
        requires
            old(self).wf(),
            b < old(self).buckets@.len(),
            i < old(self).buckets@[b as int]@.len(),
        ensures
            final(self).wf(),
            final(self).spec_capacity() == old(self).spec_capacity(),
            *r == old(self).buckets@[b as int]@[i as int].1,
            final(self)@ == old(self)@.insert(
                old(self).buckets@[b as int]@[i as int].0.id(),
                *final(r),
            ),
            final(self)@.dom() == old(self)@.dom(),
    {
        proof {
            self.lemma_view_of_entries();
        }
        let ghost before = layout_of(self.buckets@);
        let handle = &mut self.buckets[b][i].1;
        proof {
            let stored = before[b as int][i as int].0;
            let written = *final(handle);
            lemma_entry_found(before, b as int, i as int);
            lemma_value_changed(before, b as int, i as int, written);
            let after = before.update(b as int, before[b as int].update(i as int, (stored, written)));
            assert(layout_of(after_borrow(self.buckets)@) =~= after);
            assert(entries_of(after).dom() =~= old(self).entries().dom());
            let values = Map::new(
                |id: K::Id| entries_of(after).contains_key(id),
                |id: K::Id| entries_of(after)[id].1,
            );
            assert(values =~= old(self)@.insert(stored.id(), written));
            assert(values.dom() =~= old(self)@.dom());
        }
        handle
    }

    /// Files a new entry, growing first if the load factor asks for it,
    /// and says where the entry stands.
    fn add_new(&mut self, key: K, value: V) -> (place: (usize, usize))
        requires
            old(self).wf(),
            !old(self)@.contains_key(key.id()),
            min_buckets(old(self)@.dom().len() + 1) <= usize::MAX,
        ensures
            final(self).wf(),
            final(self)@ == old(self)@.insert(key.id(), value),
            final(self).spec_capacity() == Self::capacity_for(
                old(self).spec_capacity(),
                old(self)@.dom().len() + 1,
            ),
            place.0 < final(self).buckets@.len(),
            place.1 < final(self).buckets@[place.0 as int]@.len(),
            final(self).buckets@[place.0 as int]@[place.1 as int] == (key, value),
    {
        proof {
            self.lemma_view_of_entries();
        }
        let needed = buckets_for(self.count + 1);
        if needed > self.buckets.len() {
            let target = next_capacity(self.buckets.len(), needed);
            self.rehash(target);
        }
        let ghost before = layout_of(self.buckets@);
        let b = bucket_of(&key, self.buckets.len());
        let i = self.buckets[b].len();
        self.buckets[b].push((key, value));
        self.count = self.count + 1;
        proof {
            lemma_entry_added(before, key, value);
            assert(layout_of(self.buckets@) =~= before.update(
                b as int,
                before[b as int].push((key, value)),
            ));
            assert(self.entries().dom() =~= old(self).entries().dom().insert(key.id()));
            assert(self@ =~= old(self)@.insert(key.id(), value));
        }
        (b, i)
    }

    /// A handle through which the value stored under a key equal to
    /// `key` can be changed in place, if there is such an entry.
    pub fn get_mut(&mut self, key: &K) -> (r: Option<&mut V>)
        requires
            old(self).wf(),
        ensures
            final(self).wf(),
            final(self).spec_capacity() == old(self).spec_capacity(),
            !old(self)@.contains_key(key.id()) ==> r is None && final(self)@ == old(self)@,
            old(self)@.contains_key(key.id()) ==> r is Some && *r->Some_0 == old(self)@[key.id()]
                && final(self)@ == old(self)@.insert(key.id(), *final(r->Some_0)),
    {
        proof {
            self.lemma_view_of_entries();
        }
        match self.locate(key) {
            Some((b, i)) => Some(self.slot_handle(b, i)),
            None => None,
        }
    }

    /// The upsert: a handle on the value stored under `key`, which is
    /// first created from `default` if the key has none. `default` runs
    /// at most once, and only for a key that has no value: for a key
    /// that has one it need not even be callable.
    pub fn get_or_insert_with<F: FnOnce() -> V>(&mut self, key: K, default: F) -> (r: &mut V)
        requires
            old(self).wf(),
            min_buckets(old(self)@.dom().len() + 1) <= usize::MAX,
            !old(self)@.contains_key(key.id()) ==> call_requires(default, ()),
        ensures
            final(self).wf(),
            old(self)@.contains_key(key.id()) ==> *r == old(self)@[key.id()] && final(
                self).spec_capacity() == old(self).spec_capacity(),
            !old(self)@.contains_key(key.id()) ==> call_ensures(default, (), *r) && final(
                self).spec_capacity() == Self::capacity_for(
                old(self).spec_capacity(),
                old(self)@.dom().len() + 1,
            ),
            final(self)@ == upserted(old(self)@, key.id(), *r).insert(key.id(), *final(r)),
    {
        proof {
            self.lemma_view_of_entries();
        }
        let place = match self.locate(&key) {
            Some(place) => place,
            None => {
                let value = default();
                self.add_new(key, value)
            },
        };
        let ghost middle = self@;
        let handle = self.slot_handle(place.0, place.1);
        proof {
            let id = key.id();
            let target = upserted(old(self)@, id, *handle).insert(id, *final(handle));
            assert(middle.insert(id, *final(handle)) =~= target);
        }
        handle
    }

    /// The upsert with a ready value: a handle on the value stored under
    /// `key`, which is `default` if the key had none.
    pub fn get_or_insert(&mut self, key: K, default: V) -> (r: &mut V)
        requires
            old(self).wf(),
            min_buckets(old(self)@.dom().len() + 1) <= usize::MAX,
        ensures
            final(self).wf(),
            *r == upserted(old(self)@, key.id(), default)[key.id()],
            final(self)@ == upserted(old(self)@, key.id(), default).insert(key.id(), *final(r)),
            old(self)@.contains_key(key.id()) ==> final(self).spec_capacity() == old(
                self).spec_capacity(),
            !old(self)@.contains_key(key.id()) ==> final(self).spec_capacity()
                == Self::capacity_for(old(self).spec_capacity(), old(self)@.dom().len() + 1),
    {
        proof {
            self.lemma_view_of_entries();
        }
        let place = match self.locate(&key) {
            Some(place) => place,
            None => self.add_new(key, default),
        };
        let ghost middle = self@;
        let handle = self.slot_handle(place.0, place.1);
        proof {
            let id = key.id();
            let target = upserted(old(self)@, id, default).insert(id, *final(handle));
            assert(middle.insert(id, *final(handle)) =~= target);
        }
        handle
    }

    /// Applies `change` to the value stored under a key equal to `key`,
    /// if there is one, and says whether it did.
    pub fn and_modify<F: FnOnce(V) -> V>(&mut self, key: &K, change: F) -> (changed: bool)
        requires
            old(self).wf(),
            old(self)@.contains_key(key.id()) ==> call_requires(change, (old(self)@[key.id()],)),
        ensures
            final(self).wf(),
            final(self).spec_capacity() == old(self).spec_capacity(),
            changed == old(self)@.contains_key(key.id()),
            !changed ==> final(self)@ == old(self)@,
            changed ==> final(self)@.contains_key(key.id()) && call_ensures(
                change,
                (old(self)@[key.id()],),
                final(self)@[key.id()],
            ) && final(self)@ == old(self)@.insert(key.id(), final(self)@[key.id()]),
    {
        proof {
            self.lemma_view_of_entries();
        }
        match self.locate(key) {
            Some((b, i)) => {
                let ghost before = layout_of(self.buckets@);
                let entry = self.buckets[b].swap_remove(i);
                let ghost between = layout_of(self.buckets@);
                let (stored, value) = entry;
                let value = change(value);
                self.buckets[b].push((stored, value));
                proof {
                    lemma_entry_found(before, b as int, i as int);
                    lemma_entry_taken(before, b as int, i as int);
                    assert(between =~= before.update(
                        b as int,
                        before[b as int].update(i as int, before[b as int].last()).drop_last(),
                    ));
                    lemma_entry_added(between, stored, value);
                    assert(layout_of(self.buckets@) =~= between.update(
                        b as int,
                        between[b as int].push((stored, value)),
                    ));
                    assert(self.entries() =~= old(self).entries().insert(key.id(), (stored, value)));
                    assert(self.entries().dom() =~= old(self).entries().dom());
                    assert(self@ =~= old(self)@.insert(key.id(), value));
                }
                true
            },
            None => false,
        }
    }

    /// Applies `change` to the value stored under `key` if there is one,
    /// and stores what `default` makes if there is none. Exactly one of
    /// the two runs.
    pub fn modify_or_insert_with<F: FnOnce(V) -> V, D: FnOnce() -> V>(
        &mut self,
        key: K,
        change: F,
        default: D,
    )
        requires
            old(self).wf(),
            min_buckets(old(self)@.dom().len() + 1) <= usize::MAX,
            old(self)@.contains_key(key.id()) ==> call_requires(change, (old(self)@[key.id()],)),
            !old(self)@.contains_key(key.id()) ==> call_requires(default, ()),
        ensures
            final(self).wf(),
            final(self)@.contains_key(key.id()),
            final(self)@ == old(self)@.insert(key.id(), final(self)@[key.id()]),
            old(self)@.contains_key(key.id()) ==> call_ensures(
                change,
                (old(self)@[key.id()],),
                final(self)@[key.id()],
            ) && final(self).spec_capacity() == old(self).spec_capacity(),
            !old(self)@.contains_key(key.id()) ==> call_ensures(default, (), final(self)@[key.id()])
                && final(self).spec_capacity() == Self::capacity_for(
                old(self).spec_capacity(),
                old(self)@.dom().len() + 1,
            ),
    {
        if self.contains_key(&key) {
            self.and_modify(&key, change);
        } else {
            let value = default();
            self.add_new(key, value);
        }
    }
}


/// The entries of all buckets, bucket after bucket and, inside a bucket,
/// in the order in which they stand there.
pub open spec fn walk_of<K, V>(layout: Seq<Seq<(K, V)>>) -> Seq<(K, V)>
    decreases layout.len(),
{
    if layout.len() == 0 {
        Seq::empty()
    } else {
        walk_of(layout.drop_last()) + layout.last()
    }
}

/// Whether `value` is stored under some key of `m`.
pub open spec fn stored_value<I, V>(m: Map<I, V>, value: V) -> bool {
    exists|id: I| #[trigger] m.contains_key(id) && m[id] == value
}

/// Whether the entry for `id` stands before place `i` of bucket `b` when
/// the buckets are walked in order.
pub open spec fn stands_before<K: Hashing, V>(
    layout: Seq<Seq<(K, V)>>,
    id: K::Id,
    b: int,
    i: int,
) -> bool {
    let h = home::<K>(id, layout.len() as int);
    h < b || (h == b && slot_of(layout[h], id) < i)
}

impl<K: Hashing, V> HashTable<K, V> {
    /// Keeps the entries for which `keep` answers `true` and removes the
    /// others, in one pass over the buckets. The capacity stays.
    pub fn retain<F: Fn(&K, &V) -> bool>(&mut self, keep: F)
        requires
            old(self).wf(),
            forall|id: K::Id| #[trigger]
                old(self).entries().contains_key(id) ==> call_requires(
                    keep,
                    (&old(self).entries()[id].0, &old(self).entries()[id].1),
                ),
        ensures
            final(self).wf(),
            final(self).spec_capacity() == old(self).spec_capacity(),
            forall|id: K::Id| #[trigger]
                final(self).entries().contains_key(id) ==> old(self).entries().contains_key(id)
                    && final(self).entries()[id] == old(self).entries()[id] && call_ensures(
                    keep,
                    (&old(self).entries()[id].0, &old(self).entries()[id].1),
                    true,
                ),
            forall|id: K::Id| #[trigger]
                old(self).entries().contains_key(id) && !final(self).entries().contains_key(id)
                    ==> call_ensures(
                    keep,
                    (&old(self).entries()[id].0, &old(self).entries()[id].1),
                    false,
                ),
    {
        proof {
            self.lemma_view_of_entries();
        }
        let ghost orig = self.entries();
        let n = self.buckets.len();
        let mut b: usize = 0;
        while b < n
            invariant
                b <= n,
                n == self.buckets@.len(),
                n == old(self).buckets@.len(),
                orig == old(self).entries(),
                self.layout_wf(),
                self.count <= old(self).count,
                forall|id: K::Id| #[trigger]
                    orig.contains_key(id) ==> call_requires(keep, (&orig[id].0, &orig[id].1)),
                forall|id: K::Id| #[trigger]
                    self.entries().contains_key(id) ==> orig.contains_key(id) && self.entries()[id]
                        == orig[id],
                forall|id: K::Id| #[trigger]
                    orig.contains_key(id) && !self.entries().contains_key(id) ==> call_ensures(
                        keep,
                        (&orig[id].0, &orig[id].1),
                        false,
                    ),
                forall|c: int, k: int|
                    0 <= c < b && 0 <= k < self.buckets@[c]@.len() ==> call_ensures(
                        keep,
                        (&(#[trigger] self.buckets@[c]@[k]).0, &self.buckets@[c]@[k].1),
                        true,
                    ),
            decreases n - b,
        {
            let mut i: usize = 0;
            while i < self.buckets[b].len()
                invariant
                    b < n,
                    n == self.buckets@.len(),
                    n == old(self).buckets@.len(),
                    orig == old(self).entries(),
                    self.layout_wf(),
                    self.count <= old(self).count,
                    i <= self.buckets@[b as int]@.len(),
                    forall|id: K::Id| #[trigger]
                        orig.contains_key(id) ==> call_requires(keep, (&orig[id].0, &orig[id].1)),
                    forall|id: K::Id| #[trigger]
                        self.entries().contains_key(id) ==> orig.contains_key(id)
                            && self.entries()[id] == orig[id],
                    forall|id: K::Id| #[trigger]
                        orig.contains_key(id) && !self.entries().contains_key(id) ==> call_ensures(
                            keep,
                            (&orig[id].0, &orig[id].1),
                            false,
                        ),
                    forall|c: int, k: int|
                        0 <= c < b && 0 <= k < self.buckets@[c]@.len() ==> call_ensures(
                            keep,
                            (&(#[trigger] self.buckets@[c]@[k]).0, &self.buckets@[c]@[k].1),
                            true,
                        ),
                    forall|k: int|
                        0 <= k < i ==> call_ensures(
                            keep,
                            (
                                &(#[trigger] self.buckets@[b as int]@[k]).0,
                                &self.buckets@[b as int]@[k].1,
                            ),
                            true,
                        ),
                decreases self.buckets@[b as int]@.len() - i,
            {
                let ghost before = layout_of(self.buckets@);
                let ghost shelf = self.buckets@;
                let ghost entry = self.buckets@[b as int]@[i as int];
                proof {
                    lemma_entry_found(before, b as int, i as int);
                    assert(self.entries().contains_key(entry.0.id()));
                }
                let stays = keep(&self.buckets[b][i].0, &self.buckets[b][i].1);
                if stays {
                    i = i + 1;
                } else {
                    let _ = self.buckets[b].swap_remove(i);
                    proof {
                        lemma_entry_taken(before, b as int, i as int);
                        assert(layout_of(self.buckets@) =~= before.update(
                            b as int,
                            before[b as int].update(i as int, before[b as int].last()).drop_last(),
                        ));
                        assert(self.entries().dom() =~= entries_of(before).dom().remove(
                            entry.0.id(),
                        ));
                        assert forall|c: int, k: int|
                            0 <= c < b && 0 <= k < self.buckets@[c]@.len() implies call_ensures(
                            keep,
                            (&(#[trigger] self.buckets@[c]@[k]).0, &self.buckets@[c]@[k].1),
                            true,
                        ) by {
                            assert(self.buckets@[c] == shelf[c]);
                        }
                        assert forall|k: int| 0 <= k < i implies call_ensures(
                            keep,
                            (
                                &(#[trigger] self.buckets@[b as int]@[k]).0,
                                &self.buckets@[b as int]@[k].1,
                            ),
                            true,
                        ) by {
                            assert(self.buckets@[b as int]@[k] == shelf[b as int]@[k]);
                        }
                    }
                    self.count = self.count - 1;
                }
            }
            b = b + 1;
        }
        proof {
            let layout = layout_of(self.buckets@);
            assert forall|id: K::Id| #[trigger] self.entries().contains_key(id) implies call_ensures(
                keep,
                (&orig[id].0, &orig[id].1),
                true,
            ) by {
                lemma_entry_place(layout, id);
                let h = home::<K>(id, n as int);
                let k = slot_of(layout[h], id);
                assert(self.buckets@[h]@[k] == layout_entry(layout, id));
            }
            assert(self@.dom() =~= self.entries().dom());
        }
    }

    /// Takes over every entry of `other`. Where both tables have a value
    /// for a key, the value of `other` wins.
    pub fn extend(&mut self, other: HashTable<K, V>)
        requires
            old(self).wf(),
            other.wf(),
            min_buckets(old(self)@.dom().len() + other@.dom().len()) <= usize::MAX,
        ensures
            final(self).wf(),
            final(self)@ == old(self)@.union_prefer_right(other@),
    {
        proof {
            self.lemma_view_of_entries();
            other.lemma_view_of_entries();
        }
        let ghost source = layout_of(other.buckets@);
        let ghost all = entries_of(source);
        let ghost m = source.len() as int;
        let ghost start = self@;
        let ghost mut moved: Set<K::Id> = Set::empty();
        let mut rest = other.buckets;
        while rest.len() > 0
            invariant
                self.wf(),
                start == old(self)@,
                start.dom().finite(),
                all == entries_of(source),
                all.dom().finite(),
                all.dom() == other@.dom(),
                layout_ok(source),
                m == source.len(),
                rest@.len() <= m,
                min_buckets(start.dom().len() + all.dom().len()) <= usize::MAX,
                forall|b: int| 0 <= b < rest@.len() ==> (#[trigger] rest@[b])@ == source[b],
                moved.finite(),
                moved.subset_of(all.dom()),
                self@.dom().len() <= start.dom().len() + moved.len(),
                forall|id: K::Id|
                    #![trigger moved.contains(id)]
                    #![trigger all.contains_key(id)]
                    moved.contains(id) <==> all.contains_key(id) && home::<K>(id, m) >= rest@.len(),
                forall|id: K::Id|
                    #![trigger self@.contains_key(id)]
                    self@.contains_key(id) <==> start.contains_key(id) || moved.contains(id),
                forall|id: K::Id|
                    #![trigger self@[id]]
                    self@.contains_key(id) ==> self@[id] == if moved.contains(id) {
                        all[id].1
                    } else {
                        start[id]
                    },
            decreases rest@.len(),
        {
            let ghost r = rest@.len() - 1;
            let mut bucket = rest.pop().unwrap();
            proof {
                assert(bucket@ == source[r]);
                assert(bucket_ok(source[r], r, m));
                assert(bucket@ =~= source[r].subrange(0, bucket@.len() as int));
                assert forall|id: K::Id| all.contains_key(id) && home::<K>(id, m) == r implies bucket_has(
                    bucket@,
                    id,
                ) by {
                    assert(layout_has(source, id));
                }
            }
            while bucket.len() > 0
                invariant
                    self.wf(),
                    start == old(self)@,
                    start.dom().finite(),
                    all == entries_of(source),
                    all.dom().finite(),
                    all.dom() == other@.dom(),
                    layout_ok(source),
                    m == source.len(),
                    0 <= r < m,
                    r == rest@.len(),
                    min_buckets(start.dom().len() + all.dom().len()) <= usize::MAX,
                    bucket@.len() <= source[r].len(),
                    bucket@ == source[r].subrange(0, bucket@.len() as int),
                    moved.finite(),
                    moved.subset_of(all.dom()),
                    self@.dom().len() <= start.dom().len() + moved.len(),
                    forall|id: K::Id|
                        #![trigger moved.contains(id)]
                        #![trigger all.contains_key(id)]
                        moved.contains(id) <==> all.contains_key(id) && (home::<K>(id, m) > r || (
                        home::<K>(id, m) == r && !bucket_has(bucket@, id))),
                    forall|id: K::Id|
                        #![trigger self@.contains_key(id)]
                        self@.contains_key(id) <==> start.contains_key(id) || moved.contains(id),
                    forall|id: K::Id|
                        #![trigger self@[id]]
                        self@.contains_key(id) ==> self@[id] == if moved.contains(id) {
                            all[id].1
                        } else {
                            start[id]
                        },
                decreases bucket@.len(),
            {
                let ghost shelf = bucket@;
                let ghost top = shelf.len() - 1;
                let ghost held = self@;
                let ghost done = moved;
                let entry = bucket.pop().unwrap();
                let (key, value) = entry;
                proof {
                    let id = key.id();
                    assert(shelf[top] == source[r][top]);
                    lemma_entry_found(source, r, top);
                    assert(bucket_ok(source[r], r, m));
                    assert(bucket_has(shelf, id));
                    assert(!done.contains(id));
                    assert(done.insert(id).subset_of(all.dom()));
                    lemma_len_subset(done.insert(id), all.dom());
                    moved = done.insert(id);
                    assert(!bucket_has(bucket@, id)) by {
                        if bucket_has(bucket@, id) {
                            let k = slot_of(bucket@, id);
                            assert(bucket@[k] == source[r][k]);
                            assert(source[r][k].0.id() != source[r][top].0.id());
                        }
                    }
                    assert forall|other_id: K::Id| other_id != id implies bucket_has(
                        bucket@,
                        other_id,
                    ) == bucket_has(shelf, other_id) by {
                        if bucket_has(bucket@, other_id) {
                            let k = slot_of(bucket@, other_id);
                            assert(shelf[k] == bucket@[k]);
                        }
                        if bucket_has(shelf, other_id) {
                            let k = slot_of(shelf, other_id);
                            assert(shelf[k] == bucket@[k]);
                        }
                    }
                    assert(bucket@ =~= source[r].subrange(0, bucket@.len() as int));
                }
                let _ = self.insert(key, value);
                proof {
                    assert(self@.dom() =~= held.dom().insert(key.id()));
                }
            }
        }
        proof {
            assert forall|id: K::Id| all.contains_key(id) implies moved.contains(id) by {
                lemma_entry_place(source, id);
            }
            assert(self@ =~= start.union_prefer_right(other@));
        }
    }

    /// The entries, one after another. The order is the order of the
    /// buckets and, inside a bucket, the order in which the entries stand
    /// there: it is the same on every walk of a table that has not
    /// changed in between, and says nothing about keys or the order of
    /// insertion.
    pub fn pairs(&self) -> (r: Vec<(&K, &V)>)
        requires
            self.wf(),
        ensures
            r@.len() == self@.dom().len(),
            r@.len() == self.walk().len(),
            forall|i: int|
                0 <= i < r@.len() ==> (*(#[trigger] r@[i]).0, *r@[i].1) == self.walk()[i],
            forall|i: int|
                0 <= i < r@.len() ==> self@.contains_key((#[trigger] r@[i]).0.id()) && self@[r@[i].0.id()]
                    == *r@[i].1 && self.entries()[r@[i].0.id()].0 == *r@[i].0,
            forall|i: int, j: int|
                0 <= i < j < r@.len() ==> (#[trigger] r@[i]).0.id() != (#[trigger] r@[j]).0.id(),
    {
        proof {
            self.lemma_view_of_entries();
        }
        let ghost layout = layout_of(self.buckets@);
        let ghost mut seen: Set<K::Id> = Set::empty();
        let ghost mut walked: Seq<(K, V)> = Seq::empty();
        let n = self.buckets.len();
        let mut out: Vec<(&K, &V)> = Vec::new();
        let mut b: usize = 0;
        assert(layout.subrange(0, 0) =~= Seq::<Seq<(K, V)>>::empty());
        while b < n
            invariant
                b <= n,
                walked == walk_of(layout.subrange(0, b as int)),
                out@.len() == walked.len(),
                forall|k: int|
                    0 <= k < out@.len() ==> (*(#[trigger] out@[k]).0, *out@[k].1) == walked[k],
                n == self.buckets@.len(),
                layout == layout_of(self.buckets@),
                layout_ok(layout),
                self.entries() == entries_of(layout),
                self.entries().dom().finite(),
                seen.finite(),
                seen.len() == out@.len(),
                out@.len() <= self.entries().dom().len(),
                seen.subset_of(self.entries().dom()),
                forall|id: K::Id|
                    #![trigger seen.contains(id)]
                    seen.contains(id) <==> self.entries().contains_key(id) && stands_before(
                        layout,
                        id,
                        b as int,
                        0,
                    ),
                forall|i: int|
                    0 <= i < out@.len() ==> seen.contains((#[trigger] out@[i]).0.id())
                        && self.entries()[out@[i].0.id()] == (*out@[i].0, *out@[i].1),
                forall|i: int, j: int|
                    0 <= i < j < out@.len() ==> (#[trigger] out@[i]).0.id() != (
                    #[trigger] out@[j]).0.id(),
            decreases n - b,
        {
            let bucket = &self.buckets[b];
            assert(bucket@ == layout[b as int]);
            let mut i: usize = 0;
            assert(walked + bucket@.subrange(0, 0) =~= walked);
            while i < bucket.len()
                invariant
                    b < n,
                    walked == walk_of(layout.subrange(0, b as int)),
                    out@.len() == walked.len() + i,
                    forall|k: int|
                        0 <= k < out@.len() ==> (*(#[trigger] out@[k]).0, *out@[k].1) == (walked
                            + bucket@.subrange(0, i as int))[k],
                    n == self.buckets@.len(),
                    layout == layout_of(self.buckets@),
                    layout_ok(layout),
                    bucket@ == layout[b as int],
                    i <= bucket@.len(),
                    self.entries() == entries_of(layout),
                    self.entries().dom().finite(),
                    seen.finite(),
                    seen.len() == out@.len(),
                    out@.len() <= self.entries().dom().len(),
                    seen.subset_of(self.entries().dom()),
                    forall|id: K::Id|
                        #![trigger seen.contains(id)]
                        seen.contains(id) <==> self.entries().contains_key(id) && stands_before(
                            layout,
                            id,
                            b as int,
                            i as int,
                        ),
                    forall|k: int|
                        0 <= k < out@.len() ==> seen.contains((#[trigger] out@[k]).0.id())
                            && self.entries()[out@[k].0.id()] == (*out@[k].0, *out@[k].1),
                    forall|k: int, j: int|
                        0 <= k < j < out@.len() ==> (#[trigger] out@[k]).0.id() != (
                        #[trigger] out@[j]).0.id(),
                decreases bucket@.len() - i,
            {
                let ghost done = seen;
                let ghost id = bucket@[i as int].0.id();
                proof {
                    lemma_entry_found(layout, b as int, i as int);
                    assert(!done.contains(id));
                    assert(done.insert(id).subset_of(self.entries().dom()));
                    lemma_len_subset(done.insert(id), self.entries().dom());
                    seen = done.insert(id);
                    assert forall|other: K::Id|
                        #![trigger seen.contains(other)]
                        seen.contains(other) <==> self.entries().contains_key(other)
                            && stands_before(layout, other, b as int, i as int + 1) by {
                        if self.entries().contains_key(other) && home::<K>(other, n as int) == b {
                            lemma_entry_place(layout, other);
                            let k = slot_of(layout[b as int], other);
                            if k == i {
                                assert(layout[b as int][k].0.id() == other);
                            }
                        }
                    }
                }
                out.push((&bucket[i].0, &bucket[i].1));
                proof {
                    assert(walked + bucket@.subrange(0, i as int + 1) =~= (walked + bucket@.subrange(
                        0,
                        i as int,
                    )).push(bucket@[i as int]));
                }
                i = i + 1;
            }
            proof {
                let upto = layout.subrange(0, b as int + 1);
                assert(upto.drop_last() =~= layout.subrange(0, b as int));
                assert(upto.last() == bucket@);
                assert(bucket@.subrange(0, i as int) =~= bucket@);
                walked = walked + bucket@;
            }
            proof {
                assert forall|id: K::Id|
                    #![trigger seen.contains(id)]
                    seen.contains(id) <==> self.entries().contains_key(id) && stands_before(
                        layout,
                        id,
                        b as int + 1,
                        0,
                    ) by {
                    if self.entries().contains_key(id) {
                        lemma_entry_place(layout, id);
                    }
                }
            }
            b = b + 1;
        }
        proof {
            assert forall|id: K::Id| self.entries().contains_key(id) implies seen.contains(id) by {
                lemma_entry_place(layout, id);
            }
            assert(seen =~= self.entries().dom());
            assert(layout.subrange(0, n as int) =~= layout);
        }
        out
    }

    /// The keys, in the order of [`HashTable::pairs`].
    pub fn keys(&self) -> (r: Vec<&K>)
        requires
            self.wf(),
        ensures
            r@.len() == self@.dom().len(),
            r@.len() == self.walk().len(),
            forall|i: int| 0 <= i < r@.len() ==> *(#[trigger] r@[i]) == self.walk()[i].0,
            forall|i: int| 0 <= i < r@.len() ==> self@.contains_key((#[trigger] r@[i]).id()),
            forall|i: int, j: int|
                0 <= i < j < r@.len() ==> (#[trigger] r@[i]).id() != (#[trigger] r@[j]).id(),
    {
        let pairs = self.pairs();
        let mut out: Vec<&K> = Vec::new();
        let mut i: usize = 0;
        while i < pairs.len()
            invariant
                i <= pairs@.len(),
                out@.len() == i,
                forall|k: int| 0 <= k < i ==> *(#[trigger] out@[k]) == *pairs@[k].0,
            decreases pairs@.len() - i,
        {
            out.push(pairs[i].0);
            i = i + 1;
        }
        proof {
            assert forall|k: int| 0 <= k < out@.len() implies self@.contains_key(
                (#[trigger] out@[k]).id(),
            ) by {
                assert(pairs@[k].0.id() == out@[k].id());
            }
            assert forall|x: int, y: int| 0 <= x < y < out@.len() implies (#[trigger] out@[x]).id() != (
            #[trigger] out@[y]).id() by {
                assert(pairs@[x].0.id() != pairs@[y].0.id());
            }
        }
        out
    }

    /// The values, in the order of [`HashTable::pairs`].
    pub fn values(&self) -> (r: Vec<&V>)
        requires
            self.wf(),
        ensures
            r@.len() == self@.dom().len(),
            r@.len() == self.walk().len(),
            forall|i: int| 0 <= i < r@.len() ==> *(#[trigger] r@[i]) == self.walk()[i].1,
            forall|i: int| 0 <= i < r@.len() ==> stored_value(self@, *#[trigger] r@[i]),
    {
        let pairs = self.pairs();
        let mut out: Vec<&V> = Vec::new();
        let mut i: usize = 0;
        while i < pairs.len()
            invariant
                i <= pairs@.len(),
                out@.len() == i,
                forall|k: int| 0 <= k < i ==> *(#[trigger] out@[k]) == *pairs@[k].1,
            decreases pairs@.len() - i,
        {
            out.push(pairs[i].1);
            i = i + 1;
        }
        proof {
            assert forall|k: int| 0 <= k < out@.len() implies stored_value(
                self@,
                *#[trigger] out@[k],
            ) by {
                let id = pairs@[k].0.id();
                assert(self@.contains_key(id) && self@[id] == *out@[k]);
            }
        }
        out
    }

    /// Makes room for `additional` more entries, so that none of them
    /// makes the table grow.
    pub fn reserve(&mut self, additional: usize)
        requires
            old(self).wf(),
            min_buckets(old(self)@.dom().len() + additional as nat) <= usize::MAX,
        ensures
            final(self).wf(),
            final(self)@ == old(self)@,
            final(self).spec_capacity() == Self::capacity_for(
                old(self).spec_capacity(),
                old(self)@.dom().len() + additional as nat,
            ),
            final(self).spec_capacity() >= min_buckets(old(self)@.dom().len() + additional as nat),
    {
        proof {
            self.lemma_view_of_entries();
        }
        let needed = buckets_for(self.count + additional);
        if needed > self.buckets.len() {
            let target = next_capacity(self.buckets.len(), needed);
            self.rehash(target);
        }
    }

    /// Gives back every bucket that the load factor does not ask for.
    pub fn shrink_to_fit(&mut self)
        requires
            old(self).wf(),
        ensures
            final(self).wf(),
            final(self)@ == old(self)@,
            final(self).spec_capacity() == min_buckets(old(self)@.dom().len()),
    {
        proof {
            self.lemma_view_of_entries();
        }
        let needed = buckets_for(self.count);
        if self.count == 0 {
            self.buckets = Vec::new();
            proof {
                lemma_empty_layout(layout_of(self.buckets@));
                assert(old(self).entries().dom() =~= Set::<K::Id>::empty());
                assert(self.entries() =~= old(self).entries());
                assert(self@ =~= old(self)@);
            }
        } else if needed != self.buckets.len() {
            self.rehash(needed);
        }
    }
}

impl<K: Hashing, V: Equality> HashTable<K, V> {
    /// Whether two tables hold the same keys with equal values, whatever
    /// the order in which their entries stand.
    pub fn equals(&self, other: &Self) -> (same: bool)
        requires
            self.wf(),
            other.wf(),
        ensures
            same == (self@.dom() == other@.dom() && forall|id: K::Id| #[trigger]
                self@.contains_key(id) ==> self@[id].id() == other@[id].id()),
    {
        proof {
            self.lemma_view_of_entries();
            other.lemma_view_of_entries();
        }
        if self.count != other.count {
            return false;
        }
        let ghost layout = layout_of(self.buckets@);
        let n = self.buckets.len();
        let mut b: usize = 0;
        while b < n
            invariant
                b <= n,
                n == self.buckets@.len(),
                self.wf(),
                other.wf(),
                layout == layout_of(self.buckets@),
                layout_ok(layout),
                self.entries() == entries_of(layout),
                self@.dom() == self.entries().dom(),
                forall|id: K::Id| #[trigger]
                    self@.contains_key(id) ==> self@[id] == self.entries()[id].1,
                forall|id: K::Id| #[trigger]
                    self@.contains_key(id) && stands_before(layout, id, b as int, 0)
                        ==> other@.contains_key(id) && self@[id].id() == other@[id].id(),
            decreases n - b,
        {
            let bucket = &self.buckets[b];
            assert(bucket@ == layout[b as int]);
            let mut i: usize = 0;
            while i < bucket.len()
                invariant
                    b < n,
                    n == self.buckets@.len(),
                    self.wf(),
                    other.wf(),
                    layout == layout_of(self.buckets@),
                    layout_ok(layout),
                    bucket@ == layout[b as int],
                    i <= bucket@.len(),
                    self.entries() == entries_of(layout),
                    self@.dom() == self.entries().dom(),
                    forall|id: K::Id| #[trigger]
                        self@.contains_key(id) ==> self@[id] == self.entries()[id].1,
                    forall|id: K::Id| #[trigger]
                        self@.contains_key(id) && stands_before(layout, id, b as int, i as int)
                            ==> other@.contains_key(id) && self@[id].id() == other@[id].id(),
                decreases bucket@.len() - i,
            {
                proof {
                    lemma_entry_found(layout, b as int, i as int);
                }
                let ghost id = bucket@[i as int].0.id();
                assert(self@.contains_key(id));
                match other.get(&bucket[i].0) {
                    None => {
                        assert(!other@.dom().contains(id));
                        return false;
                    },
                    Some(theirs) => {
                        if !bucket[i].1.equals(theirs) {
                            assert(self@[id].id() != other@[id].id());
                            return false;
                        }
                    },
                }
                proof {
                    assert forall|x: K::Id| #[trigger]
                        self@.contains_key(x) && stands_before(layout, x, b as int, i as int + 1)
                        implies other@.contains_key(x) && self@[x].id() == other@[x].id() by {
                        if home::<K>(x, n as int) == b {
                            lemma_entry_place(layout, x);
                            let k = slot_of(layout[b as int], x);
                            if k == i {
                                assert(layout[b as int][k].0.id() == x);
                            }
                        }
                    }
                }
                i = i + 1;
            }
            proof {
                assert forall|x: K::Id| #[trigger]
                    self@.contains_key(x) && stands_before(layout, x, b as int + 1, 0)
                    implies other@.contains_key(x) && self@[x].id() == other@[x].id() by {
                    lemma_entry_place(layout, x);
                }
            }
            b = b + 1;
        }
        proof {
            assert forall|x: K::Id| #[trigger] self@.contains_key(x) implies other@.contains_key(x)
                && self@[x].id() == other@[x].id() by {
                lemma_entry_place(layout, x);
                assert(stands_before(layout, x, n as int, 0));
            }
            assert(self@.dom().subset_of(other@.dom()));
            lemma_subset_equality(self@.dom(), other@.dom());
        }
        true
    }
}


/// The table that results when the pairs of `pairs` are stored in order,
/// a later pair replacing an earlier one with an equal key.
pub open spec fn stored_all<K: Equality, V>(m: Map<K::Id, V>, pairs: Seq<(K, V)>) -> Map<K::Id, V>
    decreases pairs.len(),
{
    if pairs.len() == 0 {
        m
    } else {
        stored_all(m, pairs.drop_last()).insert(pairs.last().0.id(), pairs.last().1)
    }
}

impl<K: Hashing, V> HashTable<K, V> {
    /// A table that holds the given pairs; of two pairs with equal keys
    /// the later one wins.
    pub fn from_pairs(pairs: Vec<(K, V)>) -> (t: Self)
        requires
            min_buckets(pairs@.len()) <= usize::MAX,
        ensures
            t.wf(),
            t@ == stored_all(Map::<K::Id, V>::empty(), pairs@),
    {
        let ghost all = pairs@;
        let ghost empty = Map::<K::Id, V>::empty();
        let mut pairs = pairs;
        let n = pairs.len();
        let mut t: HashTable<K, V> = HashTable::with_capacity(n);
        // the pairs are taken from the back, so they are stored in turn
        // from the front after the order is turned round
        let mut turned: Vec<(K, V)> = Vec::new();
        while pairs.len() > 0
            invariant
                pairs@.len() + turned@.len() == all.len(),
                forall|k: int| 0 <= k < pairs@.len() ==> pairs@[k] == all[k],
                forall|k: int|
                    0 <= k < turned@.len() ==> turned@[k] == all[all.len() - 1 - k],
            decreases pairs@.len(),
        {
            let pair = pairs.pop().unwrap();
            turned.push(pair);
        }
        let mut stored: usize = 0;
        assert(all.subrange(0, 0) =~= Seq::<(K, V)>::empty());
        while turned.len() > 0
            invariant
                t.wf(),
                n == all.len(),
                min_buckets(n as nat) <= usize::MAX,
                stored + turned@.len() == n,
                forall|k: int|
                    0 <= k < turned@.len() ==> turned@[k] == all[all.len() - 1 - k],
                t@ == stored_all(empty, all.subrange(0, stored as int)),
                t@.dom().len() <= stored,
            decreases turned@.len(),
        {
            let pair = turned.pop().unwrap();
            let (key, value) = pair;
            proof {
                let upto = all.subrange(0, stored as int + 1);
                assert(upto.drop_last() =~= all.subrange(0, stored as int));
                assert(upto.last() == all[stored as int]);
                assert(pair == all[stored as int]);
            }
            let ghost before = t@;
            let _ = t.insert(key, value);
            proof {
                assert(t@.dom() =~= before.dom().insert(key.id()));
            }
            stored = stored + 1;
        }
        assert(all.subrange(0, n as int) =~= all);
        t
    }
}

/// What is stored under a key is what a lookup of that key finds.
pub proof fn lemma_inserted_is_found<I, V>(m: Map<I, V>, id: I, value: V)
    ensures
        m.insert(id, value).contains_key(id),
        m.insert(id, value)[id] == value,
{
}

/// A stored value stays what it is while other keys are stored and
/// removed: only storing or removing the key itself changes it.
pub proof fn lemma_entry_undisturbed<I, V>(m: Map<I, V>, id: I, other: I, value: V)
    requires
        m.contains_key(id),
        other != id,
    ensures
        m.insert(other, value).contains_key(id),
        m.insert(other, value)[id] == m[id],
        m.remove(other).contains_key(id),
        m.remove(other)[id] == m[id],
{
}

/// After a key is removed a lookup of it finds nothing.
pub proof fn lemma_removed_is_absent<I, V>(m: Map<I, V>, id: I)
    ensures
        !m.remove(id).contains_key(id),
{
}


/// Whether a clone of a key always has the identity of the key it was
/// made from.
pub open spec fn clone_keeps_id<K: Equality + Clone>() -> bool {
    forall|a: K, b: K| #[trigger] cloned::<K>(a, b) ==> a.id() == b.id()
}

/// Two layouts of the same shape whose keys agree in identity, place by
/// place.
pub open spec fn same_keys<K: Hashing, V>(a: Seq<Seq<(K, V)>>, b: Seq<Seq<(K, V)>>) -> bool {
    &&& a.len() == b.len()
    &&& forall|c: int| 0 <= c < a.len() ==> (#[trigger] a[c]).len() == b[c].len()
    &&& forall|c: int, i: int|
        0 <= c < a.len() && 0 <= i < a[c].len() ==> (#[trigger] a[c][i]).0.id() == b[c][i].0.id()
}

/// Layouts with the same keys in the same places hold entries for the
/// same keys, and the entry for a key stands in the same place in both.
proof fn lemma_same_keys<K: Hashing, V>(a: Seq<Seq<(K, V)>>, b: Seq<Seq<(K, V)>>)
    requires
        layout_ok(a),
        same_keys(a, b),
    ensures
        layout_ok(b),
        entries_of(b).dom() == entries_of(a).dom(),
        forall|id: K::Id| #[trigger]
            entries_of(a).contains_key(id) ==> {
                let h = home::<K>(id, a.len() as int);
                let i = slot_of(a[h], id);
                &&& 0 <= h < a.len()
                &&& 0 <= i < a[h].len()
                &&& entries_of(a)[id] == a[h][i]
                &&& entries_of(b)[id] == b[h][i]
            },
{
    let n = a.len() as int;
    assert forall|c: int| 0 <= c < b.len() implies bucket_ok(#[trigger] b[c], c, n) by {
        assert(bucket_ok(a[c], c, n));
        assert forall|i: int, j: int| 0 <= i < j < b[c].len() implies (#[trigger] b[c][i]).0.id() != (
        #[trigger] b[c][j]).0.id() by {
            assert(a[c][i].0.id() == b[c][i].0.id());
            assert(a[c][j].0.id() == b[c][j].0.id());
        }
        assert forall|i: int| 0 <= i < b[c].len() implies home::<K>(
            (#[trigger] b[c][i]).0.id(),
            n,
        ) == c by {
            assert(a[c][i].0.id() == b[c][i].0.id());
        }
    }
    assert forall|id: K::Id| layout_has(a, id) == layout_has(b, id) by {
        if n > 0 {
            let h = home::<K>(id, n);
            if bucket_has(a[h], id) {
                let i = slot_of(a[h], id);
                assert(a[h][i].0.id() == b[h][i].0.id());
            }
            if bucket_has(b[h], id) {
                let i = slot_of(b[h], id);
                assert(a[h][i].0.id() == b[h][i].0.id());
            }
        }
    }
    assert(entries_of(b).dom() =~= entries_of(a).dom());
    assert forall|id: K::Id| #[trigger] entries_of(a).contains_key(id) implies {
        let h = home::<K>(id, a.len() as int);
        let i = slot_of(a[h], id);
        &&& 0 <= h < a.len()
        &&& 0 <= i < a[h].len()
        &&& entries_of(a)[id] == a[h][i]
        &&& entries_of(b)[id] == b[h][i]
    } by {
        lemma_entry_place(a, id);
        let h = home::<K>(id, n);
        let i = slot_of(a[h], id);
        assert(bucket_ok(b[h], h, n));
        assert(a[h][i].0.id() == b[h][i].0.id());
        lemma_slot_pinned(b[h], i);
    }
}

impl<K: Hashing + Clone, V: Clone> Clone for HashTable<K, V> {
    /// A copy with the same number of buckets in which every entry is a
    /// clone of the entry that stands in the same place. Where cloning a
    /// key keeps its identity, the copy holds the same keys, each with a
    /// clone of its value.
    fn clone(&self) -> (copy: Self)
        ensures
            copy.spec_capacity() == self.spec_capacity(),
            self.wf() && clone_keeps_id::<K>() ==> copy.wf() && copy@.dom() == self@.dom()
                && forall|id: K::Id| #[trigger]
                self@.contains_key(id) ==> cloned::<V>(self@[id], copy@[id]),
    {
        let n = self.buckets.len();
        let mut buckets: Vec<Vec<(K, V)>> = Vec::with_capacity(n);
        let mut b: usize = 0;
        while b < n
            invariant
                n == self.buckets@.len(),
                b <= n,
                buckets@.len() == b,
                forall|c: int|
                    0 <= c < b ==> (#[trigger] buckets@[c])@.len() == self.buckets@[c]@.len(),
                forall|c: int, i: int|
                    0 <= c < b && 0 <= i < self.buckets@[c]@.len() ==> cloned::<K>(
                        self.buckets@[c]@[i].0,
                        (#[trigger] buckets@[c]@[i]).0,
                    ) && cloned::<V>(self.buckets@[c]@[i].1, buckets@[c]@[i].1),
            decreases n - b,
        {
            let source = &self.buckets[b];
            let mut bucket: Vec<(K, V)> = Vec::with_capacity(source.len());
            let mut i: usize = 0;
            while i < source.len()
                invariant
                    i <= source@.len(),
                    bucket@.len() == i,
                    forall|k: int|
                        0 <= k < i ==> cloned::<K>(source@[k].0, (#[trigger] bucket@[k]).0)
                            && cloned::<V>(source@[k].1, bucket@[k].1),
                decreases source@.len() - i,
            {
                let key = source[i].0.clone();
                let value = source[i].1.clone();
                bucket.push((key, value));
                i = i + 1;
            }
            buckets.push(bucket);
            b = b + 1;
        }
        let copy = HashTable { buckets, count: self.count };
        proof {
            if self.wf() && clone_keeps_id::<K>() {
                let a = layout_of(self.buckets@);
                let z = layout_of(copy.buckets@);
                assert(same_keys(a, z)) by {
                    assert forall|c: int, i: int| 0 <= c < a.len() && 0 <= i < a[c].len() implies (
                    #[trigger] a[c][i]).0.id() == z[c][i].0.id() by {
                        assert(cloned::<K>(self.buckets@[c]@[i].0, copy.buckets@[c]@[i].0));
                    }
                }
                lemma_same_keys(a, z);
                self.lemma_view_of_entries();
                assert(copy@.dom() =~= self@.dom());
                assert forall|id: K::Id| #[trigger] self@.contains_key(id) implies cloned::<V>(
                    self@[id],
                    copy@[id],
                ) by {
                    assert(entries_of(a).contains_key(id));
                    let h = home::<K>(id, a.len() as int);
                    let i = slot_of(a[h], id);
                    assert(cloned::<V>(self.buckets@[h]@[i].1, copy.buckets@[h]@[i].1));
                }
            }
        }
        copy
    }
}

} // verus!
