use vstd::prelude::*;

verus! {

/// Outcome of a three-way comparison.
#[derive(Debug, Clone, Copy, PartialEq, Eq, Structural)]
pub enum Order {
    Less,
    Equal,
    Greater,
}

/// The equality capability. Two values are equal exactly when they have
/// the same identity, so equality is an equivalence by construction.
pub trait Equality {
    /// What a value is, once representation details are set aside.
    type Id;

    spec fn id(&self) -> Self::Id;

    fn equals(&self, other: &Self) -> (same: bool)
        ensures
            same == (self.id() == other.id()),
    ;
}

/// The hashing capability. The hash is a function of the identity, so
/// equal values always hash alike.
pub trait Hashing: Equality {
    spec fn hash_of(id: Self::Id) -> u64;

    fn hash(&self) -> (h: u64)
        ensures
            h == Self::hash_of(self.id()),
    ;
}

/// The ordering capability: a strict total order on identities.
pub trait Ordered: Equality {
    spec fn precedes(a: Self::Id, b: Self::Id) -> bool;

    proof fn lemma_precedes_asymmetric(a: Self::Id, b: Self::Id)
        requires
            Self::precedes(a, b),
        ensures
            !Self::precedes(b, a),
            a != b,
    ;

    proof fn lemma_precedes_transitive(a: Self::Id, b: Self::Id, c: Self::Id)
        requires
            Self::precedes(a, b),
            Self::precedes(b, c),
        ensures
            Self::precedes(a, c),
    ;

    proof fn lemma_precedes_total(a: Self::Id, b: Self::Id)
        ensures
            a == b || Self::precedes(a, b) || Self::precedes(b, a),
    ;

    fn compare(&self, other: &Self) -> (o: Order)
        ensures
            o == Order::Less <==> Self::precedes(self.id(), other.id()),
            o == Order::Equal <==> self.id() == other.id(),
            o == Order::Greater <==> Self::precedes(other.id(), self.id()),
    ;
}

/// Position of a signed 64-bit value on the unsigned scale: the smallest
/// `i64` maps to zero and order is kept.
pub open spec fn signed_rank(x: int) -> u64 {
    (x + 0x8000_0000_0000_0000) as u64
}

fn signed_rank_exec(x: i64) -> (r: u64)
    ensures
        r == signed_rank(x as int),
{
    let shifted: i128 = x as i128 + 0x8000_0000_0000_0000i128;
    shifted as u64
}

impl Equality for u8 {
    type Id = u8;

    open spec fn id(&self) -> u8 {
        *self
    }

    fn equals(&self, other: &Self) -> (same: bool) {
        *self == *other
    }
}

impl Hashing for u8 {
    open spec fn hash_of(id: u8) -> u64 {
        id as u64
    }

    fn hash(&self) -> (h: u64) {
        *self as u64
    }
}

impl Ordered for u8 {
    open spec fn precedes(a: u8, b: u8) -> bool {
        a < b
    }

    proof fn lemma_precedes_asymmetric(a: u8, b: u8) {
    }

    proof fn lemma_precedes_transitive(a: u8, b: u8, c: u8) {
    }

    proof fn lemma_precedes_total(a: u8, b: u8) {
    }

    fn compare(&self, other: &Self) -> (o: Order) {
        if *self < *other {
            Order::Less
        } else if *self == *other {
            Order::Equal
        } else {
            Order::Greater
        }
    }
}

impl Equality for u16 {
    type Id = u16;

    open spec fn id(&self) -> u16 {
        *self
    }

    fn equals(&self, other: &Self) -> (same: bool) {
        *self == *other
    }
}

impl Hashing for u16 {
    open spec fn hash_of(id: u16) -> u64 {
        id as u64
    }

    fn hash(&self) -> (h: u64) {
        *self as u64
    }
}

impl Ordered for u16 {
    open spec fn precedes(a: u16, b: u16) -> bool {
        a < b
    }

    proof fn lemma_precedes_asymmetric(a: u16, b: u16) {
    }

    proof fn lemma_precedes_transitive(a: u16, b: u16, c: u16) {
    }

    proof fn lemma_precedes_total(a: u16, b: u16) {
    }

    fn compare(&self, other: &Self) -> (o: Order) {
        if *self < *other {
            Order::Less
        } else if *self == *other {
            Order::Equal
        } else {
            Order::Greater
        }
    }
}

impl Equality for u32 {
    type Id = u32;

    open spec fn id(&self) -> u32 {
        *self
    }

    fn equals(&self, other: &Self) -> (same: bool) {
        *self == *other
    }
}

impl Hashing for u32 {
    open spec fn hash_of(id: u32) -> u64 {
        id as u64
    }

    fn hash(&self) -> (h: u64) {
        *self as u64
    }
}

impl Ordered for u32 {
    open spec fn precedes(a: u32, b: u32) -> bool {
        a < b
    }

    proof fn lemma_precedes_asymmetric(a: u32, b: u32) {
    }

    proof fn lemma_precedes_transitive(a: u32, b: u32, c: u32) {
    }

    proof fn lemma_precedes_total(a: u32, b: u32) {
    }

    fn compare(&self, other: &Self) -> (o: Order) {
        if *self < *other {
            Order::Less
        } else if *self == *other {
            Order::Equal
        } else {
            Order::Greater
        }
    }
}

impl Equality for u64 {
    type Id = u64;

    open spec fn id(&self) -> u64 {
        *self
    }

    fn equals(&self, other: &Self) -> (same: bool) {
        *self == *other
    }
}

impl Hashing for u64 {
    open spec fn hash_of(id: u64) -> u64 {
        id
    }

    fn hash(&self) -> (h: u64) {
        *self
    }
}

impl Ordered for u64 {
    open spec fn precedes(a: u64, b: u64) -> bool {
        a < b
    }

    proof fn lemma_precedes_asymmetric(a: u64, b: u64) {
    }

    proof fn lemma_precedes_transitive(a: u64, b: u64, c: u64) {
    }

    proof fn lemma_precedes_total(a: u64, b: u64) {
    }

    fn compare(&self, other: &Self) -> (o: Order) {
        if *self < *other {
            Order::Less
        } else if *self == *other {
            Order::Equal
        } else {
            Order::Greater
        }
    }
}

impl Equality for usize {
    type Id = usize;

    open spec fn id(&self) -> usize {
        *self
    }

    fn equals(&self, other: &Self) -> (same: bool) {
        *self == *other
    }
}

impl Hashing for usize {
    open spec fn hash_of(id: usize) -> u64 {
        id as u64
    }

    fn hash(&self) -> (h: u64) {
        *self as u64
    }
}

impl Ordered for usize {
    open spec fn precedes(a: usize, b: usize) -> bool {
        a < b
    }

    proof fn lemma_precedes_asymmetric(a: usize, b: usize) {
    }

    proof fn lemma_precedes_transitive(a: usize, b: usize, c: usize) {
    }

    proof fn lemma_precedes_total(a: usize, b: usize) {
    }

    fn compare(&self, other: &Self) -> (o: Order) {
        if *self < *other {
            Order::Less
        } else if *self == *other {
            Order::Equal
        } else {
            Order::Greater
        }
    }
}

impl Equality for i8 {
    type Id = i8;

    open spec fn id(&self) -> i8 {
        *self
    }

    fn equals(&self, other: &Self) -> (same: bool) {
        *self == *other
    }
}

impl Hashing for i8 {
    open spec fn hash_of(id: i8) -> u64 {
        signed_rank(id as int)
    }

    fn hash(&self) -> (h: u64) {
        signed_rank_exec(*self as i64)
    }
}

impl Ordered for i8 {
    open spec fn precedes(a: i8, b: i8) -> bool {
        a < b
    }

    proof fn lemma_precedes_asymmetric(a: i8, b: i8) {
    }

    proof fn lemma_precedes_transitive(a: i8, b: i8, c: i8) {
    }

    proof fn lemma_precedes_total(a: i8, b: i8) {
    }

    fn compare(&self, other: &Self) -> (o: Order) {
        if *self < *other {
            Order::Less
        } else if *self == *other {
            Order::Equal
        } else {
            Order::Greater
        }
    }
}

impl Equality for i16 {
    type Id = i16;

    open spec fn id(&self) -> i16 {
        *self
    }

    fn equals(&self, other: &Self) -> (same: bool) {
        *self == *other
    }
}

impl Hashing for i16 {
    open spec fn hash_of(id: i16) -> u64 {
        signed_rank(id as int)
    }

    fn hash(&self) -> (h: u64) {
        signed_rank_exec(*self as i64)
    }
}

impl Ordered for i16 {
    open spec fn precedes(a: i16, b: i16) -> bool {
        a < b
    }

    proof fn lemma_precedes_asymmetric(a: i16, b: i16) {
    }

    proof fn lemma_precedes_transitive(a: i16, b: i16, c: i16) {
    }

    proof fn lemma_precedes_total(a: i16, b: i16) {
    }

    fn compare(&self, other: &Self) -> (o: Order) {
        if *self < *other {
            Order::Less
        } else if *self == *other {
            Order::Equal
        } else {
            Order::Greater
        }
    }
}

impl Equality for i32 {
    type Id = i32;

    open spec fn id(&self) -> i32 {
        *self
    }

    fn equals(&self, other: &Self) -> (same: bool) {
        *self == *other
    }
}

impl Hashing for i32 {
    open spec fn hash_of(id: i32) -> u64 {
        signed_rank(id as int)
    }

    fn hash(&self) -> (h: u64) {
        signed_rank_exec(*self as i64)
    }
}

impl Ordered for i32 {
    open spec fn precedes(a: i32, b: i32) -> bool {
        a < b
    }

    proof fn lemma_precedes_asymmetric(a: i32, b: i32) {
    }

    proof fn lemma_precedes_transitive(a: i32, b: i32, c: i32) {
    }

    proof fn lemma_precedes_total(a: i32, b: i32) {
    }

    fn compare(&self, other: &Self) -> (o: Order) {
        if *self < *other {
            Order::Less
        } else if *self == *other {
            Order::Equal
        } else {
            Order::Greater
        }
    }
}

impl Equality for i64 {
    type Id = i64;

    open spec fn id(&self) -> i64 {
        *self
    }

    fn equals(&self, other: &Self) -> (same: bool) {
        *self == *other
    }
}

impl Hashing for i64 {
    open spec fn hash_of(id: i64) -> u64 {
        signed_rank(id as int)
    }

    fn hash(&self) -> (h: u64) {
        signed_rank_exec(*self)
    }
}

impl Ordered for i64 {
    open spec fn precedes(a: i64, b: i64) -> bool {
        a < b
    }

    proof fn lemma_precedes_asymmetric(a: i64, b: i64) {
    }

    proof fn lemma_precedes_transitive(a: i64, b: i64, c: i64) {
    }

    proof fn lemma_precedes_total(a: i64, b: i64) {
    }

    fn compare(&self, other: &Self) -> (o: Order) {
        if *self < *other {
            Order::Less
        } else if *self == *other {
            Order::Equal
        } else {
            Order::Greater
        }
    }
}

impl Equality for char {
    type Id = char;

    open spec fn id(&self) -> char {
        *self
    }

    fn equals(&self, other: &Self) -> (same: bool) {
        *self == *other
    }
}

impl Hashing for char {
    open spec fn hash_of(id: char) -> u64 {
        id as u64
    }

    fn hash(&self) -> (h: u64) {
        *self as u64
    }
}

impl Ordered for char {
    open spec fn precedes(a: char, b: char) -> bool {
        a < b
    }

    proof fn lemma_precedes_asymmetric(a: char, b: char) {
    }

    proof fn lemma_precedes_transitive(a: char, b: char, c: char) {
    }

    proof fn lemma_precedes_total(a: char, b: char) {
    }

    fn compare(&self, other: &Self) -> (o: Order) {
        if *self < *other {
            Order::Less
        } else if *self == *other {
            Order::Equal
        } else {
            Order::Greater
        }
    }
}

impl Equality for bool {
    type Id = bool;

    open spec fn id(&self) -> bool {
        *self
    }

    fn equals(&self, other: &Self) -> (same: bool) {
        *self == *other
    }
}

impl Hashing for bool {
    open spec fn hash_of(id: bool) -> u64 {
        if id {
            1
        } else {
            0
        }
    }

    fn hash(&self) -> (h: u64) {
        if *self {
            1
        } else {
            0
        }
    }
}

} // verus!
