use vstd::prelude::*;

verus! {

/// A key type with a strict total order that both specifications and
/// executable code can use.
pub trait TotalOrder: Sized {
    /// `self` comes strictly before `other`.
    spec fn less(self, other: Self) -> bool;

    proof fn lemma_irreflexive(x: Self)
        ensures
            !x.less(x),
    ;

    proof fn lemma_transitive(x: Self, y: Self, z: Self)
        requires
            x.less(y),
            y.less(z),
        ensures
            x.less(z),
    ;

    proof fn lemma_total(x: Self, y: Self)
        ensures
            x.less(y) || x == y || y.less(x),
    ;

    /// Three-way comparison agreeing with `less`.
    fn compare(&self, other: &Self) -> (c: std::cmp::Ordering)
        ensures
            (c == std::cmp::Ordering::Less) == self.less(*other),
            (c == std::cmp::Ordering::Equal) == (*self == *other),
            (c == std::cmp::Ordering::Greater) == other.less(*self),
    ;
}

/// Neither of two keys comes before the other only when they are equal;
/// and `less` is never symmetric.
pub proof fn lemma_order_facts<K: TotalOrder>(x: K, y: K)
    ensures
        !(x.less(y) && y.less(x)),
        x.less(y) ==> x != y,
        (!x.less(y) && !y.less(x)) ==> x == y,
{
    K::lemma_total(x, y);
    K::lemma_irreflexive(x);
    if x.less(y) && y.less(x) {
        K::lemma_transitive(x, y, x);
    }
}

impl TotalOrder for i32 {
    open spec fn less(self, other: Self) -> bool {
        self < other
    }

    proof fn lemma_irreflexive(x: Self) {
    }

    proof fn lemma_transitive(x: Self, y: Self, z: Self) {
    }

    proof fn lemma_total(x: Self, y: Self) {
    }

    fn compare(&self, other: &Self) -> (c: std::cmp::Ordering) {
        if *self < *other {
            std::cmp::Ordering::Less
        } else if *self == *other {
            std::cmp::Ordering::Equal
        } else {
            std::cmp::Ordering::Greater
        }
    }
}

impl TotalOrder for i64 {
    open spec fn less(self, other: Self) -> bool {
        self < other
    }

    proof fn lemma_irreflexive(x: Self) {
    }

    proof fn lemma_transitive(x: Self, y: Self, z: Self) {
    }

    proof fn lemma_total(x: Self, y: Self) {
    }

    fn compare(&self, other: &Self) -> (c: std::cmp::Ordering) {
        if *self < *other {
            std::cmp::Ordering::Less
        } else if *self == *other {
            std::cmp::Ordering::Equal
        } else {
            std::cmp::Ordering::Greater
        }
    }
}

impl TotalOrder for u32 {
    open spec fn less(self, other: Self) -> bool {
        self < other
    }

    proof fn lemma_irreflexive(x: Self) {
    }

    proof fn lemma_transitive(x: Self, y: Self, z: Self) {
    }

    proof fn lemma_total(x: Self, y: Self) {
    }

    fn compare(&self, other: &Self) -> (c: std::cmp::Ordering) {
        if *self < *other {
            std::cmp::Ordering::Less
        } else if *self == *other {
            std::cmp::Ordering::Equal
        } else {
            std::cmp::Ordering::Greater
        }
    }
}

impl TotalOrder for u64 {
    open spec fn less(self, other: Self) -> bool {
        self < other
    }

    proof fn lemma_irreflexive(x: Self) {
    }

    proof fn lemma_transitive(x: Self, y: Self, z: Self) {
    }

    proof fn lemma_total(x: Self, y: Self) {
    }

    fn compare(&self, other: &Self) -> (c: std::cmp::Ordering) {
        if *self < *other {
            std::cmp::Ordering::Less
        } else if *self == *other {
            std::cmp::Ordering::Equal
        } else {
            std::cmp::Ordering::Greater
        }
    }
}

impl TotalOrder for u128 {
    open spec fn less(self, other: Self) -> bool {
        self < other
    }

    proof fn lemma_irreflexive(x: Self) {
    }

    proof fn lemma_transitive(x: Self, y: Self, z: Self) {
    }

    proof fn lemma_total(x: Self, y: Self) {
    }

    fn compare(&self, other: &Self) -> (c: std::cmp::Ordering) {
        if *self < *other {
            std::cmp::Ordering::Less
        } else if *self == *other {
            std::cmp::Ordering::Equal
        } else {
            std::cmp::Ordering::Greater
        }
    }
}

impl TotalOrder for usize {
    open spec fn less(self, other: Self) -> bool {
        self < other
    }

    proof fn lemma_irreflexive(x: Self) {
    }

    proof fn lemma_transitive(x: Self, y: Self, z: Self) {
    }

    proof fn lemma_total(x: Self, y: Self) {
    }

    fn compare(&self, other: &Self) -> (c: std::cmp::Ordering) {
        if *self < *other {
            std::cmp::Ordering::Less
        } else if *self == *other {
            std::cmp::Ordering::Equal
        } else {
            std::cmp::Ordering::Greater
        }
    }
}

impl TotalOrder for char {
    open spec fn less(self, other: Self) -> bool {
        self < other
    }

    proof fn lemma_irreflexive(x: Self) {
    }

    proof fn lemma_transitive(x: Self, y: Self, z: Self) {
    }

    proof fn lemma_total(x: Self, y: Self) {
    }

    fn compare(&self, other: &Self) -> (c: std::cmp::Ordering) {
        if *self < *other {
            std::cmp::Ordering::Less
        } else if *self == *other {
            std::cmp::Ordering::Equal
        } else {
            std::cmp::Ordering::Greater
        }
    }
}

} // verus!
