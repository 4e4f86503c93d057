use vstd::prelude::*;

verus! {

/// A key type with a strict total order that the tree can route by.
///
/// `less` is the order in specifications; `compare` decides it at run time.
pub trait TreeKey: Sized {
    spec fn less(self, other: Self) -> bool;

    proof fn lemma_irreflexive(x: Self)
        ensures
            !x.less(x),
    ;

    proof fn lemma_transitive(x: Self, y: Self, z: Self)
        requires
            x.less(y),
            y.less(z),
        ensures
            x.less(z),
    ;

    proof fn lemma_trichotomy(x: Self, y: Self)
        ensures
            x.less(y) || x == y || y.less(x),
    ;

    /// Compares `self` with `other`: `Less` when `self` comes first.
    fn compare(&self, other: &Self) -> (r: std::cmp::Ordering)
        ensures
            (r == std::cmp::Ordering::Less) == self.less(*other),
            (r == std::cmp::Ordering::Equal) == (*self == *other),
            (r == std::cmp::Ordering::Greater) == other.less(*self),
    ;
}

impl TreeKey for u64 {
    open spec fn less(self, other: Self) -> bool {
        self < other
    }

    proof fn lemma_irreflexive(x: Self) {
    }

    proof fn lemma_transitive(x: Self, y: Self, z: Self) {
    }

    proof fn lemma_trichotomy(x: Self, y: Self) {
    }

    fn compare(&self, other: &Self) -> (r: std::cmp::Ordering) {
        if *self < *other {
            std::cmp::Ordering::Less
        } else if *self == *other {
            std::cmp::Ordering::Equal
        } else {
            std::cmp::Ordering::Greater
        }
    }
}

impl TreeKey for i64 {
    open spec fn less(self, other: Self) -> bool {
        self < other
    }

    proof fn lemma_irreflexive(x: Self) {
    }

    proof fn lemma_transitive(x: Self, y: Self, z: Self) {
    }

    proof fn lemma_trichotomy(x: Self, y: Self) {
    }

    fn compare(&self, other: &Self) -> (r: std::cmp::Ordering) {
        if *self < *other {
            std::cmp::Ordering::Less
        } else if *self == *other {
            std::cmp::Ordering::Equal
        } else {
            std::cmp::Ordering::Greater
        }
    }
}

impl TreeKey for u32 {
    open spec fn less(self, other: Self) -> bool {
        self < other
    }

    proof fn lemma_irreflexive(x: Self) {
    }

    proof fn lemma_transitive(x: Self, y: Self, z: Self) {
    }

    proof fn lemma_trichotomy(x: Self, y: Self) {
    }

    fn compare(&self, other: &Self) -> (r: std::cmp::Ordering) {
        if *self < *other {
            std::cmp::Ordering::Less
        } else if *self == *other {
            std::cmp::Ordering::Equal
        } else {
            std::cmp::Ordering::Greater
        }
    }
}

impl TreeKey for char {
    open spec fn less(self, other: Self) -> bool {
        self < other
    }

    proof fn lemma_irreflexive(x: Self) {
    }

    proof fn lemma_transitive(x: Self, y: Self, z: Self) {
    }

    proof fn lemma_trichotomy(x: Self, y: Self) {
    }

    fn compare(&self, other: &Self) -> (r: std::cmp::Ordering) {
        if *self < *other {
            std::cmp::Ordering::Less
        } else if *self == *other {
            std::cmp::Ordering::Equal
        } else {
            std::cmp::Ordering::Greater
        }
    }
}

} // verus!
