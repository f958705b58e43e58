//! The alphabet of a grammar.

use vstd::prelude::*;

verus! {

/// A terminal symbol: a value that can be compared, ordered and copied.
///
/// The order is the one of `rank`, an integer that tells two different
/// terminals apart.
pub trait Term: Sized {
    /// The place of this terminal in the order of the alphabet.
    spec fn rank(&self) -> int;

    /// Two terminals of one rank are the same terminal.
    proof fn rank_is_injective(a: &Self, b: &Self)
        requires
            a.rank() == b.rank(),
        ensures
            a == b,
    ;

    /// Whether two terminals are equal.
    fn same(&self, other: &Self) -> (b: bool)
        ensures
            b == (*self == *other),
    ;

    /// Whether this terminal comes strictly before `other`.
    fn precedes(&self, other: &Self) -> (b: bool)
        ensures
            b == (self.rank() < other.rank()),
    ;

    /// A copy of this terminal.
    fn duplicate(&self) -> (r: Self)
        ensures
            r == *self,
    ;
}

/// The index of the first entry of `index` whose terminal is `term`, if
/// there is one.
pub fn find_key<T: Term, V>(index: &Vec<(T, V)>, term: &T) -> (found: Option<usize>)
    ensures
        found matches Some(e) ==> e < index@.len() && index@[e as int].0 == *term,
        found matches Some(e) ==> forall|i: int| 0 <= i < e ==> (#[trigger] index@[i]).0 != *term,
        found is None ==> forall|e: int| 0 <= e < index@.len() ==> (#[trigger] index@[e]).0 != *term,
{
    let mut e: usize = 0;
    while e < index.len()
        invariant
            e <= index@.len(),
            forall|i: int| 0 <= i < e ==> (#[trigger] index@[i]).0 != *term,
        decreases index@.len() - e,
    {
        if index[e].0.same(term) {
            return Some(e);
        }
        e += 1;
    }
    None
}

impl Term for char {
    open spec fn rank(&self) -> int {
        *self as int
    }

    proof fn rank_is_injective(a: &Self, b: &Self) {
    }

    fn same(&self, other: &Self) -> (b: bool) {
        *self == *other
    }

    fn precedes(&self, other: &Self) -> (b: bool) {
        *self < *other
    }

    fn duplicate(&self) -> (r: Self) {
        *self
    }
}

impl Term for u8 {
    open spec fn rank(&self) -> int {
        *self as int
    }

    proof fn rank_is_injective(a: &Self, b: &Self) {
    }

    fn same(&self, other: &Self) -> (b: bool) {
        *self == *other
    }

    fn precedes(&self, other: &Self) -> (b: bool) {
        *self < *other
    }

    fn duplicate(&self) -> (r: Self) {
        *self
    }
}

impl Term for u16 {
    open spec fn rank(&self) -> int {
        *self as int
    }

    proof fn rank_is_injective(a: &Self, b: &Self) {
    }

    fn same(&self, other: &Self) -> (b: bool) {
        *self == *other
    }

    fn precedes(&self, other: &Self) -> (b: bool) {
        *self < *other
    }

    fn duplicate(&self) -> (r: Self) {
        *self
    }
}

impl Term for u32 {
    open spec fn rank(&self) -> int {
        *self as int
    }

    proof fn rank_is_injective(a: &Self, b: &Self) {
    }

    fn same(&self, other: &Self) -> (b: bool) {
        *self == *other
    }

    fn precedes(&self, other: &Self) -> (b: bool) {
        *self < *other
    }

    fn duplicate(&self) -> (r: Self) {
        *self
    }
}

impl Term for u64 {
    open spec fn rank(&self) -> int {
        *self as int
    }

    proof fn rank_is_injective(a: &Self, b: &Self) {
    }

    fn same(&self, other: &Self) -> (b: bool) {
        *self == *other
    }

    fn precedes(&self, other: &Self) -> (b: bool) {
        *self < *other
    }

    fn duplicate(&self) -> (r: Self) {
        *self
    }
}

impl Term for usize {
    open spec fn rank(&self) -> int {
        *self as int
    }

    proof fn rank_is_injective(a: &Self, b: &Self) {
    }

    fn same(&self, other: &Self) -> (b: bool) {
        *self == *other
    }

    fn precedes(&self, other: &Self) -> (b: bool) {
        *self < *other
    }

    fn duplicate(&self) -> (r: Self) {
        *self
    }
}

} // verus!
