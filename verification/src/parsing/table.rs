//! A table with three indices, kept in one list.

use vstd::prelude::*;

verus! {

/// A table of `m` by `n` by `k` values.
#[derive(Debug)]
pub struct Flat3dVec<T> {
    pub m: usize,
    pub n: usize,
    pub k: usize,
    pub vec: Vec<T>,
}

/// The place of the entry `(a, b, c)` in the list.
pub open spec fn flat_index(n: int, k: int, a: int, b: int, c: int) -> int {
    a * n * k + b * k + c
}

/// The place of an entry lies in the list, and different entries have
/// different places.
pub proof fn lemma_flat_index(m: int, n: int, k: int, a: int, b: int, c: int)
    requires
        0 <= a < m,
        0 <= b < n,
        0 <= c < k,
    ensures
        0 <= flat_index(n, k, a, b, c) < m * n * k,
        0 <= a * n < m * n,
        0 <= a * n * k <= m * n * k,
        0 <= b * k < n * k,
        m * n <= m * n * k,
        a * n * k + b * k <= m * n * k,
        flat_index(n, k, a, b, c) == crate::counting::triple_code(a, b, c, n, k),
{
    crate::counting::lemma_triple_code(a, b, c, m, n, k);
    assert(a * n * k + b * k + c == (a * n + b) * k + c) by (nonlinear_arith);
    assert(0 <= a * n < m * n) by (nonlinear_arith)
        requires
            0 <= a < m,
            0 < n,
    ;
    assert(0 <= b * k < n * k) by (nonlinear_arith)
        requires
            0 <= b < n,
            0 < k,
    ;
    assert(0 <= a * n * k <= m * n * k) by (nonlinear_arith)
        requires
            0 <= a < m,
            0 < n,
            0 < k,
    ;
    assert(m * n <= m * n * k) by (nonlinear_arith)
        requires
            0 < m,
            0 < n,
            0 < k,
    ;
}

/// Different entries have different places.
pub proof fn lemma_flat_index_injective(
    m: int,
    n: int,
    k: int,
    a: int,
    b: int,
    c: int,
    a2: int,
    b2: int,
    c2: int,
)
    requires
        0 <= a < m,
        0 <= b < n,
        0 <= c < k,
        0 <= a2 < m,
        0 <= b2 < n,
        0 <= c2 < k,
        flat_index(n, k, a, b, c) == flat_index(n, k, a2, b2, c2),
    ensures
        a == a2 && b == b2 && c == c2,
{
    lemma_flat_index(m, n, k, a, b, c);
    lemma_flat_index(m, n, k, a2, b2, c2);
    crate::counting::lemma_triple_code(a, b, c, m, n, k);
    crate::counting::lemma_triple_code(a2, b2, c2, m, n, k);
}

impl<T: Copy> Flat3dVec<T> {
    /// Whether the list has one entry for each triple of indices.
    pub open spec fn wf(&self) -> bool {
        self.vec@.len() == self.m * self.n * self.k
    }

    /// The entry `(a, b, c)`.
    pub open spec fn at(&self, a: int, b: int, c: int) -> T {
        self.vec@[flat_index(self.n as int, self.k as int, a, b, c)]
    }

    /// A table all of whose entries are `val`.
    pub fn filled_with(m: usize, n: usize, k: usize, val: T) -> (table: Self)
        requires
            m * n * k <= usize::MAX,
        ensures
            table.wf(),
            table.m == m,
            table.n == n,
            table.k == k,
            forall|i: int| 0 <= i < table.vec@.len() ==> table.vec@[i] == val,
    {
        proof {
            assert(m * n <= m * n * k || k == 0) by (nonlinear_arith)
                requires
                    0 <= m,
                    0 <= n,
                    0 <= k,
            ;
            assert(k == 0 ==> m * n * k == 0) by (nonlinear_arith);
        }
        let total: usize = if k == 0 {
            0
        } else {
            m * n * k
        };
        let mut vec: Vec<T> = Vec::new();
        let mut i: usize = 0;
        while i < total
            invariant
                i <= total,
                vec@.len() == i,
                forall|j: int| 0 <= j < i ==> vec@[j] == val,
            decreases total - i,
        {
            vec.push(val);
            i += 1;
        }
        Self { m, n, k, vec }
    }

    /// The entry `(a, b, c)`.
    pub fn get(&self, a: usize, b: usize, c: usize) -> (val: T)
        requires
            self.wf(),
            a < self.m,
            b < self.n,
            c < self.k,
        ensures
            val == self.at(a as int, b as int, c as int),
    {
        proof {
            lemma_flat_index(self.m as int, self.n as int, self.k as int, a as int, b as int, c as int);
            assert(self.vec.len() == self.m * self.n * self.k);
        }
        self.vec[a * self.n * self.k + b * self.k + c]
    }

    /// Puts `val` at `(a, b, c)`.
    pub fn set(&mut self, a: usize, b: usize, c: usize, val: T)
        requires
            old(self).wf(),
            a < old(self).m,
            b < old(self).n,
            c < old(self).k,
        ensures
            final(self).wf(),
            final(self).m == old(self).m,
            final(self).n == old(self).n,
            final(self).k == old(self).k,
            final(self).at(a as int, b as int, c as int) == val,
            forall|a2: int, b2: int, c2: int|
                0 <= a2 < old(self).m && 0 <= b2 < old(self).n && 0 <= c2 < old(self).k && (a2 != a
                    || b2 != b || c2 != c) ==> #[trigger] final(self).at(a2, b2, c2) == old(
                    self,
                ).at(a2, b2, c2),
    {
        proof {
            lemma_flat_index(self.m as int, self.n as int, self.k as int, a as int, b as int, c as int);
            assert(self.vec.len() == self.m * self.n * self.k);
        }
        let ghost before = self.vec@;
        let at = a * self.n * self.k + b * self.k + c;
        self.vec[at] = val;
        proof {
            assert forall|a2: int, b2: int, c2: int|
                0 <= a2 < self.m && 0 <= b2 < self.n && 0 <= c2 < self.k && (a2 != a || b2 != b
                    || c2 != c) implies #[trigger] self.at(a2, b2, c2) == before[flat_index(
                self.n as int,
                self.k as int,
                a2,
                b2,
                c2,
            )] by {
                lemma_flat_index(self.m as int, self.n as int, self.k as int, a2, b2, c2);
                if flat_index(self.n as int, self.k as int, a2, b2, c2) == at {
                    lemma_flat_index_injective(
                        self.m as int,
                        self.n as int,
                        self.k as int,
                        a as int,
                        b as int,
                        c as int,
                        a2,
                        b2,
                        c2,
                    );
                }
            }
        }
    }
}

} // verus!
