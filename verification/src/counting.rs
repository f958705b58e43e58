//! Counting arguments that bound the length of lists without repetition.

use vstd::prelude::*;

verus! {

/// A list of different integers, all of them in `0..bound`, has at most
/// `bound` entries.
pub proof fn lemma_distinct_codes_bounded(codes: Seq<int>, bound: int)
    requires
        0 <= bound,
        codes.no_duplicates(),
        forall|i: int| 0 <= i < codes.len() ==> 0 <= #[trigger] codes[i] < bound,
    ensures
        codes.len() <= bound,
{
    if codes.len() > 0 {
        codes.unique_seq_to_set();
        vstd::set_lib::lemma_int_range(0, bound);
        assert(codes.to_set().subset_of(vstd::set_lib::set_int_range(0, bound))) by {
            assert forall|x: int| codes.to_set().contains(x) implies vstd::set_lib::set_int_range(
                0,
                bound,
            ).contains(x) by {
                let i = choose|i: int| 0 <= i < codes.len() && codes[i] == x;
                assert(0 <= codes[i] < bound);
            }
        }
        vstd::set_lib::lemma_len_subset(codes.to_set(), vstd::set_lib::set_int_range(0, bound));
    }
}

/// The number triple `(a, b, c)` with `b < nb` and `c < nc`, as one number.
pub open spec fn triple_code(a: int, b: int, c: int, nb: int, nc: int) -> int {
    (a * nb + b) * nc + c
}

/// Different triples have different codes, and the code of a triple with
/// `a < na` lies below `na * nb * nc`.
pub proof fn lemma_triple_code(a: int, b: int, c: int, na: int, nb: int, nc: int)
    requires
        0 <= a < na,
        0 <= b < nb,
        0 <= c < nc,
    ensures
        0 <= triple_code(a, b, c, nb, nc) < na * nb * nc,
        triple_code(a, b, c, nb, nc) % nc == c,
        (triple_code(a, b, c, nb, nc) / nc) % nb == b,
        (triple_code(a, b, c, nb, nc) / nc) / nb == a,
{
    let x = a * nb + b;
    vstd::arithmetic::div_mod::lemma_fundamental_div_mod_converse(x * nc + c, nc, x, c);
    vstd::arithmetic::div_mod::lemma_fundamental_div_mod_converse(x, nb, a, b);
    assert(0 <= x < na * nb) by (nonlinear_arith)
        requires
            0 <= a < na,
            0 <= b < nb,
            x == a * nb + b,
    ;
    let m = na * nb;
    assert(0 <= x * nc + c < m * nc) by (nonlinear_arith)
        requires
            0 <= x < m,
            0 <= c < nc,
    ;
}

} // verus!
