//! The order of the rules of a grammar in Chomsky normal form, and lists
//! of rules in that order.

use vstd::prelude::*;
use crate::cnf::CnfRule;
use crate::grammar::Var;
use crate::term::Term;

verus! {

/// Whether `a` comes before `b`: terminal rules before binary ones, and
/// rules of one kind by their variables and terminal from left to right.
pub open spec fn rule_lt<T: Term>(a: CnfRule<T>, b: CnfRule<T>) -> bool {
    match (a, b) {
        (CnfRule::Terminal(h1, t1), CnfRule::Terminal(h2, t2)) => h1.0 < h2.0 || (h1.0 == h2.0
            && t1.rank() < t2.rank()),
        (CnfRule::Terminal(_, _), CnfRule::Binary(_, _, _)) => true,
        (CnfRule::Binary(_, _, _), CnfRule::Terminal(_, _)) => false,
        (CnfRule::Binary(h1, a1, b1), CnfRule::Binary(h2, a2, b2)) => h1.0 < h2.0 || (h1.0 == h2.0
            && (a1.0 < a2.0 || (a1.0 == a2.0 && b1.0 < b2.0))),
    }
}

/// Whether each rule of `s` comes before the next.
pub open spec fn rising<T: Term>(s: Seq<CnfRule<T>>) -> bool {
    forall|i: int, j: int| 0 <= i < j < s.len() ==> rule_lt(#[trigger] s[i], #[trigger] s[j])
}

/// Of two different rules one comes before the other.
pub proof fn lemma_rule_lt_total<T: Term>(a: CnfRule<T>, b: CnfRule<T>)
    ensures
        a == b || rule_lt(a, b) || rule_lt(b, a),
        !(rule_lt(a, b) && rule_lt(b, a)),
        !rule_lt(a, a),
{
    match (a, b) {
        (CnfRule::Terminal(h1, t1), CnfRule::Terminal(h2, t2)) => {
            if t1.rank() == t2.rank() {
                T::rank_is_injective(&t1, &t2);
            }
        },
        _ => {},
    }
}

/// The order is transitive.
pub proof fn lemma_rule_lt_trans<T: Term>(a: CnfRule<T>, b: CnfRule<T>, c: CnfRule<T>)
    requires
        rule_lt(a, b),
        rule_lt(b, c),
    ensures
        rule_lt(a, c),
{
}

/// Whether `a` comes before `b`.
pub fn rule_precedes<T: Term>(a: &CnfRule<T>, b: &CnfRule<T>) -> (r: bool)
    ensures
        r == rule_lt(*a, *b),
{
    match a {
        CnfRule::Terminal(h1, t1) => match b {
            CnfRule::Terminal(h2, t2) => h1.0 < h2.0 || (h1.0 == h2.0 && t1.precedes(t2)),
            CnfRule::Binary(_, _, _) => true,
        },
        CnfRule::Binary(h1, a1, b1) => match b {
            CnfRule::Terminal(_, _) => false,
            CnfRule::Binary(h2, a2, b2) => h1.0 < h2.0 || (h1.0 == h2.0 && (a1.0 < a2.0 || (a1.0
                == a2.0 && b1.0 < b2.0))),
        },
    }
}

/// A copy of `a` with the head `head`.
pub fn rule_with_head<T: Term>(a: &CnfRule<T>, head: Var) -> (r: CnfRule<T>)
    ensures
        r == a.with_head(head),
{
    match a {
        CnfRule::Terminal(_, t) => CnfRule::Terminal(head, t.duplicate()),
        CnfRule::Binary(_, x, y) => CnfRule::Binary(head, *x, *y),
    }
}

/// Puts `rule` into the rising list `list` at its place, unless it is
/// there.
pub fn insert_rule<T: Term>(list: &mut Vec<CnfRule<T>>, rule: CnfRule<T>)
    requires
        rising(old(list)@),
    ensures
        rising(final(list)@),
        forall|x: CnfRule<T>|
            final(list)@.contains(x) <==> (old(list)@.contains(x) || x == rule),
{
    let ghost before = list@;
    let mut i: usize = 0;
    while i < list.len() && rule_precedes(&list[i], &rule)
        invariant
            list@ == before,
            i <= list@.len(),
            forall|k: int| 0 <= k < i ==> rule_lt(#[trigger] list@[k], rule),
        decreases list@.len() - i,
    {
        i += 1;
    }
    if i < list.len() && !rule_precedes(&rule, &list[i]) {
        proof {
            lemma_rule_lt_total(rule, list@[i as int]);
            assert(before.contains(rule));
        }
    } else {
        proof {
            if i < list@.len() {
                assert(rule_lt(rule, before[i as int]));
            }
        }
        list.insert(i, rule);
        proof {
            let after = list@;
            assert(after == before.insert(i as int, rule));
            assert forall|a: int, b: int| 0 <= a < b < after.len() implies rule_lt(
                #[trigger] after[a],
                #[trigger] after[b],
            ) by {
                if b < i {
                } else if b == i {
                    assert(after[a] == before[a]);
                } else if a < i {
                    assert(after[a] == before[a]);
                    assert(after[b] == before[b - 1]);
                    if i < before.len() {
                        if b - 1 > i {
                            assert(rule_lt(before[i as int], before[b - 1]));
                        }
                        lemma_rule_lt_trans(before[a], rule, before[i as int]);
                    }
                } else if a == i {
                    assert(after[b] == before[b - 1]);
                    if b - 1 > i {
                        assert(rule_lt(before[i as int], before[b - 1]));
                        lemma_rule_lt_trans(rule, before[i as int], before[b - 1]);
                    }
                } else {
                    assert(after[a] == before[a - 1]);
                    assert(after[b] == before[b - 1]);
                }
            }
            assert forall|x: CnfRule<T>| after.contains(x) <==> (before.contains(x) || x
                == rule) by {
                if after.contains(x) {
                    let k = choose|k: int| 0 <= k < after.len() && after[k] == x;
                    if k < i {
                        assert(before[k] == x);
                    } else if k > i {
                        assert(before[k - 1] == x);
                    }
                }
                if before.contains(x) {
                    let k = choose|k: int| 0 <= k < before.len() && before[k] == x;
                    if k < i {
                        assert(after[k] == x);
                    } else {
                        assert(after[k + 1] == x);
                    }
                }
                if x == rule {
                    assert(after[i as int] == x);
                }
            }
        }
    }
}

/// Puts the rules of `list` in rising order and leaves each of them once.
pub fn sort_dedup<T: Term>(list: &mut Vec<CnfRule<T>>)
    ensures
        rising(final(list)@),
        forall|x: CnfRule<T>| #[trigger] final(list)@.contains(x) <==> old(list)@.contains(x),
{
    let mut sorted: Vec<CnfRule<T>> = Vec::new();
    let ghost all = list@;
    while list.len() > 0
        invariant
            rising(sorted@),
            forall|x: CnfRule<T>|
                all.contains(x) <==> (sorted@.contains(x) || list@.contains(x)),
        decreases list@.len(),
    {
        let ghost before = list@;
        let ghost had = sorted@;
        let rule = list.pop().unwrap();
        insert_rule(&mut sorted, rule);
        proof {
            assert forall|x: CnfRule<T>| all.contains(x) <==> (sorted@.contains(x)
                || list@.contains(x)) by {
                if before.contains(x) {
                    let k = choose|k: int| 0 <= k < before.len() && before[k] == x;
                    if k < list@.len() {
                        assert(list@[k] == x);
                    }
                }
                if list@.contains(x) {
                    let k = choose|k: int| 0 <= k < list@.len() && list@[k] == x;
                    assert(before[k] == x);
                }
                assert(before[before.len() - 1] == rule);
            }
        }
    }
    list.append(&mut sorted);
}

} // verus!
