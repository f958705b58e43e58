//! The CYK recogniser: a table that says, for each part of the word and
//! each variable, whether the variable derives the part.

use vstd::prelude::*;
use crate::cnf::{cnf_productions, Cnf, CnfRule};
use crate::derivation::{
    derivation_of, derives, fringe, lemma_forest_fringe_one, lemma_forest_fringe_two,
    lemma_fringe_nonempty, tree_matches, tree_ok, Tree,
};
use crate::grammar::{Cfg, Production, Symbol, Var};
use crate::parsing::table::Flat3dVec;
use crate::parsing::{ParseTree, ParsedSymbol, Parser};
use crate::term::{find_key, Term};

verus! {

/// In Chomsky normal form a variable derives a word of one terminal if
/// and only if the rule that says so is there.
pub proof fn lemma_cnf_leaf<T>(rules: Seq<CnfRule<T>>, v: Var, t: T)
    ensures
        derives(cnf_productions(rules), v.0 as int, seq![t]) <==> rules.contains(
            CnfRule::Terminal(v, t),
        ),
{
    let g = cnf_productions(rules);
    assert forall|r: int| 0 <= r < g.len() implies (#[trigger] g[r]).body.len() > 0 by {
        assert(g[r] == rules[r].production());
    }
    if derives(g, v.0 as int, seq![t]) {
        let tree = choose|tree: Tree<T>| derivation_of(g, tree, v.0 as int, seq![t]);
        let q = tree->Node_0;
        let kids = tree->Node_1;
        assert(g[q] == rules[q].production());
        match rules[q] {
            CnfRule::Terminal(h, a) => {
                let k = kids[0];
                assert(tree_matches(g, k, g[q].body[0]));
                assert(kids =~= seq![k]);
                lemma_forest_fringe_one(k);
                assert(fringe(k) == seq![a]);
                assert(seq![a][0] == seq![t][0]);
                assert(rules[q] == CnfRule::Terminal(v, t));
            },
            CnfRule::Binary(_, _, _) => {
                let k1 = kids[0];
                let k2 = kids[1];
                assert(tree_matches(g, k1, g[q].body[0]) && tree_ok(g, k1));
                assert(tree_matches(g, k2, g[q].body[1]) && tree_ok(g, k2));
                assert(kids =~= seq![k1, k2]);
                lemma_forest_fringe_two(k1, k2);
                lemma_fringe_nonempty(g, k1);
                lemma_fringe_nonempty(g, k2);
            },
        }
    }
    if rules.contains(CnfRule::Terminal(v, t)) {
        let q = choose|q: int| 0 <= q < rules.len() && rules[q] == CnfRule::Terminal(v, t);
        assert(g[q] == rules[q].production());
        let k = Tree::Leaf(t);
        assert(g[q].body =~= seq![Symbol::Term(t)]);
        assert forall|j: int| 0 <= j < seq![k].len() implies tree_matches(
            g,
            #[trigger] seq![k][j],
            g[q].body[j],
        ) && tree_ok(g, seq![k][j]) by {}
        lemma_forest_fringe_one(k);
        assert(derivation_of(g, Tree::Node(q, seq![k]), v.0 as int, seq![t]));
    }
}

/// A binary rule joins what its two variables derive.
pub proof fn lemma_cnf_join<T>(
    rules: Seq<CnfRule<T>>,
    h: Var,
    a: Var,
    b: Var,
    w1: Seq<T>,
    w2: Seq<T>,
)
    requires
        rules.contains(CnfRule::Binary(h, a, b)),
        derives(cnf_productions(rules), a.0 as int, w1),
        derives(cnf_productions(rules), b.0 as int, w2),
    ensures
        derives(cnf_productions(rules), h.0 as int, w1 + w2),
{
    let g = cnf_productions(rules);
    let q = choose|q: int| 0 <= q < rules.len() && rules[q] == CnfRule::<T>::Binary(h, a, b);
    assert(g[q] == rules[q].production());
    let t1 = choose|t1: Tree<T>| derivation_of(g, t1, a.0 as int, w1);
    let t2 = choose|t2: Tree<T>| derivation_of(g, t2, b.0 as int, w2);
    let kk = seq![t1, t2];
    assert(g[q].body =~= seq![Symbol::Var(a), Symbol::Var(b)]);
    assert forall|j: int| 0 <= j < kk.len() implies tree_matches(g, #[trigger] kk[j], g[q].body[j])
        && tree_ok(g, kk[j]) by {}
    lemma_forest_fringe_two(t1, t2);
    assert(derivation_of(g, Tree::Node(q, kk), h.0 as int, w1 + w2));
}

/// What a variable derives in Chomsky normal form, if it is longer than one
/// terminal, falls into two parts that the variables of a binary rule
/// derive.
pub proof fn lemma_cnf_split<T>(rules: Seq<CnfRule<T>>, v: int, w: Seq<T>) -> (res: (
    Var,
    Var,
    Var,
    int,
))
    requires
        derives(cnf_productions(rules), v, w),
        w.len() >= 2,
    ensures
        res.0.0 == v,
        rules.contains(CnfRule::Binary(res.0, res.1, res.2)),
        1 <= res.3 < w.len(),
        derives(cnf_productions(rules), res.1.0 as int, w.subrange(0, res.3)),
        derives(cnf_productions(rules), res.2.0 as int, w.subrange(res.3, w.len() as int)),
{
    let g = cnf_productions(rules);
    assert forall|r: int| 0 <= r < g.len() implies (#[trigger] g[r]).body.len() > 0 by {
        assert(g[r] == rules[r].production());
    }
    let tree = choose|tree: Tree<T>| derivation_of(g, tree, v, w);
    let q = tree->Node_0;
    let kids = tree->Node_1;
    assert(g[q] == rules[q].production());
    match rules[q] {
        CnfRule::Terminal(h, a) => {
            let k = kids[0];
            assert(tree_matches(g, k, g[q].body[0]));
            assert(kids =~= seq![k]);
            lemma_forest_fringe_one(k);
            assert(fringe(k) == seq![a]);
            (h, h, h, 0)
        },
        CnfRule::Binary(h, a, b) => {
            let k1 = kids[0];
            let k2 = kids[1];
            assert(tree_matches(g, k1, g[q].body[0]) && tree_ok(g, k1));
            assert(tree_matches(g, k2, g[q].body[1]) && tree_ok(g, k2));
            assert(kids =~= seq![k1, k2]);
            lemma_forest_fringe_two(k1, k2);
            lemma_fringe_nonempty(g, k1);
            lemma_fringe_nonempty(g, k2);
            let k = fringe(k1).len() as int;
            assert(w.subrange(0, k) =~= fringe(k1));
            assert(w.subrange(k, w.len() as int) =~= fringe(k2));
            assert(derivation_of(g, k1, a.0 as int, fringe(k1)));
            assert(derivation_of(g, k2, b.0 as int, fringe(k2)));
            assert(rules.contains(rules[q]));
            (h, a, b, k)
        },
    }
}

/// Whether the list `index` has an entry for the terminal `t` that holds
/// the variable `v`.
pub open spec fn indexed<T>(index: Seq<(T, Vec<Var>)>, v: Var, t: T) -> bool {
    exists|e: int, k: int|
        0 <= e < index.len() && 0 <= k < index[e].1@.len() && index[e].0 == t
            && #[trigger] index[e].1@[k] == v
}

/// Whether `terminal_ids` and `binary_ids` hold, for each variable of
/// `index` and each rule of `binary`, the index of its rule in `rules`.
pub open spec fn ids_ok<T>(
    rules: Seq<CnfRule<T>>,
    index: Seq<(T, Vec<Var>)>,
    terminal_ids: Seq<Vec<usize>>,
    binary: Seq<CnfRule<T>>,
    binary_ids: Seq<usize>,
) -> bool {
    &&& terminal_ids.len() == index.len()
    &&& forall|e: int| 0 <= e < index.len() ==> (#[trigger] terminal_ids[e])@.len() == index[e].1@.len()
    &&& forall|e: int, k: int|
        0 <= e < index.len() && 0 <= k < index[e].1@.len() ==> (#[trigger] terminal_ids[e]@[k])
            < rules.len() && rules[terminal_ids[e]@[k] as int] == CnfRule::Terminal(
            index[e].1@[k],
            index[e].0,
        )
    &&& binary_ids.len() == binary.len()
    &&& forall|j: int|
        0 <= j < binary.len() ==> (#[trigger] binary_ids[j]) < rules.len()
            && rules[binary_ids[j] as int] == binary[j]
}

/// The terminals of the terminal rules of `rules`, each once, in the order
/// in which they come first.
pub open spec fn terminal_keys<T>(rules: Seq<CnfRule<T>>) -> Seq<T>
    decreases rules.len(),
{
    if rules.len() == 0 {
        Seq::empty()
    } else {
        let rest = terminal_keys(rules.drop_last());
        match rules.last() {
            CnfRule::Terminal(_, t) => if rest.contains(t) {
                rest
            } else {
                rest.push(t)
            },
            CnfRule::Binary(_, _, _) => rest,
        }
    }
}

/// The variables of the terminal rules of `rules` for the terminal `t`, in
/// the order of the rules.
pub open spec fn vars_of_key<T>(rules: Seq<CnfRule<T>>, t: T) -> Seq<Var>
    decreases rules.len(),
{
    if rules.len() == 0 {
        Seq::empty()
    } else {
        let rest = vars_of_key(rules.drop_last(), t);
        match rules.last() {
            CnfRule::Terminal(v, t2) => if t2 == t {
                rest.push(v)
            } else {
                rest
            },
            CnfRule::Binary(_, _, _) => rest,
        }
    }
}

/// The indices of the terminal rules of `rules` for the terminal `t`.
pub open spec fn ids_of_key<T>(rules: Seq<CnfRule<T>>, t: T) -> Seq<usize>
    decreases rules.len(),
{
    if rules.len() == 0 {
        Seq::empty()
    } else {
        let rest = ids_of_key(rules.drop_last(), t);
        match rules.last() {
            CnfRule::Terminal(_, t2) => if t2 == t {
                rest.push((rules.len() - 1) as usize)
            } else {
                rest
            },
            CnfRule::Binary(_, _, _) => rest,
        }
    }
}

/// The binary rules of `rules`, in their order.
pub open spec fn binary_part<T>(rules: Seq<CnfRule<T>>) -> Seq<CnfRule<T>>
    decreases rules.len(),
{
    if rules.len() == 0 {
        Seq::empty()
    } else if rules.last() is Binary {
        binary_part(rules.drop_last()).push(rules.last())
    } else {
        binary_part(rules.drop_last())
    }
}

/// The indices of the binary rules of `rules`.
pub open spec fn binary_ids_part<T>(rules: Seq<CnfRule<T>>) -> Seq<usize>
    decreases rules.len(),
{
    if rules.len() == 0 {
        Seq::empty()
    } else if rules.last() is Binary {
        binary_ids_part(rules.drop_last()).push((rules.len() - 1) as usize)
    } else {
        binary_ids_part(rules.drop_last())
    }
}

/// A terminal that is none of the keys has no rule.
pub proof fn lemma_key_absent<T>(rules: Seq<CnfRule<T>>, t: T)
    requires
        !terminal_keys(rules).contains(t),
    ensures
        vars_of_key(rules, t).len() == 0,
        ids_of_key(rules, t).len() == 0,
    decreases rules.len(),
{
    if rules.len() > 0 {
        let rest = terminal_keys(rules.drop_last());
        let keys = terminal_keys(rules);
        if rest.contains(t) {
            let k = choose|k: int| 0 <= k < rest.len() && rest[k] == t;
            assert(keys[k] == t);
        }
        match rules.last() {
            CnfRule::Terminal(_, t2) => {
                if t2 == t {
                    if !rest.contains(t) {
                        assert(keys[rest.len() as int] == t);
                    }
                }
            },
            CnfRule::Binary(_, _, _) => {},
        }
        lemma_key_absent(rules.drop_last(), t);
    }
}

/// Whether the lists hold the rules `rules` by their kind: the terminal
/// rules by their terminal, in the order in which the terminals come
/// first, and the binary rules in their order, each with its index.
pub open spec fn index_exact<T>(
    rules: Seq<CnfRule<T>>,
    index: Seq<(T, Vec<Var>)>,
    terminal_ids: Seq<Vec<usize>>,
    binary: Seq<CnfRule<T>>,
    binary_ids: Seq<usize>,
) -> bool {
    &&& index.len() == terminal_keys(rules).len()
    &&& terminal_ids.len() == index.len()
    &&& forall|e: int|
        0 <= e < index.len() ==> (#[trigger] index[e]).0 == terminal_keys(rules)[e] && index[e].1@
            == vars_of_key(rules, index[e].0) && terminal_ids[e]@ == ids_of_key(rules, index[e].0)
    &&& binary == binary_part(rules)
    &&& binary_ids == binary_ids_part(rules)
}

/// Whether `k` is the first place of `vars` at which the variable `v`
/// stands.
pub open spec fn first_slot(vars: Seq<Var>, v: int, k: int) -> bool {
    &&& 0 <= k < vars.len()
    &&& vars[k].0 == v
    &&& forall|k2: int| 0 <= k2 < k ==> (#[trigger] vars[k2]).0 != v
}

/// A CYK parser for one grammar in Chomsky normal form.
///
/// The trees that it returns are derivations in the normal form, over the
/// variables of the normal form; there is none for the empty word.
///
/// `start` is the variable of that grammar that stands for the variable
/// `origin` of the grammar that the normal form was made from.
#[derive(Debug, Clone)]
pub struct CykParser<T> {
    pub start: Var,
    pub origin: Var,
    pub nullable: Vec<bool>,
    pub terms_to_vars: Vec<(T, Vec<Var>)>,
    /// For each variable of `terms_to_vars` the index of its rule.
    pub terminal_ids: Vec<Vec<usize>>,
    pub binary_rules: Vec<CnfRule<T>>,
    /// For each rule of `binary_rules` its index.
    pub binary_ids: Vec<usize>,
    /// All rules of the normal form; a tree names its rules by their index
    /// here.
    pub rules: Vec<CnfRule<T>>,
}

impl<T: Term> CykParser<T> {
    /// The productions of the grammar in Chomsky normal form.
    pub open spec fn grammar(&self) -> Seq<Production<T>> {
        cnf_productions(self.rules@)
    }

    /// Whether the recogniser holds the rules of its grammar: the terminal
    /// rules by their terminal, each terminal once, and the binary rules.
    pub open spec fn wf(&self) -> bool {
        let n = self.nullable@.len();
        &&& self.start.0 < n
        &&& self.origin.0 < n
        &&& forall|i: int| 0 <= i < self.rules@.len() ==> (#[trigger] self.rules@[i]).in_range(n as int)
        &&& forall|e: int, k: int|
            0 <= e < self.terms_to_vars@.len() && 0 <= k < self.terms_to_vars@[e].1@.len()
                ==> self.rules@.contains(
                CnfRule::Terminal(#[trigger] self.terms_to_vars@[e].1@[k], self.terms_to_vars@[e].0),
            )
        &&& forall|i: int|
            0 <= i < self.rules@.len() ==> (#[trigger] self.rules@[i] matches CnfRule::Terminal(v, t)
                ==> indexed(self.terms_to_vars@, v, t))
        &&& forall|e1: int, e2: int|
            0 <= e1 < self.terms_to_vars@.len() && 0 <= e2 < self.terms_to_vars@.len() && e1 != e2
                ==> (#[trigger] self.terms_to_vars@[e1]).0 != (#[trigger] self.terms_to_vars@[e2]).0
        &&& forall|j: int|
            0 <= j < self.binary_rules@.len() ==> (#[trigger] self.binary_rules@[j]) is Binary
                && self.rules@.contains(self.binary_rules@[j])
        &&& forall|i: int|
            0 <= i < self.rules@.len() && (#[trigger] self.rules@[i]) is Binary
                ==> self.binary_rules@.contains(self.rules@[i])
        &&& ids_ok(self.rules@, self.terms_to_vars@, self.terminal_ids@, self.binary_rules@, self.binary_ids@)
    }

    /// Whether the recogniser says yes to `word`: the empty word if the
    /// variable `origin` derives it, any other word if `start` derives it.
    pub open spec fn accepts(&self, word: Seq<T>) -> bool {
        if word.len() == 0 {
            self.nullable@[self.origin.0 as int]
        } else {
            derives(self.grammar(), self.start.0 as int, word)
        }
    }

    /// Whether the variable `v` derives the part of `word` from `i` to `j`,
    /// both counted in.
    pub open spec fn cell(&self, word: Seq<T>, i: int, j: int, v: int) -> bool {
        derives(self.grammar(), v, word.subrange(i, j + 1))
    }

    /// Whether this parser is the one for the variable `start` of the
    /// grammar that `cnf` was made from.
    pub open spec fn built_of(&self, cnf: Cnf<T>, start: Var) -> bool {
        &&& self.rules@ == cnf.rules@
        &&& self.nullable == cnf.nullable
        &&& self.start == cnf.vars_map@[start.0 as int]
        &&& self.origin == start
        &&& index_exact(
            cnf.rules@,
            self.terms_to_vars@,
            self.terminal_ids@,
            self.binary_rules@,
            self.binary_ids@,
        )
    }

    /// The parser for the variable `start` of the grammar that `cnf` was
    /// made from.
    pub fn of_cnf(cnf: Cnf<T>, start: Var) -> (parser: Self)
        requires
            cnf.wf(),
            start.0 < cnf.vars_map@.len(),
        ensures
            parser.wf(),
            parser.built_of(cnf, start),
    {
        let Cnf { nullable, rules, vars_map } = cnf;
        let ghost all = rules@;
        let mut terms_to_vars: Vec<(T, Vec<Var>)> = Vec::new();
        let mut terminal_ids: Vec<Vec<usize>> = Vec::new();
        let mut binary_rules: Vec<CnfRule<T>> = Vec::new();
        let mut binary_ids: Vec<usize> = Vec::new();
        let mut i: usize = 0;
        while i < rules.len()
            invariant
                i <= rules@.len(),
                all == rules@,
                ids_ok(all, terms_to_vars@, terminal_ids@, binary_rules@, binary_ids@),
                index_exact(
                    all.take(i as int),
                    terms_to_vars@,
                    terminal_ids@,
                    binary_rules@,
                    binary_ids@,
                ),
                forall|e: int, k: int|
                    0 <= e < terms_to_vars@.len() && 0 <= k < terms_to_vars@[e].1@.len()
                        ==> all.contains(
                        CnfRule::Terminal(#[trigger] terms_to_vars@[e].1@[k], terms_to_vars@[e].0),
                    ),
                forall|r: int|
                    0 <= r < i ==> (#[trigger] all[r] matches CnfRule::Terminal(v, t) ==> indexed(
                        terms_to_vars@,
                        v,
                        t,
                    )),
                forall|e1: int, e2: int|
                    0 <= e1 < terms_to_vars@.len() && 0 <= e2 < terms_to_vars@.len() && e1 != e2 ==> (
                    #[trigger] terms_to_vars@[e1]).0 != (#[trigger] terms_to_vars@[e2]).0,
                forall|j: int|
                    0 <= j < binary_rules@.len() ==> (#[trigger] binary_rules@[j]) is Binary
                        && all.contains(binary_rules@[j]),
                forall|r: int|
                    0 <= r < i && (#[trigger] all[r]) is Binary ==> binary_rules@.contains(all[r]),
            decreases rules@.len() - i,
        {
            let ghost index0 = terms_to_vars@;
            let ghost binary0 = binary_rules@;
            let ghost tids0 = terminal_ids@;
            let ghost bids0 = binary_ids@;
            let ghost p0 = all.take(i as int);
            let ghost p1 = all.take(i + 1);
            let ghost keys0 = terminal_keys(p0);
            proof {
                assert(all.contains(all[i as int]));
                assert(p1.drop_last() == p0);
                assert(p1.last() == all[i as int]);
            }
            match &rules[i] {
                CnfRule::Terminal(var, term) => {
                    match find_key(&terms_to_vars, term) {
                        Some(e) => {
                            terms_to_vars[e].1.push(*var);
                            terminal_ids[e].push(i);
                            proof {
                                let index = terms_to_vars@;
                                let tids = terminal_ids@;
                                assert(index[e as int].0 == index0[e as int].0);
                                assert(index[e as int].1@ == index0[e as int].1@.push(*var));
                                assert(tids[e as int]@ == tids0[e as int]@.push(i));
                                assert(keys0[e as int] == *term);
                                assert(terminal_keys(p1) == keys0);
                                assert forall|e1: int| 0 <= e1 < index.len() implies (
                                #[trigger] index[e1]).0 == terminal_keys(p1)[e1] && index[e1].1@
                                    == vars_of_key(p1, index[e1].0) && tids[e1]@ == ids_of_key(
                                    p1,
                                    index[e1].0,
                                ) by {
                                    assert(index0[e1].0 == keys0[e1]);
                                    if e1 != e {
                                        assert(index[e1] == index0[e1]);
                                        assert(tids[e1] == tids0[e1]);
                                        assert(index0[e1].0 != index0[e as int].0);
                                    }
                                }
                                assert forall|e1: int|
                                    0 <= e1 < index.len() implies (#[trigger] tids[e1])@.len()
                                    == index[e1].1@.len() by {
                                    if e1 != e {
                                        assert(tids[e1] == tids0[e1]);
                                        assert(index[e1] == index0[e1]);
                                    }
                                }
                                assert forall|e1: int, k: int|
                                    0 <= e1 < index.len() && 0 <= k < index[e1].1@.len() implies (
                                #[trigger] tids[e1]@[k]) < all.len() && all[tids[e1]@[k] as int]
                                    == CnfRule::Terminal(index[e1].1@[k], index[e1].0) by {
                                    if e1 != e {
                                        assert(tids[e1] == tids0[e1]);
                                        assert(index[e1] == index0[e1]);
                                        assert(tids0[e1]@[k] < all.len());
                                    } else if k < index0[e1].1@.len() {
                                        assert(tids[e1]@[k] == tids0[e1]@[k]);
                                        assert(index[e1].1@[k] == index0[e1].1@[k]);
                                    }
                                }
                                assert forall|e1: int, k: int|
                                    0 <= e1 < index.len() && 0 <= k < index[e1].1@.len() implies all.contains(
                                    CnfRule::Terminal(#[trigger] index[e1].1@[k], index[e1].0),
                                ) by {
                                    if e1 == e {
                                        if k < index0[e1].1@.len() {
                                            assert(index[e1].1@[k] == index0[e1].1@[k]);
                                        }
                                    } else {
                                        assert(index[e1] == index0[e1]);
                                    }
                                }
                                assert forall|r: int| 0 <= r < i + 1 implies (
                                #[trigger] all[r] matches CnfRule::Terminal(v, t) ==> indexed(
                                    index,
                                    v,
                                    t,
                                )) by {
                                    if let CnfRule::Terminal(v, t) = all[r] {
                                        if r < i {
                                            let (e1, k) = choose|e1: int, k: int|
                                                0 <= e1 < index0.len() && 0 <= k
                                                    < index0[e1].1@.len() && index0[e1].0 == t
                                                    && #[trigger] index0[e1].1@[k] == v;
                                            if e1 != e {
                                                assert(index[e1] == index0[e1]);
                                            }
                                            assert(index[e1].1@[k] == v);
                                        } else {
                                            assert(index[e as int].1@[index0[e as int].1@.len() as int]
                                                == v);
                                        }
                                    }
                                }
                                assert forall|e1: int, e2: int|
                                    0 <= e1 < index.len() && 0 <= e2 < index.len() && e1
                                        != e2 implies (#[trigger] index[e1]).0 != (
                                #[trigger] index[e2]).0 by {
                                    assert(index[e1].0 == index0[e1].0);
                                    assert(index[e2].0 == index0[e2].0);
                                }
                            }
                        },
                        None => {
                            let mut vars: Vec<Var> = Vec::new();
                            vars.push(*var);
                            terms_to_vars.push((term.duplicate(), vars));
                            let mut ids: Vec<usize> = Vec::new();
                            ids.push(i);
                            terminal_ids.push(ids);
                            proof {
                                let index = terms_to_vars@;
                                let tids = terminal_ids@;
                                if keys0.contains(*term) {
                                    let k = choose|k: int| 0 <= k < keys0.len() && keys0[k] == *term;
                                    assert(index0[k].0 == keys0[k]);
                                }
                                lemma_key_absent(p0, *term);
                                assert(terminal_keys(p1) == keys0.push(*term));
                                assert(vars_of_key(p1, *term) =~= seq![*var]);
                                assert(ids_of_key(p1, *term) =~= seq![i]);
                                assert forall|e1: int| 0 <= e1 < index.len() implies (
                                #[trigger] index[e1]).0 == terminal_keys(p1)[e1] && index[e1].1@
                                    == vars_of_key(p1, index[e1].0) && tids[e1]@ == ids_of_key(
                                    p1,
                                    index[e1].0,
                                ) by {
                                    if e1 < index0.len() {
                                        assert(index[e1] == index0[e1]);
                                        assert(tids[e1] == tids0[e1]);
                                        assert(index0[e1].0 == keys0[e1]);
                                    } else {
                                        assert(index[e1].1@ =~= seq![*var]);
                                        assert(tids[e1]@ =~= seq![i]);
                                    }
                                }
                                assert forall|e1: int|
                                    0 <= e1 < index.len() implies (#[trigger] tids[e1])@.len()
                                    == index[e1].1@.len() by {
                                    if e1 < index0.len() {
                                        assert(tids[e1] == tids0[e1]);
                                        assert(index[e1] == index0[e1]);
                                    }
                                }
                                assert forall|e1: int, k: int|
                                    0 <= e1 < index.len() && 0 <= k < index[e1].1@.len() implies (
                                #[trigger] tids[e1]@[k]) < all.len() && all[tids[e1]@[k] as int]
                                    == CnfRule::Terminal(index[e1].1@[k], index[e1].0) by {
                                    if e1 < index0.len() {
                                        assert(tids[e1] == tids0[e1]);
                                        assert(index[e1] == index0[e1]);
                                        assert(tids0[e1]@[k] < all.len());
                                    }
                                }
                                assert forall|r: int| 0 <= r < i + 1 implies (
                                #[trigger] all[r] matches CnfRule::Terminal(v, t) ==> indexed(
                                    index,
                                    v,
                                    t,
                                )) by {
                                    if let CnfRule::Terminal(v, t) = all[r] {
                                        if r < i {
                                            let (e1, k) = choose|e1: int, k: int|
                                                0 <= e1 < index0.len() && 0 <= k
                                                    < index0[e1].1@.len() && index0[e1].0 == t
                                                    && #[trigger] index0[e1].1@[k] == v;
                                            assert(index[e1] == index0[e1]);
                                            assert(index[e1].1@[k] == v);
                                        } else {
                                            assert(index[index0.len() as int].1@[0] == v);
                                        }
                                    }
                                }
                            }
                        },
                    }
                },
                CnfRule::Binary(first, second, third) => {
                    binary_rules.push(CnfRule::Binary(*first, *second, *third));
                    binary_ids.push(i);
                    proof {
                        assert(terminal_keys(p1) == keys0);
                        assert forall|e1: int| 0 <= e1 < terms_to_vars@.len() implies (
                        #[trigger] terms_to_vars@[e1]).0 == terminal_keys(p1)[e1]
                            && terms_to_vars@[e1].1@ == vars_of_key(p1, terms_to_vars@[e1].0)
                            && terminal_ids@[e1]@ == ids_of_key(p1, terms_to_vars@[e1].0) by {}
                        assert forall|j: int| 0 <= j < binary_rules@.len() implies (
                        #[trigger] binary_ids@[j]) < all.len() && all[binary_ids@[j] as int]
                            == binary_rules@[j] by {
                            if j < binary0.len() {
                                assert(binary_ids@[j] == bids0[j]);
                                assert(binary_rules@[j] == binary0[j]);
                            }
                        }
                        assert forall|r: int|
                            0 <= r < i + 1 && (#[trigger] all[r]) is Binary implies binary_rules@.contains(
                            all[r],
                        ) by {
                            if r < i {
                                let j = choose|j: int| 0 <= j < binary0.len() && binary0[j] == all[r];
                                assert(binary_rules@[j] == all[r]);
                            } else {
                                assert(binary_rules@[binary0.len() as int] == all[r]);
                            }
                        }
                    }
                },
            }
            i += 1;
        }
        proof {
            assert(all.take(i as int) == all);
        }
        Self {
            start: vars_map[start.0],
            origin: start,
            nullable,
            terms_to_vars,
            terminal_ids,
            binary_rules,
            binary_ids,
            rules,
        }
    }

    /// The parser for the variable `start` of `cfg`, over the Chomsky normal
    /// form of `cfg`.
    pub fn of(cfg: Cfg<T>, start: Var) -> (parser: Self)
        requires
            cfg.wf(),
            start.0 < cfg.var_names@.len(),
        ensures
            parser.wf(),
            forall|w: Seq<T>| #[trigger] parser.accepts(w) <==> derives(cfg.productions(), start.0 as int, w),
            exists|cnf: Cnf<T>|
                cnf.made_of(cfg.productions(), cfg.var_names@.len() as int) && #[trigger] parser.built_of(
                    cnf,
                    start,
                ),
            parser.nullable@.len() == cfg.var_names@.len()
                + crate::cnf::eliminate_nonsolitary_terminals::scan_rules(cfg.productions()).len()
                + crate::cnf::eliminate_long_rules::extra(cfg.productions()),
    {
        let ghost g = cfg.productions();
        let cnf = Cnf::of(cfg);
        let ghost table = cnf;
        let parser = Self::of_cnf(cnf, start);
        proof {
            assert(parser.built_of(table, start));
            assert forall|w: Seq<T>| #[trigger] parser.accepts(w) <==> derives(
                g,
                start.0 as int,
                w,
            ) by {
                if w.len() == 0 {
                    assert(w =~= Seq::<T>::empty());
                } else {
                    assert(derives(table.productions(), table.vars_map@[start.0 as int].0 as int, w)
                        <==> w.len() > 0 && derives(g, start.0 as int, w));
                }
            }
        }
        parser
    }

    /// Whether `rule` is a binary rule whose first variable derives the
    /// part of `word` from `i` to `k`, and whose second variable derives
    /// the part from `k + 1` to `j`.
    pub open spec fn joins(&self, word: Seq<T>, rule: CnfRule<T>, i: int, k: int, j: int) -> bool {
        rule matches CnfRule::Binary(_, a, b) && self.cell(word, i, k, a.0 as int) && self.cell(
            word,
            k + 1,
            j,
            b.0 as int,
        )
    }

    /// Whether `dp` is a table for a word of `n` terminals.
    pub open spec fn table_ok(&self, dp: &Flat3dVec<bool>, n: int) -> bool {
        &&& dp.wf()
        &&& dp.m == n
        &&& dp.n == n
        &&& dp.k == self.nullable@.len()
    }

    /// Whether `dp` is right about the parts of `word` that are shorter
    /// than `len`, and about those of length `len` that begin before `i`,
    /// and has nothing yet about the others.
    pub open spec fn filled_upto(&self, dp: &Flat3dVec<bool>, word: Seq<T>, len: int, i: int) -> bool {
        forall|a: int, b: int, v: int|
            0 <= a < word.len() && 0 <= b < word.len() && 0 <= v < self.nullable@.len()
                ==> #[trigger] dp.at(a, b, v) == (a <= b && (b - a + 1 < len || (b - a + 1 == len
                && a < i)) && self.cell(word, a, b, v))
    }

    /// Marks, for each position of the word, the variables that derive the
    /// terminal there.
    fn seed(&self, dp: &mut Flat3dVec<bool>, input: &Vec<T>)
        requires
            self.wf(),
            self.table_ok(old(dp), input@.len() as int),
            forall|a: int, b: int, v: int|
                0 <= a < input@.len() && 0 <= b < input@.len() && 0 <= v < self.nullable@.len()
                    ==> !#[trigger] old(dp).at(a, b, v),
        ensures
            self.table_ok(final(dp), input@.len() as int),
            self.filled_upto(final(dp), input@, 2, 0),
    {
        let ghost w = input@;
        let n = input.len();
        let ghost m = self.nullable@.len() as int;
        let mut i: usize = 0;
        while i < n
            invariant
                i <= n,
                n == w.len(),
                w == input@,
                m == self.nullable@.len(),
                self.wf(),
                self.table_ok(dp, n as int),
                forall|a: int, b: int, v: int|
                    0 <= a < n && 0 <= b < n && 0 <= v < m ==> #[trigger] dp.at(a, b, v) == (a == b
                        && a < i && self.cell(w, a, b, v)),
            decreases n - i,
        {
            let term = &input[i];
            let ghost dp0 = *dp;
            proof {
                assert(w.subrange(i as int, i + 1) =~= seq![*term]);
            }
            match find_key(&self.terms_to_vars, term) {
                Some(e) => {
                    let mut k: usize = 0;
                    while k < self.terms_to_vars[e].1.len()
                        invariant
                            i < n,
                            n == w.len(),
                            w == input@,
                            m == self.nullable@.len(),
                            self.wf(),
                            self.table_ok(dp, n as int),
                            e < self.terms_to_vars@.len(),
                            self.terms_to_vars@[e as int].0 == *term,
                            w.subrange(i as int, i + 1) == seq![*term],
                            k <= self.terms_to_vars@[e as int].1@.len(),
                            forall|a: int, b: int, v: int|
                                0 <= a < n && 0 <= b < n && 0 <= v < m && !(a == i && b == i)
                                    ==> #[trigger] dp.at(a, b, v) == dp0.at(a, b, v),
                            forall|v: int|
                                0 <= v < m && #[trigger] dp.at(i as int, i as int, v) ==> self.cell(
                                    w,
                                    i as int,
                                    i as int,
                                    v,
                                ),
                            forall|j: int|
                                0 <= j < k ==> dp.at(
                                    i as int,
                                    i as int,
                                    (#[trigger] self.terms_to_vars@[e as int].1@[j]).0 as int,
                                ),
                        decreases self.terms_to_vars@[e as int].1@.len() - k,
                    {
                        let var = self.terms_to_vars[e].1[k];
                        let ghost dp1 = *dp;
                        proof {
                            let rule = CnfRule::Terminal(var, *term);
                            assert(self.rules@.contains(
                                CnfRule::Terminal(
                                    self.terms_to_vars@[e as int].1@[k as int],
                                    self.terms_to_vars@[e as int].0,
                                ),
                            ));
                            let q = choose|q: int| 0 <= q < self.rules@.len() && self.rules@[q] == rule;
                            assert(self.rules@[q].in_range(m));
                            lemma_cnf_leaf(self.rules@, var, *term);
                        }
                        dp.set(i, i, var.0, true);
                        proof {
                            assert forall|a: int, b: int, v: int|
                                0 <= a < n && 0 <= b < n && 0 <= v < m && !(a == i && b
                                    == i) implies #[trigger] dp.at(a, b, v) == dp0.at(a, b, v) by {
                                assert(dp1.at(a, b, v) == dp0.at(a, b, v));
                            }
                            assert forall|v: int|
                                0 <= v < m && #[trigger] dp.at(
                                    i as int,
                                    i as int,
                                    v,
                                ) implies self.cell(w, i as int, i as int, v) by {
                                if v != var.0 {
                                    assert(dp1.at(i as int, i as int, v));
                                }
                            }
                            assert forall|j: int| 0 <= j < k + 1 implies dp.at(
                                i as int,
                                i as int,
                                (#[trigger] self.terms_to_vars@[e as int].1@[j]).0 as int,
                            ) by {
                                let u = self.terms_to_vars@[e as int].1@[j];
                                assert(self.rules@.contains(
                                    CnfRule::Terminal(
                                        self.terms_to_vars@[e as int].1@[j],
                                        self.terms_to_vars@[e as int].0,
                                    ),
                                ));
                                let q = choose|q: int|
                                    0 <= q < self.rules@.len() && self.rules@[q]
                                        == CnfRule::Terminal(u, *term);
                                assert(self.rules@[q].in_range(m));
                                if j < k && u.0 != var.0 {
                                    assert(dp1.at(i as int, i as int, u.0 as int));
                                }
                            }
                        }
                        k += 1;
                    }
                    proof {
                        assert forall|v: int| 0 <= v < m && self.cell(
                            w,
                            i as int,
                            i as int,
                            v,
                        ) implies #[trigger] dp.at(i as int, i as int, v) by {
                            let var = Var(v as usize);
                            lemma_cnf_leaf(self.rules@, var, *term);
                            let q = choose|q: int|
                                0 <= q < self.rules@.len() && self.rules@[q] == CnfRule::Terminal(
                                    var,
                                    *term,
                                );
                            assert(indexed(self.terms_to_vars@, var, *term));
                            let (e1, k1) = choose|e1: int, k1: int|
                                0 <= e1 < self.terms_to_vars@.len() && 0 <= k1
                                    < self.terms_to_vars@[e1].1@.len() && self.terms_to_vars@[e1].0
                                    == *term && #[trigger] self.terms_to_vars@[e1].1@[k1] == var;
                            assert(e1 == e);
                            assert(dp.at(
                                i as int,
                                i as int,
                                self.terms_to_vars@[e as int].1@[k1].0 as int,
                            ));
                        }
                    }
                },
                None => {
                    proof {
                        assert forall|v: int| 0 <= v < m implies !self.cell(
                            w,
                            i as int,
                            i as int,
                            v,
                        ) by {
                            let var = Var(v as usize);
                            lemma_cnf_leaf(self.rules@, var, *term);
                            if self.rules@.contains(CnfRule::Terminal(var, *term)) {
                                let q = choose|q: int|
                                    0 <= q < self.rules@.len() && self.rules@[q]
                                        == CnfRule::Terminal(var, *term);
                                assert(indexed(self.terms_to_vars@, var, *term));
                            }
                        }
                    }
                },
            }
            proof {
                assert forall|a: int, b: int, v: int|
                    0 <= a < n && 0 <= b < n && 0 <= v < m implies #[trigger] dp.at(a, b, v) == (a
                    == b && a < i + 1 && self.cell(w, a, b, v)) by {
                    if !(a == i && b == i) {
                        assert(dp.at(a, b, v) == dp0.at(a, b, v));
                    }
                }
            }
            i += 1;
        }
    }

    /// Marks the variables that derive the part of the word from `i` to
    /// `j`, which holds more than one terminal.
    fn fill_cell(&self, dp: &mut Flat3dVec<bool>, input: &Vec<T>, i: usize, j: usize)
        requires
            self.wf(),
            i < j < input@.len(),
            self.table_ok(old(dp), input@.len() as int),
            self.filled_upto(old(dp), input@, j - i + 1, i as int),
        ensures
            self.table_ok(final(dp), input@.len() as int),
            self.filled_upto(final(dp), input@, j - i + 1, i + 1),
    {
        let ghost w = input@;
        let ghost n = w.len() as int;
        let ghost m = self.nullable@.len() as int;
        let ghost dp0 = *dp;
        let ghost len = j - i + 1;
        let mut r: usize = 0;
        while r < self.binary_rules.len()
            invariant
                r <= self.binary_rules@.len(),
                self.wf(),
                w == input@,
                n == w.len(),
                m == self.nullable@.len(),
                len == j - i + 1,
                i < j < n,
                self.table_ok(dp, n),
                self.filled_upto(&dp0, w, len, i as int),
                forall|a: int, b: int, v: int|
                    0 <= a < n && 0 <= b < n && 0 <= v < m && !(a == i && b == j)
                        ==> #[trigger] dp.at(a, b, v) == dp0.at(a, b, v),
                forall|v: int|
                    0 <= v < m && #[trigger] dp.at(i as int, j as int, v) ==> self.cell(
                        w,
                        i as int,
                        j as int,
                        v,
                    ),
                forall|q: int, k: int|
                    0 <= q < r && i <= k < j && #[trigger] self.joins(
                        w,
                        self.binary_rules@[q],
                        i as int,
                        k,
                        j as int,
                    ) ==> dp.at(i as int, j as int, self.binary_rules@[q].head()),
            decreases self.binary_rules@.len() - r,
        {
            proof {
                assert(self.rules@.contains(self.binary_rules@[r as int]));
                let q = choose|q: int|
                    0 <= q < self.rules@.len() && self.rules@[q] == self.binary_rules@[r as int];
                assert(self.rules@[q].in_range(m));
            }
            match &self.binary_rules[r] {
                CnfRule::Binary(first, second, third) => {
                    let mut k: usize = i;
                    while k < j
                        invariant
                            i <= k <= j,
                            r < self.binary_rules@.len(),
                            self.binary_rules@[r as int] == CnfRule::<T>::Binary(
                                *first,
                                *second,
                                *third,
                            ),
                            self.rules@.contains(self.binary_rules@[r as int]),
                            first.0 < m,
                            second.0 < m,
                            third.0 < m,
                            self.wf(),
                            w == input@,
                            n == w.len(),
                            m == self.nullable@.len(),
                            len == j - i + 1,
                            i < j < n,
                            self.table_ok(dp, n),
                            self.filled_upto(&dp0, w, len, i as int),
                            forall|a: int, b: int, v: int|
                                0 <= a < n && 0 <= b < n && 0 <= v < m && !(a == i && b == j)
                                    ==> #[trigger] dp.at(a, b, v) == dp0.at(a, b, v),
                            forall|v: int|
                                0 <= v < m && #[trigger] dp.at(i as int, j as int, v) ==> self.cell(
                                    w,
                                    i as int,
                                    j as int,
                                    v,
                                ),
                            forall|q: int, k2: int|
                                0 <= q < r && i <= k2 < j && #[trigger] self.joins(
                                    w,
                                    self.binary_rules@[q],
                                    i as int,
                                    k2,
                                    j as int,
                                ) ==> dp.at(i as int, j as int, self.binary_rules@[q].head()),
                            forall|k2: int|
                                i <= k2 < k && #[trigger] self.joins(
                                    w,
                                    self.binary_rules@[r as int],
                                    i as int,
                                    k2,
                                    j as int,
                                ) ==> dp.at(i as int, j as int, first.0 as int),
                        decreases j - k,
                    {
                        let ghost dp1 = *dp;
                        let left = dp.get(i, k, second.0);
                        let right = dp.get(k + 1, j, third.0);
                        proof {
                            assert(dp.at(i as int, k as int, second.0 as int) == dp0.at(
                                i as int,
                                k as int,
                                second.0 as int,
                            ));
                            assert(dp.at(k + 1, j as int, third.0 as int) == dp0.at(
                                k + 1,
                                j as int,
                                third.0 as int,
                            ));
                            assert(left == self.cell(w, i as int, k as int, second.0 as int));
                            assert(right == self.cell(w, k + 1, j as int, third.0 as int));
                        }
                        if left && right {
                            proof {
                                lemma_cnf_join(
                                    self.rules@,
                                    *first,
                                    *second,
                                    *third,
                                    w.subrange(i as int, k + 1),
                                    w.subrange(k + 1, j + 1),
                                );
                                assert(w.subrange(i as int, k + 1) + w.subrange(k + 1, j + 1)
                                    =~= w.subrange(i as int, j + 1));
                            }
                            dp.set(i, j, first.0, true);
                            proof {
                                assert forall|a: int, b: int, v: int|
                                    0 <= a < n && 0 <= b < n && 0 <= v < m && !(a == i && b
                                        == j) implies #[trigger] dp.at(a, b, v) == dp0.at(
                                    a,
                                    b,
                                    v,
                                ) by {
                                    assert(dp1.at(a, b, v) == dp0.at(a, b, v));
                                }
                                assert forall|v: int|
                                    0 <= v < m && #[trigger] dp.at(
                                        i as int,
                                        j as int,
                                        v,
                                    ) implies self.cell(w, i as int, j as int, v) by {
                                    if v != first.0 {
                                        assert(dp1.at(i as int, j as int, v));
                                    }
                                }
                                assert forall|q: int, k2: int|
                                    0 <= q < r && i <= k2 < j && #[trigger] self.joins(
                                        w,
                                        self.binary_rules@[q],
                                        i as int,
                                        k2,
                                        j as int,
                                    ) implies dp.at(
                                    i as int,
                                    j as int,
                                    self.binary_rules@[q].head(),
                                ) by {
                                    assert(dp1.at(i as int, j as int, self.binary_rules@[q].head()));
                                    assert(self.rules@.contains(self.binary_rules@[q]));
                                    let z = choose|z: int|
                                        0 <= z < self.rules@.len() && self.rules@[z]
                                            == self.binary_rules@[q];
                                    assert(self.rules@[z].in_range(m));
                                }
                            }
                        }
                        k += 1;
                    }
                },
                CnfRule::Terminal(_, _) => {},
            }
            r += 1;
        }
        proof {
            assert forall|a: int, b: int, v: int|
                0 <= a < n && 0 <= b < n && 0 <= v < m implies #[trigger] dp.at(a, b, v) == (a <= b
                && (b - a + 1 < len || (b - a + 1 == len && a < i + 1)) && self.cell(
                w,
                a,
                b,
                v,
            )) by {
                if a == i && b == j {
                    if self.cell(w, a, b, v) {
                        let part = w.subrange(i as int, j + 1);
                        let (h, x, y, k0) = lemma_cnf_split(self.rules@, v, part);
                        let rule = CnfRule::<T>::Binary(h, x, y);
                        let z = choose|z: int| 0 <= z < self.rules@.len() && self.rules@[z] == rule;
                        assert(self.rules@[z] is Binary);
                        assert(self.binary_rules@.contains(self.rules@[z]));
                        let q = choose|q: int|
                            0 <= q < self.binary_rules@.len() && self.binary_rules@[q] == rule;
                        let k2 = i + k0 - 1;
                        assert(part.subrange(0, k0) =~= w.subrange(i as int, k2 + 1));
                        assert(part.subrange(k0, part.len() as int) =~= w.subrange(k2 + 1, j + 1));
                        assert(self.cell(w, i as int, k2, x.0 as int));
                        assert(self.cell(w, k2 + 1, j as int, y.0 as int));
                        assert(self.joins(w, self.binary_rules@[q], i as int, k2, j as int));
                    }
                } else {
                    assert(dp.at(a, b, v) == dp0.at(a, b, v));
                }
            }
        }
    }

    /// The table for `input`, which is not empty: it says of each part of
    /// the word and each variable whether the variable derives the part.
    fn fill(&self, input: &Vec<T>) -> (dp: Flat3dVec<bool>)
        requires
            self.wf(),
            input@.len() > 0,
            input@.len() * input@.len() * self.nullable@.len() <= usize::MAX,
        ensures
            self.table_ok(&dp, input@.len() as int),
            self.filled_upto(&dp, input@, input@.len() as int + 1, 0),
    {
        let ghost w = input@;
        let n = input.len();
        let m = self.nullable.len();
        let mut dp = Flat3dVec::filled_with(n, n, m, false);
        proof {
            assert forall|a: int, b: int, v: int|
                0 <= a < n && 0 <= b < n && 0 <= v < m implies !#[trigger] dp.at(a, b, v) by {
                crate::parsing::table::lemma_flat_index(n as int, n as int, m as int, a, b, v);
            }
        }
        self.seed(&mut dp, input);
        proof {
            if n >= 2 {
                assert(n < n * n * m) by (nonlinear_arith)
                    requires
                        n >= 2,
                        m >= 1,
                ;
            }
        }
        let mut len: usize = 2;
        while len <= n
            invariant
                2 <= len <= n + 1,
                n < usize::MAX,
                n == w.len(),
                w == input@,
                n > 0,
                m == self.nullable@.len(),
                self.wf(),
                self.table_ok(&dp, n as int),
                self.filled_upto(&dp, w, len as int, 0),
            decreases n + 1 - len,
        {
            let mut i: usize = 0;
            while i <= n - len
                invariant
                    2 <= len <= n,
                    i <= n - len + 1,
                    n == w.len(),
                    w == input@,
                    m == self.nullable@.len(),
                    self.wf(),
                    self.table_ok(&dp, n as int),
                    self.filled_upto(&dp, w, len as int, i as int),
                decreases n - len + 1 - i,
            {
                let j = i + len - 1;
                self.fill_cell(&mut dp, input, i, j);
                i += 1;
            }
            proof {
                assert forall|a: int, b: int, v: int|
                    0 <= a < w.len() && 0 <= b < w.len() && 0 <= v < m implies #[trigger] dp.at(
                    a,
                    b,
                    v,
                ) == (a <= b && (b - a + 1 < len + 1 || (b - a + 1 == len + 1 && a < 0))
                    && self.cell(w, a, b, v)) by {}
            }
            len += 1;
        }
        dp
    }

    /// Whether rule `r` of the binary rules and the place `k` are the first
    /// with which the variable `v` derives the part of `word` from `i` to
    /// `j`: the first rule, and for it the first place.
    pub open spec fn first_split(&self, word: Seq<T>, i: int, j: int, v: int, r: int, k: int) -> bool {
        &&& 0 <= r < self.binary_rules@.len()
        &&& i <= k < j
        &&& self.binary_rules@[r].head() == v
        &&& self.joins(word, self.binary_rules@[r], i, k, j)
        &&& forall|q: int, k2: int|
            0 <= q < r && i <= k2 < j && #[trigger] self.joins(word, self.binary_rules@[q], i, k2, j)
                ==> self.binary_rules@[q].head() != v
        &&& forall|k2: int| i <= k2 < k ==> !#[trigger] self.joins(word, self.binary_rules@[r], i, k2, j)
    }

    /// The derivation that the parser returns for the part of `word` from
    /// `i` to `j` and the variable `v`: for one terminal the rule of `v`
    /// that stands first for the terminal, else the first binary rule and
    /// the first place to cut, over the derivations of the two parts.
    pub open spec fn cyk_tree(&self, word: Seq<T>, i: int, j: int, v: int) -> Tree<T>
        decreases j - i,
    {
        if i >= j {
            let e = choose|e: int|
                0 <= e < self.terms_to_vars@.len() && (#[trigger] self.terms_to_vars@[e]).0 == word[i];
            let k = choose|k: int| first_slot(self.terms_to_vars@[e].1@, v, k);
            Tree::Node(self.terminal_ids@[e]@[k] as int, seq![Tree::Leaf(word[i])])
        } else {
            let (r, k) = choose|r: int, k: int| self.first_split(word, i, j, v, r, k);
            if i <= k < j {
                match self.binary_rules@[r] {
                    CnfRule::Binary(_, a, b) => Tree::Node(
                        self.binary_ids@[r] as int,
                        seq![
                            self.cyk_tree(word, i, k, a.0 as int),
                            self.cyk_tree(word, k + 1, j, b.0 as int),
                        ],
                    ),
                    CnfRule::Terminal(_, _) => arbitrary(),
                }
            } else {
                arbitrary()
            }
        }
    }

    /// A binary rule with the head `v`, and a place to cut the part of the
    /// word from `i` to `j` in two, such that the two variables of the rule
    /// derive the two parts: the first rule, and for it the first place.
    fn find_split(&self, dp: &Flat3dVec<bool>, input: &Vec<T>, i: usize, j: usize, v: usize) -> (at: (
        usize,
        usize,
    ))
        requires
            self.wf(),
            i < j < input@.len(),
            v < self.nullable@.len(),
            self.table_ok(dp, input@.len() as int),
            self.filled_upto(dp, input@, input@.len() as int + 1, 0),
            self.cell(input@, i as int, j as int, v as int),
        ensures
            at.0 < self.binary_rules@.len(),
            i <= at.1 < j,
            self.binary_rules@[at.0 as int].head() == v,
            self.joins(input@, self.binary_rules@[at.0 as int], i as int, at.1 as int, j as int),
            self.first_split(input@, i as int, j as int, v as int, at.0 as int, at.1 as int),
    {
        let ghost w = input@;
        let ghost n = w.len() as int;
        let ghost m = self.nullable@.len() as int;
        let mut r: usize = 0;
        while r < self.binary_rules.len()
            invariant
                r <= self.binary_rules@.len(),
                self.wf(),
                w == input@,
                n == w.len(),
                m == self.nullable@.len(),
                i < j < n,
                v < m,
                self.table_ok(dp, n),
                self.filled_upto(dp, w, n + 1, 0),
                forall|q: int, k: int|
                    0 <= q < r && i <= k < j && #[trigger] self.joins(
                        w,
                        self.binary_rules@[q],
                        i as int,
                        k,
                        j as int,
                    ) ==> self.binary_rules@[q].head() != v,
            decreases self.binary_rules@.len() - r,
        {
            proof {
                assert(self.rules@.contains(self.binary_rules@[r as int]));
                let q = choose|q: int|
                    0 <= q < self.rules@.len() && self.rules@[q] == self.binary_rules@[r as int];
                assert(self.rules@[q].in_range(m));
            }
            match &self.binary_rules[r] {
                CnfRule::Binary(first, second, third) => {
                    if first.0 == v {
                        let mut k: usize = i;
                        while k < j
                            invariant
                                i <= k <= j,
                                r < self.binary_rules@.len(),
                                self.binary_rules@[r as int] == CnfRule::<T>::Binary(
                                    *first,
                                    *second,
                                    *third,
                                ),
                                first.0 == v,
                                second.0 < m,
                                third.0 < m,
                                w == input@,
                                n == w.len(),
                                m == self.nullable@.len(),
                                i < j < n,
                                self.table_ok(dp, n),
                                self.filled_upto(dp, w, n + 1, 0),
                                forall|q: int, k2: int|
                                    0 <= q < r && i <= k2 < j && #[trigger] self.joins(
                                        w,
                                        self.binary_rules@[q],
                                        i as int,
                                        k2,
                                        j as int,
                                    ) ==> self.binary_rules@[q].head() != v,
                                forall|k2: int|
                                    i <= k2 < k ==> !#[trigger] self.joins(
                                        w,
                                        self.binary_rules@[r as int],
                                        i as int,
                                        k2,
                                        j as int,
                                    ),
                            decreases j - k,
                        {
                            let left = dp.get(i, k, second.0);
                            let right = dp.get(k + 1, j, third.0);
                            proof {
                                assert(left == self.cell(w, i as int, k as int, second.0 as int));
                                assert(right == self.cell(w, k + 1, j as int, third.0 as int));
                            }
                            if left && right {
                                proof {
                                    assert(self.joins(
                                        w,
                                        self.binary_rules@[r as int],
                                        i as int,
                                        k as int,
                                        j as int,
                                    ));
                                }
                                return (r, k);
                            }
                            k += 1;
                        }
                    }
                },
                CnfRule::Terminal(_, _) => {},
            }
            r += 1;
        }
        proof {
            let part = w.subrange(i as int, j + 1);
            let (h, x, y, k0) = lemma_cnf_split(self.rules@, v as int, part);
            let rule = CnfRule::<T>::Binary(h, x, y);
            let z = choose|z: int| 0 <= z < self.rules@.len() && self.rules@[z] == rule;
            assert(self.rules@[z] is Binary);
            assert(self.binary_rules@.contains(self.rules@[z]));
            let q = choose|q: int| 0 <= q < self.binary_rules@.len() && self.binary_rules@[q] == rule;
            let k2 = i + k0 - 1;
            assert(part.subrange(0, k0) =~= w.subrange(i as int, k2 + 1));
            assert(part.subrange(k0, part.len() as int) =~= w.subrange(k2 + 1, j + 1));
            assert(self.joins(w, self.binary_rules@[q], i as int, k2, j as int));
        }
        vstd::pervasive::unreached()
    }

    /// A derivation of the part of the word from `i` to `j` from the
    /// variable `v`, which derives it.
    fn build(&self, dp: &Flat3dVec<bool>, input: &Vec<T>, i: usize, j: usize, v: usize) -> (tree:
        ParseTree<T>)
        requires
            self.wf(),
            i <= j < input@.len(),
            v < self.nullable@.len(),
            self.table_ok(dp, input@.len() as int),
            self.filled_upto(dp, input@, input@.len() as int + 1, 0),
            self.cell(input@, i as int, j as int, v as int),
        ensures
            derivation_of(self.grammar(), tree.tree(), v as int, input@.subrange(i as int, j + 1)),
            tree.root.0 == v,
            tree.labelled(self.grammar()),
            tree.tree() == self.cyk_tree(input@, i as int, j as int, v as int),
        decreases j - i,
    {
        let ghost w = input@;
        let ghost g = self.grammar();
        let ghost m = self.nullable@.len() as int;
        if i == j {
            let term = &input[i];
            proof {
                assert(w.subrange(i as int, i + 1) =~= seq![*term]);
                lemma_cnf_leaf(self.rules@, Var(v), *term);
                let q = choose|q: int|
                    0 <= q < self.rules@.len() && self.rules@[q] == CnfRule::Terminal(Var(v), *term);
                assert(indexed(self.terms_to_vars@, Var(v), *term));
            }
            match find_key(&self.terms_to_vars, term) {
                Some(e) => {
                    let vars = &self.terms_to_vars[e].1;
                    let mut k: usize = 0;
                    while k < vars.len()
                        invariant
                            k <= vars@.len(),
                            self.wf(),
                            g == self.grammar(),
                            w == input@,
                            i == j,
                            i < w.len(),
                            *term == w[i as int],
                            w.subrange(i as int, i + 1) == seq![*term],
                            e < self.terms_to_vars@.len(),
                            self.terms_to_vars@[e as int].0 == *term,
                            vars@ == self.terms_to_vars@[e as int].1@,
                            forall|k2: int| 0 <= k2 < k ==> (#[trigger] vars@[k2]).0 != v,
                        decreases vars@.len() - k,
                    {
                        if vars[k].0 == v {
                            let rule_idx = self.terminal_ids[e][k];
                            let mut children: Vec<ParsedSymbol<T>> = Vec::new();
                            children.push(ParsedSymbol::Term(term.duplicate()));
                            let tree = ParseTree { root: Var(v), rule_idx, children };
                            proof {
                                let leaf = Tree::Leaf(*term);
                                assert(tree.tree()->Node_1 =~= seq![leaf]);
                                assert(self.rules@[rule_idx as int] == CnfRule::Terminal(
                                    vars@[k as int],
                                    *term,
                                ));
                                assert(g[rule_idx as int] == self.rules@[rule_idx as int].production());
                                assert(g[rule_idx as int].body =~= seq![Symbol::Term(*term)]);
                                assert forall|x: int| 0 <= x < seq![leaf].len() implies tree_matches(
                                    g,
                                    #[trigger] seq![leaf][x],
                                    g[rule_idx as int].body[x],
                                ) && tree_ok(g, seq![leaf][x]) by {}
                                lemma_forest_fringe_one(leaf);
                                assert(first_slot(vars@, v as int, k as int));
                                let e2 = choose|e2: int|
                                    0 <= e2 < self.terms_to_vars@.len() && (
                                    #[trigger] self.terms_to_vars@[e2]).0 == w[i as int];
                                assert(self.terms_to_vars@[e as int].0 == w[i as int]);
                                assert(e2 == e);
                                let k2 = choose|k2: int| first_slot(vars@, v as int, k2);
                                if k2 < k {
                                    assert(vars@[k2].0 != v);
                                }
                                if k < k2 {
                                    assert(vars@[k as int].0 != v);
                                }
                                assert(tree.tree() == self.cyk_tree(w, i as int, j as int, v as int));
                            }
                            return tree;
                        }
                        k += 1;
                    }
                    proof {
                        let (e1, k1) = choose|e1: int, k1: int|
                            0 <= e1 < self.terms_to_vars@.len() && 0 <= k1
                                < self.terms_to_vars@[e1].1@.len() && self.terms_to_vars@[e1].0 == *term
                                && #[trigger] self.terms_to_vars@[e1].1@[k1] == Var(v);
                        assert(e1 == e);
                        assert(vars@[k1].0 == v);
                    }
                    vstd::pervasive::unreached()
                },
                None => {
                    proof {
                        let (e1, k1) = choose|e1: int, k1: int|
                            0 <= e1 < self.terms_to_vars@.len() && 0 <= k1
                                < self.terms_to_vars@[e1].1@.len() && self.terms_to_vars@[e1].0 == *term
                                && #[trigger] self.terms_to_vars@[e1].1@[k1] == Var(v);
                    }
                    vstd::pervasive::unreached()
                },
            }
        } else {
            let (r, k) = self.find_split(dp, input, i, j, v);
            proof {
                assert(self.rules@.contains(self.binary_rules@[r as int]));
                let q = choose|q: int|
                    0 <= q < self.rules@.len() && self.rules@[q] == self.binary_rules@[r as int];
                assert(self.rules@[q].in_range(m));
            }
            match &self.binary_rules[r] {
                CnfRule::Binary(_, second, third) => {
                    let left = self.build(dp, input, i, k, second.0);
                    let right = self.build(dp, input, k + 1, j, third.0);
                    let rule_idx = self.binary_ids[r];
                    let ghost t1 = left.tree();
                    let ghost t2 = right.tree();
                    let mut children: Vec<ParsedSymbol<T>> = Vec::new();
                    children.push(ParsedSymbol::Var(Box::new(left)));
                    children.push(ParsedSymbol::Var(Box::new(right)));
                    let tree = ParseTree { root: Var(v), rule_idx, children };
                    proof {
                        let kk = seq![t1, t2];
                        assert(tree.tree()->Node_1 =~= kk);
                        assert(self.rules@[rule_idx as int] == self.binary_rules@[r as int]);
                        assert(g[rule_idx as int] == self.rules@[rule_idx as int].production());
                        assert(g[rule_idx as int].body =~= seq![
                            Symbol::Var(*second),
                            Symbol::Var(*third),
                        ]);
                        assert forall|x: int| 0 <= x < kk.len() implies tree_matches(
                            g,
                            #[trigger] kk[x],
                            g[rule_idx as int].body[x],
                        ) && tree_ok(g, kk[x]) by {}
                        lemma_forest_fringe_two(t1, t2);
                        assert(w.subrange(i as int, k + 1) + w.subrange(k + 1, j + 1) =~= w.subrange(
                            i as int,
                            j + 1,
                        ));
                        let (r2, k2) = choose|r2: int, k2: int|
                            self.first_split(w, i as int, j as int, v as int, r2, k2);
                        assert(self.first_split(w, i as int, j as int, v as int, r as int, k as int));
                        if r2 < r {
                            assert(self.joins(w, self.binary_rules@[r2], i as int, k2, j as int));
                        }
                        if r < r2 {
                            assert(self.joins(w, self.binary_rules@[r as int], i as int, k as int, j as int));
                        }
                        if r2 == r && k2 < k {
                            assert(self.joins(w, self.binary_rules@[r as int], i as int, k2, j as int));
                        }
                        if r2 == r && k < k2 {
                            assert(self.joins(w, self.binary_rules@[r as int], i as int, k as int, j as int));
                        }
                        assert(r2 == r && k2 == k);
                        assert(tree.tree() == self.cyk_tree(w, i as int, j as int, v as int));
                    }
                    tree
                },
                CnfRule::Terminal(_, _) => vstd::pervasive::unreached(),
            }
        }
    }
}

impl<T: Term> CykParser<T> {
    /// Whether the table for a word of `len` terminals can be held.
    pub fn fits_len(&self, len: usize) -> (ok: bool)
        requires
            self.wf(),
        ensures
            ok == (len * len * self.nullable@.len() <= usize::MAX),
    {
        let m = self.nullable.len();
        match len.checked_mul(len) {
            Some(square) => square.checked_mul(m).is_some(),
            None => {
                proof {
                    assert(len * len <= len * len * m) by (nonlinear_arith)
                        requires
                            m >= 1,
                    ;
                }
                false
            },
        }
    }

    /// Whether `input` is in the language, if its table can be held; `None`
    /// if it cannot.
    pub fn test_if_fits(&self, input: Vec<T>) -> (found: Option<bool>)
        requires
            self.wf(),
        ensures
            found.is_some() == self.fits(input),
            found matches Some(b) ==> b == self.accepts(input@),
    {
        if self.fits_len(input.len()) {
            Some(self.test(input))
        } else {
            None
        }
    }

    /// A derivation of `input` in the normal form, if there is one and the
    /// table can be held.
    pub fn parse_if_fits(&self, input: Vec<T>) -> (tree: Option<ParseTree<T>>)
        requires
            self.wf(),
        ensures
            tree.is_some() == (self.fits(input) && input@.len() > 0 && self.accepts(input@)),
            tree matches Some(t) ==> self.shows(input, t.tree()) && t.root == self.start
                && t.labelled(self.grammar()) && t.tree() == self.cyk_tree(
                input@,
                0,
                input@.len() - 1,
                self.start.0 as int,
            ),
    {
        if self.fits_len(input.len()) {
            self.parse(input)
        } else {
            None
        }
    }
}

impl<T: Term> Parser<Vec<T>> for CykParser<T> {
    type TermType = T;

    open spec fn ready(&self) -> bool {
        self.wf()
    }

    /// The table has one entry for each pair of positions and each variable.
    open spec fn fits(&self, word: Vec<T>) -> bool {
        word@.len() * word@.len() * self.nullable@.len() <= usize::MAX
    }

    open spec fn in_language(&self, word: Vec<T>) -> bool {
        self.accepts(word@)
    }

    /// A derivation in the normal form, from the variable that stands for
    /// the start variable.
    open spec fn shows(&self, word: Vec<T>, tree: Tree<T>) -> bool {
        derivation_of(self.grammar(), tree, self.start.0 as int, word@)
    }

    open spec fn exact(&self) -> bool {
        true
    }

    /// The normal form has no derivation of the empty word.
    open spec fn treeless(&self, word: Vec<T>) -> bool {
        word@.len() == 0
    }

    proof fn shown_is_in_language(&self, word: Vec<T>, tree: Tree<T>) {
        let g = self.grammar();
        assert forall|r: int| 0 <= r < g.len() implies (#[trigger] g[r]).body.len() > 0 by {
            assert(g[r] == self.rules@[r].production());
        }
        lemma_fringe_nonempty(g, tree);
    }

    fn test(&self, input: Vec<T>) -> (found: bool)
        ensures
            found == self.accepts(input@),
    {
        if input.len() == 0 {
            return self.nullable[self.origin.0];
        }
        let n = input.len();
        let dp = self.fill(&input);
        proof {
            assert(input@.subrange(0, n as int) =~= input@);
        }
        dp.get(0, n - 1, self.start.0)
    }

    fn parse(&self, input: Vec<T>) -> (tree: Option<ParseTree<T>>)
        ensures
            tree.is_some() == (input@.len() > 0 && self.accepts(input@)),
            tree matches Some(t) ==> t.root == self.start && t.labelled(self.grammar()) && t.tree()
                == self.cyk_tree(input@, 0, input@.len() - 1, self.start.0 as int),
    {
        let ghost g = self.grammar();
        proof {
            assert forall|r: int| 0 <= r < g.len() implies (#[trigger] g[r]).body.len() > 0 by {
                assert(g[r] == self.rules@[r].production());
            }
        }
        if input.len() == 0 {
            return None;
        }
        let n = input.len();
        let dp = self.fill(&input);
        proof {
            assert(input@.subrange(0, n as int) =~= input@);
        }
        if dp.get(0, n - 1, self.start.0) {
            Some(self.build(&dp, &input, 0, n - 1, self.start.0))
        } else {
            None
        }
    }
}

} // verus!
