//! The third pass: rules with an empty body are taken out.

use vstd::prelude::*;
use crate::cnf::closure::{count_true, lemma_count_true_bounds, lemma_count_true_mark};
use crate::cnf::graph::adjacency;
use crate::cnf::nullable::{
    awaits, body_nullable, body_queued, covered, deps_ok, lemma_covered_mark, lemma_covered_pop,
    lemma_nullable_exact, lemma_nullable_rule, nullable_sound, sym_nullable,
};
use crate::cnf::weak_cnf::{weak_rule_in_range, WeakCnf, WeakCnfRule};
use crate::derivation::{derivation_of, derives, forest_fringe, Tree};
use crate::grammar::{productions, productions_in_range, Cfg, Production, Rule, Symbol, Var};
use crate::term::Term;
use std::collections::VecDeque;

verus! {

/// Whether every symbol of `body` is a variable that `nullable` marks.
fn is_body_nullable<T>(body: &Vec<Symbol<T>>, nullable: &Vec<bool>) -> (all: bool)
    requires
        forall|j: int|
            0 <= j < body@.len() ==> (#[trigger] body@[j] matches Symbol::Var(u) ==> u.0
                < nullable@.len()),
    ensures
        all == body_nullable(body@, nullable@),
{
    let mut is_body_nullable = true;
    let mut j: usize = 0;
    while j < body.len()
        invariant
            j <= body@.len(),
            forall|i: int|
                0 <= i < body@.len() ==> (#[trigger] body@[i] matches Symbol::Var(u) ==> u.0
                    < nullable@.len()),
            is_body_nullable == (forall|i: int|
                0 <= i < j ==> sym_nullable(#[trigger] body@[i], nullable@)),
        decreases body@.len() - j,
    {
        match &body[j] {
            Symbol::Var(var) => {
                is_body_nullable = is_body_nullable && nullable[var.0];
            },
            Symbol::Term(_) => {
                is_body_nullable = false;
            },
        }
        proof {
            if !is_body_nullable {
                if forall|i: int| 0 <= i < j + 1 ==> sym_nullable(#[trigger] body@[i], nullable@) {
                    assert(sym_nullable(body@[j as int], nullable@));
                    assert(forall|i: int| 0 <= i < j ==> sym_nullable(#[trigger] body@[i], nullable@));
                }
            }
        }
        j += 1;
    }
    is_body_nullable
}

/// For each variable of `cfg`, whether it derives the empty word.
///
/// The variables with an empty rule are marked first; a variable that has
/// been marked has the rules looked at again in whose body it stands.
pub fn get_nullable_nonterminals<T>(cfg: &Cfg<T>) -> (nullable: Vec<bool>)
    requires
        cfg.wf(),
    ensures
        nullable@.len() == cfg.var_names@.len(),
        forall|v: int|
            0 <= v < nullable@.len() ==> (#[trigger] nullable@[v] <==> derives(
                cfg.productions(),
                v,
                Seq::<T>::empty(),
            )),
{
    let ghost g = cfg.productions();
    let n = cfg.n_vars();
    let n_rules = cfg.rules.len();
    let mut nullable: Vec<bool> = Vec::new();
    let mut dependant_rules: Vec<Vec<usize>> = Vec::new();
    let mut v: usize = 0;
    while v < n
        invariant
            v <= n,
            nullable@.len() == v,
            dependant_rules@.len() == v,
            forall|u: int| 0 <= u < v ==> !nullable@[u],
            forall|u: int| 0 <= u < v ==> (#[trigger] dependant_rules@[u])@.len() == 0,
        decreases n - v,
    {
        nullable.push(false);
        dependant_rules.push(Vec::new());
        v += 1;
    }
    let mut queue = VecDeque::<Var>::new();
    let mut index: usize = 0;
    while index < n_rules
        invariant
            index <= n_rules,
            n_rules == cfg.rules@.len(),
            g == cfg.productions(),
            g.len() == n_rules,
            n == cfg.var_names@.len(),
            productions_in_range(g, n as int),
            nullable@.len() == n,
            dependant_rules@.len() == n,
            nullable_sound(g, nullable@),
            forall|u: int|
                0 <= u < n && #[trigger] nullable@[u] ==> queue@.contains(Var(u as usize)),
            forall|k: int| 0 <= k < queue@.len() ==> (#[trigger] queue@[k]).0 < n,
            forall|r: int|
                0 <= r < index && (#[trigger] g[r]).body.len() == 0 ==> nullable@[g[r].head],
            deps_ok(g, adjacency(dependant_rules), index as int),
        decreases n_rules - index,
    {
        let rule = &cfg.rules[index];
        let ghost queue0 = queue@;
        let ghost nullable0 = nullable@;
        proof {
            assert(g[index as int].head == rule.head.0);
            assert(g[index as int].body == rule.body@);
        }
        if rule.body.len() == 0 {
            nullable[rule.head.0] = true;
            queue.push_back(rule.head);
            proof {
                let t = Tree::<T>::Node(index as int, Seq::empty());
                assert(forest_fringe(Seq::<Tree<T>>::empty()) =~= Seq::<T>::empty());
                assert(derivation_of(g, t, rule.head.0 as int, Seq::<T>::empty()));
                assert forall|u: int| 0 <= u < n && #[trigger] nullable@[u] implies queue@.contains(
                    Var(u as usize),
                ) by {
                    if u == rule.head.0 {
                        assert(queue@[queue0.len() as int] == rule.head);
                    } else {
                        assert(nullable0[u]);
                        let i = choose|i: int| 0 <= i < queue0.len() && queue0[i] == Var(u as usize);
                        assert(queue@[i] == Var(u as usize));
                    }
                }
                assert forall|u: int| 0 <= u < n && #[trigger] nullable@[u] implies derives(
                    g,
                    u,
                    Seq::<T>::empty(),
                ) by {
                    if u != rule.head.0 {
                        assert(nullable0[u]);
                    }
                }
                assert forall|r: int| 0 <= r < index + 1 && (#[trigger] g[r]).body.len()
                    == 0 implies nullable@[g[r].head] by {
                    if r < index {
                        assert(nullable0[g[r].head]);
                    }
                }
            }
        } else {
            let mut j: usize = 0;
            while j < rule.body.len()
                invariant
                    j <= rule.body@.len(),
                    index < n_rules,
                    g.len() == n_rules,
                    g[index as int].body == rule.body@,
                    productions_in_range(g, n as int),
                    dependant_rules@.len() == n,
                    deps_ok(g, adjacency(dependant_rules), index as int),
                    forall|i: int|
                        0 <= i < j ==> (#[trigger] rule.body@[i] matches Symbol::Var(u) ==> adjacency(
                            dependant_rules,
                        )[u.0 as int].contains(index)),
                decreases rule.body@.len() - j,
            {
                let ghost deps0 = adjacency(dependant_rules);
                proof {
                    assert(g[index as int].body[j as int] == rule.body@[j as int]);
                }
                match &rule.body[j] {
                    Symbol::Var(var) => {
                        dependant_rules[var.0].push(index);
                    },
                    Symbol::Term(_) => {},
                }
                proof {
                    let deps = adjacency(dependant_rules);
                    assert forall|u: int, x: usize|
                        0 <= u < n && deps0[u].contains(x) implies #[trigger] deps[u].contains(
                        x,
                    ) by {
                        let i = choose|i: int| 0 <= i < deps0[u].len() && deps0[u][i] == x;
                        assert(deps[u][i] == x);
                    }
                    assert forall|u: int, k: int|
                        0 <= u < deps.len() && 0 <= k < deps[u].len() implies (
                    #[trigger] deps[u][k]) < g.len() by {
                        if k < deps0[u].len() {
                            assert(deps[u][k] == deps0[u][k]);
                        }
                    }
                    assert forall|r: int, i: int|
                        0 <= r < index && 0 <= i < g[r].body.len() implies (
                    #[trigger] g[r].body[i] matches Symbol::Var(u) ==> u.0 < deps.len()
                        && deps[u.0 as int].contains(r as usize)) by {
                        if let Symbol::Var(u) = g[r].body[i] {
                            assert(deps0[u.0 as int].contains(r as usize));
                        }
                    }
                    assert forall|i: int| 0 <= i < j + 1 implies (
                    #[trigger] rule.body@[i] matches Symbol::Var(u) ==> deps[u.0 as int].contains(
                        index,
                    )) by {
                        if let Symbol::Var(u) = rule.body@[i] {
                            assert(g[index as int].body[i] == rule.body@[i]);
                            if i < j {
                                assert(deps0[u.0 as int].contains(index));
                            } else {
                                assert(deps[u.0 as int][deps0[u.0 as int].len() as int] == index);
                            }
                        }
                    }
                }
                j += 1;
            }
        }
        index += 1;
    }
    proof {
        assert forall|r: int| 0 <= r < g.len() implies #[trigger] covered(
            g,
            nullable@,
            queue@,
            r,
        ) by {
            let body = g[r].body;
            if body.len() > 0 && body_nullable(body, nullable@) {
                assert(sym_nullable(body[0], nullable@));
                let u = body[0]->Var_0;
                assert(nullable@[u.0 as int]);
                assert(queue@.contains(Var(u.0 as int as usize)));
            }
        }
        lemma_count_true_bounds(nullable@);
    }
    while queue.len() > 0
        invariant
            n_rules == cfg.rules@.len(),
            g == cfg.productions(),
            g.len() == n_rules,
            n == cfg.var_names@.len(),
            productions_in_range(g, n as int),
            nullable@.len() == n,
            dependant_rules@.len() == n,
            nullable_sound(g, nullable@),
            forall|k: int| 0 <= k < queue@.len() ==> (#[trigger] queue@[k]).0 < n,
            forall|r: int| 0 <= r < g.len() ==> #[trigger] covered(g, nullable@, queue@, r),
            deps_ok(g, adjacency(dependant_rules), g.len() as int),
            0 <= count_true(nullable@) <= n,
        decreases n - count_true(nullable@) + queue@.len(),
    {
        let ghost queue0 = queue@;
        let ghost measure0 = n - count_true(nullable@) + queue@.len();
        let front = queue.pop_front().unwrap();
        let ghost list = adjacency(dependant_rules)[front.0 as int];
        proof {
            assert(queue0[0] == front);
            assert forall|r: int| 0 <= r < g.len() implies #[trigger] covered(
                g,
                nullable@,
                queue@,
                r,
            ) || awaits(list, 0, r) by {
                assert(covered(g, nullable@, queue0, r));
                lemma_covered_pop(g, nullable@, queue0, adjacency(dependant_rules), r);
            }
            assert forall|k: int| 0 <= k < queue@.len() implies (#[trigger] queue@[k]).0 < n by {
                assert(queue@[k] == queue0[k + 1]);
            }
        }
        let mut idx: usize = 0;
        while idx < dependant_rules[front.0].len()
            invariant
                n_rules == cfg.rules@.len(),
                g == cfg.productions(),
                g.len() == n_rules,
                n == cfg.var_names@.len(),
                productions_in_range(g, n as int),
                nullable@.len() == n,
                dependant_rules@.len() == n,
                front.0 < n,
                list == adjacency(dependant_rules)[front.0 as int],
                idx <= list.len(),
                nullable_sound(g, nullable@),
                forall|k: int| 0 <= k < queue@.len() ==> (#[trigger] queue@[k]).0 < n,
                forall|r: int|
                    0 <= r < g.len() ==> #[trigger] covered(g, nullable@, queue@, r) || awaits(
                        list,
                        idx as int,
                        r,
                    ),
                deps_ok(g, adjacency(dependant_rules), g.len() as int),
                0 <= count_true(nullable@) <= n,
                n - count_true(nullable@) + queue@.len() == measure0 - 1,
            decreases list.len() - idx,
        {
            let index = dependant_rules[front.0][idx];
            proof {
                assert(adjacency(dependant_rules)[front.0 as int][idx as int] == index);
            }
            let rule = &cfg.rules[index];
            let ghost queue1 = queue@;
            let ghost nullable1 = nullable@;
            proof {
                assert(g[index as int].head == rule.head.0);
                assert(g[index as int].body == rule.body@);
                assert forall|j: int| 0 <= j < rule.body@.len() implies (
                #[trigger] rule.body@[j] matches Symbol::Var(u) ==> u.0 < nullable@.len()) by {
                    assert(g[index as int].body[j] == rule.body@[j]);
                }
            }
            let all = is_body_nullable(&rule.body, &nullable);
            if all && !nullable[rule.head.0] {
                proof {
                    lemma_nullable_rule(g, nullable@, index as int);
                    lemma_count_true_mark(nullable@, rule.head.0 as int);
                    lemma_count_true_bounds(nullable@.update(rule.head.0 as int, true));
                }
                nullable[rule.head.0] = true;
                queue.push_back(rule.head);
                proof {
                    assert(nullable@ == nullable1.update(rule.head.0 as int, true));
                    assert(queue@ == queue1.push(rule.head));
                    assert forall|u: int| 0 <= u < n && #[trigger] nullable@[u] implies derives(
                        g,
                        u,
                        Seq::<T>::empty(),
                    ) by {
                        if u != rule.head.0 {
                            assert(nullable1[u]);
                        }
                    }
                    assert forall|r: int| 0 <= r < g.len() implies #[trigger] covered(
                        g,
                        nullable@,
                        queue@,
                        r,
                    ) || awaits(list, idx + 1, r) by {
                        if covered(g, nullable1, queue1, r) {
                            lemma_covered_mark(g, nullable1, queue1, rule.head, r);
                        } else {
                            let k = choose|k: int| idx <= k < list.len() && #[trigger] list[k] == r;
                            if k == idx {
                            } else {
                                assert(awaits(list, idx + 1, r));
                            }
                        }
                    }
                }
            } else {
                proof {
                    assert forall|r: int| 0 <= r < g.len() implies #[trigger] covered(
                        g,
                        nullable@,
                        queue@,
                        r,
                    ) || awaits(list, idx + 1, r) by {
                        if !covered(g, nullable@, queue@, r) {
                            let k = choose|k: int| idx <= k < list.len() && #[trigger] list[k] == r;
                            if k == idx {
                            } else {
                                assert(awaits(list, idx + 1, r));
                            }
                        }
                    }
                }
            }
            idx += 1;
        }
        proof {
            assert forall|r: int| 0 <= r < g.len() implies #[trigger] covered(
                g,
                nullable@,
                queue@,
                r,
            ) by {
                assert(covered(g, nullable@, queue@, r) || awaits(list, idx as int, r));
            }
        }
    }
    proof {
        assert forall|r: int|
            0 <= r < g.len() && body_nullable((#[trigger] g[r]).body, nullable@) implies 0
            <= g[r].head < nullable@.len() && nullable@[g[r].head] by {
            assert(covered(g, nullable@, queue@, r));
            if body_queued(g[r].body, queue@) {
            }
        }
        assert forall|v: int| 0 <= v < nullable@.len() implies (#[trigger] nullable@[v] <==> derives(
            g,
            v,
            Seq::<T>::empty(),
        )) by {
            lemma_nullable_exact(g, nullable@, v);
        }
    }
    nullable
}

/// The rules in weak Chomsky normal form that a rule becomes: none for an
/// empty body; a terminal or a unit rule for one symbol; for two
/// variables a binary rule and, for each of the two that derives the
/// empty word, the unit rule to the other.
pub open spec fn weak_of<T>(rule: Rule<T>, nullable: Seq<bool>) -> Seq<WeakCnfRule<T>> {
    let h = rule.head;
    let b = rule.body@;
    if b.len() == 1 {
        match b[0] {
            Symbol::Term(t) => seq![WeakCnfRule::Terminal(h, t)],
            Symbol::Var(u) => seq![WeakCnfRule::Unit(h, u)],
        }
    } else if b.len() == 2 {
        match (b[0], b[1]) {
            (Symbol::Var(first), Symbol::Var(second)) => seq![WeakCnfRule::Binary(h, first, second)]
                + (if nullable[first.0 as int] {
                seq![WeakCnfRule::Unit(h, second)]
            } else {
                Seq::empty()
            }) + (if nullable[second.0 as int] {
                seq![WeakCnfRule::Unit(h, first)]
            } else {
                Seq::empty()
            }),
            _ => Seq::empty(),
        }
    } else {
        Seq::empty()
    }
}

/// The rules in weak Chomsky normal form that the rules of a list become,
/// in the order of the list.
pub open spec fn weak_rules_of<T>(rules: Seq<Rule<T>>, nullable: Seq<bool>) -> Seq<WeakCnfRule<T>>
    decreases rules.len(),
{
    if rules.len() == 0 {
        Seq::empty()
    } else {
        weak_rules_of(rules.drop_last(), nullable) + weak_of(rules.last(), nullable)
    }
}

/// Whether no body is longer than two symbols, and a body of two symbols
/// holds two variables.
pub open spec fn short_bodies<T>(g: Seq<Production<T>>) -> bool {
    forall|r: int|
        0 <= r < g.len() ==> (#[trigger] g[r]).body.len() <= 2 && (g[r].body.len() == 2
            ==> g[r].body[0] is Var && g[r].body[1] is Var)
}

/// Takes the rules with an empty body out of a grammar whose bodies are
/// short, and says which variables derive the empty word.
pub fn eliminate_epsilon_rules<T: Term>(cfg: Cfg<T>) -> (weak: WeakCnf<T>)
    requires
        cfg.wf(),
        short_bodies(cfg.productions()),
    ensures
        weak.wf(),
        weak.nullable@.len() == cfg.var_names@.len(),
        forall|v: int|
            0 <= v < weak.nullable@.len() ==> (#[trigger] weak.nullable@[v] <==> derives(
                cfg.productions(),
                v,
                Seq::<T>::empty(),
            )),
        weak.rules@ == weak_rules_of(cfg.rules@, weak.nullable@),
{
    let nullable = get_nullable_nonterminals(&cfg);
    let ghost g = cfg.productions();
    let n = nullable.len();
    let mut rules: Vec<WeakCnfRule<T>> = Vec::new();
    let mut i: usize = 0;
    while i < cfg.rules.len()
        invariant
            i <= cfg.rules@.len(),
            g == cfg.productions(),
            n == nullable@.len(),
            n == cfg.var_names@.len(),
            productions_in_range(g, n as int),
            short_bodies(g),
            rules@ == weak_rules_of(cfg.rules@.take(i as int), nullable@),
            forall|k: int| 0 <= k < rules@.len() ==> weak_rule_in_range(#[trigger] rules@[k], n as int),
        decreases cfg.rules@.len() - i,
    {
        let rule = &cfg.rules[i];
        let head = rule.head;
        let ghost before = rules@;
        proof {
            assert(cfg.rules@.take(i + 1).drop_last() == cfg.rules@.take(i as int));
            assert(g[i as int].head == head.0);
            assert(g[i as int].body == rule.body@);
            assert forall|j: int| 0 <= j < rule.body@.len() implies (
            #[trigger] rule.body@[j] matches Symbol::Var(u) ==> u.0 < n) by {
                assert(g[i as int].body[j] == rule.body@[j]);
            }
        }
        if rule.body.len() == 1 {
            match &rule.body[0] {
                Symbol::Term(term) => {
                    rules.push(WeakCnfRule::Terminal(head, term.duplicate()));
                },
                Symbol::Var(var) => {
                    rules.push(WeakCnfRule::Unit(head, *var));
                },
            }
        } else if rule.body.len() == 2 {
            match (&rule.body[0], &rule.body[1]) {
                (Symbol::Var(first), Symbol::Var(second)) => {
                    rules.push(WeakCnfRule::Binary(head, *first, *second));
                    if nullable[first.0] {
                        rules.push(WeakCnfRule::Unit(head, *second));
                    }
                    if nullable[second.0] {
                        rules.push(WeakCnfRule::Unit(head, *first));
                    }
                },
                _ => {},
            }
        }
        proof {
            assert(rules@ =~= before + weak_of(cfg.rules@[i as int], nullable@));
            assert forall|k: int| 0 <= k < rules@.len() implies weak_rule_in_range(
                #[trigger] rules@[k],
                n as int,
            ) by {
                if k < before.len() {
                    assert(rules@[k] == before[k]);
                }
            }
        }
        i += 1;
    }
    proof {
        assert(cfg.rules@.take(i as int) == cfg.rules@);
    }
    WeakCnf { nullable, rules }
}

} // verus!
