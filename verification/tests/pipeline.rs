use cfg_core::cnf::eliminate_epsilon_rules::{eliminate_epsilon_rules, get_nullable_nonterminals};
use cfg_core::cnf::eliminate_long_rules::eliminate_long_rules;
use cfg_core::cnf::eliminate_nonsolitary_terminals::eliminate_nonsolitary_terminals;
use cfg_core::cnf::eliminate_unit_rules::eliminate_unit_rules;
use cfg_core::cnf::kahn::replace_unit_rules_at_each_scc;
use cfg_core::cnf::quotient::{get_nonunit_rules_at_each_scc, get_reversed_quotient_graph};
use cfg_core::cnf::rule_order::{insert_rule, rule_precedes, sort_dedup};
use cfg_core::cnf::scc::StronglyConnectedComponents;
use cfg_core::cnf::weak_cnf::{WeakCnf, WeakCnfRule};
use cfg_core::cnf::{Cnf, CnfRule};
use cfg_core::parsing::table::Flat3dVec;
use cfg_core::parsing::chart::State;
use cfg_core::parsing::{CykParser, EarleyParser, ParseTree, ParsedSymbol, Parser};
use cfg_core::{Cfg, Rule, Symbol, Term, Var};

fn var(v: Var) -> Symbol<char> {
    Symbol::Var(v)
}

fn term(c: char) -> Symbol<char> {
    Symbol::Term(c)
}

fn dyck_grammar() -> Cfg<char> {
    let mut builder = Cfg::builder();
    let start = builder.add_var("start".to_string());
    builder.add_rule(Rule::new(start, vec![term('('), term(')')]));
    builder.add_rule(Rule::new(start, vec![term('('), var(start), term(')')]));
    builder.add_rule(Rule::new(start, vec![var(start), var(start)]));
    builder.build(start)
}

fn unit_cycle_grammar() -> (Cfg<char>, Var, Var) {
    let mut builder = Cfg::builder();
    let a = builder.add_var("A".to_string());
    let b = builder.add_var("B".to_string());
    builder.add_rule(Rule::new(a, vec![var(b)]));
    builder.add_rule(Rule::new(b, vec![var(a)]));
    builder.add_rule(Rule::new(b, vec![term('x')]));
    (builder.build(a), a, b)
}

fn unit_grammar() -> Cfg<char> {
    let mut builder = Cfg::builder();
    let expr = builder.add_var("expr".to_string());
    let sum = builder.add_var("sum".to_string());
    let product = builder.add_var("product".to_string());
    let tm = builder.add_var("term".to_string());
    let unit = builder.add_var("unit".to_string());
    builder.add_rule(Rule::new(expr, vec![var(sum)]));
    builder.add_rule(Rule::new(sum, vec![var(product)]));
    builder.add_rule(Rule::new(sum, vec![var(product), term('+'), var(sum)]));
    builder.add_rule(Rule::new(sum, vec![var(product), term('-'), var(sum)]));
    builder.add_rule(Rule::new(product, vec![var(tm)]));
    builder.add_rule(Rule::new(product, vec![var(tm), term('*'), var(product)]));
    builder.add_rule(Rule::new(product, vec![var(tm), term('/'), var(product)]));
    builder.add_rule(Rule::new(tm, vec![var(unit)]));
    builder.add_rule(Rule::new(tm, vec![term('('), var(sum), term(')')]));
    for c in ['A', 'B', 'C', 'D', 'E', 'F', 'G'] {
        builder.add_rule(Rule::new(unit, vec![term(c)]));
    }
    builder.build(expr)
}

fn flatten(tree: &ParseTree<char>, out: &mut Vec<char>) {
    for child in &tree.children {
        match child {
            ParsedSymbol::Term(c) => out.push(*c),
            ParsedSymbol::Var(sub) => flatten(sub, out),
        }
    }
}

fn words(alphabet: &[char], max_len: usize) -> Vec<Vec<char>> {
    let mut all: Vec<Vec<char>> = vec![Vec::new()];
    let mut last: Vec<Vec<char>> = vec![Vec::new()];
    for _ in 0..max_len {
        let mut next = Vec::new();
        for w in &last {
            for c in alphabet {
                let mut longer = w.clone();
                longer.push(*c);
                next.push(longer);
            }
        }
        all.extend(next.iter().cloned());
        last = next;
    }
    all
}

#[test]
fn builder_numbers_variables_and_keeps_rule_order() {
    let mut builder: cfg_core::CfgBuilder<char> = Cfg::builder();
    let a = builder.add_var("A".to_string());
    let b = builder.add_var("B".to_string());
    assert_eq!(a, Var(0));
    assert_eq!(b, Var(1));
    builder.add_rule(Rule::new(a, vec![term('x')]));
    builder.add_rules(vec![Rule::new(b, vec![var(a)]), Rule::new(a, vec![])]);
    let cfg = builder.build(b);
    assert_eq!(cfg.n_vars(), 2);
    assert_eq!(cfg.start_var, b);
    let of_a = cfg.rules(a);
    assert_eq!(of_a.len(), 2);
    assert_eq!(of_a[0].body, vec![term('x')]);
    assert_eq!(of_a[1].body, Vec::<Symbol<char>>::new());
    assert_eq!(cfg.rules(b).len(), 1);
    let again = cfg.to_builder();
    assert_eq!(again.rules.len(), 3);
    assert_eq!(again.var_names.len(), 2);
}

#[test]
fn terminals_are_ordered_by_rank() {
    assert!('a'.precedes(&'b'));
    assert!(!'b'.precedes(&'a'));
    assert!(!'a'.precedes(&'a'));
    assert!('a'.same(&'a'));
    assert!(!'a'.same(&'b'));
    assert_eq!('q'.duplicate(), 'q');
    assert!(3u8.precedes(&4u8));
    assert!(7u32.same(&7u32));
    assert!(!9u64.precedes(&2u64));
    assert!(1usize.precedes(&2usize));
}

#[test]
fn isolates_terminals_of_long_bodies() {
    let out = eliminate_nonsolitary_terminals(dyck_grammar());
    assert_eq!(out.var_names.len(), 3);
    assert_eq!(out.var_names[1], "<GEN_TERM>");
    assert_eq!(out.start_var, Var(0));
    assert_eq!(out.rules.len(), 5);
    assert_eq!(out.rules[0], Rule::new(Var(0), vec![var(Var(1)), var(Var(2))]));
    assert_eq!(out.rules[1], Rule::new(Var(0), vec![var(Var(1)), var(Var(0)), var(Var(2))]));
    assert_eq!(out.rules[2], Rule::new(Var(0), vec![var(Var(0)), var(Var(0))]));
    assert_eq!(out.rules[3], Rule::new(Var(1), vec![term('(')]));
    assert_eq!(out.rules[4], Rule::new(Var(2), vec![term(')')]));
}

#[test]
fn lone_terminal_is_left_alone() {
    let mut builder = Cfg::builder();
    let s = builder.add_var("S".to_string());
    builder.add_rule(Rule::new(s, vec![term('a')]));
    builder.add_rule(Rule::new(s, vec![]));
    let out = eliminate_nonsolitary_terminals(builder.build(s));
    assert_eq!(out.var_names.len(), 1);
    assert_eq!(out.rules.len(), 2);
    assert_eq!(out.rules[0], Rule::new(Var(0), vec![term('a')]));
    assert_eq!(out.rules[1], Rule::new(Var(0), vec![]));
}

#[test]
fn cuts_long_bodies_from_the_right() {
    let mut builder: cfg_core::CfgBuilder<char> = Cfg::builder();
    let s = builder.add_var("S".to_string());
    let a = builder.add_var("A".to_string());
    let b = builder.add_var("B".to_string());
    let c = builder.add_var("C".to_string());
    let d = builder.add_var("D".to_string());
    builder.add_rule(Rule::new(s, vec![var(a), var(b), var(c), var(d)]));
    builder.add_rule(Rule::new(a, vec![var(b), var(c)]));
    builder.add_rule(Rule::new(b, vec![var(a), var(a), var(a)]));
    let out = eliminate_long_rules(builder.build(s));
    assert_eq!(out.var_names.len(), 8);
    assert_eq!(out.var_names[5], "<GEN_AUX>");
    assert_eq!(out.rules.len(), 6);
    assert_eq!(out.rules[0], Rule::new(s, vec![var(a), var(Var(6))]));
    assert_eq!(out.rules[1], Rule::new(a, vec![var(b), var(c)]));
    assert_eq!(out.rules[2], Rule::new(b, vec![var(a), var(Var(7))]));
    assert_eq!(out.rules[3], Rule::new(Var(5), vec![var(c), var(d)]));
    assert_eq!(out.rules[4], Rule::new(Var(6), vec![var(b), var(Var(5))]));
    assert_eq!(out.rules[5], Rule::new(Var(7), vec![var(a), var(a)]));
}

#[test]
fn nullable_follows_chains() {
    let mut builder: cfg_core::CfgBuilder<char> = Cfg::builder();
    let a = builder.add_var("A".to_string());
    let b = builder.add_var("B".to_string());
    let c = builder.add_var("C".to_string());
    let d = builder.add_var("D".to_string());
    builder.add_rule(Rule::new(a, vec![var(b)]));
    builder.add_rule(Rule::new(b, vec![]));
    builder.add_rule(Rule::new(c, vec![var(a), term('x')]));
    builder.add_rule(Rule::new(d, vec![var(a), var(b)]));
    builder.add_rule(Rule::new(d, vec![var(d), var(c)]));
    let cfg = builder.build(a);
    assert_eq!(get_nullable_nonterminals(&cfg), vec![true, true, false, true]);
}

#[test]
fn nullable_of_a_self_referring_rule() {
    let mut builder: cfg_core::CfgBuilder<char> = Cfg::builder();
    let a = builder.add_var("A".to_string());
    let b = builder.add_var("B".to_string());
    builder.add_rule(Rule::new(a, vec![var(a), var(a)]));
    builder.add_rule(Rule::new(b, vec![var(b)]));
    builder.add_rule(Rule::new(a, vec![]));
    let cfg = builder.build(a);
    assert_eq!(get_nullable_nonterminals(&cfg), vec![true, false]);
}

#[test]
fn empty_bodies_become_unit_rules_of_their_neighbours() {
    let mut builder: cfg_core::CfgBuilder<char> = Cfg::builder();
    let s = builder.add_var("S".to_string());
    let a = builder.add_var("A".to_string());
    let b = builder.add_var("B".to_string());
    builder.add_rule(Rule::new(s, vec![var(a), var(b)]));
    builder.add_rule(Rule::new(a, vec![]));
    builder.add_rule(Rule::new(a, vec![term('a')]));
    builder.add_rule(Rule::new(b, vec![term('b')]));
    builder.add_rule(Rule::new(b, vec![var(a)]));
    let weak = eliminate_epsilon_rules(builder.build(s));
    assert_eq!(weak.nullable, vec![true, true, true]);
    assert_eq!(weak.rules.len(), 6);
    assert!(matches!(weak.rules[0], WeakCnfRule::Binary(Var(0), Var(1), Var(2))));
    assert!(matches!(weak.rules[1], WeakCnfRule::Unit(Var(0), Var(2))));
    assert!(matches!(weak.rules[2], WeakCnfRule::Unit(Var(0), Var(1))));
    assert!(matches!(weak.rules[3], WeakCnfRule::Terminal(Var(1), 'a')));
    assert!(matches!(weak.rules[4], WeakCnfRule::Terminal(Var(2), 'b')));
    assert!(matches!(weak.rules[5], WeakCnfRule::Unit(Var(2), Var(1))));
}

#[test]
fn components_come_out_with_no_edge_to_a_later_one() {
    let graph: Vec<Vec<usize>> = vec![vec![1], vec![2], vec![0], vec![0, 4], vec![]];
    let sccs = StronglyConnectedComponents::of(&graph);
    assert_eq!(sccs, vec![vec![2, 1, 0], vec![4], vec![3]]);
}

#[test]
fn components_of_a_graph_without_edges() {
    let graph: Vec<Vec<usize>> = vec![vec![], vec![], vec![]];
    let sccs = StronglyConnectedComponents::of(&graph);
    assert_eq!(sccs, vec![vec![0], vec![1], vec![2]]);
    let none: Vec<Vec<usize>> = Vec::new();
    assert_eq!(StronglyConnectedComponents::of(&none), Vec::<Vec<usize>>::new());
}

#[test]
fn components_of_a_deep_chain() {
    let n = 20000;
    let mut graph: Vec<Vec<usize>> = Vec::new();
    for u in 0..n {
        if u + 1 < n {
            graph.push(vec![u + 1]);
        } else {
            graph.push(vec![]);
        }
    }
    let sccs = StronglyConnectedComponents::of(&graph);
    assert_eq!(sccs.len(), n);
    assert_eq!(sccs[0], vec![n - 1]);
    assert_eq!(sccs[n - 1], vec![0]);
}

#[test]
fn quotient_graph_drops_loops_and_repeats() {
    let graph: Vec<Vec<usize>> = vec![vec![1, 2], vec![0, 2], vec![]];
    let vars_map = vec![Var(1), Var(1), Var(0)];
    let reversed = get_reversed_quotient_graph(&graph, 2, &vars_map);
    assert_eq!(reversed, vec![vec![1], vec![]]);
}

#[test]
fn rules_are_put_with_the_component_of_their_head() {
    let rules: Vec<WeakCnfRule<char>> = vec![
        WeakCnfRule::Terminal(Var(2), 'x'),
        WeakCnfRule::Unit(Var(0), Var(1)),
        WeakCnfRule::Binary(Var(0), Var(1), Var(2)),
        WeakCnfRule::Terminal(Var(1), 'y'),
    ];
    let vars_map = vec![Var(1), Var(1), Var(0)];
    let buckets = get_nonunit_rules_at_each_scc(rules, 2, &vars_map);
    assert_eq!(buckets.len(), 2);
    assert_eq!(buckets[0].len(), 1);
    assert!(matches!(buckets[0][0], CnfRule::Terminal(Var(0), 'x')));
    assert_eq!(buckets[1].len(), 2);
    assert!(matches!(buckets[1][0], CnfRule::Binary(Var(1), Var(1), Var(0))));
    assert!(matches!(buckets[1][1], CnfRule::Terminal(Var(1), 'y')));
}

#[test]
fn rules_are_handed_on_along_the_quotient_graph() {
    let reversed: Vec<Vec<usize>> = vec![vec![1, 2], vec![2], vec![]];
    let buckets: Vec<Vec<CnfRule<char>>> = vec![
        vec![CnfRule::Terminal(Var(0), 'b'), CnfRule::Terminal(Var(0), 'a')],
        vec![CnfRule::Binary(Var(1), Var(0), Var(0))],
        vec![],
    ];
    let all = replace_unit_rules_at_each_scc(3, reversed, buckets);
    let shown: Vec<String> = all.iter().map(|r| format!("{:?}", r)).collect();
    assert_eq!(
        shown,
        vec![
            "Terminal(Var(0), 'a')",
            "Terminal(Var(0), 'b')",
            "Terminal(Var(1), 'a')",
            "Terminal(Var(1), 'b')",
            "Binary(Var(1), Var(0), Var(0))",
            "Terminal(Var(2), 'a')",
            "Terminal(Var(2), 'b')",
            "Binary(Var(2), Var(0), Var(0))",
        ]
    );
}

#[test]
fn sorted_list_holds_each_rule_once() {
    let mut list: Vec<CnfRule<char>> = vec![
        CnfRule::Binary(Var(0), Var(2), Var(1)),
        CnfRule::Terminal(Var(0), 'z'),
        CnfRule::Binary(Var(0), Var(1), Var(3)),
        CnfRule::Terminal(Var(0), 'a'),
        CnfRule::Terminal(Var(0), 'z'),
    ];
    sort_dedup(&mut list);
    let shown: Vec<String> = list.iter().map(|r| format!("{:?}", r)).collect();
    assert_eq!(
        shown,
        vec![
            "Terminal(Var(0), 'a')",
            "Terminal(Var(0), 'z')",
            "Binary(Var(0), Var(1), Var(3))",
            "Binary(Var(0), Var(2), Var(1))",
        ]
    );
    insert_rule(&mut list, CnfRule::Terminal(Var(0), 'm'));
    insert_rule(&mut list, CnfRule::Terminal(Var(0), 'm'));
    assert_eq!(list.len(), 5);
    assert!(matches!(list[1], CnfRule::Terminal(Var(0), 'm')));
    assert!(rule_precedes(&list[0], &list[1]));
    assert!(!rule_precedes(&list[1], &list[0]));
}

#[test]
fn unit_cycle_is_drawn_together() {
    let weak: WeakCnf<char> = WeakCnf {
        nullable: vec![false, false],
        rules: vec![
            WeakCnfRule::Unit(Var(0), Var(1)),
            WeakCnfRule::Unit(Var(1), Var(0)),
            WeakCnfRule::Terminal(Var(1), 'x'),
        ],
    };
    let cnf = eliminate_unit_rules(weak);
    assert_eq!(cnf.nullable, vec![false, false]);
    assert_eq!(cnf.vars_map, vec![Var(0), Var(0)]);
    assert_eq!(cnf.rules.len(), 1);
    assert!(matches!(cnf.rules[0], CnfRule::Terminal(Var(0), 'x')));
}

#[test]
fn unit_rules_behind_a_cycle_are_followed() {
    let weak: WeakCnf<char> = WeakCnf {
        nullable: vec![false, false, false],
        rules: vec![
            WeakCnfRule::Unit(Var(0), Var(1)),
            WeakCnfRule::Unit(Var(1), Var(2)),
            WeakCnfRule::Unit(Var(2), Var(1)),
            WeakCnfRule::Terminal(Var(2), 'x'),
        ],
    };
    let cnf = eliminate_unit_rules(weak);
    assert_eq!(cnf.vars_map, vec![Var(1), Var(0), Var(0)]);
    assert_eq!(cnf.rules.len(), 2);
    assert!(matches!(cnf.rules[0], CnfRule::Terminal(Var(0), 'x')));
    assert!(matches!(cnf.rules[1], CnfRule::Terminal(Var(1), 'x')));
}

#[test]
fn unit_cycle_keeps_the_language() {
    let (cfg, a, b) = unit_cycle_grammar();
    let earley = EarleyParser::of(cfg.clone());
    let cyk_a = CykParser::of(cfg.clone(), a);
    let cyk_b = CykParser::of(cfg, b);
    for word in words(&['x', 'y'], 3) {
        let expected = word == vec!['x'];
        assert_eq!(earley.test(word.clone()), expected);
        assert_eq!(cyk_a.test(word.clone()), expected);
        assert_eq!(cyk_b.test(word), expected);
    }
}

#[test]
fn normal_form_of_the_bracket_grammar() {
    let cnf = Cnf::of(dyck_grammar());
    assert_eq!(cnf.nullable, vec![false, false, false, false]);
    assert_eq!(cnf.vars_map, vec![Var(0), Var(1), Var(2), Var(3)]);
    let shown: Vec<String> = cnf.rules.iter().map(|r| format!("{:?}", r)).collect();
    assert_eq!(
        shown,
        vec![
            "Binary(Var(0), Var(0), Var(0))",
            "Binary(Var(0), Var(1), Var(2))",
            "Binary(Var(0), Var(1), Var(3))",
            "Terminal(Var(1), '(')",
            "Terminal(Var(2), ')')",
            "Binary(Var(3), Var(0), Var(2))",
        ]
    );
}

#[test]
fn every_rule_of_a_normal_form_is_terminal_or_binary() {
    let cnf = Cnf::of(unit_grammar());
    assert!(!cnf.rules.is_empty());
    let n = cnf.nullable.len();
    for rule in &cnf.rules {
        match rule {
            CnfRule::Terminal(h, _) => assert!(h.0 < n),
            CnfRule::Binary(h, a, b) => assert!(h.0 < n && a.0 < n && b.0 < n),
        }
    }
}

#[test]
fn cyk_says_of_the_empty_word_what_nullable_says() {
    let mut builder: cfg_core::CfgBuilder<char> = Cfg::builder();
    let s = builder.add_var("S".to_string());
    let a = builder.add_var("A".to_string());
    let b = builder.add_var("B".to_string());
    let c = builder.add_var("C".to_string());
    builder.add_rule(Rule::new(s, vec![var(a), var(b)]));
    builder.add_rule(Rule::new(a, vec![var(b)]));
    builder.add_rule(Rule::new(b, vec![]));
    builder.add_rule(Rule::new(b, vec![term('b')]));
    builder.add_rule(Rule::new(c, vec![var(a), term('c')]));
    let cfg = builder.build(s);
    let cnf = Cnf::of(cfg.clone());
    assert!(cnf.nullable[s.0]);
    assert!(!cnf.nullable[c.0]);
    assert!(CykParser::of(cfg.clone(), s).test(vec![]));
    assert!(CykParser::of(cfg.clone(), a).test(vec![]));
    assert!(!CykParser::of(cfg.clone(), c).test(vec![]));
    assert!(CykParser::of(cfg.clone(), s).test(vec!['b', 'b']));
    assert!(!CykParser::of(cfg.clone(), s).test(vec!['b', 'b', 'b']));
    assert!(CykParser::of(cfg.clone(), c).test(vec!['c']));
    assert!(CykParser::of(cfg, c).test(vec!['b', 'c']));
}

#[test]
fn parsers_agree_on_short_words() {
    let cfg = unit_grammar();
    let start = cfg.start_var;
    let earley = EarleyParser::of(cfg.clone());
    let cyk = CykParser::of(cfg, start);
    for word in words(&['A', '+', '(', ')'], 5) {
        assert_eq!(earley.test(word.clone()), cyk.test(word));
    }
}

#[test]
fn earley_parse_gives_back_the_word() {
    let earley_parser = EarleyParser::of(unit_grammar());
    let expression: Vec<char> = "A+B*(C-D/E)+F*(G)".chars().collect();
    let parse_tree = earley_parser.parse(expression.clone()).expect("the word is an expression");
    assert_eq!(parse_tree.root, Var(0));
    assert_eq!(parse_tree.rule_idx, 0);
    let mut leaves = Vec::new();
    flatten(&parse_tree, &mut leaves);
    assert_eq!(leaves, expression);
    assert!(earley_parser.parse("A+".chars().collect()).is_none());
}

#[test]
fn earley_parse_names_the_rules() {
    let earley_parser = EarleyParser::of(dyck_grammar());
    let tree = earley_parser.parse("(())".chars().collect()).expect("balanced");
    assert_eq!(tree.root, Var(0));
    assert_eq!(tree.rule_idx, 1);
    assert_eq!(tree.children.len(), 3);
    assert!(matches!(tree.children[0], ParsedSymbol::Term('(')));
    match &tree.children[1] {
        ParsedSymbol::Var(sub) => {
            assert_eq!(sub.rule_idx, 0);
            assert_eq!(sub.children.len(), 2);
        },
        ParsedSymbol::Term(_) => panic!("a tree was expected"),
    }
    assert!(matches!(tree.children[2], ParsedSymbol::Term(')')));
}

#[test]
fn earley_reads_empty_bodies() {
    let mut builder: cfg_core::CfgBuilder<char> = Cfg::builder();
    let s = builder.add_var("S".to_string());
    let a = builder.add_var("A".to_string());
    builder.add_rule(Rule::new(s, vec![var(a), var(a)]));
    builder.add_rule(Rule::new(a, vec![]));
    builder.add_rule(Rule::new(a, vec![term('a')]));
    let earley = EarleyParser::of(builder.build(s));
    assert!(earley.test(vec![]));
    assert!(earley.test(vec!['a']));
    assert!(earley.test(vec!['a', 'a']));
    assert!(!earley.test(vec!['a', 'a', 'a']));
}

#[test]
fn table_keeps_what_is_put_in() {
    let mut table = Flat3dVec::filled_with(2, 3, 4, false);
    assert_eq!(table.vec.len(), 24);
    assert!(!table.get(1, 2, 3));
    table.set(1, 2, 3, true);
    table.set(0, 1, 2, true);
    assert!(table.get(1, 2, 3));
    assert!(table.get(0, 1, 2));
    assert!(!table.get(1, 1, 3));
    assert_eq!(table.vec.iter().filter(|b| **b).count(), 2);
}

#[test]
fn earley_moves_on_over_a_variable_that_was_finished_before_it_was_awaited() {
    let mut builder: cfg_core::CfgBuilder<char> = Cfg::builder();
    let s = builder.add_var("S".to_string());
    let t = builder.add_var("T".to_string());
    let a = builder.add_var("A".to_string());
    builder.add_rule(Rule::new(s, vec![var(a), var(t)]));
    builder.add_rule(Rule::new(t, vec![var(a)]));
    builder.add_rule(Rule::new(a, vec![]));
    let cfg = builder.build(s);
    let earley = EarleyParser::of(cfg.clone());
    let cyk = CykParser::of(cfg, s);
    assert!(cyk.test(vec![]));
    assert!(earley.test(vec![]));
    assert!(!earley.test(vec!['a']));
    let tree = earley.parse(vec![]).expect("the empty word is derived");
    assert_eq!(tree.root, s);
    assert_eq!(tree.children.len(), 2);
    assert_eq!(leaves(&tree), Vec::<char>::new());
}

#[test]
fn earley_reads_a_terminal_behind_an_empty_variable() {
    let mut builder: cfg_core::CfgBuilder<char> = Cfg::builder();
    let s = builder.add_var("S".to_string());
    let c = builder.add_var("C".to_string());
    let a = builder.add_var("A".to_string());
    builder.add_rule(Rule::new(s, vec![var(a), var(c)]));
    builder.add_rule(Rule::new(c, vec![var(a), term('a')]));
    builder.add_rule(Rule::new(a, vec![]));
    let cfg = builder.build(s);
    let earley = EarleyParser::of(cfg.clone());
    let cyk = CykParser::of(cfg, s);
    for word in words(&['a'], 3) {
        let expected = word == vec!['a'];
        assert_eq!(earley.test(word.clone()), expected);
        assert_eq!(cyk.test(word.clone()), expected);
        assert_eq!(earley.parse(word).is_some(), expected);
    }
}

#[test]
fn parsers_agree_where_bodies_are_empty() {
    let mut builder: cfg_core::CfgBuilder<char> = Cfg::builder();
    let s = builder.add_var("S".to_string());
    let a = builder.add_var("A".to_string());
    let b = builder.add_var("B".to_string());
    builder.add_rule(Rule::new(s, vec![var(a), term('x'), var(b), var(a)]));
    builder.add_rule(Rule::new(a, vec![]));
    builder.add_rule(Rule::new(a, vec![term('a'), var(a)]));
    builder.add_rule(Rule::new(b, vec![var(a)]));
    builder.add_rule(Rule::new(b, vec![term('b')]));
    builder.add_rule(Rule::new(s, vec![var(b), var(b)]));
    builder.add_rule(Rule::new(b, vec![var(b), var(s)]));
    let cfg = builder.build(s);
    let earley = EarleyParser::of(cfg.clone());
    let cyk = CykParser::of(cfg, s);
    for word in words(&['a', 'b', 'x'], 5) {
        let found = earley.test(word.clone());
        assert_eq!(found, cyk.test(word.clone()));
        match earley.parse(word.clone()) {
            Some(tree) => {
                assert!(found);
                assert_eq!(leaves(&tree), word);
            },
            None => assert!(!found),
        }
    }
}

#[test]
fn chart_of_a_unit_rule_and_a_terminal() {
    let mut builder: cfg_core::CfgBuilder<char> = Cfg::builder();
    let s = builder.add_var("S".to_string());
    let a = builder.add_var("A".to_string());
    builder.add_rule(Rule::new(s, vec![var(a)]));
    builder.add_rule(Rule::new(a, vec![term('a')]));
    let parser = EarleyParser::of(builder.build(s));
    let chart = parser.attempt_parse(&vec!['a']);
    let state = |l, rule_idx, parsed| State { l, rule_idx, parsed };
    assert_eq!(chart.states, vec![
        vec![state(0, 0, 0), state(0, 1, 0)],
        vec![state(0, 1, 1), state(0, 0, 1)],
    ]);
    let shown: Vec<Vec<String>> = chart
        .parents
        .iter()
        .map(|row| row.iter().map(|p| format!("{:?}", p)).collect())
        .collect();
    assert_eq!(shown, vec![vec!["Start", "Start"], vec!["Scan(1)", "Complete(0, 0)"]]);
}

#[test]
fn first_position_begins_with_the_rules_of_the_start_variable() {
    let parser = EarleyParser::of(unit_grammar());
    let chart = parser.attempt_parse(&"A+B".chars().collect());
    assert_eq!(chart.states.len(), 4);
    assert_eq!(chart.states[0][0], State { l: 0, rule_idx: 0, parsed: 0 });
    let parser = EarleyParser::of(dyck_grammar());
    let chart = parser.attempt_parse(&"()".chars().collect());
    for m in 0..3 {
        assert_eq!(chart.states[0][m], State { l: 0, rule_idx: m, parsed: 0 });
    }
    for (row, links) in chart.states.iter().zip(chart.parents.iter()) {
        assert_eq!(row.len(), links.len());
        for (i, st) in row.iter().enumerate() {
            assert!(!row[..i].contains(st));
        }
    }
}

#[test]
fn rules_are_handed_on_whatever_the_numbers_of_the_components() {
    let reversed: Vec<Vec<usize>> = vec![vec![], vec![0, 0], vec![1, 0, 1]];
    let buckets: Vec<Vec<CnfRule<char>>> = vec![
        vec![CnfRule::Terminal(Var(0), 'z')],
        vec![CnfRule::Terminal(Var(1), 'y')],
        vec![CnfRule::Binary(Var(2), Var(0), Var(1)), CnfRule::Terminal(Var(2), 'x')],
    ];
    let all = replace_unit_rules_at_each_scc(3, reversed, buckets);
    let shown: Vec<String> = all.iter().map(|r| format!("{:?}", r)).collect();
    assert_eq!(
        shown,
        vec![
            "Terminal(Var(0), 'x')",
            "Terminal(Var(0), 'y')",
            "Terminal(Var(0), 'z')",
            "Binary(Var(0), Var(0), Var(1))",
            "Terminal(Var(1), 'x')",
            "Terminal(Var(1), 'y')",
            "Binary(Var(1), Var(0), Var(1))",
            "Terminal(Var(2), 'x')",
            "Binary(Var(2), Var(0), Var(1))",
        ]
    );
}

#[test]
fn components_are_numbered_without_gaps() {
    let weak: WeakCnf<char> = WeakCnf {
        nullable: vec![false; 6],
        rules: vec![
            WeakCnfRule::Unit(Var(0), Var(3)),
            WeakCnfRule::Unit(Var(3), Var(0)),
            WeakCnfRule::Unit(Var(4), Var(5)),
            WeakCnfRule::Unit(Var(5), Var(1)),
            WeakCnfRule::Terminal(Var(1), 'x'),
        ],
    };
    let cnf = eliminate_unit_rules(weak);
    let mut numbers: Vec<usize> = cnf.vars_map.iter().map(|v| v.0).collect();
    assert_eq!(numbers, vec![0, 1, 2, 0, 4, 3]);
    numbers.sort();
    numbers.dedup();
    assert_eq!(numbers, vec![0, 1, 2, 3, 4]);
}

#[test]
fn cyk_tests_the_size_of_its_table() {
    let cyk = CykParser::of(dyck_grammar(), Var(0));
    assert!(cyk.fits_len(1000));
    assert!(!cyk.fits_len(usize::MAX / 2));
    assert_eq!(cyk.test_if_fits("(())".chars().collect()), Some(true));
    assert_eq!(cyk.test_if_fits("(()".chars().collect()), Some(false));
    assert_eq!(cyk.test_if_fits(vec![]), Some(false));
    let tree = cyk.parse_if_fits("()()".chars().collect()).expect("balanced");
    assert_eq!(leaves(&tree), vec!['(', ')', '(', ')']);
    assert!(matches!(cyk.rules[tree.rule_idx], CnfRule::Binary(Var(0), _, _)));
    assert!(cyk.parse_if_fits(vec![')']).is_none());
    let copy = tree.clone();
    assert_eq!(leaves(&copy), leaves(&tree));
    assert_eq!(copy.rule_idx, tree.rule_idx);
}

fn leaves(tree: &ParseTree<char>) -> Vec<char> {
    let mut out = Vec::new();
    flatten(tree, &mut out);
    out
}

#[test]
fn cyk_parse_gives_a_tree_of_the_normal_form() {
    let cfg = dyck_grammar();
    let cnf = Cnf::of(cfg.clone());
    let cyk = CykParser::of(cfg, Var(0));
    let word: Vec<char> = "(()())".chars().collect();
    let tree = cyk.parse(word.clone()).expect("balanced");
    assert_eq!(tree.root, Var(0));
    assert_eq!(leaves(&tree), word);
    assert_eq!(tree.children.len(), 2);
    match &cnf.rules[tree.rule_idx] {
        CnfRule::Binary(h, a, b) => {
            assert_eq!(*h, tree.root);
            match (&tree.children[0], &tree.children[1]) {
                (ParsedSymbol::Var(left), ParsedSymbol::Var(right)) => {
                    assert_eq!(left.root, *a);
                    assert_eq!(right.root, *b);
                },
                _ => panic!("two trees were expected"),
            }
        },
        CnfRule::Terminal(_, _) => panic!("a binary rule was expected"),
    }
    assert!(cyk.parse("(()".chars().collect()).is_none());
    let one = cyk.parse("()".chars().collect()).expect("balanced");
    assert_eq!(format!("{:?}", cnf.rules[one.rule_idx]), "Binary(Var(0), Var(1), Var(2))");
}

#[test]
fn cyk_has_no_tree_for_the_empty_word() {
    let mut builder: cfg_core::CfgBuilder<char> = Cfg::builder();
    let s = builder.add_var("S".to_string());
    builder.add_rule(Rule::new(s, vec![]));
    builder.add_rule(Rule::new(s, vec![term('a'), var(s)]));
    let cyk = CykParser::of(builder.build(s), s);
    assert!(cyk.test(vec![]));
    assert!(cyk.parse(vec![]).is_none());
    let tree = cyk.parse(vec!['a', 'a']).expect("two letters");
    assert_eq!(leaves(&tree), vec!['a', 'a']);
    let single = cyk.parse(vec!['a']).expect("one letter");
    assert_eq!(single.children.len(), 1);
    assert!(matches!(single.children[0], ParsedSymbol::Term('a')));
    assert!(cyk.parse(vec!['b']).is_none());
}

#[test]
fn cyk_keeps_the_rules_by_their_kind_in_their_order() {
    let cnf: Cnf<char> = Cnf {
        nullable: vec![false, false, false],
        rules: vec![
            CnfRule::Terminal(Var(0), 'b'),
            CnfRule::Binary(Var(0), Var(1), Var(2)),
            CnfRule::Terminal(Var(1), 'a'),
            CnfRule::Terminal(Var(2), 'b'),
            CnfRule::Binary(Var(2), Var(0), Var(0)),
            CnfRule::Terminal(Var(2), 'a'),
        ],
        vars_map: vec![Var(0), Var(1), Var(2)],
    };
    let cyk = CykParser::of_cnf(cnf, Var(0));
    assert_eq!(cyk.terms_to_vars, vec![('b', vec![Var(0), Var(2)]), ('a', vec![Var(1), Var(2)])]);
    assert_eq!(cyk.terminal_ids, vec![vec![0, 3], vec![2, 5]]);
    assert_eq!(cyk.binary_ids, vec![1, 4]);
    assert_eq!(cyk.binary_rules.len(), 2);
    assert_eq!(cyk.start, Var(0));
    assert_eq!(cyk.origin, Var(0));
    assert!(cyk.test(vec!['a', 'b']));
    let tree = cyk.parse(vec!['a', 'b', 'b']).expect("derived");
    assert_eq!(tree.rule_idx, 1);
    assert_eq!(leaves(&tree), vec!['a', 'b', 'b']);
    match &tree.children[1] {
        ParsedSymbol::Var(right) => assert_eq!(right.rule_idx, 4),
        ParsedSymbol::Term(_) => panic!("a tree was expected"),
    }
}
