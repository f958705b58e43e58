use cfg_core::brackets::{bracket_grammar, is_balanced};
use cfg_core::cnf::{Cnf, CnfRule};
use cfg_core::parsing::{CykParser, EarleyParser, Parser};
use cfg_core::{Cfg, Rule, Symbol, Var};

fn all_words(alphabet: &[char], max_len: usize) -> Vec<Vec<char>> {
    let mut all: Vec<Vec<char>> = vec![Vec::new()];
    let mut last: Vec<Vec<char>> = vec![Vec::new()];
    for _ in 0..max_len {
        let mut next = Vec::new();
        for w in &last {
            for c in alphabet {
                let mut longer = w.clone();
                longer.push(*c);
                next.push(longer);
            }
        }
        all.extend(next.iter().cloned());
        last = next;
    }
    all
}

/// Every word of at most `max_len` terminals that `start` derives, found by
/// rewriting the leftmost variable of every sentential form of at most
/// `max_form` symbols.
fn derived_words(cfg: &Cfg<char>, start: Var, max_len: usize, max_form: usize) -> Vec<Vec<char>> {
    let mut seen: Vec<Vec<Symbol<char>>> = vec![vec![Symbol::Var(start)]];
    let mut at = 0;
    let mut found: Vec<Vec<char>> = Vec::new();
    while at < seen.len() {
        let form = seen[at].clone();
        at += 1;
        let leftmost = form.iter().position(|s| matches!(s, Symbol::Var(_)));
        match leftmost {
            None => {
                let word: Vec<char> = form
                    .iter()
                    .map(|s| match s {
                        Symbol::Term(c) => *c,
                        Symbol::Var(_) => unreachable!(),
                    })
                    .collect();
                if word.len() <= max_len && !found.contains(&word) {
                    found.push(word);
                }
            }
            Some(p) => {
                let Symbol::Var(v) = form[p].clone() else { unreachable!() };
                for rule in cfg.rules(v) {
                    let mut next: Vec<Symbol<char>> = form[..p].to_vec();
                    next.extend(rule.body.iter().cloned());
                    next.extend(form[p + 1..].iter().cloned());
                    let terminals = next.iter().filter(|s| matches!(s, Symbol::Term(_))).count();
                    if next.len() <= max_form && terminals <= max_len && !seen.contains(&next) {
                        seen.push(next);
                    }
                }
            }
        }
    }
    found
}

fn palindromes() -> (Cfg<char>, Var) {
    let mut builder = Cfg::builder();
    let s = builder.add_var("S".to_string());
    let m = builder.add_var("M".to_string());
    builder
        .add_rule(Rule::new(s, vec![Symbol::Term('a'), Symbol::Var(s), Symbol::Term('a')]))
        .add_rule(Rule::new(s, vec![Symbol::Term('b'), Symbol::Var(s), Symbol::Term('b')]))
        .add_rule(Rule::new(s, vec![Symbol::Var(m)]))
        .add_rule(Rule::new(m, vec![Symbol::Term('a')]))
        .add_rule(Rule::new(m, vec![Symbol::Term('b')]))
        .add_rule(Rule::new(m, vec![Symbol::Var(s), Symbol::Var(s)]));
    (builder.build(s), s)
}

fn optional_parts() -> (Cfg<char>, Var) {
    let mut builder = Cfg::builder();
    let s = builder.add_var("S".to_string());
    let a = builder.add_var("A".to_string());
    let b = builder.add_var("B".to_string());
    builder.add_rules(vec![
        Rule::new(s, vec![Symbol::Var(a), Symbol::Term('x'), Symbol::Var(b), Symbol::Var(a)]),
        Rule::new(a, vec![]),
        Rule::new(a, vec![Symbol::Term('a'), Symbol::Var(a)]),
        Rule::new(b, vec![Symbol::Var(a)]),
        Rule::new(b, vec![Symbol::Term('b')]),
        Rule::new(s, vec![Symbol::Var(b), Symbol::Var(b)]),
    ]);
    (builder.build(s), s)
}

#[test]
fn parsers_agree_with_a_search_for_derivations() {
    let (cfg, start) = palindromes();
    let derived = derived_words(&cfg, start, 5, 5);
    assert!(derived.contains(&vec!['a', 'b', 'a']));
    assert!(derived.contains(&vec!['a', 'b']));
    assert!(!derived.contains(&Vec::new()));
    let earley = EarleyParser::of(cfg.clone());
    let cyk = CykParser::of(cfg, start);
    for word in all_words(&['a', 'b'], 5) {
        let expected = derived.contains(&word);
        assert_eq!(earley.test(word.clone()), expected);
        assert_eq!(cyk.test(word), expected);
    }
}

#[test]
fn cyk_agrees_with_a_search_for_derivations_where_bodies_are_empty() {
    let (cfg, start) = optional_parts();
    let derived = derived_words(&cfg, start, 4, 8);
    assert!(derived.contains(&Vec::new()));
    assert!(derived.contains(&vec!['x']));
    assert!(derived.contains(&vec!['a', 'x', 'b', 'a']));
    assert!(!derived.contains(&vec!['x', 'x']));
    let cyk = CykParser::of(cfg, start);
    for word in all_words(&['a', 'b', 'x'], 4) {
        assert_eq!(cyk.test(word.clone()), derived.contains(&word));
    }
}

#[test]
fn nullable_agrees_with_a_search_for_derivations() {
    let (cfg, _) = optional_parts();
    let cnf = Cnf::of(cfg.clone());
    for v in 0..cfg.n_vars() {
        let derived = derived_words(&cfg, Var(v), 0, 6);
        assert_eq!(cnf.nullable[v], derived.contains(&Vec::new()));
    }
    assert_eq!(&cnf.nullable[..3], &[true, true, true]);
}

#[test]
fn rules_of_a_normal_form_rise_in_the_order_of_their_kind() {
    let (cfg, _) = optional_parts();
    let cnf = Cnf::of(cfg);
    let head = |r: &CnfRule<char>| match r {
        CnfRule::Terminal(h, _) => *h,
        CnfRule::Binary(h, _, _) => *h,
    };
    for pair in cnf.rules.windows(2) {
        assert!(head(&pair[0]) <= head(&pair[1]));
        if head(&pair[0]) == head(&pair[1]) {
            assert!(pair[0] < pair[1]);
        }
    }
}

#[test]
fn bracket_grammar_is_the_grammar_of_the_balanced_words() {
    let cfg = bracket_grammar();
    assert_eq!(cfg.n_vars(), 1);
    assert_eq!(cfg.start_var, Var(0));
    assert_eq!(cfg.rules.len(), 3);
    assert_eq!(cfg.rules[1], Rule::new(Var(0), vec![Symbol::Term('('), Symbol::Var(Var(0)), Symbol::Term(')')]));
    let earley = EarleyParser::of(cfg.clone());
    let cyk = CykParser::of(cfg, Var(0));
    assert!(is_balanced(&Vec::new()));
    assert!(is_balanced(&"(()())".chars().collect()));
    assert!(!is_balanced(&"())(".chars().collect()));
    assert!(!is_balanced(&"(a)".chars().collect()));
    for word in all_words(&['(', ')'], 9) {
        let expected = !word.is_empty() && is_balanced(&word);
        assert_eq!(earley.test(word.clone()), expected);
        assert_eq!(cyk.test(word), expected);
    }
}
