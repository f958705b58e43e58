use cfg_core::parsing::{EarleyParser, Parser};
use cfg_core::{Cfg, Rule, Symbol, Var};

fn var(v: Var) -> Symbol<char> {
    Symbol::Var(v)
}

fn term(c: char) -> Symbol<char> {
    Symbol::Term(c)
}

fn dyck_grammar() -> Cfg<char> {
    let mut builder = Cfg::builder();
    let start = builder.add_var("start".to_string());
    builder.add_rule(Rule::new(start, vec![term('('), term(')')]));
    builder.add_rule(Rule::new(start, vec![term('('), var(start), term(')')]));
    builder.add_rule(Rule::new(start, vec![var(start), var(start)]));
    builder.build(start)
}

fn expression_grammar() -> Cfg<char> {
    let mut builder = Cfg::builder();
    let e1 = builder.add_var("expression1".to_string());
    let e2 = builder.add_var("expression2".to_string());
    let e3 = builder.add_var("expression3".to_string());
    let t = builder.add_var("term".to_string());
    builder.add_rule(Rule::new(e1, vec![var(e2)]));
    builder.add_rule(Rule::new(e1, vec![var(e2), term('+'), var(e1)]));
    builder.add_rule(Rule::new(e1, vec![var(e2), term('-'), var(e1)]));
    builder.add_rule(Rule::new(e2, vec![var(e3)]));
    builder.add_rule(Rule::new(e2, vec![var(e3), term('*'), var(e2)]));
    builder.add_rule(Rule::new(e2, vec![var(e3), term('/'), var(e2)]));
    builder.add_rule(Rule::new(e3, vec![var(t)]));
    builder.add_rule(Rule::new(e3, vec![term('('), var(e1), term(')')]));
    builder.add_rule(Rule::new(t, vec![term('A')]));
    builder.add_rule(Rule::new(t, vec![term('B')]));
    builder.add_rule(Rule::new(t, vec![term('C')]));
    builder.add_rule(Rule::new(t, vec![term('D')]));
    builder.build(e1)
}

fn is_balanced_brkt_seq(brkt_seq: &Vec<char>) -> bool {
    let mut balance = 0;

    let mut is_balanced = true;
    for ch in brkt_seq {
        if *ch == '(' {
            balance += 1;
        } else {
            balance -= 1;
        }
        is_balanced &= balance >= 0;
    }

    is_balanced &= balance == 0;
    is_balanced
}

fn brkt_seq_test_cases(len: usize) -> Vec<(Vec<char>, bool)> {
    let mut brkt_seqs = Vec::new();
    for mask in 0..1 << len {
        let mut brkt_seq = Vec::new();
        for i in 0..len {
            if ((mask >> i) & 1) == 0 {
                brkt_seq.push('(');
            } else {
                brkt_seq.push(')');
            }
        }
        let expectation = is_balanced_brkt_seq(&brkt_seq);
        brkt_seqs.push((brkt_seq, expectation));
    }
    brkt_seqs
}

fn expression_test_cases() -> Vec<(&'static str, bool)> {
    vec![
        ("A", true),
        ("(A)", true),
        ("A+B", true),
        ("A-B", true),
        ("A*B", true),
        ("A/B", true),
        ("A+(B*C)", true),
        ("A+(B*C/D)", true),
        ("+", false),
        ("A+", false),
        ("A+*", false),
        ("A+*B", false),
        ("AB", false),
    ]
}

#[test]
fn earley_parser_tests_brkt_seqs() {
    let earley_parser = EarleyParser::of(dyck_grammar());

    for len in 1..10 {
        for (brkt_seq, expectation) in brkt_seq_test_cases(len) {
            assert_eq!(earley_parser.test(brkt_seq), expectation);
        }
    }
}

#[test]
fn earley_parser_tests_expressions() {
    let earley_parser = EarleyParser::of(expression_grammar());

    for (word, expected_result) in expression_test_cases() {
        let word: Vec<char> = word.chars().collect();
        assert_eq!(earley_parser.test(word), expected_result);
    }
}
