use cfg_core::interpret::{InterpretedSymbol, Interpreter};
use cfg_core::parsing::{EarleyParser, FormatOptions, FormatStyle, ParseTree, ParsedSymbol, Parser};
use cfg_core::{Cfg, Rule, Symbol, Var};

type Meaning = fn(Vec<InterpretedSymbol<char, i64>>) -> i64;

fn number(symbols: Vec<InterpretedSymbol<char, i64>>, at: usize) -> i64 {
    match &symbols[at] {
        InterpretedSymbol::Var(m) => *m,
        InterpretedSymbol::Term(c) => c.to_digit(10).map(|d| d as i64).unwrap_or(0),
    }
}

fn first(symbols: Vec<InterpretedSymbol<char, i64>>) -> i64 {
    number(symbols, 0)
}

fn sum(symbols: Vec<InterpretedSymbol<char, i64>>) -> i64 {
    match (&symbols[0], &symbols[2]) {
        (InterpretedSymbol::Var(a), InterpretedSymbol::Var(b)) => a + b,
        _ => panic!("two numbers were expected"),
    }
}

fn product(symbols: Vec<InterpretedSymbol<char, i64>>) -> i64 {
    match (&symbols[0], &symbols[2]) {
        (InterpretedSymbol::Var(a), InterpretedSymbol::Var(b)) => a * b,
        _ => panic!("two numbers were expected"),
    }
}

fn calculator() -> (Cfg<char>, Interpreter<char, i64, Meaning>) {
    let mut builder = Cfg::builder();
    let s = builder.add_var("sum".to_string());
    let p = builder.add_var("product".to_string());
    let d = builder.add_var("digit".to_string());
    let mut meanings: Vec<Meaning> = Vec::new();
    builder.add_rule(Rule::new(s, vec![Symbol::Var(p)]));
    meanings.push(first);
    builder.add_rule(Rule::new(s, vec![Symbol::Var(p), Symbol::Term('+'), Symbol::Var(s)]));
    meanings.push(sum);
    builder.add_rule(Rule::new(p, vec![Symbol::Var(d)]));
    meanings.push(first);
    builder.add_rule(Rule::new(p, vec![Symbol::Var(d), Symbol::Term('*'), Symbol::Var(p)]));
    meanings.push(product);
    for c in ['0', '1', '2', '3', '4', '5', '6', '7', '8', '9'] {
        builder.add_rule(Rule::new(d, vec![Symbol::Term(c)]));
        meanings.push(first);
    }
    (builder.build(s), Interpreter::new(meanings))
}

#[test]
fn interpreter_folds_the_tree_from_the_leaves() {
    let (cfg, interpreter) = calculator();
    let parser = EarleyParser::of(cfg);
    let tree = parser.parse("2*3+4*5+6".chars().collect()).expect("a sum");
    assert_eq!(interpreter.interpret(tree), 32);
    let tree = parser.parse("7".chars().collect()).expect("a sum");
    assert_eq!(interpreter.interpret(tree), 7);
    assert!(parser.parse("7+".chars().collect()).is_none());
}

fn bracket_tree() -> ParseTree<char> {
    let mut builder = Cfg::builder();
    let start = builder.add_var("start".to_string());
    builder.add_rule(Rule::new(start, vec![Symbol::Term('('), Symbol::Term(')')]));
    builder.add_rule(Rule::new(
        start,
        vec![Symbol::Term('('), Symbol::Var(start), Symbol::Term(')')],
    ));
    builder.add_rule(Rule::new(start, vec![Symbol::Var(start), Symbol::Var(start)]));
    let parser = EarleyParser::of(builder.build(start));
    parser.parse("(())".chars().collect()).expect("balanced")
}

#[test]
fn drawing_with_ascii_branches() {
    let tree = bracket_tree();
    let names = vec!["start".to_string()];
    let formatter = tree.fmt_with_options(FormatOptions {
        vars_map: &names,
        indendation: 1,
        style: FormatStyle::ascii(),
    });
    let expected = "start\n|- (\n|- start\n|  |- (\n|  `- )\n`- )\n";
    assert_eq!(formatter.text().into_iter().collect::<String>(), expected);
}

#[test]
fn drawing_with_double_lines_and_wide_branches() {
    let tree = bracket_tree();
    let names = vec!["S".to_string()];
    let formatter = tree.fmt_with_options(FormatOptions {
        vars_map: &names,
        indendation: 2,
        style: FormatStyle::box_drawing(),
    });
    let expected = "S\n\u{2560}\u{2550}\u{2550} (\n\u{2560}\u{2550}\u{2550} S\n\u{2551}   \u{2560}\u{2550}\u{2550} (\n\u{2551}   \u{255a}\u{2550}\u{2550} )\n\u{255a}\u{2550}\u{2550} )\n";
    assert_eq!(formatter.text().into_iter().collect::<String>(), expected);
}

#[test]
fn drawing_of_a_tree_without_children() {
    let tree: ParseTree<char> = ParseTree { root: Var(1), rule_idx: 0, children: Vec::new() };
    let names = vec!["a".to_string(), "b".to_string()];
    let formatter = tree.fmt_with_options(FormatOptions {
        vars_map: &names,
        indendation: 0,
        style: FormatStyle::ascii(),
    });
    assert_eq!(formatter.text().into_iter().collect::<String>(), "b\n");
    let leaf = ParsedSymbol::Term('x');
    assert!(matches!(leaf, ParsedSymbol::Term('x')));
}
