//! Drawing a parse tree as text, one node on each line.

use vstd::prelude::*;
use crate::parsing::{ParseTree, ParsedSymbol};

verus! {

/// A terminal that can be written as text.
pub trait Show {
    /// The text of this terminal.
    spec fn shown(&self) -> Seq<char>;

    /// The text of this terminal.
    fn show(&self) -> (text: Vec<char>)
        ensures
            text@ == self.shown(),
    ;
}

impl Show for char {
    open spec fn shown(&self) -> Seq<char> {
        seq![*self]
    }

    fn show(&self) -> (text: Vec<char>) {
        let mut text: Vec<char> = Vec::new();
        text.push(*self);
        text
    }
}

/// The characters of which the branches are drawn.
#[derive(Debug, Clone, Copy)]
pub struct FormatStyle {
    pub horizontal: char,
    pub vertical: char,
    pub vertical_and_right: char,
    pub up_and_right: char,
}

impl FormatStyle {
    /// Branches of `-`, `|` and `` ` ``.
    pub fn ascii() -> (style: Self)
        ensures
            style == (FormatStyle {
                horizontal: '-',
                vertical: '|',
                vertical_and_right: '|',
                up_and_right: '`',
            }),
    {
        FormatStyle { horizontal: '-', vertical: '|', vertical_and_right: '|', up_and_right: '`' }
    }

    /// Branches of double lines.
    pub fn box_drawing() -> (style: Self)
        ensures
            style == (FormatStyle {
                horizontal: '\u{2550}',
                vertical: '\u{2551}',
                vertical_and_right: '\u{2560}',
                up_and_right: '\u{255a}',
            }),
    {
        FormatStyle {
            horizontal: '\u{2550}',
            vertical: '\u{2551}',
            vertical_and_right: '\u{2560}',
            up_and_right: '\u{255a}',
        }
    }
}

/// How a parse tree is drawn: the names of the variables, the width of a
/// branch and the characters of which it is drawn.
pub struct FormatOptions<'a> {
    pub vars_map: &'a Vec<String>,
    pub indendation: usize,
    pub style: FormatStyle,
}

/// A parse tree together with the way to draw it.
pub struct ParseTreeFormatter<'a, T> {
    pub parse_tree: &'a ParseTree<T>,
    pub options: FormatOptions<'a>,
}

/// `n` times the character `c`.
pub open spec fn repeat(c: char, n: nat) -> Seq<char> {
    Seq::new(n, |i: int| c)
}

/// What stands before a node for the branches above it: for each of them
/// a vertical line if it goes on below, else a blank, and blanks to the
/// width of a branch.
pub open spec fn margin(bars: Seq<bool>, indent: nat, style: FormatStyle) -> Seq<char>
    decreases bars.len(),
{
    if bars.len() == 0 {
        Seq::empty()
    } else {
        margin(bars.drop_last(), indent, style) + seq![
            if bars.last() {
                style.vertical
            } else {
                ' '
            },
        ] + repeat(' ', indent + 1)
    }
}

/// The line of a node with the text `text`; `bars` says, for each branch
/// from the root down to the node, whether it goes on below.
pub open spec fn node_line(text: Seq<char>, bars: Seq<bool>, indent: nat, style: FormatStyle) -> Seq<
    char,
> {
    (if bars.len() == 0 {
        Seq::empty()
    } else {
        margin(bars.drop_last(), indent, style) + seq![
            if bars.last() {
                style.vertical_and_right
            } else {
                style.up_and_right
            },
        ] + repeat(style.horizontal, indent) + seq![' ']
    }) + text + seq!['\n']
}

/// Whether the variable at every node of `tree` has a name.
pub open spec fn named<T>(tree: ParseTree<T>, names: Seq<String>) -> bool
    decreases tree,
{
    &&& tree.root.0 < names.len()
    &&& forall|i: int|
        0 <= i < tree.children@.len() ==> (#[trigger] tree.children@[i] matches ParsedSymbol::Var(
            sub,
        ) ==> named(*sub, names))
}

/// The lines of `tree`: that of its root, then those of its children.
pub open spec fn drawing<T: Show>(
    tree: ParseTree<T>,
    names: Seq<String>,
    bars: Seq<bool>,
    indent: nat,
    style: FormatStyle,
) -> Seq<char>
    decreases tree, 1nat,
{
    node_line(names[tree.root.0 as int]@, bars, indent, style) + drawing_of_children(
        tree.children@,
        tree.children@.len() as int,
        names,
        bars,
        indent,
        style,
    )
}

/// The lines of the first `upto` of the children `children`.
pub open spec fn drawing_of_children<T: Show>(
    children: Seq<ParsedSymbol<T>>,
    upto: int,
    names: Seq<String>,
    bars: Seq<bool>,
    indent: nat,
    style: FormatStyle,
) -> Seq<char>
    decreases children, 0nat, upto,
{
    if upto <= 0 || upto > children.len() {
        Seq::empty()
    } else {
        let below = bars.push(upto != children.len());
        drawing_of_children(children, upto - 1, names, bars, indent, style) + match children[upto
            - 1] {
            ParsedSymbol::Term(t) => node_line(t.shown(), below, indent, style),
            ParsedSymbol::Var(sub) => drawing(*sub, names, below, indent, style),
        }
    }
}

/// The characters of `text`.
fn chars_of(text: &String) -> (chars: Vec<char>)
    ensures
        chars@ == text@,
{
    let text = text.as_str();
    let len = text.unicode_len();
    let mut chars: Vec<char> = Vec::new();
    let mut i: usize = 0;
    while i < len
        invariant
            i <= len,
            len == text@.len(),
            chars@ == text@.take(i as int),
        decreases len - i,
    {
        chars.push(text.get_char(i));
        proof {
            assert(chars@ =~= text@.take(i + 1));
        }
        i += 1;
    }
    proof {
        assert(text@.take(len as int) == text@);
    }
    chars
}

/// Writes `c` to `out`, `n` times.
fn push_repeated(out: &mut Vec<char>, c: char, n: usize)
    ensures
        final(out)@ == old(out)@ + repeat(c, n as nat),
{
    let ghost before = out@;
    let mut i: usize = 0;
    while i < n
        invariant
            i <= n,
            out@ == before + repeat(c, i as nat),
        decreases n - i,
    {
        out.push(c);
        proof {
            assert(out@ =~= before + repeat(c, (i + 1) as nat));
        }
        i += 1;
    }
}

/// Writes the line of a node to `out`.
fn fmt_parse_tree_node(node: &Vec<char>, options: &FormatOptions, bars: &Vec<bool>, out: &mut Vec<char>)
    requires
        options.indendation < usize::MAX,
    ensures
        final(out)@ == old(out)@ + node_line(
            node@,
            bars@,
            options.indendation as nat,
            options.style,
        ),
{
    let ghost before = out@;
    let ghost indent = options.indendation as nat;
    let style = options.style;
    if bars.len() > 1 {
        let mut i: usize = 0;
        while i < bars.len() - 1
            invariant
                bars@.len() > 1,
                i <= bars@.len() - 1,
                indent == options.indendation,
                options.indendation < usize::MAX,
                style == options.style,
                out@ == before + margin(bars@.take(i as int), indent, style),
            decreases bars@.len() - 1 - i,
        {
            let ghost had = out@;
            if bars[i] {
                out.push(style.vertical);
            } else {
                out.push(' ');
            }
            push_repeated(out, ' ', options.indendation + 1);
            proof {
                assert(bars@.take(i + 1).drop_last() == bars@.take(i as int));
                assert(out@ =~= before + margin(bars@.take(i + 1), indent, style));
            }
            i += 1;
        }
        proof {
            assert(bars@.take(bars@.len() - 1) == bars@.drop_last());
        }
    }
    if bars.len() > 0 {
        if bars[bars.len() - 1] {
            out.push(style.vertical_and_right);
        } else {
            out.push(style.up_and_right);
        }
        push_repeated(out, style.horizontal, options.indendation);
        out.push(' ');
    }
    let mut k: usize = 0;
    let ghost lead = out@;
    while k < node.len()
        invariant
            k <= node@.len(),
            out@ == lead + node@.take(k as int),
        decreases node@.len() - k,
    {
        out.push(node[k]);
        proof {
            assert(out@ =~= lead + node@.take(k + 1));
        }
        k += 1;
    }
    out.push('\n');
    proof {
        assert(node@.take(node@.len() as int) == node@);
        assert(out@ =~= before + node_line(node@, bars@, indent, style));
    }
}

impl<T: Show> ParseTree<T> {
    /// This tree together with the way to draw it.
    pub fn fmt_with_options<'a>(&'a self, options: FormatOptions<'a>) -> (formatter:
        ParseTreeFormatter<'a, T>)
        ensures
            formatter.parse_tree == self,
            formatter.options == options,
    {
        ParseTreeFormatter { parse_tree: self, options }
    }

    /// Writes the lines of this tree to `out`.
    fn fmt_impl(&self, options: &FormatOptions, bars: &mut Vec<bool>, out: &mut Vec<char>)
        requires
            options.indendation < usize::MAX,
            named(*self, options.vars_map@),
        ensures
            final(bars)@ == old(bars)@,
            final(out)@ == old(out)@ + drawing(
                *self,
                options.vars_map@,
                old(bars)@,
                options.indendation as nat,
                options.style,
            ),
        decreases self,
    {
        let ghost before = out@;
        let ghost bars0 = bars@;
        let ghost names = options.vars_map@;
        let ghost indent = options.indendation as nat;
        let name = chars_of(&options.vars_map[self.root.0]);
        fmt_parse_tree_node(&name, options, bars, out);
        let ghost head = out@;
        let mut i: usize = 0;
        while i < self.children.len()
            invariant
                i <= self.children@.len(),
                options.indendation < usize::MAX,
                named(*self, options.vars_map@),
                names == options.vars_map@,
                indent == options.indendation,
                bars@ == bars0,
                out@ == head + drawing_of_children(
                    self.children@,
                    i as int,
                    names,
                    bars0,
                    indent,
                    options.style,
                ),
            decreases self.children@.len() - i,
        {
            let is_last_child = i + 1 == self.children.len();
            let ghost had = out@;
            bars.push(!is_last_child);
            match &self.children[i] {
                ParsedSymbol::Term(term) => {
                    let text = term.show();
                    fmt_parse_tree_node(&text, options, bars, out);
                },
                ParsedSymbol::Var(parse_tree) => {
                    proof {
                        vstd::std_specs::vec::axiom_vec_index_decreases(self.children, i as int);
                        assert(decreases_to!(*self => self.children));
                        assert(decreases_to!(self.children => self.children[i as int]));
                        assert(decreases_to!(*self => **parse_tree));
                    }
                    parse_tree.fmt_impl(options, bars, out);
                },
            }
            bars.pop();
            proof {
                assert(bars@ =~= bars0);
                assert(out@ =~= head + drawing_of_children(
                    self.children@,
                    i + 1,
                    names,
                    bars0,
                    indent,
                    options.style,
                ));
            }
            i += 1;
        }
        proof {
            assert(out@ =~= before + drawing(*self, names, bars0, indent, options.style));
        }
    }
}

impl<'a, T: Show> ParseTreeFormatter<'a, T> {
    /// The drawing of the tree, as its characters: the line of its root,
    /// then the drawings of its children, each behind the branch that leads
    /// to it.
    pub fn text(&self) -> (text: Vec<char>)
        requires
            self.options.indendation < usize::MAX,
            named(*self.parse_tree, self.options.vars_map@),
        ensures
            text@ == drawing(
                *self.parse_tree,
                self.options.vars_map@,
                Seq::empty(),
                self.options.indendation as nat,
                self.options.style,
            ),
    {
        let mut bars: Vec<bool> = Vec::new();
        let mut out: Vec<char> = Vec::new();
        self.parse_tree.fmt_impl(&self.options, &mut bars, &mut out);
        proof {
            assert(Seq::<char>::empty() + drawing(
                *self.parse_tree,
                self.options.vars_map@,
                Seq::empty(),
                self.options.indendation as nat,
                self.options.style,
            ) =~= out@);
        }
        out
    }
}

} // verus!
