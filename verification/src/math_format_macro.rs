//! Format strings: a small LaTeX-like language for formatted text, and the
//! building of format nodes from format strings and arguments.

pub mod parse_latex;

use vstd::prelude::*;
use vstd::string::StringExecFns;
use crate::base::string_tools::{decimal, decimal_text};
use crate::math_format::{Color, FormatNode, FormattingConfig, MathFormat, is_literal};
use crate::math_format::mfmt::{color, comma_list, concat, frac, inf, lit, op, space, sup};
use crate::math_format::render::{FormatError, push_char, rendered};
use crate::math_format_macro::parse_latex::{MathCommand, ParsingError, PlaceholderFormat,
    Token, TokenTree, document_of, parse_document, tree_of, trees_of};

verus! {

/// An argument of a format string: a piece that fills a placeholder, or the
/// pieces that fill a list placeholder.
pub enum FormatArg {
    Atom(FormatNode),
    List(Vec<FormatNode>),
}

/// Why formatted text could not be made.
pub enum MathFormatError {
    /// The format string could not be read, or the arguments do not fit it.
    Parsing(ParsingError),
    /// The node could not be rendered.
    Format(FormatError),
}

/// The colour of a colour command.
pub open spec fn command_color(cmd: MathCommand) -> Option<Color> {
    match cmd {
        MathCommand::Red => Some(Color::Red),
        MathCommand::Green => Some(Color::Green),
        MathCommand::Yellow => Some(Color::Yellow),
        MathCommand::Blue => Some(Color::Blue),
        MathCommand::Magenta => Some(Color::Magenta),
        MathCommand::Cyan => Some(Color::Cyan),
        MathCommand::Orange => Some(Color::Orange),
        MathCommand::Gray => Some(Color::Gray),
        MathCommand::PaleRed => Some(Color::PaleRed),
        MathCommand::PaleGreen => Some(Color::PaleGreen),
        MathCommand::PaleBlue => Some(Color::PaleBlue),
        MathCommand::PaleMagenta => Some(Color::PaleMagenta),
        MathCommand::PaleCyan => Some(Color::PaleCyan),
        _ => None,
    }
}

/// Whether `node` is the format node of a tree of tokens with the given
/// arguments: a placeholder is its argument, a symbol a literal, a command
/// the node of its kind over the nodes of its arguments, and a sequence
/// the concatenation of the nodes of its items.
pub open spec fn built_from(tree: TokenTree, args: Seq<Option<FormatArg>>, node: FormatNode) -> bool
    decreases tree, 0nat,
{
    match tree {
        TokenTree::Placeholder(p) => p.arg_index < args.len() && match p.format {
            PlaceholderFormat::Atom => args[p.arg_index as int] matches Some(FormatArg::Atom(n))
                && node == n,
            PlaceholderFormat::List => args[p.arg_index as int] matches Some(FormatArg::List(v))
                && node matches FormatNode::CommaSeparatedList(l) && l.children@ == v@,
        },
        TokenTree::Literal(ch) => is_literal(node, seq![ch]),
        TokenTree::Command(cmd, targs) => match cmd {
            MathCommand::Subscript => targs.len() == 1 && (node matches FormatNode::Subscript(s)
                && built_from(targs[0], args, *s.child)),
            MathCommand::Superscript => targs.len() == 1 && (node matches FormatNode::Superscript(s)
                && built_from(targs[0], args, *s.child)),
            MathCommand::OperatorName => targs.len() == 1 && (node matches FormatNode::OperatorName(
                s,
            ) && built_from(targs[0], args, *s.child)),
            MathCommand::Fraction => targs.len() == 2 && (node matches FormatNode::Fraction(f)
                && built_from(targs[0], args, *f.numerator) && built_from(
                targs[1],
                args,
                *f.denominator,
            )),
            MathCommand::Space => targs.len() == 0 && node == FormatNode::SpecialCharacter(
                crate::math_format::SpecialCharacter::Space,
            ),
            MathCommand::Infinity => targs.len() == 0 && node == FormatNode::SpecialCharacter(
                crate::math_format::SpecialCharacter::Infinity,
            ),
            _ => targs.len() == 1 && (node matches FormatNode::ApplyColor(c) && Some(c.color)
                == command_color(cmd) && built_from(targs[0], args, *c.child)),
        },
        TokenTree::Sequence(ts) => node matches FormatNode::Concatenation(c) && c.children@.len()
            == ts.len() && built_list(ts, ts.len(), args, c.children@),
    }
}

/// Whether the first `i` nodes are the format nodes of the first `i` trees.
pub open spec fn built_list(ts: Seq<TokenTree>, i: nat, args: Seq<Option<FormatArg>>, nodes: Seq<FormatNode>) -> bool
    decreases ts, i,
{
    if i == 0 || i > ts.len() || i > nodes.len() {
        i == 0
    } else {
        built_list(ts, (i - 1) as nat, args, nodes) && built_from(ts[i - 1], args, nodes[i - 1])
    }
}

/// The first nodes stay the nodes of the first trees when more nodes follow.
proof fn lemma_built_prefix(
    ts: Seq<TokenTree>,
    i: nat,
    args: Seq<Option<FormatArg>>,
    a: Seq<FormatNode>,
    b: Seq<FormatNode>,
)
    requires
        i <= a.len(),
        i <= b.len(),
        forall|j: int| 0 <= j < i ==> a[j] == b[j],
    ensures
        built_list(ts, i, args, a) == built_list(ts, i, args, b),
    decreases i,
{
    if i > 0 && i <= ts.len() {
        lemma_built_prefix(ts, (i - 1) as nat, args, a, b);
    }
}

/// Whether an argument is there and of the kind that a placeholder asks for.
pub open spec fn fits_kind(arg: Option<FormatArg>, format: PlaceholderFormat) -> bool {
    match (arg, format) {
        (Some(FormatArg::Atom(_)), PlaceholderFormat::Atom) => true,
        (Some(FormatArg::List(_)), PlaceholderFormat::List) => true,
        _ => false,
    }
}

/// The arguments that are left when the node of a tree has been built:
/// each placeholder takes the argument at its index. `None` where a
/// placeholder finds no argument of its kind, or a command has not as many
/// arguments as it asks for.
pub open spec fn take_args(tree: TokenTree, args: Seq<Option<FormatArg>>) -> Option<
    Seq<Option<FormatArg>>,
>
    decreases tree, 0nat,
{
    match tree {
        TokenTree::Placeholder(p) => if p.arg_index < args.len() && fits_kind(
            args[p.arg_index as int],
            p.format,
        ) {
            Some(args.update(p.arg_index as int, None))
        } else {
            None
        },
        TokenTree::Literal(_) => Some(args),
        TokenTree::Command(cmd, targs) => if targs.len() != crate::math_format_macro::parse_latex::command_args(
            cmd,
        ) {
            None
        } else {
            take_list(targs, targs.len(), args)
        },
        TokenTree::Sequence(ts) => take_list(ts, ts.len(), args),
    }
}

/// The arguments that are left when the nodes of the first `i` trees have
/// been built, one after the other.
pub open spec fn take_list(ts: Seq<TokenTree>, i: nat, args: Seq<Option<FormatArg>>) -> Option<
    Seq<Option<FormatArg>>,
>
    decreases ts, i,
{
    if i == 0 {
        Some(args)
    } else if i > ts.len() {
        None
    } else {
        match take_list(ts, (i - 1) as nat, args) {
            None => None,
            Some(a) => take_args(ts[i - 1], a),
        }
    }
}

/// Once the building of a list has failed, it stays failed.
proof fn lemma_take_list_none(ts: Seq<TokenTree>, i: nat, n: nat, args: Seq<Option<FormatArg>>)
    requires
        i <= n <= ts.len(),
        take_list(ts, i, args) is None,
    ensures
        take_list(ts, n, args) is None,
    decreases n - i,
{
    if i < n {
        lemma_take_list_none(ts, i, (n - 1) as nat, args);
    }
}

/// What is left of the arguments was taken from them.
proof fn lemma_take_is_taken(tree: TokenTree, args: Seq<Option<FormatArg>>)
    requires
        take_args(tree, args) is Some,
    ensures
        taken_from(take_args(tree, args)->0, args),
    decreases tree, 0nat,
{
    match tree {
        TokenTree::Placeholder(p) => {},
        TokenTree::Literal(_) => {},
        TokenTree::Command(cmd, targs) => {
            lemma_take_list_is_taken(targs, targs.len(), args);
        },
        TokenTree::Sequence(ts) => {
            lemma_take_list_is_taken(ts, ts.len(), args);
        },
    }
}

/// What is left of the arguments was taken from them.
proof fn lemma_take_list_is_taken(ts: Seq<TokenTree>, i: nat, args: Seq<Option<FormatArg>>)
    requires
        take_list(ts, i, args) is Some,
    ensures
        taken_from(take_list(ts, i, args)->0, args),
    decreases ts, i,
{
    if i > 0 && i <= ts.len() {
        lemma_take_list_is_taken(ts, (i - 1) as nat, args);
        let mid = take_list(ts, (i - 1) as nat, args)->0;
        lemma_take_is_taken(ts[i - 1], mid);
        lemma_taken_chain(take_list(ts, i, args)->0, mid, args);
    }
}

/// What has been taken of the arguments is gone, what is left is as it was.
pub open spec fn taken_from(now: Seq<Option<FormatArg>>, before: Seq<Option<FormatArg>>) -> bool {
    now.len() == before.len() && forall|i: int|
        0 <= i < now.len() ==> (#[trigger] now[i]) is None || now[i] == before[i]
}

/// The message for a placeholder whose argument is missing or of the wrong kind.
pub open spec fn bad_argument() -> Seq<char> {
    "A placeholder has no argument of its kind"@
}

/// The format node of a token. The argument of each placeholder is taken
/// out of the arguments.
#[verifier::loop_isolation(false)]
pub fn make_format_for_token(token: &Token, macro_args: &mut Vec<Option<FormatArg>>) -> (r: Result<
    FormatNode,
    ParsingError,
>)
    ensures
        taken_from(final(macro_args)@, old(macro_args)@),
        match r {
            Ok(node) => take_args(tree_of(*token), old(macro_args)@) == Some(final(macro_args)@)
                && built_from(tree_of(*token), old(macro_args)@, node),
            Err(e) => take_args(tree_of(*token), old(macro_args)@) is None && e.message@
                == bad_argument(),
        },
    decreases token,
{
    let ghost args0 = macro_args@;
    proof {
        assert(taken_from(args0, args0));
    }
    match token {
        Token::Placeholder(placeholder) => {
            if placeholder.arg_index >= macro_args.len() {
                return Err(ParsingError::new("A placeholder has no argument of its kind"));
            }
            let arg = macro_args[placeholder.arg_index].take();
            proof {
                assert(macro_args@ =~= args0.update(placeholder.arg_index as int, None));
            }
            match (arg, placeholder.format) {
                (Some(FormatArg::Atom(n)), PlaceholderFormat::Atom) => Ok(lit(n)),
                (Some(FormatArg::List(v)), PlaceholderFormat::List) => {
                    let ghost vs = v@;
                    let r = comma_list(v);
                    proof {
                        let l = r->CommaSeparatedList_0;
                        assert(l.children@ =~= vs) by {
                            assert forall|i: int| 0 <= i < vs.len() implies l.children@[i] == vs[i] by {
                                assert(vs[i].shown_as(l.children@[i]));
                            }
                        }
                    }
                    Ok(r)
                },
                _ => Err(ParsingError::new("A placeholder has no argument of its kind")),
            }
        },
        Token::Literal(ch) => {
            let mut text = String::new();
            push_char(&mut text, *ch);
            assert(text@ =~= seq![*ch]);
            Ok(lit(text))
        },
        Token::Command(cmd) => {
            let ghost targs = trees_of(cmd.args@, cmd.args@.len());
            let mut nodes: Vec<FormatNode> = Vec::new();
            let mut i: usize = 0;
            proof {
                lemma_trees_index(cmd.args@, cmd.args@.len());
            }
            while i < cmd.args.len()
                invariant
                    i <= cmd.args@.len(),
                    nodes@.len() == i,
                    targs.len() == cmd.args@.len(),
                    taken_from(macro_args@, args0),
                    take_list(targs, i as nat, args0) == Some(macro_args@),
                    forall|j: int| 0 <= j < i ==> built_from(tree_of(cmd.args@[j]), args0, #[trigger] nodes@[j]),
                decreases cmd.args@.len() - i,
            {
                let ghost before = macro_args@;
                assert(targs[i as int] == tree_of(cmd.args@[i as int]));
                match make_format_for_token(&cmd.args[i], macro_args) {
                    Err(e) => {
                        proof {
                            lemma_taken_chain(macro_args@, before, args0);
                            lemma_take_list_none(targs, (i + 1) as nat, targs.len(), args0);
                        }
                        return Err(e);
                    },
                    Ok(node) => {
                        proof {
                            lemma_taken_chain(macro_args@, before, args0);
                            lemma_built_weaken(tree_of(cmd.args@[i as int]), before, args0, node);
                        }
                        nodes.push(node);
                    },
                }
                i += 1;
            }
            proof {
                lemma_trees_index(cmd.args@, cmd.args@.len());
            }
            let n = nodes.len();
            match cmd.command {
                MathCommand::Space => {
                    if n != 0 {
                        return Err(ParsingError::new("A placeholder has no argument of its kind"));
                    }
                    Ok(space())
                },
                MathCommand::Infinity => {
                    if n != 0 {
                        return Err(ParsingError::new("A placeholder has no argument of its kind"));
                    }
                    Ok(inf())
                },
                MathCommand::Fraction => {
                    if n != 2 {
                        return Err(ParsingError::new("A placeholder has no argument of its kind"));
                    }
                    let den = nodes.pop().unwrap();
                    let num = nodes.pop().unwrap();
                    Ok(frac(num, den))
                },
                other => {
                    if n != 1 {
                        return Err(ParsingError::new("A placeholder has no argument of its kind"));
                    }
                    let child = nodes.pop().unwrap();
                    Ok(
                        match other {
                            MathCommand::Subscript => crate::math_format::mfmt::sub(child),
                            MathCommand::Superscript => sup(child),
                            MathCommand::OperatorName => op(child),
                            MathCommand::Red => color(Color::Red, child),
                            MathCommand::Green => color(Color::Green, child),
                            MathCommand::Yellow => color(Color::Yellow, child),
                            MathCommand::Blue => color(Color::Blue, child),
                            MathCommand::Magenta => color(Color::Magenta, child),
                            MathCommand::Cyan => color(Color::Cyan, child),
                            MathCommand::Orange => color(Color::Orange, child),
                            MathCommand::Gray => color(Color::Gray, child),
                            MathCommand::PaleRed => color(Color::PaleRed, child),
                            MathCommand::PaleGreen => color(Color::PaleGreen, child),
                            MathCommand::PaleBlue => color(Color::PaleBlue, child),
                            MathCommand::PaleMagenta => color(Color::PaleMagenta, child),
                            _ => color(Color::PaleCyan, child),
                        },
                    )
                },
            }
        },
        Token::Sequence(seq) => {
            let ghost ts = trees_of(seq@, seq@.len());
            let mut nodes: Vec<FormatNode> = Vec::new();
            let mut i: usize = 0;
            proof {
                lemma_trees_index(seq@, seq@.len());
            }
            while i < seq.len()
                invariant
                    i <= seq@.len(),
                    nodes@.len() == i,
                    ts.len() == seq@.len(),
                    taken_from(macro_args@, args0),
                    take_list(ts, i as nat, args0) == Some(macro_args@),
                    built_list(ts, i as nat, args0, nodes@),
                decreases seq@.len() - i,
            {
                let ghost before = macro_args@;
                let ghost done = nodes@;
                assert(ts[i as int] == tree_of(seq@[i as int]));
                match make_format_for_token(&seq[i], macro_args) {
                    Err(e) => {
                        proof {
                            lemma_taken_chain(macro_args@, before, args0);
                            lemma_take_list_none(ts, (i + 1) as nat, ts.len(), args0);
                        }
                        return Err(e);
                    },
                    Ok(node) => {
                        proof {
                            lemma_taken_chain(macro_args@, before, args0);
                            lemma_built_weaken(tree_of(seq@[i as int]), before, args0, node);
                        }
                        nodes.push(node);
                        proof {
                            lemma_built_prefix(ts, i as nat, args0, done, nodes@);
                            assert(ts[i as int] == tree_of(seq@[i as int]));
                        }
                    },
                }
                i += 1;
            }
            let ghost ns = nodes@;
            let r = concat(nodes);
            proof {
                let c = r->Concatenation_0;
                assert(c.children@ =~= ns) by {
                    assert forall|j: int| 0 <= j < ns.len() implies c.children@[j] == ns[j] by {
                        assert(ns[j].shown_as(c.children@[j]));
                    }
                }
            }
            Ok(r)
        },
    }
}

/// What was taken from what was taken is taken.
proof fn lemma_taken_chain(
    now: Seq<Option<FormatArg>>,
    mid: Seq<Option<FormatArg>>,
    start: Seq<Option<FormatArg>>,
)
    requires
        taken_from(now, mid),
        taken_from(mid, start),
    ensures
        taken_from(now, start),
{
    assert forall|i: int| 0 <= i < now.len() implies (#[trigger] now[i]) is None || now[i] == start[i] by {
        assert(mid[i] is None || mid[i] == start[i]);
    }
}

/// A node built from what was left of the arguments is built from the arguments.
proof fn lemma_built_weaken(
    tree: TokenTree,
    now: Seq<Option<FormatArg>>,
    start: Seq<Option<FormatArg>>,
    node: FormatNode,
)
    requires
        taken_from(now, start),
        built_from(tree, now, node),
    ensures
        built_from(tree, start, node),
    decreases tree, 0nat,
{
    match tree {
        TokenTree::Placeholder(p) => {
            assert(now[p.arg_index as int] is None || now[p.arg_index as int] == start[p.arg_index as int]);
        },
        TokenTree::Literal(ch) => {},
        TokenTree::Command(cmd, targs) => {
            match cmd {
                MathCommand::Space => {},
                MathCommand::Infinity => {},
                MathCommand::Fraction => {
                    let f = node->Fraction_0;
                    lemma_built_weaken(targs[0], now, start, *f.numerator);
                    lemma_built_weaken(targs[1], now, start, *f.denominator);
                },
                MathCommand::Subscript => {
                    lemma_built_weaken(targs[0], now, start, *(node->Subscript_0).child);
                },
                MathCommand::Superscript => {
                    lemma_built_weaken(targs[0], now, start, *(node->Superscript_0).child);
                },
                MathCommand::OperatorName => {
                    lemma_built_weaken(targs[0], now, start, *(node->OperatorName_0).child);
                },
                _ => {
                    lemma_built_weaken(targs[0], now, start, *(node->ApplyColor_0).child);
                },
            }
        },
        TokenTree::Sequence(ts) => {
            let c = node->Concatenation_0;
            lemma_built_list_weaken(ts, ts.len(), now, start, c.children@);
        },
    }
}

/// Nodes built from what was left of the arguments are built from the arguments.
proof fn lemma_built_list_weaken(
    ts: Seq<TokenTree>,
    i: nat,
    now: Seq<Option<FormatArg>>,
    start: Seq<Option<FormatArg>>,
    nodes: Seq<FormatNode>,
)
    requires
        taken_from(now, start),
        built_list(ts, i, now, nodes),
    ensures
        built_list(ts, i, start, nodes),
    decreases ts, i,
{
    if !(i == 0 || i > ts.len() || i > nodes.len()) {
        lemma_built_list_weaken(ts, (i - 1) as nat, now, start, nodes);
        lemma_built_weaken(ts[i - 1], now, start, nodes[i - 1]);
    }
}

/// The trees of a list of tokens, tree by tree.
pub proof fn lemma_trees_index(tokens: Seq<Token>, i: nat)
    requires
        i <= tokens.len(),
    ensures
        trees_of(tokens, i).len() == i,
        forall|j: int| 0 <= j < i ==> trees_of(tokens, i)[j] == tree_of(#[trigger] tokens[j]),
    decreases i,
{
    if i > 0 {
        lemma_trees_index(tokens, (i - 1) as nat);
    }
}

/// The message for a number of arguments that is not the number of placeholders.
pub open spec fn wrong_count(expected: int, got: int) -> Seq<char> {
    "Expected "@ + decimal_text(expected) + " args, but got "@ + decimal_text(got)
}

/// The arguments, each ready to be taken.
pub open spec fn offered(args: Seq<FormatArg>) -> Seq<Option<FormatArg>> {
    Seq::new(args.len(), |i: int| Some(args[i]))
}

/// What the building of a node from a format string came to.
pub open spec fn format_outcome(src: Seq<char>, args: Seq<Option<FormatArg>>, r: Result<FormatNode, ParsingError>) -> bool {
    match document_of(src) {
        Err(m) => r is Err && (r->Err_0).message@ == m,
        Ok(d) => if d.1 != args.len() {
            r is Err && (d.1 <= i32::MAX && args.len() <= i32::MAX ==> (r->Err_0).message@
                == wrong_count(d.1 as int, args.len() as int))
        } else {
            match r {
                Ok(node) => take_args(d.0, args) is Some && built_from(d.0, args, node),
                Err(e) => take_args(d.0, args) is None && e.message@ == bad_argument(),
            }
        },
    }
}

/// The format node of a format string with its arguments. The arguments
/// must be as many as the placeholders of the string.
pub fn make_format_expr(src: &str, macro_args: &mut Vec<Option<FormatArg>>) -> (r: Result<
    FormatNode,
    ParsingError,
>)
    ensures
        taken_from(final(macro_args)@, old(macro_args)@),
        format_outcome(src@, old(macro_args)@, r),
{
    proof {
        assert(taken_from(macro_args@, macro_args@));
    }
    let latex = match parse_document(src) {
        Err(e) => {
            return Err(e);
        },
        Ok(d) => d,
    };
    if latex.num_placeholders != macro_args.len() {
        let mut message = String::from_str("Expected ");
        if latex.num_placeholders <= 0x7fff_ffff && macro_args.len() <= 0x7fff_ffff {
            message.append(decimal(latex.num_placeholders as i32).as_str());
            message.append(" args, but got ");
            message.append(decimal(macro_args.len() as i32).as_str());
        }
        return Err(ParsingError { message });
    }
    make_format_for_token(&latex.root, macro_args)
}

/// The format node of a format string with its arguments.
pub fn math_format_node(src: &str, args: Vec<FormatArg>) -> (r: Result<FormatNode, ParsingError>)
    ensures
        format_outcome(src@, offered(args@), r),
{
    let ghost given = args@;
    let mut rest = args;
    let mut back: Vec<FormatArg> = Vec::new();
    let ghost n = given.len() as int;
    loop
        invariant
            rest@.len() <= n,
            n == given.len(),
            rest@ == given.take(rest@.len() as int),
            back@.len() == n - rest@.len(),
            forall|j: int| 0 <= j < back@.len() ==> #[trigger] back@[j] == given[n - 1 - j],
        ensures
            back@.len() == n,
            forall|j: int| 0 <= j < n ==> #[trigger] back@[j] == given[n - 1 - j],
        decreases rest@.len(),
    {
        let ghost k = rest@.len() as int;
        match rest.pop() {
            None => {
                break ;
            },
            Some(a) => {
                assert(given.take(k)[k - 1] == given[k - 1]);
                assert(rest@ =~= given.take(k - 1));
                back.push(a);
            },
        }
    }
    let mut macro_args: Vec<Option<FormatArg>> = Vec::new();
    loop
        invariant
            back@.len() <= n,
            n == given.len(),
            macro_args@.len() == n - back@.len(),
            forall|j: int| 0 <= j < back@.len() ==> #[trigger] back@[j] == given[n - 1 - j],
            forall|i: int| 0 <= i < macro_args@.len() ==> #[trigger] macro_args@[i] == Some(given[i]),
        ensures
            macro_args@.len() == n,
            forall|i: int| 0 <= i < n ==> #[trigger] macro_args@[i] == Some(given[i]),
        decreases back@.len(),
    {
        match back.pop() {
            None => {
                break ;
            },
            Some(a) => {
                macro_args.push(Some(a));
            },
        }
    }
    assert(macro_args@ =~= offered(given));
    make_format_expr(src, &mut macro_args)
}

/// The text of a format string with its arguments under a configuration.
pub fn math_format(src: &str, args: Vec<FormatArg>, config: &FormattingConfig) -> (r: Result<
    String,
    MathFormatError,
>)
    ensures
        match r {
            Ok(text) => exists|node: FormatNode| #[trigger]
                format_outcome(src@, offered(args@), Ok::<FormatNode, ParsingError>(node)) && rendered(
                    node,
                    *config,
                ) == Ok::<Seq<char>, FormatError>(text@),
            Err(MathFormatError::Parsing(e)) => format_outcome(
                src@,
                offered(args@),
                Err::<FormatNode, ParsingError>(e),
            ),
            Err(MathFormatError::Format(e)) => exists|node: FormatNode| #[trigger]
                format_outcome(src@, offered(args@), Ok::<FormatNode, ParsingError>(node)) && rendered(
                    node,
                    *config,
                ) == Err::<Seq<char>, FormatError>(e),
        },
{
    let node = match math_format_node(src, args) {
        Err(e) => {
            return Err(MathFormatError::Parsing(e));
        },
        Ok(n) => n,
    };
    match node.render(config) {
        Ok(text) => Ok(text),
        Err(e) => Err(MathFormatError::Format(e)),
    }
}

} // verus!
