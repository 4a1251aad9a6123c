//! The parser of format strings.
//!
//! A format string is cut into lexemes: symbols, commands that begin with a
//! backslash, and placeholders in angle brackets. The lexemes are then read
//! as a tree of tokens: a command takes as many arguments as it asks for,
//! and braces make a sequence of tokens into one argument.

use vstd::prelude::*;
use vstd::string::{StringExecFns, StrSliceExecFns};
use crate::math_format::render::push_char;

verus! {

/// Why a format string could not be read.
#[derive(PartialEq, Eq, Debug)]
pub struct ParsingError {
    pub message: String,
}

impl ParsingError {
    pub fn new(message: &str) -> (r: Self)
        ensures
            r.message@ == message@,
    {
        Self { message: message.to_owned() }
    }
}

/// How the argument of a placeholder is shown.
#[derive(PartialEq, Eq, Clone, Copy, Debug, Structural)]
pub enum PlaceholderFormat {
    Atom,
    List,
}

/// A place in a format string that an argument fills.
#[derive(PartialEq, Eq, Clone, Copy, Debug, Structural)]
pub struct Placeholder {
    pub format: PlaceholderFormat,
    pub arg_index: usize,
}

/// The commands of the language.
#[derive(PartialEq, Eq, Clone, Copy, Debug, Structural)]
pub enum MathCommand {
    Subscript,
    Superscript,
    OperatorName,
    Fraction,
    Space,
    Infinity,
    Red,
    Green,
    Yellow,
    Blue,
    Magenta,
    Cyan,
    Orange,
    Gray,
    PaleRed,
    PaleGreen,
    PaleBlue,
    PaleMagenta,
    PaleCyan,
}

/// A command with its arguments.
#[derive(PartialEq, Eq, Debug)]
pub struct Command {
    pub command: MathCommand,
    pub args: Vec<Token>,
}

/// A node of the tree that a format string is read as.
#[derive(PartialEq, Eq, Debug)]
pub enum Token {
    Placeholder(Placeholder),
    Literal(char),
    Command(Command),
    Sequence(Vec<Token>),
}

/// A format string as read.
#[derive(PartialEq, Eq, Debug)]
pub struct Document {
    pub root: Token,
    pub num_placeholders: usize,
}

/// A piece of a format string.
#[derive(PartialEq, Eq, Clone, Copy, Debug, Structural)]
pub enum Lexeme {
    Symbol(char),
    Command(MathCommand),
    Placeholder(Placeholder),
}

/// The tree of a token, as a value of the model.
pub ghost enum TokenTree {
    Placeholder(Placeholder),
    Literal(char),
    Command(MathCommand, Seq<TokenTree>),
    Sequence(Seq<TokenTree>),
}

/// The tree of a token.
pub open spec fn tree_of(token: Token) -> TokenTree
    decreases token, 0nat,
{
    match token {
        Token::Placeholder(p) => TokenTree::Placeholder(p),
        Token::Literal(c) => TokenTree::Literal(c),
        Token::Command(c) => TokenTree::Command(c.command, trees_of(c.args@, c.args@.len())),
        Token::Sequence(v) => TokenTree::Sequence(trees_of(v@, v@.len())),
    }
}

/// The trees of the first `i` tokens of a list.
pub open spec fn trees_of(tokens: Seq<Token>, i: nat) -> Seq<TokenTree>
    decreases tokens, i,
{
    if i == 0 || i > tokens.len() {
        Seq::empty()
    } else {
        trees_of(tokens, (i - 1) as nat).push(tree_of(tokens[i - 1]))
    }
}

/// The number of arguments of a command.
pub open spec fn command_args(cmd: MathCommand) -> nat {
    match cmd {
        MathCommand::Fraction => 2,
        MathCommand::Space => 0,
        MathCommand::Infinity => 0,
        _ => 1,
    }
}

/// The number of arguments of a command.
pub fn num_command_args(cmd: MathCommand) -> (r: i32)
    ensures
        r == command_args(cmd),
{
    match cmd {
        MathCommand::Subscript => 1,
        MathCommand::Superscript => 1,
        MathCommand::OperatorName => 1,
        MathCommand::Fraction => 2,
        MathCommand::Space => 0,
        MathCommand::Infinity => 0,
        MathCommand::Red => 1,
        MathCommand::Green => 1,
        MathCommand::Yellow => 1,
        MathCommand::Blue => 1,
        MathCommand::Magenta => 1,
        MathCommand::Cyan => 1,
        MathCommand::Orange => 1,
        MathCommand::Gray => 1,
        MathCommand::PaleRed => 1,
        MathCommand::PaleGreen => 1,
        MathCommand::PaleBlue => 1,
        MathCommand::PaleMagenta => 1,
        MathCommand::PaleCyan => 1,
    }
}

/// The command with the given name.
pub open spec fn command_named(name: Seq<char>) -> Option<MathCommand> {
    if name == "_"@ {
        Some(MathCommand::Subscript)
    } else if name == "^"@ {
        Some(MathCommand::Superscript)
    } else if name == "op"@ {
        Some(MathCommand::OperatorName)
    } else if name == "frac"@ {
        Some(MathCommand::Fraction)
    } else if name == " "@ {
        Some(MathCommand::Space)
    } else if name == "inf"@ {
        Some(MathCommand::Infinity)
    } else if name == "red"@ {
        Some(MathCommand::Red)
    } else if name == "green"@ {
        Some(MathCommand::Green)
    } else if name == "yellow"@ {
        Some(MathCommand::Yellow)
    } else if name == "blue"@ {
        Some(MathCommand::Blue)
    } else if name == "magenta"@ {
        Some(MathCommand::Magenta)
    } else if name == "cyan"@ {
        Some(MathCommand::Cyan)
    } else if name == "orange"@ {
        Some(MathCommand::Orange)
    } else if name == "gray"@ {
        Some(MathCommand::Gray)
    } else if name == "palered"@ {
        Some(MathCommand::PaleRed)
    } else if name == "palegreen"@ {
        Some(MathCommand::PaleGreen)
    } else if name == "paleblue"@ {
        Some(MathCommand::PaleBlue)
    } else if name == "palemagenta"@ {
        Some(MathCommand::PaleMagenta)
    } else if name == "palecyan"@ {
        Some(MathCommand::PaleCyan)
    } else {
        None
    }
}

/// Whether two texts are the same.
pub fn same_text(a: &str, b: &str) -> (r: bool)
    ensures
        r == (a@ == b@),
{
    let n = a.unicode_len();
    if n != b.unicode_len() {
        return false;
    }
    let mut i: usize = 0;
    while i < n
        invariant
            i <= n,
            n == a@.len(),
            n == b@.len(),
            forall|j: int| 0 <= j < i ==> a@[j] == b@[j],
        decreases n - i,
    {
        if a.get_char(i) != b.get_char(i) {
            return false;
        }
        i += 1;
    }
    assert(a@ =~= b@);
    true
}

/// The message for a name that is no command.
pub open spec fn unknown_command(name: Seq<char>) -> Seq<char> {
    "Unknown command: '"@ + name + "'"@
}

/// The message for a format that no placeholder has.
pub open spec fn unknown_format(format: Seq<char>) -> Seq<char> {
    "Unknown placeholder format: '"@ + format + "'"@
}

/// What a step of reading came to: the value, or the message of the error.
pub open spec fn outcome<T>(r: Result<T, ParsingError>) -> Result<T, Seq<char>> {
    match r {
        Ok(v) => Ok(v),
        Err(e) => Err(e.message@),
    }
}

impl Lexeme {
    /// The lexeme of the command with the given name.
    pub fn from_command_name(cmd: &str) -> (r: Result<Self, ParsingError>)
        ensures
            outcome(r) == match command_named(cmd@) {
                Some(c) => Ok::<Lexeme, Seq<char>>(Lexeme::Command(c)),
                None => Err::<Lexeme, Seq<char>>(unknown_command(cmd@)),
            },
    {
        let found = if same_text(cmd, "_") {
            Some(MathCommand::Subscript)
        } else if same_text(cmd, "^") {
            Some(MathCommand::Superscript)
        } else if same_text(cmd, "op") {
            Some(MathCommand::OperatorName)
        } else if same_text(cmd, "frac") {
            Some(MathCommand::Fraction)
        } else if same_text(cmd, " ") {
            Some(MathCommand::Space)
        } else if same_text(cmd, "inf") {
            Some(MathCommand::Infinity)
        } else if same_text(cmd, "red") {
            Some(MathCommand::Red)
        } else if same_text(cmd, "green") {
            Some(MathCommand::Green)
        } else if same_text(cmd, "yellow") {
            Some(MathCommand::Yellow)
        } else if same_text(cmd, "blue") {
            Some(MathCommand::Blue)
        } else if same_text(cmd, "magenta") {
            Some(MathCommand::Magenta)
        } else if same_text(cmd, "cyan") {
            Some(MathCommand::Cyan)
        } else if same_text(cmd, "orange") {
            Some(MathCommand::Orange)
        } else if same_text(cmd, "gray") {
            Some(MathCommand::Gray)
        } else if same_text(cmd, "palered") {
            Some(MathCommand::PaleRed)
        } else if same_text(cmd, "palegreen") {
            Some(MathCommand::PaleGreen)
        } else if same_text(cmd, "paleblue") {
            Some(MathCommand::PaleBlue)
        } else if same_text(cmd, "palemagenta") {
            Some(MathCommand::PaleMagenta)
        } else if same_text(cmd, "palecyan") {
            Some(MathCommand::PaleCyan)
        } else {
            None
        };
        match found {
            Some(v) => Ok(Lexeme::Command(v)),
            None => {
                let mut message = String::from_str("Unknown command: '");
                message.append(cmd);
                message.append("'");
                Err(ParsingError { message })
            },
        }
    }
}

/// The format of a placeholder with the given text between its brackets.
pub open spec fn placeholder_format(format: Seq<char>) -> Option<PlaceholderFormat> {
    if format == ""@ {
        Some(PlaceholderFormat::Atom)
    } else if format == ","@ {
        Some(PlaceholderFormat::List)
    } else {
        None
    }
}

/// The format of a placeholder with the given text between its brackets.
pub fn parse_placeholder_format(format: &str) -> (r: Result<PlaceholderFormat, ParsingError>)
    ensures
        outcome(r) == match placeholder_format(format@) {
            Some(f) => Ok::<PlaceholderFormat, Seq<char>>(f),
            None => Err::<PlaceholderFormat, Seq<char>>(unknown_format(format@)),
        },
{
    if same_text(format, "") {
        Ok(PlaceholderFormat::Atom)
    } else if same_text(format, ",") {
        Ok(PlaceholderFormat::List)
    } else {
        let mut message = String::from_str("Unknown placeholder format: '");
        message.append(format);
        message.append("'");
        Err(ParsingError { message })
    }
}

/// Whether the character is an ASCII letter.
pub open spec fn ascii_letter(ch: char) -> bool {
    ('a' <= ch && ch <= 'z') || ('A' <= ch && ch <= 'Z')
}

/// Whether the character is ASCII white space: a space, a tab, a line feed,
/// a form feed or a carriage return.
pub open spec fn ascii_space(ch: char) -> bool {
    ch == ' ' || ch == '\t' || ch == '\n' || ch == '\x0C' || ch == '\r'
}

/// Whether the character is an ASCII letter.
pub fn is_ascii_letter(ch: char) -> (r: bool)
    ensures
        r == ascii_letter(ch),
{
    ('a' <= ch && ch <= 'z') || ('A' <= ch && ch <= 'Z')
}

/// Whether the character is ASCII white space.
pub fn is_ascii_space(ch: char) -> (r: bool)
    ensures
        r == ascii_space(ch),
{
    ch == ' ' || ch == '\t' || ch == '\n' || ch == '\x0C' || ch == '\r'
}

/// The state of the cutting of a format string into lexemes.
pub ghost struct LexState {
    /// The name of the command that is being read, if one is.
    pub command: Option<Seq<char>>,
    /// Whether the last character was the backslash that begins a command.
    pub backslash: bool,
    /// The text of the placeholder that is being read, if one is.
    pub placeholder: Option<Seq<char>>,
    /// The number of placeholders read.
    pub next_id: nat,
    /// The lexemes read.
    pub out: Seq<Lexeme>,
}

/// The state with the lexeme of a command added, or the message for a name
/// that is no command.
pub open spec fn emit_command(st: LexState, name: Seq<char>) -> Result<LexState, Seq<char>> {
    match command_named(name) {
        Some(c) => Ok(LexState { out: st.out.push(Lexeme::Command(c)), ..st }),
        None => Err(unknown_command(name)),
    }
}

/// A character read where neither a command nor a placeholder is being read.
pub open spec fn lex_plain(st: LexState, ch: char) -> Result<LexState, Seq<char>> {
    if ascii_space(ch) {
        Ok(st)
    } else if ch == '\\' {
        Ok(LexState { backslash: true, ..st })
    } else if ch == '_' || ch == '^' {
        emit_command(st, seq![ch])
    } else if ch == '<' {
        Ok(LexState { placeholder: Some(Seq::empty()), ..st })
    } else if ch == '>' {
        Err("Unmatched '>'"@)
    } else {
        Ok(LexState { out: st.out.push(Lexeme::Symbol(ch)), ..st })
    }
}

/// A character read.
pub open spec fn lex_step(st: LexState, ch: char) -> Result<LexState, Seq<char>> {
    if st.placeholder is Some {
        if ch == '>' {
            match placeholder_format(st.placeholder->0) {
                None => Err(unknown_format(st.placeholder->0)),
                Some(f) => Ok(
                    LexState {
                        out: st.out.push(
                            Lexeme::Placeholder(
                                Placeholder { format: f, arg_index: st.next_id as usize },
                            ),
                        ),
                        next_id: st.next_id + 1,
                        placeholder: None,
                        ..st
                    },
                ),
            }
        } else {
            Ok(LexState { placeholder: Some((st.placeholder->0).push(ch)), ..st })
        }
    } else if st.backslash {
        if ascii_letter(ch) {
            Ok(LexState { command: Some(seq![ch]), backslash: false, ..st })
        } else {
            emit_command(LexState { backslash: false, ..st }, seq![ch])
        }
    } else if st.command is Some {
        if ascii_letter(ch) {
            Ok(LexState { command: Some((st.command->0).push(ch)), ..st })
        } else {
            match emit_command(LexState { command: None, ..st }, st.command->0) {
                Err(m) => Err(m),
                Ok(st2) => lex_plain(st2, ch),
            }
        }
    } else {
        lex_plain(st, ch)
    }
}

/// The state after the first `i` characters.
pub open spec fn lex_scan(src: Seq<char>, i: nat) -> Result<LexState, Seq<char>>
    decreases i,
{
    if i == 0 || i > src.len() {
        Ok(LexState { command: None, backslash: false, placeholder: None, next_id: 0, out: Seq::empty() })
    } else {
        match lex_scan(src, (i - 1) as nat) {
            Err(m) => Err(m),
            Ok(st) => lex_step(st, src[i - 1]),
        }
    }
}

/// The lexemes of a format string and the number of its placeholders. A
/// placeholder that is not closed at the end of the string is dropped.
pub open spec fn lexemes_of(src: Seq<char>) -> Result<(Seq<Lexeme>, nat), Seq<char>> {
    match lex_scan(src, src.len()) {
        Err(m) => Err(m),
        Ok(st) => match (if st.command is Some {
            emit_command(LexState { command: None, ..st }, st.command->0)
        } else {
            Ok(st)
        }) {
            Err(m) => Err(m),
            Ok(st2) => if st2.backslash {
                Err("Format string cannot end with '\\'"@)
            } else {
                Ok((st2.out, st2.next_id))
            },
        },
    }
}

/// Once the cutting has failed, it stays failed.
proof fn lemma_lex_error(src: Seq<char>, i: nat, n: nat)
    requires
        i <= n <= src.len(),
        lex_scan(src, i) is Err,
    ensures
        lex_scan(src, n) == lex_scan(src, i),
    decreases n - i,
{
    if i < n {
        lemma_lex_error(src, i, (n - 1) as nat);
    }
}

/// The text of an optional string.
pub open spec fn text_of(s: Option<String>) -> Option<Seq<char>> {
    match s {
        Some(t) => Some(t@),
        None => None,
    }
}

/// Cuts a format string into lexemes, and counts its placeholders.
pub fn to_lexemes(src: &str) -> (r: Result<(Vec<Lexeme>, usize), ParsingError>)
    ensures
        match r {
            Ok(v) => lexemes_of(src@) == Ok::<(Seq<Lexeme>, nat), Seq<char>>((v.0@, v.1 as nat)),
            Err(e) => lexemes_of(src@) == Err::<(Seq<Lexeme>, nat), Seq<char>>(e.message@),
        },
{
    let mut current_command: Option<String> = None;
    let mut just_saw_backslash = false;
    let mut current_placeholder: Option<String> = None;
    let mut next_placeholder_id: usize = 0;
    let mut ret: Vec<Lexeme> = Vec::new();
    let n = src.unicode_len();
    let mut i: usize = 0;
    while i < n
        invariant
            i <= n,
            n == src@.len(),
            next_placeholder_id <= i,
            lex_scan(src@, i as nat) == Ok::<LexState, Seq<char>>(
                LexState {
                    command: text_of(current_command),
                    backslash: just_saw_backslash,
                    placeholder: text_of(current_placeholder),
                    next_id: next_placeholder_id as nat,
                    out: ret@,
                },
            ),
        decreases n - i,
    {
        let ch = src.get_char(i);
        let ghost st = lex_scan(src@, i as nat)->Ok_0;
        let mut read_plain = false;
        if current_placeholder.is_some() {
            let mut placeholder = current_placeholder.unwrap();
            if ch == '>' {
                match parse_placeholder_format(placeholder.as_str()) {
                    Err(e) => {
                        proof {
                            lemma_lex_error(src@, (i + 1) as nat, n as nat);
                        }
                        return Err(e);
                    },
                    Ok(format) => {
                        ret.push(Lexeme::Placeholder(Placeholder { format, arg_index: next_placeholder_id }));
                    },
                }
                next_placeholder_id += 1;
                current_placeholder = None;
            } else {
                push_char(&mut placeholder, ch);
                current_placeholder = Some(placeholder);
            }
        } else if just_saw_backslash {
            let mut command = String::new();
            push_char(&mut command, ch);
            assert(command@ =~= seq![ch]);
            if is_ascii_letter(ch) {
                current_command = Some(command);
            } else {
                match Lexeme::from_command_name(command.as_str()) {
                    Err(e) => {
                        proof {
                            lemma_lex_error(src@, (i + 1) as nat, n as nat);
                        }
                        return Err(e);
                    },
                    Ok(l) => {
                        ret.push(l);
                    },
                }
            }
            just_saw_backslash = false;
        } else if current_command.is_some() {
            let mut command = current_command.unwrap();
            if is_ascii_letter(ch) {
                push_char(&mut command, ch);
                current_command = Some(command);
            } else {
                match Lexeme::from_command_name(command.as_str()) {
                    Err(e) => {
                        proof {
                            lemma_lex_error(src@, (i + 1) as nat, n as nat);
                        }
                        return Err(e);
                    },
                    Ok(l) => {
                        ret.push(l);
                    },
                }
                current_command = None;
                read_plain = true;
            }
        } else {
            read_plain = true;
        }
        if read_plain {
            if is_ascii_space(ch) {
                // skip
            } else if ch == '\\' {
                just_saw_backslash = true;
            } else if ch == '_' || ch == '^' {
                let mut name = String::new();
                push_char(&mut name, ch);
                assert(name@ =~= seq![ch]);
                match Lexeme::from_command_name(name.as_str()) {
                    Err(e) => {
                        proof {
                            lemma_lex_error(src@, (i + 1) as nat, n as nat);
                        }
                        return Err(e);
                    },
                    Ok(l) => {
                        ret.push(l);
                    },
                }
            } else if ch == '<' {
                current_placeholder = Some(String::new());
            } else if ch == '>' {
                proof {
                    lemma_lex_error(src@, (i + 1) as nat, n as nat);
                }
                return Err(ParsingError::new("Unmatched '>'"));
            } else {
                ret.push(Lexeme::Symbol(ch));
            }
        }
        i += 1;
    }
    if current_command.is_some() {
        let command = current_command.unwrap();
        match Lexeme::from_command_name(command.as_str()) {
            Err(e) => {
                return Err(e);
            },
            Ok(l) => {
                ret.push(l);
            },
        }
    }
    if just_saw_backslash {
        return Err(ParsingError::new("Format string cannot end with '\\'"));
    }
    Ok((ret, next_placeholder_id))
}

/// The tree of the atom that begins at `pos`, and the position after it:
/// a symbol, a placeholder, or a command with its arguments.
pub open spec fn atom_at(ls: Seq<Lexeme>, pos: nat) -> Result<(TokenTree, nat), Seq<char>>
    decreases ls.len() - pos, 1nat, 0nat,
{
    if pos >= ls.len() {
        Err("Unexpected end-of-input in parse_atom"@)
    } else {
        match ls[pos as int] {
            Lexeme::Symbol(symb) => if symb == '{' {
                Err(
                    "Unexpected '{' (note: braces are allowed only around command argument and for sub-/super-script)"@,
                )
            } else {
                Ok((TokenTree::Literal(symb), pos + 1))
            },
            Lexeme::Placeholder(placeholder) => Ok((TokenTree::Placeholder(placeholder), pos + 1)),
            Lexeme::Command(cmd) => match args_at(ls, pos + 1, command_args(cmd)) {
                Err(m) => Err(m),
                Ok(r) => Ok((TokenTree::Command(cmd, r.0), r.1)),
            },
        }
    }
}

/// The trees of `n` blocks one after the other from `pos`, and the position
/// after them.
pub open spec fn args_at(ls: Seq<Lexeme>, pos: nat, n: nat) -> Result<(Seq<TokenTree>, nat), Seq<char>>
    decreases ls.len() - pos, 3nat, n,
{
    if n == 0 {
        Ok((Seq::empty(), pos))
    } else {
        match block_at(ls, pos) {
            Err(m) => Err(m),
            Ok(first) => if first.1 <= pos || first.1 > ls.len() {
                Err(Seq::empty())
            } else {
                match args_at(ls, first.1, (n - 1) as nat) {
                    Err(m) => Err(m),
                    Ok(rest) => Ok((seq![first.0] + rest.0, rest.1)),
                }
            },
        }
    }
}

/// The tree of the block that begins at `pos`, and the position after it:
/// an atom, or a sequence of atoms in braces.
pub open spec fn block_at(ls: Seq<Lexeme>, pos: nat) -> Result<(TokenTree, nat), Seq<char>>
    decreases ls.len() - pos, 2nat, 0nat,
{
    if pos >= ls.len() {
        Err("Unexpected end-of-input in parse_block"@)
    } else if ls[pos as int] != Lexeme::Symbol('{') {
        atom_at(ls, pos)
    } else {
        match items_at(ls, pos + 1) {
            Err(m) => Err(m),
            Ok(r) => Ok((TokenTree::Sequence(r.0), r.1)),
        }
    }
}

/// The trees of the atoms from `pos` up to the closing brace, and the
/// position after the brace.
pub open spec fn items_at(ls: Seq<Lexeme>, pos: nat) -> Result<(Seq<TokenTree>, nat), Seq<char>>
    decreases ls.len() - pos, 2nat, 0nat,
{
    if pos >= ls.len() {
        Err("No matching '}'"@)
    } else if ls[pos as int] == Lexeme::Symbol('}') {
        Ok((Seq::empty(), pos + 1))
    } else {
        match atom_at(ls, pos) {
            Err(m) => Err(m),
            Ok(first) => if first.1 <= pos || first.1 > ls.len() {
                Err(Seq::empty())
            } else {
                match items_at(ls, first.1) {
                    Err(m) => Err(m),
                    Ok(rest) => Ok((seq![first.0] + rest.0, rest.1)),
                }
            },
        }
    }
}

/// The trees of the blocks from `pos` to the end.
pub open spec fn blocks_from(ls: Seq<Lexeme>, pos: nat) -> Result<Seq<TokenTree>, Seq<char>>
    decreases ls.len() - pos, 4nat, 0nat,
{
    if pos >= ls.len() {
        Ok(Seq::empty())
    } else {
        match block_at(ls, pos) {
            Err(m) => Err(m),
            Ok(first) => if first.1 <= pos || first.1 > ls.len() {
                Err(Seq::empty())
            } else {
                match blocks_from(ls, first.1) {
                    Err(m) => Err(m),
                    Ok(rest) => Ok(seq![first.0] + rest),
                }
            },
        }
    }
}

/// The tree of a format string and the number of its placeholders.
pub open spec fn document_of(src: Seq<char>) -> Result<(TokenTree, nat), Seq<char>> {
    match lexemes_of(src) {
        Err(m) => Err(m),
        Ok(l) => match blocks_from(l.0, 0) {
            Err(m) => Err(m),
            Ok(trees) => Ok((TokenTree::Sequence(trees), l.1)),
        },
    }
}

/// Reading moves on: an atom, a block and a list of arguments end after
/// where they begin, and within the lexemes.
pub proof fn lemma_reading_advances(ls: Seq<Lexeme>, pos: nat, n: nat)
    ensures
        atom_at(ls, pos) is Ok ==> pos < (atom_at(ls, pos)->Ok_0).1 <= ls.len(),
        block_at(ls, pos) is Ok ==> pos < (block_at(ls, pos)->Ok_0).1 <= ls.len(),
        items_at(ls, pos) is Ok ==> pos < (items_at(ls, pos)->Ok_0).1 <= ls.len(),
        args_at(ls, pos, n) is Ok ==> pos <= (args_at(ls, pos, n)->Ok_0).1 && (pos <= ls.len()
            ==> (args_at(ls, pos, n)->Ok_0).1 <= ls.len()),
    decreases ls.len() - pos, 5nat, n,
{
    if pos < ls.len() {
        match ls[pos as int] {
            Lexeme::Command(cmd) => {
                lemma_reading_advances(ls, pos + 1, command_args(cmd));
            },
            _ => {},
        }
        // A block is an atom or a sequence in braces.
        if ls[pos as int] == Lexeme::Symbol('{') {
            lemma_reading_advances(ls, pos + 1, 0);
        }
        // A sequence goes on after its first atom.
        if ls[pos as int] != Lexeme::Symbol('}') {
            if atom_at(ls, pos) is Ok {
                let p = (atom_at(ls, pos)->Ok_0).1;
                if p > pos {
                    lemma_reading_advances(ls, p, 0);
                }
            }
        }
    }
    if n > 0 {
        if block_at(ls, pos) is Ok {
            let p = (block_at(ls, pos)->Ok_0).1;
            if p > pos {
                lemma_reading_advances(ls, p, (n - 1) as nat);
            }
        }
    }
}

/// The trees of the first `i` tokens of a list are those of any list that
/// begins with these tokens.
pub proof fn lemma_trees_prefix(a: Seq<Token>, b: Seq<Token>, i: nat)
    requires
        i <= a.len(),
        i <= b.len(),
        forall|j: int| 0 <= j < i ==> a[j] == b[j],
    ensures
        trees_of(a, i) == trees_of(b, i),
    decreases i,
{
    if i > 0 {
        lemma_trees_prefix(a, b, (i - 1) as nat);
    }
}

/// The trees of a list with one more token.
pub proof fn lemma_trees_push(tokens: Seq<Token>, t: Token)
    ensures
        trees_of(tokens.push(t), tokens.len() + 1) == trees_of(tokens, tokens.len()).push(tree_of(t)),
{
    lemma_trees_prefix(tokens, tokens.push(t), tokens.len());
}

/// How a tree and a position that were read stand to those of the model.
pub open spec fn reads_as(r: Result<(Token, usize), ParsingError>, m: Result<(TokenTree, nat), Seq<char>>) -> bool {
    match r {
        Ok(v) => m == Ok::<(TokenTree, nat), Seq<char>>((tree_of(v.0), v.1 as nat)),
        Err(e) => m == Err::<(TokenTree, nat), Seq<char>>(e.message@),
    }
}

/// Reads the atom that begins at `pos`.
pub fn parse_atom(lexemes: &Vec<Lexeme>, pos: usize) -> (r: Result<(Token, usize), ParsingError>)
    ensures
        reads_as(r, atom_at(lexemes@, pos as nat)),
    decreases lexemes@.len() - pos, 1nat,
{
    if pos >= lexemes.len() {
        return Err(ParsingError::new("Unexpected end-of-input in parse_atom"));
    }
    match lexemes[pos] {
        Lexeme::Symbol(symb) => {
            if symb == '{' {
                Err(
                    ParsingError::new(
                        "Unexpected '{' (note: braces are allowed only around command argument and for sub-/super-script)",
                    ),
                )
            } else {
                Ok((Token::Literal(symb), pos + 1))
            }
        },
        Lexeme::Placeholder(placeholder) => { Ok((Token::Placeholder(placeholder), pos + 1)) },
        Lexeme::Command(cmd) => {
            let num_args = num_command_args(cmd);
            let ghost ls = lexemes@;
            let ghost total = command_args(cmd);
            let mut args: Vec<Token> = Vec::new();
            let mut at: usize = pos + 1;
            let mut k: i32 = 0;
            while k < num_args
                invariant
                    0 <= k <= num_args,
                    num_args == total,
                    total == command_args(cmd),
                    ls == lexemes@,
                    pos < ls.len(),
                    ls[pos as int] == Lexeme::Command(cmd),
                    pos < at <= ls.len(),
                    args_at(ls, (pos + 1) as nat, total) == match args_at(ls, at as nat, (total - k) as nat) {
                        Ok(rest) => Ok::<(Seq<TokenTree>, nat), Seq<char>>(
                            (trees_of(args@, args@.len()) + rest.0, rest.1),
                        ),
                        Err(m) => Err::<(Seq<TokenTree>, nat), Seq<char>>(m),
                    },
                decreases num_args - k,
            {
                proof {
                    lemma_reading_advances(ls, at as nat, 0);
                }
                match parse_block(lexemes, at) {
                    Err(e) => {
                        return Err(e);
                    },
                    Ok(v) => {
                        let (t, p) = v;
                        proof {
                            lemma_trees_push(args@, t);
                            let rest = args_at(ls, p as nat, (total - k - 1) as nat);
                            if rest is Ok {
                                assert(trees_of(args@, args@.len()) + (seq![tree_of(t)] + (rest->Ok_0).0) =~= trees_of(
                                    args@,
                                    args@.len(),
                                ).push(tree_of(t)) + (rest->Ok_0).0);
                            }
                        }
                        args.push(t);
                        at = p;
                    },
                }
                k += 1;
            }
            proof {
                assert(trees_of(args@, args@.len()) + Seq::<TokenTree>::empty() =~= trees_of(args@, args@.len()));
            }
            Ok((Token::Command(Command { command: cmd, args: args }), at))
        },
    }
}

/// Reads the block that begins at `pos`.
pub fn parse_block(lexemes: &Vec<Lexeme>, pos: usize) -> (r: Result<(Token, usize), ParsingError>)
    ensures
        reads_as(r, block_at(lexemes@, pos as nat)),
    decreases lexemes@.len() - pos, 2nat,
{
    if pos >= lexemes.len() {
        return Err(ParsingError::new("Unexpected end-of-input in parse_block"));
    }
    let opens = match lexemes[pos] {
        Lexeme::Symbol(c) => c == '{',
        _ => false,
    };
    if !opens {
        return parse_atom(lexemes, pos);
    }
    let ghost ls = lexemes@;
    let mut tokens: Vec<Token> = Vec::new();
    let mut at: usize = pos + 1;
    while at < lexemes.len()
        invariant
            ls == lexemes@,
            pos < ls.len(),
            ls[pos as int] == Lexeme::Symbol('{'),
            pos < at <= ls.len(),
            items_at(ls, (pos + 1) as nat) == match items_at(ls, at as nat) {
                Ok(rest) => Ok::<(Seq<TokenTree>, nat), Seq<char>>(
                    (trees_of(tokens@, tokens@.len()) + rest.0, rest.1),
                ),
                Err(m) => Err::<(Seq<TokenTree>, nat), Seq<char>>(m),
            },
        decreases ls.len() - at,
    {
        let closes = match lexemes[at] {
            Lexeme::Symbol(c) => c == '}',
            _ => false,
        };
        if closes {
            proof {
                assert(trees_of(tokens@, tokens@.len()) + Seq::<TokenTree>::empty() =~= trees_of(
                    tokens@,
                    tokens@.len(),
                ));
            }
            return Ok((Token::Sequence(tokens), at + 1));
        }
        proof {
            lemma_reading_advances(ls, at as nat, 0);
        }
        match parse_atom(lexemes, at) {
            Err(e) => {
                return Err(e);
            },
            Ok(v) => {
                let (t, p) = v;
                proof {
                    lemma_trees_push(tokens@, t);
                    let rest = items_at(ls, p as nat);
                    if rest is Ok {
                        assert(trees_of(tokens@, tokens@.len()) + (seq![tree_of(t)] + (rest->Ok_0).0) =~= trees_of(
                            tokens@,
                            tokens@.len(),
                        ).push(tree_of(t)) + (rest->Ok_0).0);
                    }
                }
                tokens.push(t);
                at = p;
            },
        }
    }
    Err(ParsingError::new("No matching '}'"))
}

/// Reads a format string.
pub fn parse_document(src: &str) -> (r: Result<Document, ParsingError>)
    ensures
        match r {
            Ok(d) => document_of(src@) == Ok::<(TokenTree, nat), Seq<char>>(
                (tree_of(d.root), d.num_placeholders as nat),
            ),
            Err(e) => document_of(src@) == Err::<(TokenTree, nat), Seq<char>>(e.message@),
        },
{
    let (lexemes, num_placeholders) = match to_lexemes(src) {
        Err(e) => {
            return Err(e);
        },
        Ok(v) => v,
    };
    let ghost ls = lexemes@;
    let mut tokens: Vec<Token> = Vec::new();
    let mut at: usize = 0;
    while at < lexemes.len()
        invariant
            ls == lexemes@,
            at <= ls.len(),
            lexemes_of(src@) == Ok::<(Seq<Lexeme>, nat), Seq<char>>((ls, num_placeholders as nat)),
            blocks_from(ls, 0) == match blocks_from(ls, at as nat) {
                Ok(rest) => Ok::<Seq<TokenTree>, Seq<char>>(trees_of(tokens@, tokens@.len()) + rest),
                Err(m) => Err::<Seq<TokenTree>, Seq<char>>(m),
            },
        decreases ls.len() - at,
    {
        proof {
            lemma_reading_advances(ls, at as nat, 0);
        }
        match parse_block(&lexemes, at) {
            Err(e) => {
                return Err(e);
            },
            Ok(v) => {
                let (token, p) = v;
                proof {
                    lemma_trees_push(tokens@, token);
                    let rest = blocks_from(ls, p as nat);
                    if rest is Ok {
                        assert(trees_of(tokens@, tokens@.len()) + (seq![tree_of(token)] + rest->Ok_0) =~= trees_of(
                            tokens@,
                            tokens@.len(),
                        ).push(tree_of(token)) + rest->Ok_0);
                    }
                }
                tokens.push(token);
                at = p;
            },
        }
    }
    proof {
        assert(trees_of(tokens@, tokens@.len()) + Seq::<TokenTree>::empty() =~= trees_of(tokens@, tokens@.len()));
    }
    Ok(Document { root: Token::Sequence(tokens), num_placeholders: num_placeholders })
}

} // verus!
