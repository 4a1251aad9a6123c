//! The rendering of format nodes as text.

use vstd::prelude::*;
use vstd::string::{StringExecFns, StrSliceExecFns};
use crate::base::string_tools::{join_spec, join_strings, texts};
use crate::math_format::{Color, Encoder, FormatNode, FormattingConfig, MathFont, RichTextFormat,
    SpecialCharacter, VPos};
use crate::math_format::unicode_alphabets::{subscript_of, superscript_of, unicode_to_subscript,
    unicode_to_superscript};

verus! {

/// Why a node could not be rendered.
#[derive(PartialEq, Eq, Clone, Copy, Debug, Structural)]
pub enum FormatError {
    /// There is no encoder for LaTeX.
    LatexEncoder,
    /// A subscript or superscript stands within a subscript or superscript.
    NestedScript,
    /// A special character stands within a subscript or superscript.
    ScriptSpecial,
    /// A character has no subscript or superscript form.
    NoScriptForm,
}

/// What a node is rendered with: the configuration, and what the nodes
/// around it have set.
#[derive(PartialEq, Eq, Clone, Copy, Debug, Structural)]
pub struct Context {
    pub config: FormattingConfig,
    pub vpos: VPos,
    pub math_font: MathFont,
    pub color: Color,  // track current color since console doesn't support nested tags
}

/// Whether a character is alphabetic, as Unicode defines it.
pub uninterp spec fn alphabetic(c: char) -> bool;

/// `char::is_alphabetic` of the standard library: whether the character has
/// the Unicode property Alphabetic. The contract gives the result a name.
#[verifier::external_body]
pub(crate) fn is_alphabetic(c: char) -> (r: bool)
    ensures
        r == alphabetic(c),
{
    c.is_alphabetic()
}

/// `String::push` of the standard library: the character is appended.
#[verifier::external_body]
pub(crate) fn push_char(s: &mut String, c: char)
    ensures
        final(s)@ == old(s)@.push(c),
{
    s.push(c)
}

/// The context in which the children of a node are rendered.
pub open spec fn child_context(ctx: Context, node: FormatNode) -> Result<Context, FormatError> {
    match node {
        FormatNode::Literal(_) => Ok(ctx),
        FormatNode::SpecialCharacter(_) => Ok(ctx),
        FormatNode::Concatenation(_) => Ok(ctx),
        FormatNode::CommaSeparatedList(_) => Ok(ctx),
        FormatNode::Fraction(_) => Ok(ctx),
        FormatNode::OperatorName(_) => Ok(Context { math_font: MathFont::Straight, ..ctx }),
        FormatNode::Subscript(_) => if ctx.vpos == VPos::Normal {
            Ok(Context { vpos: VPos::Sub, ..ctx })
        } else {
            Err(FormatError::NestedScript)
        },
        FormatNode::Superscript(_) => if ctx.vpos == VPos::Normal {
            Ok(Context { vpos: VPos::Super, ..ctx })
        } else {
            Err(FormatError::NestedScript)
        },
        FormatNode::ApplyColor(v) => Ok(Context { color: v.color, ..ctx }),
    }
}

/// The context in which the children of a node are rendered.
pub fn context_for_children(context: Context, node: &FormatNode) -> (r: Result<Context, FormatError>)
    ensures
        r == child_context(context, *node),
{
    let mut context = context;
    match node {
        FormatNode::Literal(_) => {},
        FormatNode::SpecialCharacter(_) => {},
        FormatNode::Concatenation(_) => {},
        FormatNode::CommaSeparatedList(_) => {},
        FormatNode::Fraction(_) => {},
        FormatNode::OperatorName(_) => {
            context.math_font = MathFont::Straight;
        },
        FormatNode::Subscript(_) => {
            if context.vpos != VPos::Normal {
                return Err(FormatError::NestedScript);
            }
            context.vpos = VPos::Sub;
        },
        FormatNode::Superscript(_) => {
            if context.vpos != VPos::Normal {
                return Err(FormatError::NestedScript);
            }
            context.vpos = VPos::Super;
        },
        FormatNode::ApplyColor(v) => {
            context.color = v.color;
        },
    }
    Ok(context)
}

/// The text that switches to a colour, and the text that switches back.
pub open spec fn color_tags(old_color: Color, new_color: Color, rich_text_format: RichTextFormat) -> (
    Seq<char>,
    Seq<char>,
) {
    match rich_text_format {
        RichTextFormat::Disabled => (Seq::empty(), Seq::empty()),
        RichTextFormat::Console => (
            "\x1b["@ + new_color.console_code() + "m"@,
            "\x1b["@ + old_color.console_code() + "m"@,
        ),
        RichTextFormat::Html => (
            "<span style=\"color: "@ + new_color.html_name() + "\">"@,
            "</span>"@,
        ),
        RichTextFormat::Latex => ("\\textcolor{"@ + new_color.latex_name() + "}{"@, "}"@),
    }
}

/// The text that switches to a colour, and the text that switches back.
pub fn text_color_tags(old_color: Color, new_color: Color, rich_text_format: RichTextFormat) -> (r: (
    String,
    String,
))
    ensures
        (r.0@, r.1@) == color_tags(old_color, new_color, rich_text_format),
{
    match rich_text_format {
        RichTextFormat::Disabled => (String::new(), String::new()),
        RichTextFormat::Console => {
            let mut begin = String::from_str("\x1b[");
            begin.append(new_color.to_console());
            begin.append("m");
            let mut end = String::from_str("\x1b[");
            end.append(old_color.to_console());
            end.append("m");
            (begin, end)
        },
        RichTextFormat::Html => {
            let mut begin = String::from_str("<span style=\"color: ");
            begin.append(new_color.to_html());
            begin.append("\">");
            (begin, String::from_str("</span>"))
        },
        RichTextFormat::Latex => {
            let mut begin = String::from_str("\\textcolor{");
            begin.append(new_color.to_latex());
            begin.append("}{");
            (begin, String::from_str("}"))
        },
    }
}

/// A run of characters in the normal font of formulas: letters are set
/// apart, by a colour on the console and by italics in HTML.
pub open spec fn fragment_text(
    fragment: Seq<char>,
    is_alpha: bool,
    parent_color: Color,
    rich_text_format: RichTextFormat,
) -> Seq<char> {
    if is_alpha {
        match rich_text_format {
            RichTextFormat::Disabled => fragment,
            RichTextFormat::Latex => fragment,
            RichTextFormat::Console => color_tags(
                parent_color,
                parent_color.alternative(),
                rich_text_format,
            ).0 + fragment + color_tags(parent_color, parent_color.alternative(), rich_text_format).1,
            RichTextFormat::Html => "<i>"@ + fragment + "</i>"@,
        }
    } else {
        fragment
    }
}

/// A run of characters in the normal font of formulas.
pub fn format_fragment_as_math_normal(
    fragment: &str,
    is_alpha: bool,
    parent_color: Color,
    rich_text_format: RichTextFormat,
) -> (r: String)
    ensures
        r@ == fragment_text(fragment@, is_alpha, parent_color, rich_text_format),
{
    if is_alpha {
        match rich_text_format {
            RichTextFormat::Disabled => fragment.to_owned(),
            RichTextFormat::Latex => fragment.to_owned(),
            RichTextFormat::Console => {
                // This should've been italic, but it's not supported on many terminals including
                //   Windows cmd. So using alternative color instead.
                let child_color = parent_color.alternative_brightness();
                let (begin, end) = text_color_tags(parent_color, child_color, rich_text_format);
                let mut r = begin;
                r.append(fragment);
                r.append(end.as_str());
                r
            },
            RichTextFormat::Html => {
                let mut r = String::from_str("<i>");
                r.append(fragment);
                r.append("</i>");
                r
            },
        }
    } else {
        fragment.to_owned()
    }
}

/// The text of a run that has been closed: nothing where no run was open.
pub open spec fn closed_run(
    fragment: Seq<char>,
    kind: Option<bool>,
    color: Color,
    rich_text_format: RichTextFormat,
) -> Seq<char> {
    match kind {
        None => Seq::empty(),
        Some(is_alpha) => fragment_text(fragment, is_alpha, color, rich_text_format),
    }
}

/// The state of the scan of a literal after its first `i` characters: the
/// text of the closed runs, the open run, and whether the open run is of letters.
pub open spec fn literal_scan(s: Seq<char>, i: nat, color: Color, rich_text_format: RichTextFormat) -> (
    Seq<char>,
    Seq<char>,
    Option<bool>,
)
    decreases i,
{
    if i == 0 || i > s.len() {
        (Seq::empty(), Seq::empty(), None)
    } else {
        let (ret, fragment, kind) = literal_scan(s, (i - 1) as nat, color, rich_text_format);
        let ch = s[i - 1];
        if kind != Some(alphabetic(ch)) {
            (
                ret + closed_run(fragment, kind, color, rich_text_format),
                seq![ch],
                Some(alphabetic(ch)),
            )
        } else {
            (ret, fragment.push(ch), kind)
        }
    }
}

/// The text of a literal: in the straight font as it is, in the normal font
/// cut into runs of letters and runs of other characters.
pub open spec fn literal_text(s: Seq<char>, ctx: Context) -> Seq<char> {
    match ctx.math_font {
        MathFont::Normal => {
            let (ret, fragment, kind) = literal_scan(
                s,
                s.len(),
                ctx.color,
                ctx.config.rich_text_format,
            );
            ret + closed_run(fragment, kind, ctx.color, ctx.config.rich_text_format)
        },
        MathFont::Straight => s,
    }
}

/// The text of a literal.
pub fn format_literal(s: &str, context: &Context) -> (r: String)
    ensures
        r@ == literal_text(s@, *context),
{
    match context.math_font {
        MathFont::Normal => {
            let ghost color = context.color;
            let ghost rtf = context.config.rich_text_format;
            let mut ret = String::new();
            let mut fragment = String::new();
            let mut fragment_is_alpha: Option<bool> = None;
            let n = s.unicode_len();
            let mut i: usize = 0;
            while i < n
                invariant
                    i <= n,
                    n == s@.len(),
                    color == context.color,
                    rtf == context.config.rich_text_format,
                    (ret@, fragment@, fragment_is_alpha) == literal_scan(s@, i as nat, color, rtf),
                decreases n - i,
            {
                let ch = s.get_char(i);
                let ch_is_alpha = Some(is_alphabetic(ch));
                let same = match (fragment_is_alpha, ch_is_alpha) {
                    (Some(a), Some(b)) => a == b,
                    _ => false,
                };
                if !same {
                    match fragment_is_alpha {
                        None => {},
                        Some(is_alpha) => {
                            let piece = format_fragment_as_math_normal(
                                fragment.as_str(),
                                is_alpha,
                                context.color,
                                context.config.rich_text_format,
                            );
                            ret.append(piece.as_str());
                        },
                    }
                    proof {
                        assert(ret@ =~= literal_scan(s@, i as nat, color, rtf).0 + closed_run(
                            literal_scan(s@, i as nat, color, rtf).1,
                            literal_scan(s@, i as nat, color, rtf).2,
                            color,
                            rtf,
                        ));
                    }
                    fragment = String::new();
                    fragment_is_alpha = ch_is_alpha;
                }
                let ghost before = fragment@;
                push_char(&mut fragment, ch);
                proof {
                    if !same {
                        assert(fragment@ =~= seq![ch]);
                    }
                }
                i += 1;
            }
            match fragment_is_alpha {
                None => {},
                Some(is_alpha) => {
                    let piece = format_fragment_as_math_normal(
                        fragment.as_str(),
                        is_alpha,
                        context.color,
                        context.config.rich_text_format,
                    );
                    ret.append(piece.as_str());
                },
            }
            proof {
                assert(ret@ =~= literal_text(s@, *context));
            }
            ret
        },
        MathFont::Straight => s.to_owned(),
    }
}

/// A special character in plain characters.
pub open spec fn ascii_special(v: SpecialCharacter) -> Seq<char> {
    match v {
        SpecialCharacter::Space => " "@,
        SpecialCharacter::Infinity => "Inf"@,
        SpecialCharacter::TensorProd => " * "@,
        SpecialCharacter::CoprodNormal => "  ^  "@,
        SpecialCharacter::CoprodIterated => "  @  "@,
        SpecialCharacter::CoprodHopf => "  %  "@,
        SpecialCharacter::Comult => "&"@,
        SpecialCharacter::SetUnion => "|"@,
        SpecialCharacter::SetIntersection => "&"@,
        SpecialCharacter::SetComplement => "!"@,
    }
}

/// A sign with a space on either side.
pub open spec fn spaced(s: Seq<char>) -> Seq<char> {
    " "@ + s + " "@
}

/// A special character in Unicode.
pub open spec fn unicode_special(v: SpecialCharacter) -> Seq<char> {
    match v {
        SpecialCharacter::Space => " "@,
        SpecialCharacter::Infinity => "∞"@,
        SpecialCharacter::TensorProd => "⊗"@,
        SpecialCharacter::CoprodNormal => spaced("∧"@),
        SpecialCharacter::CoprodIterated => spaced("⊗"@),
        SpecialCharacter::CoprodHopf => spaced("☒"@),
        SpecialCharacter::Comult => "△"@,
        SpecialCharacter::SetUnion => "⋃"@,
        SpecialCharacter::SetIntersection => "⋂"@,
        SpecialCharacter::SetComplement => "¬"@,
    }
}

/// A sign with a space on either side.
pub fn unicode_hspace(s: &str) -> (r: String)
    ensures
        r@ == spaced(s@),
{
    let mut r = String::from_str(" ");
    r.append(s);
    r.append(" ");
    r
}

/// The text with every hyphen exchanged for a minus sign.
pub open spec fn with_minus(s: Seq<char>) -> Seq<char> {
    Seq::new(s.len(), |i: int| if s[i] == '-' { '−' } else { s[i] })
}

/// The text with every hyphen exchanged for a minus sign.
pub fn replace_minus(s: &str) -> (r: String)
    ensures
        r@ == with_minus(s@),
{
    let mut r = String::new();
    let n = s.unicode_len();
    let mut i: usize = 0;
    while i < n
        invariant
            i <= n,
            n == s@.len(),
            r@ == with_minus(s@).take(i as int),
        decreases n - i,
    {
        let ch = s.get_char(i);
        let ghost before = r@;
        if ch == '-' {
            push_char(&mut r, '−');
        } else {
            push_char(&mut r, ch);
        }
        assert(r@ =~= with_minus(s@).take(i + 1));
        i += 1;
    }
    assert(with_minus(s@).take(n as int) =~= with_minus(s@));
    r
}

/// The subscript or superscript form of the first `i` characters of a text,
/// if each of them has one.
pub open spec fn script_text(s: Seq<char>, i: nat, sub: bool) -> Result<Seq<char>, FormatError>
    decreases i,
{
    if i == 0 || i > s.len() {
        Ok(Seq::empty())
    } else {
        match script_text(s, (i - 1) as nat, sub) {
            Err(e) => Err(e),
            Ok(head) => match (if sub {
                subscript_of(s[i - 1])
            } else {
                superscript_of(s[i - 1])
            }) {
                None => Err(FormatError::NoScriptForm),
                Some(c) => Ok(head.push(c)),
            },
        }
    }
}

/// The subscript or superscript form of a text.
pub fn to_script(s: &str, sub: bool) -> (r: Result<String, FormatError>)
    ensures
        text_result(r) == script_text(s@, s@.len(), sub),
{
    let mut r = String::new();
    let n = s.unicode_len();
    let mut i: usize = 0;
    while i < n
        invariant
            i <= n,
            n == s@.len(),
            script_text(s@, i as nat, sub) == Ok::<Seq<char>, FormatError>(r@),
        decreases n - i,
    {
        let ch = s.get_char(i);
        let form = if sub {
            unicode_to_subscript(ch)
        } else {
            unicode_to_superscript(ch)
        };
        match form {
            None => {
                proof {
                    lemma_script_error(s@, (i + 1) as nat, s@.len(), sub);
                }
                return Err(FormatError::NoScriptForm);
            },
            Some(c) => {
                push_char(&mut r, c);
            },
        }
        i += 1;
    }
    Ok(r)
}

/// Once a character without a script form is met, the text has none.
proof fn lemma_script_error(s: Seq<char>, i: nat, n: nat, sub: bool)
    requires
        i <= n <= s.len(),
        script_text(s, i, sub) is Err,
    ensures
        script_text(s, n, sub) == script_text(s, i, sub),
    decreases n - i,
{
    if i < n {
        lemma_script_error(s, i, (n - 1) as nat, sub);
    }
}

/// The text that an operation on texts came to.
pub open spec fn text_result(r: Result<String, FormatError>) -> Result<Seq<char>, FormatError> {
    match r {
        Ok(s) => Ok(s@),
        Err(e) => Err(e),
    }
}

/// Every text of the list is one character long.
pub open spec fn all_atomic(parts: Seq<Seq<char>>) -> bool {
    forall|i: int| 0 <= i < parts.len() ==> (#[trigger] parts[i]).len() == 1
}

/// What stands between the items of a list.
pub open spec fn list_separator(ctx: Context, parts: Seq<Seq<char>>) -> Seq<char> {
    match ctx.config.encoder {
        Encoder::Unicode => match ctx.vpos {
            VPos::Normal => ","@,
            VPos::Sub => if all_atomic(parts) {
                ""@
            } else {
                ","@
            },
            VPos::Super => if all_atomic(parts) {
                ""@
            } else {
                "˒"@
            },
        },
        _ => match ctx.vpos {
            VPos::Normal => ","@,
            VPos::Sub => "_"@,
            VPos::Super => "^"@,
        },
    }
}

/// The text of a node in a context, in plain characters or in Unicode as
/// the configuration of the context says.
pub open spec fn encoded(node: FormatNode, ctx: Context) -> Result<Seq<char>, FormatError>
    decreases node, 0nat,
{
    match child_context(ctx, node) {
        Err(e) => Err(e),
        Ok(child) => {
            let unicode = ctx.config.encoder == Encoder::Unicode;
            match node {
                FormatNode::Literal(v) => if unicode {
                    match ctx.vpos {
                        VPos::Normal => Ok(literal_text(with_minus(v.text@), ctx)),
                        VPos::Sub => script_text(v.text@, v.text@.len(), true),
                        VPos::Super => script_text(v.text@, v.text@.len(), false),
                    }
                } else {
                    Ok(literal_text(v.text@, ctx))
                },
                FormatNode::SpecialCharacter(v) => if unicode {
                    if ctx.vpos == VPos::Normal {
                        Ok(unicode_special(v))
                    } else {
                        Err(FormatError::ScriptSpecial)
                    }
                } else {
                    Ok(ascii_special(v))
                },
                FormatNode::Concatenation(v) => match encoded_list(
                    v.children@,
                    v.children@.len(),
                    child,
                ) {
                    Err(e) => Err(e),
                    Ok(parts) => Ok(join_spec(parts, ""@)),
                },
                FormatNode::CommaSeparatedList(v) => match encoded_list(
                    v.children@,
                    v.children@.len(),
                    child,
                ) {
                    Err(e) => Err(e),
                    Ok(parts) => Ok(join_spec(parts, list_separator(ctx, parts))),
                },
                FormatNode::OperatorName(v) => encoded(*v.child, child),
                FormatNode::Fraction(v) => match encoded(*v.numerator, child) {
                    Err(e) => Err(e),
                    Ok(num) => match encoded(*v.denominator, child) {
                        Err(e) => Err(e),
                        Ok(den) => Ok(num + " / "@ + den),
                    },
                },
                FormatNode::Subscript(v) => match encoded(*v.child, child) {
                    Err(e) => Err(e),
                    Ok(t) => if unicode {
                        Ok(t)
                    } else {
                        Ok("_"@ + t)
                    },
                },
                FormatNode::Superscript(v) => match encoded(*v.child, child) {
                    Err(e) => Err(e),
                    Ok(t) => if unicode {
                        Ok(t)
                    } else {
                        Ok("^"@ + t)
                    },
                },
                FormatNode::ApplyColor(v) => match encoded(*v.child, child) {
                    Err(e) => Err(e),
                    Ok(t) => Ok(
                        color_tags(ctx.color, child.color, ctx.config.rich_text_format).0 + t
                            + color_tags(ctx.color, child.color, ctx.config.rich_text_format).1,
                    ),
                },
            }
        },
    }
}

/// The texts of the first `i` nodes of a list.
pub open spec fn encoded_list(children: Seq<FormatNode>, i: nat, ctx: Context) -> Result<
    Seq<Seq<char>>,
    FormatError,
>
    decreases children, i,
{
    if i == 0 || i > children.len() {
        Ok(Seq::empty())
    } else {
        match encoded_list(children, (i - 1) as nat, ctx) {
            Err(e) => Err(e),
            Ok(head) => match encoded(children[i - 1], ctx) {
                Err(e) => Err(e),
                Ok(t) => Ok(head.push(t)),
            },
        }
    }
}

/// Once the text of a node of a list has failed, the list has no text.
proof fn lemma_list_error(children: Seq<FormatNode>, i: nat, n: nat, ctx: Context)
    requires
        i <= n <= children.len(),
        encoded_list(children, i, ctx) is Err,
    ensures
        encoded_list(children, n, ctx) == encoded_list(children, i, ctx),
    decreases n - i,
{
    if i < n {
        lemma_list_error(children, i, (n - 1) as nat, ctx);
    }
}

/// The texts of the nodes of a list.
#[verifier::loop_isolation(false)]
fn encode_list(children: &Vec<FormatNode>, context: &Context) -> (r: Result<Vec<String>, FormatError>)
    ensures
        match r {
            Ok(parts) => encoded_list(children@, children@.len(), *context) == Ok::<
                Seq<Seq<char>>,
                FormatError,
            >(texts(parts@)),
            Err(e) => encoded_list(children@, children@.len(), *context) == Err::<
                Seq<Seq<char>>,
                FormatError,
            >(e),
        },
    decreases children,
{
    let mut parts: Vec<String> = Vec::new();
    let mut i: usize = 0;
    assert(texts(parts@) =~= Seq::<Seq<char>>::empty());
    while i < children.len()
        invariant
            i <= children@.len(),
            encoded_list(children@, i as nat, *context) == Ok::<Seq<Seq<char>>, FormatError>(
                texts(parts@),
            ),
        decreases children@.len() - i,
    {
        let ghost before = texts(parts@);
        match encode(&children[i], context) {
            Err(e) => {
                proof {
                    lemma_list_error(children@, (i + 1) as nat, children@.len(), *context);
                }
                return Err(e);
            },
            Ok(t) => {
                parts.push(t);
                assert(texts(parts@) =~= before.push(t@));
            },
        }
        i += 1;
    }
    Ok(parts)
}

/// Whether every text is one character long.
fn all_children_atomic(parts: &Vec<String>) -> (r: bool)
    ensures
        r == all_atomic(texts(parts@)),
{
    let mut i: usize = 0;
    while i < parts.len()
        invariant
            i <= parts@.len(),
            forall|j: int| 0 <= j < i ==> (#[trigger] texts(parts@)[j]).len() == 1,
        decreases parts@.len() - i,
    {
        if parts[i].as_str().unicode_len() != 1 {
            assert(texts(parts@)[i as int].len() != 1);
            return false;
        }
        i += 1;
    }
    true
}

/// The text of a node in a context.
pub fn encode(node: &FormatNode, context: &Context) -> (r: Result<String, FormatError>)
    ensures
        text_result(r) == encoded(*node, *context),
    decreases node,
{
    let child_context = match context_for_children(*context, node) {
        Ok(c) => c,
        Err(e) => {
            return Err(e);
        },
    };
    let unicode = match context.config.encoder {
        Encoder::Unicode => true,
        _ => false,
    };
    match node {
        FormatNode::Literal(v) => {
            if unicode {
                match context.vpos {
                    VPos::Normal => {
                        let text = replace_minus(v.text.as_str());
                        Ok(format_literal(text.as_str(), context))
                    },
                    VPos::Sub => to_script(v.text.as_str(), true),
                    VPos::Super => to_script(v.text.as_str(), false),
                }
            } else {
                Ok(format_literal(v.text.as_str(), context))
            }
        },
        FormatNode::SpecialCharacter(v) => {
            if unicode {
                if context.vpos != VPos::Normal {
                    return Err(FormatError::ScriptSpecial);
                }
                Ok(
                    match v {
                        SpecialCharacter::Space => " ".to_owned(),
                        SpecialCharacter::Infinity => "∞".to_owned(),
                        SpecialCharacter::TensorProd => "⊗".to_owned(),
                        SpecialCharacter::CoprodNormal => unicode_hspace("∧"),
                        SpecialCharacter::CoprodIterated => unicode_hspace("⊗"),
                        SpecialCharacter::CoprodHopf => unicode_hspace("☒"),
                        SpecialCharacter::Comult => "△".to_owned(),
                        SpecialCharacter::SetUnion => "⋃".to_owned(),
                        SpecialCharacter::SetIntersection => "⋂".to_owned(),
                        SpecialCharacter::SetComplement => "¬".to_owned(),
                    },
                )
            } else {
                Ok(
                    match v {
                        SpecialCharacter::Space => " ",
                        SpecialCharacter::Infinity => "Inf",
                        SpecialCharacter::TensorProd => " * ",
                        SpecialCharacter::CoprodNormal => "  ^  ",
                        SpecialCharacter::CoprodIterated => "  @  ",
                        SpecialCharacter::CoprodHopf => "  %  ",
                        SpecialCharacter::Comult => "&",
                        SpecialCharacter::SetUnion => "|",
                        SpecialCharacter::SetIntersection => "&",
                        SpecialCharacter::SetComplement => "!",
                    }.to_owned(),
                )
            }
        },
        FormatNode::Concatenation(v) => {
            match encode_list(&v.children, &child_context) {
                Err(e) => Err(e),
                Ok(parts) => Ok(join_strings(&parts, "")),
            }
        },
        FormatNode::CommaSeparatedList(v) => {
            match encode_list(&v.children, &child_context) {
                Err(e) => Err(e),
                Ok(parts) => {
                    let sep = if unicode {
                        // Technically speaking, `graphemes` from the unicode-segmentation crate would be better,
                        //   but `chars` are good enough since there is no upper/lower case diactrics.
                        match context.vpos {
                            VPos::Normal => ",",
                            VPos::Sub => if all_children_atomic(&parts) {
                                ""
                            } else {
                                ","
                            },
                            VPos::Super => if all_children_atomic(&parts) {
                                ""
                            } else {
                                "˒"
                            },
                        }
                    } else {
                        match context.vpos {
                            VPos::Normal => ",",
                            VPos::Sub => "_",
                            VPos::Super => "^",
                        }
                    };
                    Ok(join_strings(&parts, sep))
                },
            }
        },
        FormatNode::OperatorName(v) => encode(&*v.child, &child_context),
        FormatNode::Fraction(v) => {
            let num = match encode(&*v.numerator, &child_context) {
                Ok(t) => t,
                Err(e) => {
                    return Err(e);
                },
            };
            let den = match encode(&*v.denominator, &child_context) {
                Ok(t) => t,
                Err(e) => {
                    return Err(e);
                },
            };
            let mut r = num;
            r.append(" / ");
            r.append(den.as_str());
            Ok(r)
        },
        FormatNode::Subscript(v) => {
            match encode(&*v.child, &child_context) {
                Err(e) => Err(e),
                Ok(t) => if unicode {
                    Ok(t)
                } else {
                    let mut r = String::from_str("_");
                    r.append(t.as_str());
                    Ok(r)
                },
            }
        },
        FormatNode::Superscript(v) => {
            match encode(&*v.child, &child_context) {
                Err(e) => Err(e),
                Ok(t) => if unicode {
                    Ok(t)
                } else {
                    let mut r = String::from_str("^");
                    r.append(t.as_str());
                    Ok(r)
                },
            }
        },
        FormatNode::ApplyColor(v) => {
            match encode(&*v.child, &child_context) {
                Err(e) => Err(e),
                Ok(t) => {
                    let (begin, end) = text_color_tags(
                        context.color,
                        child_context.color,
                        context.config.rich_text_format,
                    );
                    let mut r = begin;
                    r.append(t.as_str());
                    r.append(end.as_str());
                    Ok(r)
                },
            }
        },
    }
}

/// The context at the root of a rendering.
pub open spec fn root_context(config: FormattingConfig) -> Context {
    Context { config, vpos: VPos::Normal, math_font: MathFont::Normal, color: Color::Normal }
}

/// The text of a node under a configuration.
pub open spec fn rendered(node: FormatNode, config: FormattingConfig) -> Result<Seq<char>, FormatError> {
    if config.encoder == Encoder::Latex {
        Err(FormatError::LatexEncoder)
    } else {
        encoded(node, root_context(config))
    }
}

impl FormatNode {
    /// The text of the node under a configuration.
    pub fn render(&self, config: &FormattingConfig) -> (r: Result<String, FormatError>)
        ensures
            text_result(r) == rendered(*self, *config),
    {
        match config.encoder {
            Encoder::Latex => {
                return Err(FormatError::LatexEncoder);
            },
            _ => {},
        }
        let context = Context {
            config: *config,
            vpos: VPos::Normal,
            math_font: MathFont::Normal,
            color: Color::Normal,
        };
        encode(self, &context)
    }
}

impl FormatError {
    /// What went wrong, in words.
    pub open spec fn message_text(self) -> Seq<char> {
        match self {
            FormatError::LatexEncoder => "Encoder::Latex not implemented"@,
            FormatError::NestedScript => "A subscript or superscript within a subscript or superscript"@,
            FormatError::ScriptSpecial => "A special character within a subscript or superscript"@,
            FormatError::NoScriptForm => "A character without a subscript or superscript form"@,
        }
    }

    /// What went wrong, in words.
    pub fn message(&self) -> (r: String)
        ensures
            r@ == self.message_text(),
    {
        match self {
            FormatError::LatexEncoder => "Encoder::Latex not implemented".to_owned(),
            FormatError::NestedScript => "A subscript or superscript within a subscript or superscript".to_owned(),
            FormatError::ScriptSpecial => "A special character within a subscript or superscript".to_owned(),
            FormatError::NoScriptForm => "A character without a subscript or superscript form".to_owned(),
        }
    }
}

} // verus!
