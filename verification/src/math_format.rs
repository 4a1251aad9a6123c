//! Formatted mathematical text: format nodes, and their rendering as plain
//! or rich text.

pub mod mfmt;
pub mod render;
pub mod unicode_alphabets;

use vstd::prelude::*;
use crate::base::string_tools::{decimal, decimal_text};
use crate::math::x::X;

verus! {

/// How characters are written.
#[derive(PartialEq, Eq, Clone, Copy, Debug, Structural)]
pub enum Encoder {
    Ascii,
    Unicode,
    Latex,
}

// Rich text support diagram:
//
//           |              Rich text format
//  Encoder  +-------------------------------------------
//           |  Disabled    Console     HTML       LaTeX
// ----------+-------------------------------------------
//   ASCII   |  disabled    enabled    enabled      N/A
//  Unicode  |  disabled    enabled    enabled      N/A
//   LaTeX   |  disabled      N/A        N/A      enabled
//
/// How colours and fonts are written.
#[derive(PartialEq, Eq, Clone, Copy, Debug, Structural)]
pub enum RichTextFormat {
    Disabled,
    Console,
    Html,
    Latex,
}

/// The settings of a rendering.
#[derive(PartialEq, Eq, Clone, Copy, Debug, Structural)]
pub struct FormattingConfig {
    pub encoder: Encoder,
    pub rich_text_format: RichTextFormat,
    pub include_annotations: bool,
}

/// Settings to replace those of a configuration: each one that is given
/// replaces the one it stands for.
#[derive(Clone, Copy, Debug)]
pub struct FormattingConfigOverrides {
    pub encoder: Option<Encoder>,
    pub rich_text_format: Option<RichTextFormat>,
    pub include_annotations: Option<bool>,
}

impl Default for FormattingConfigOverrides {
    fn default() -> (r: Self)
        ensures
            r.encoder is None,
            r.rich_text_format is None,
            r.include_annotations is None,
    {
        FormattingConfigOverrides { encoder: None, rich_text_format: None, include_annotations: None }
    }
}

/// The configuration with the given settings replaced.
pub open spec fn overridden(config: FormattingConfig, overrides: FormattingConfigOverrides) -> FormattingConfig {
    FormattingConfig {
        encoder: match overrides.encoder {
            Some(v) => v,
            None => config.encoder,
        },
        rich_text_format: match overrides.rich_text_format {
            Some(v) => v,
            None => config.rich_text_format,
        },
        include_annotations: match overrides.include_annotations {
            Some(v) => v,
            None => config.include_annotations,
        },
    }
}

/// The configuration with the given settings replaced.
pub fn override_formatting_config(config: FormattingConfig, overrides: FormattingConfigOverrides) -> (r:
    FormattingConfig)
    ensures
        r == overridden(config, overrides),
{
    FormattingConfig {
        encoder: if let Some(new_value) = overrides.encoder {
            new_value
        } else {
            config.encoder
        },
        rich_text_format: if let Some(new_value) = overrides.rich_text_format {
            new_value
        } else {
            config.rich_text_format
        },
        include_annotations: if let Some(new_value) = overrides.include_annotations {
            new_value
        } else {
            config.include_annotations
        },
    }
}

/// Whether the encoder and the rich text format go together.
pub open spec fn supported(config: FormattingConfig) -> bool {
    match (config.encoder, config.rich_text_format) {
        (_, RichTextFormat::Disabled) => true,
        (Encoder::Ascii, RichTextFormat::Console) => true,
        (Encoder::Ascii, RichTextFormat::Html) => true,
        (Encoder::Unicode, RichTextFormat::Console) => true,
        (Encoder::Unicode, RichTextFormat::Html) => true,
        (Encoder::Latex, RichTextFormat::Latex) => true,
        _ => false,
    }
}

/// Whether the encoder and the rich text format of a configuration go together.
pub fn check_formatting_config(config: &FormattingConfig) -> (ok: bool)
    ensures
        ok == supported(*config),
{
    match (config.encoder, config.rich_text_format) {
        (_, RichTextFormat::Disabled) => true,
        (Encoder::Ascii, RichTextFormat::Console) => true,
        (Encoder::Ascii, RichTextFormat::Html) => true,
        (Encoder::Unicode, RichTextFormat::Console) => true,
        (Encoder::Unicode, RichTextFormat::Html) => true,
        (Encoder::Latex, RichTextFormat::Latex) => true,
        _ => false,
    }
}

/// The configuration that a rendering has where none was given: plain
/// characters, colours for the console, labels shown.
pub open spec fn default_config() -> FormattingConfig {
    FormattingConfig {
        encoder: Encoder::Ascii,
        rich_text_format: RichTextFormat::Console,
        include_annotations: true,
    }
}

/// A stack of configurations: the one on top is in force, and leaving a
/// scope brings back the one below.
pub struct ScopedFormatting {
    stack: Vec<FormattingConfig>,
}

impl ScopedFormatting {
    /// The configurations from the outermost to the one in force.
    pub closed spec fn configs(&self) -> Seq<FormattingConfig> {
        self.stack@
    }

    /// The stack is never empty.
    pub closed spec fn wf(&self) -> bool {
        self.stack@.len() > 0
    }

    /// A stack that holds the default configuration.
    pub fn root() -> (r: Self)
        ensures
            r.wf(),
            r.configs() == seq![default_config()],
    {
        let mut stack: Vec<FormattingConfig> = Vec::new();
        stack.push(
            FormattingConfig {
                encoder: Encoder::Ascii,
                rich_text_format: RichTextFormat::Console,
                include_annotations: true,
            },
        );
        ScopedFormatting { stack }
    }

    /// The configuration in force.
    pub fn current_formatting_config(&self) -> (r: FormattingConfig)
        requires
            self.wf(),
        ensures
            r == self.configs().last(),
    {
        self.stack[self.stack.len() - 1]
    }

    /// Enters a scope in which the given settings replace those in force.
    /// Nothing is entered, and `false` comes back, if the new settings do
    /// not go together.
    pub fn new(&mut self, overrides: FormattingConfigOverrides) -> (ok: bool)
        requires
            old(self).wf(),
        ensures
            final(self).wf(),
            ok == supported(overridden(old(self).configs().last(), overrides)),
            ok ==> final(self).configs() == old(self).configs().push(
                overridden(old(self).configs().last(), overrides),
            ),
            !ok ==> final(self).configs() == old(self).configs(),
    {
        let current_config = self.stack[self.stack.len() - 1];
        let new_config = override_formatting_config(current_config, overrides);
        if !check_formatting_config(&new_config) {
            return false;
        }
        self.stack.push(new_config);
        true
    }

    /// Leaves the innermost scope. The outermost configuration stays.
    pub fn leave(&mut self)
        requires
            old(self).wf(),
        ensures
            final(self).wf(),
            final(self).configs() == if old(self).configs().len() > 1 {
                old(self).configs().drop_last()
            } else {
                old(self).configs()
            },
    {
        if self.stack.len() > 1 {
            self.stack.pop();
        }
    }
}

/// Where on the line a piece of text stands.
#[derive(PartialEq, Eq, Clone, Copy, Debug, Structural)]
pub enum VPos {
    Normal,
    Sub,
    Super,
}

/// The font of letters in formulas.
#[derive(PartialEq, Eq, Clone, Copy, Debug, Structural)]
pub enum MathFont {
    Normal,
    Straight,
}

// Console assumes white-on-black, so "pale" colors are darker.
// HTML and LaTeX assume black-on-white, so "pale" colors are brighter.
// Colors match only approximately across different rich text formats.
//
// When using colors in LaTeX add
//    \usepackage[dvipsnames]{xcolor}
// to the preambule.
/// A colour of text.
#[derive(PartialEq, Eq, Clone, Copy, Debug, Structural)]
pub enum Color {
    Normal,
    Red,
    Green,
    Yellow,
    Blue,
    Magenta,
    Cyan,
    Orange,
    Gray,
    PaleRed,
    PaleGreen,
    PaleBlue,
    PaleMagenta,
    PaleCyan,
}

impl Color {
    /// The colour of similar hue and different brightness.
    pub open spec fn alternative(self) -> Color {
        match self {
            Color::Normal => Color::Gray,
            Color::Red => Color::PaleRed,
            Color::Green => Color::PaleGreen,
            Color::Yellow => Color::Orange,
            Color::Blue => Color::PaleBlue,
            Color::Magenta => Color::PaleMagenta,
            Color::Cyan => Color::PaleCyan,
            Color::Orange => Color::Yellow,
            Color::Gray => Color::Normal,
            Color::PaleRed => Color::Red,
            Color::PaleGreen => Color::Green,
            Color::PaleBlue => Color::Blue,
            Color::PaleMagenta => Color::Magenta,
            Color::PaleCyan => Color::Cyan,
        }
    }

    /// The console code of the colour.
    pub open spec fn console_code(self) -> Seq<char> {
        match self {
            Color::Normal => "0;37"@,
            Color::Red => "1;31"@,
            Color::Green => "1;32"@,
            Color::Yellow => "1;33"@,
            Color::Blue => "1;34"@,
            Color::Magenta => "1;35"@,
            Color::Cyan => "1;36"@,
            Color::Orange => "0;33"@,
            Color::Gray => "1;30"@,
            Color::PaleRed => "0;31"@,
            Color::PaleGreen => "0;32"@,
            Color::PaleBlue => "0;34"@,
            Color::PaleMagenta => "0;35"@,
            Color::PaleCyan => "0;36"@,
        }
    }

    /// The HTML name of the colour.
    pub open spec fn html_name(self) -> Seq<char> {
        match self {
            Color::Normal => "Black"@,
            Color::Red => "Red"@,
            Color::Green => "LimeGreen"@,
            Color::Yellow => "Gold"@,
            Color::Blue => "Blue"@,
            Color::Magenta => "Magenta"@,
            Color::Cyan => "DarkCyan"@,
            Color::Orange => "DarkOrange"@,
            Color::Gray => "Gray"@,
            Color::PaleRed => "LightCoral"@,
            Color::PaleGreen => "LightGreen"@,
            Color::PaleBlue => "DeepSkyBlue"@,
            Color::PaleMagenta => "Violet"@,
            Color::PaleCyan => "MediumAquamarine"@,
        }
    }

    /// The LaTeX name of the colour.
    pub open spec fn latex_name(self) -> Seq<char> {
        match self {
            Color::Normal => "black"@,
            Color::Red => "red"@,
            Color::Green => "Green"@,
            Color::Yellow => "Goldenrod"@,
            Color::Blue => "blue"@,
            Color::Magenta => "magenta"@,
            Color::Cyan => "cyan"@,
            Color::Orange => "Peach"@,
            Color::Gray => "gray"@,
            Color::PaleRed => "Salmon"@,
            Color::PaleGreen => "LimeGreen"@,
            Color::PaleBlue => "SkyBlue"@,
            Color::PaleMagenta => "Lavender"@,
            Color::PaleCyan => "Turquoise"@,
        }
    }

    /// Returns a color with similar hue, but different brightness.
    pub fn alternative_brightness(self) -> (r: Color)
        ensures
            r == self.alternative(),
    {
        match self {
            Color::Normal => Color::Gray,
            Color::Red => Color::PaleRed,
            Color::Green => Color::PaleGreen,
            Color::Yellow => Color::Orange,
            Color::Blue => Color::PaleBlue,
            Color::Magenta => Color::PaleMagenta,
            Color::Cyan => Color::PaleCyan,
            Color::Orange => Color::Yellow,
            Color::Gray => Color::Normal,
            Color::PaleRed => Color::Red,
            Color::PaleGreen => Color::Green,
            Color::PaleBlue => Color::Blue,
            Color::PaleMagenta => Color::Magenta,
            Color::PaleCyan => Color::Cyan,
        }
    }

    /// The console code of the colour.
    pub fn to_console(self) -> (r: &'static str)
        ensures
            r@ == self.console_code(),
    {
        match self {
            Color::Normal => "0;37",
            Color::Red => "1;31",
            Color::Green => "1;32",
            Color::Yellow => "1;33",
            Color::Blue => "1;34",
            Color::Magenta => "1;35",
            Color::Cyan => "1;36",
            Color::Orange => "0;33",  // olive actually
            Color::Gray => "1;30",
            Color::PaleRed => "0;31",
            Color::PaleGreen => "0;32",
            Color::PaleBlue => "0;34",
            Color::PaleMagenta => "0;35",
            Color::PaleCyan => "0;36",
        }
    }

    /// The HTML name of the colour.
    pub fn to_html(self) -> (r: &'static str)
        ensures
            r@ == self.html_name(),
    {
        match self {
            Color::Normal => "Black",
            Color::Red => "Red",
            Color::Green => "LimeGreen",
            Color::Yellow => "Gold",
            Color::Blue => "Blue",
            Color::Magenta => "Magenta",
            Color::Cyan => "DarkCyan",
            Color::Orange => "DarkOrange",
            Color::Gray => "Gray",
            Color::PaleRed => "LightCoral",
            Color::PaleGreen => "LightGreen",
            Color::PaleBlue => "DeepSkyBlue",
            Color::PaleMagenta => "Violet",
            Color::PaleCyan => "MediumAquamarine",
        }
    }

    // Note. Color names are case-sensitive. Basic colors start with a small letter
    // and additional colors provided by `dvipsnames` option start with a capital
    // letter. Colors that differ only in case can be very different, e.g. "Green"
    // is much darker than "green".
    /// The LaTeX name of the colour.
    pub fn to_latex(self) -> (r: &'static str)
        ensures
            r@ == self.latex_name(),
    {
        match self {
            Color::Normal => "black",
            Color::Red => "red",
            Color::Green => "Green",
            Color::Yellow => "Goldenrod",
            Color::Blue => "blue",
            Color::Magenta => "magenta",
            Color::Cyan => "cyan",
            Color::Orange => "Peach",
            Color::Gray => "gray",
            Color::PaleRed => "Salmon",
            Color::PaleGreen => "LimeGreen",
            Color::PaleBlue => "SkyBlue",
            Color::PaleMagenta => "Lavender",
            Color::PaleCyan => "Turquoise",
        }
    }
}

/// A piece of formatted text.
pub enum FormatNode {
    Literal(Literal),
    SpecialCharacter(SpecialCharacter),
    Concatenation(Concatenation),
    CommaSeparatedList(CommaSeparatedList),
    OperatorName(OperatorName),
    Fraction(Fraction),
    Subscript(Subscript),
    Superscript(Superscript),
    ApplyColor(ApplyColor),
}

/// A character that each encoder writes in its own way.
#[derive(PartialEq, Eq, Clone, Copy, Debug, Structural)]
pub enum SpecialCharacter {
    Space,
    Infinity,
    TensorProd,
    CoprodNormal,
    CoprodIterated,
    CoprodHopf,
    Comult,
    SetUnion,
    SetIntersection,
    SetComplement,
}

/// Text that is written as it is.
pub struct Literal {
    pub text: String,
}

/// Pieces written one after the other.
pub struct Concatenation {
    pub children: Vec<FormatNode>,
}

/// Pieces written as a list.
pub struct CommaSeparatedList {
    pub children: Vec<FormatNode>,
}

/// The name of an operator, written in the straight font.
pub struct OperatorName {
    pub child: Box<FormatNode>,
}

/// A fraction.
pub struct Fraction {
    pub numerator: Box<FormatNode>,
    pub denominator: Box<FormatNode>,
}

/// A subscript.
pub struct Subscript {
    pub child: Box<FormatNode>,
}

/// A superscript.
pub struct Superscript {
    pub child: Box<FormatNode>,
}

/// A piece in a colour.
pub struct ApplyColor {
    pub color: Color,
    pub child: Box<FormatNode>,
}

impl Literal {
    pub fn new(text: String) -> (r: Self)
        ensures
            r.text == text,
    {
        Literal { text }
    }
}

impl Concatenation {
    pub fn new(children: Vec<FormatNode>) -> (r: Self)
        ensures
            r.children == children,
    {
        Concatenation { children }
    }
}

impl CommaSeparatedList {
    pub fn new(children: Vec<FormatNode>) -> (r: Self)
        ensures
            r.children == children,
    {
        CommaSeparatedList { children }
    }
}

impl OperatorName {
    pub fn new(child: Box<FormatNode>) -> (r: Self)
        ensures
            r.child == child,
    {
        OperatorName { child }
    }
}

impl Fraction {
    pub fn new(numerator: Box<FormatNode>, denominator: Box<FormatNode>) -> (r: Self)
        ensures
            r.numerator == numerator,
            r.denominator == denominator,
    {
        Fraction { numerator, denominator }
    }
}

impl Subscript {
    pub fn new(child: Box<FormatNode>) -> (r: Self)
        ensures
            r.child == child,
    {
        Subscript { child }
    }
}

impl Superscript {
    pub fn new(child: Box<FormatNode>) -> (r: Self)
        ensures
            r.child == child,
    {
        Superscript { child }
    }
}

impl ApplyColor {
    pub fn new(color: Color, child: Box<FormatNode>) -> (r: Self)
        ensures
            r.color == color,
            r.child == child,
    {
        ApplyColor { color, child }
    }
}

/// What can be shown as a piece of formatted text.
pub trait MathFormat: Sized {
    /// Whether `node` is how this value is shown.
    spec fn shown_as(self, node: FormatNode) -> bool;

    /// The value as a piece of formatted text.
    fn to_format_node(self) -> (r: FormatNode)
        ensures
            self.shown_as(r),
    ;
}

impl MathFormat for FormatNode {
    open spec fn shown_as(self, node: FormatNode) -> bool {
        node == self
    }

    fn to_format_node(self) -> (r: FormatNode) {
        self
    }
}

/// The node is the literal with the given text.
pub open spec fn is_literal(node: FormatNode, text: Seq<char>) -> bool {
    node matches FormatNode::Literal(l) && l.text@ == text
}

impl MathFormat for String {
    open spec fn shown_as(self, node: FormatNode) -> bool {
        is_literal(node, self@)
    }

    fn to_format_node(self) -> (r: FormatNode) {
        FormatNode::Literal(Literal::new(self))
    }
}

impl MathFormat for &str {
    open spec fn shown_as(self, node: FormatNode) -> bool {
        is_literal(node, self@)
    }

    fn to_format_node(self) -> (r: FormatNode) {
        FormatNode::Literal(Literal::new(self.to_owned()))
    }
}

impl MathFormat for i32 {
    open spec fn shown_as(self, node: FormatNode) -> bool {
        is_literal(node, decimal_text(self as int))
    }

    fn to_format_node(self) -> (r: FormatNode) {
        FormatNode::Literal(Literal::new(decimal(self)))
    }
}

impl MathFormat for X {
    open spec fn shown_as(self, node: FormatNode) -> bool {
        match self {
            X::Infinity => node == FormatNode::SpecialCharacter(SpecialCharacter::Infinity),
            X::Variable(idx) => is_literal(node, decimal_text(idx as int)),
        }
    }

    fn to_format_node(self) -> (r: FormatNode) {
        match self {
            X::Infinity => FormatNode::SpecialCharacter(SpecialCharacter::Infinity),
            X::Variable(idx) => FormatNode::Literal(Literal::new(decimal(idx))),
        }
    }
}

} // verus!
