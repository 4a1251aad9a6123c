use polykit::math::x::{Inf, X};
use polykit::math_format::mfmt;
use polykit::math_format::render::{
    context_for_children, encode, format_fragment_as_math_normal, format_literal,
    text_color_tags, unicode_hspace, Context, FormatError,
};
use polykit::math_format::unicode_alphabets::{unicode_to_subscript, unicode_to_superscript};
use polykit::math_format::{
    check_formatting_config, override_formatting_config, Color, Encoder, FormatNode,
    FormattingConfig, FormattingConfigOverrides, MathFont, MathFormat, RichTextFormat,
    ScopedFormatting, VPos,
};
use polykit::math_format_macro::parse_latex::{
    num_command_args, parse_document, parse_placeholder_format, to_lexemes, Command, Document,
    Lexeme, MathCommand, ParsingError, Placeholder, PlaceholderFormat, Token,
};
use polykit::math_format_macro::{math_format, math_format_node, FormatArg, MathFormatError};

fn config(encoder: Encoder, rich_text_format: RichTextFormat) -> FormattingConfig {
    FormattingConfig { encoder, rich_text_format, include_annotations: true }
}

fn ascii() -> FormattingConfig {
    config(Encoder::Ascii, RichTextFormat::Disabled)
}

fn unicode() -> FormattingConfig {
    config(Encoder::Unicode, RichTextFormat::Disabled)
}

fn error(message: &str) -> ParsingError {
    ParsingError { message: message.to_string() }
}

#[test]
fn to_lexemes_test() {
    assert_eq!(
        to_lexemes(r"\frac1{23^<>}"),
        Ok((
            vec![
                Lexeme::Command(MathCommand::Fraction),
                Lexeme::Symbol('1'),
                Lexeme::Symbol('{'),
                Lexeme::Symbol('2'),
                Lexeme::Symbol('3'),
                Lexeme::Command(MathCommand::Superscript),
                Lexeme::Placeholder(Placeholder { format: PlaceholderFormat::Atom, arg_index: 0 }),
                Lexeme::Symbol('}'),
            ],
            1
        ))
    );
    assert_eq!(
        to_lexemes(r"a\   \  b c\ "),
        Ok((
            vec![
                Lexeme::Symbol('a'),
                Lexeme::Command(MathCommand::Space),
                Lexeme::Command(MathCommand::Space),
                Lexeme::Symbol('b'),
                Lexeme::Symbol('c'),
                Lexeme::Command(MathCommand::Space),
            ],
            0
        ))
    );
}

#[test]
fn parse_document_test() {
    assert_eq!(
        parse_document(r"\frac1{23^<>} + <>"),
        Ok(Document {
            root: Token::Sequence(vec![
                Token::Command(Command {
                    command: MathCommand::Fraction,
                    args: vec![
                        Token::Literal('1'),
                        Token::Sequence(vec![
                            Token::Literal('2'),
                            Token::Literal('3'),
                            Token::Command(Command {
                                command: MathCommand::Superscript,
                                args: vec![Token::Placeholder(Placeholder {
                                    format: PlaceholderFormat::Atom,
                                    arg_index: 0,
                                })]
                            })
                        ])
                    ]
                }),
                Token::Literal('+'),
                Token::Placeholder(Placeholder { format: PlaceholderFormat::Atom, arg_index: 1 }),
            ]),
            num_placeholders: 2,
        })
    );
}

#[test]
fn lexer_reads_commands_and_placeholders() {
    assert_eq!(
        to_lexemes(r"\op{Li}_<,>\inf"),
        Ok((
            vec![
                Lexeme::Command(MathCommand::OperatorName),
                Lexeme::Symbol('{'),
                Lexeme::Symbol('L'),
                Lexeme::Symbol('i'),
                Lexeme::Symbol('}'),
                Lexeme::Command(MathCommand::Subscript),
                Lexeme::Placeholder(Placeholder { format: PlaceholderFormat::List, arg_index: 0 }),
                Lexeme::Command(MathCommand::Infinity),
            ],
            1
        ))
    );
    assert_eq!(to_lexemes(""), Ok((vec![], 0)));
    assert_eq!(to_lexemes(" \t\n"), Ok((vec![], 0)));
    assert_eq!(
        to_lexemes(r"\red\palecyan"),
        Ok((vec![Lexeme::Command(MathCommand::Red), Lexeme::Command(MathCommand::PaleCyan)], 0))
    );
    // A placeholder that is not closed is dropped.
    assert_eq!(to_lexemes("a<"), Ok((vec![Lexeme::Symbol('a')], 0)));
}

#[test]
fn lexer_errors() {
    assert_eq!(to_lexemes(r"\foo"), Err(error("Unknown command: 'foo'")));
    assert_eq!(to_lexemes(r"\foo+"), Err(error("Unknown command: 'foo'")));
    assert_eq!(to_lexemes(r"\+"), Err(error("Unknown command: '+'")));
    assert_eq!(to_lexemes("a>"), Err(error("Unmatched '>'")));
    assert_eq!(to_lexemes("<;>"), Err(error("Unknown placeholder format: ';'")));
    assert_eq!(to_lexemes("a\\"), Err(error("Format string cannot end with '\\'")));
    assert_eq!(
        Lexeme::from_command_name("nope"),
        Err(error("Unknown command: 'nope'"))
    );
    assert_eq!(Lexeme::from_command_name("frac"), Ok(Lexeme::Command(MathCommand::Fraction)));
    assert_eq!(parse_placeholder_format(""), Ok(PlaceholderFormat::Atom));
    assert_eq!(parse_placeholder_format(","), Ok(PlaceholderFormat::List));
    assert_eq!(
        parse_placeholder_format("x"),
        Err(error("Unknown placeholder format: 'x'"))
    );
    assert_eq!(ParsingError::new("text"), error("text"));
}

#[test]
fn parser_errors() {
    assert_eq!(
        parse_document(r"\frac1"),
        Err(error("Unexpected end-of-input in parse_block"))
    );
    assert_eq!(parse_document("{ab"), Err(error("No matching '}'")));
    assert_eq!(
        parse_document("{{a}}"),
        Err(error(
            "Unexpected '{' (note: braces are allowed only around command argument and for sub-/super-script)"
        ))
    );
    assert_eq!(
        parse_document(r"\foo"),
        Err(error("Unknown command: 'foo'"))
    );
    assert_eq!(
        parse_document(""),
        Ok(Document { root: Token::Sequence(vec![]), num_placeholders: 0 })
    );
    assert_eq!(
        parse_document("{}"),
        Ok(Document { root: Token::Sequence(vec![Token::Sequence(vec![])]), num_placeholders: 0 })
    );
}

#[test]
fn commands_take_their_arguments() {
    assert_eq!(num_command_args(MathCommand::Fraction), 2);
    assert_eq!(num_command_args(MathCommand::Space), 0);
    assert_eq!(num_command_args(MathCommand::Infinity), 0);
    assert_eq!(num_command_args(MathCommand::Subscript), 1);
    assert_eq!(num_command_args(MathCommand::PaleMagenta), 1);
}

#[test]
fn color_tables() {
    assert_eq!(Color::Normal.alternative_brightness(), Color::Gray);
    assert_eq!(Color::Gray.alternative_brightness(), Color::Normal);
    assert_eq!(Color::Yellow.alternative_brightness(), Color::Orange);
    assert_eq!(Color::PaleCyan.alternative_brightness(), Color::Cyan);
    assert_eq!(Color::Normal.to_console(), "0;37");
    assert_eq!(Color::Orange.to_console(), "0;33");
    assert_eq!(Color::PaleBlue.to_console(), "0;34");
    assert_eq!(Color::Green.to_html(), "LimeGreen");
    assert_eq!(Color::PaleCyan.to_html(), "MediumAquamarine");
    assert_eq!(Color::Green.to_latex(), "Green");
    assert_eq!(Color::Yellow.to_latex(), "Goldenrod");
    assert_eq!(Color::PaleMagenta.to_latex(), "Lavender");
}

#[test]
fn script_forms_of_characters() {
    assert_eq!(unicode_to_subscript('0'), Some('\u{2080}'));
    assert_eq!(unicode_to_subscript('9'), Some('\u{2089}'));
    assert_eq!(unicode_to_subscript('+'), Some('\u{208a}'));
    assert_eq!(unicode_to_subscript('-'), Some('\u{208b}'));
    assert_eq!(unicode_to_subscript('a'), None);
    assert_eq!(unicode_to_superscript('1'), Some('\u{b9}'));
    assert_eq!(unicode_to_superscript('2'), Some('\u{b2}'));
    assert_eq!(unicode_to_superscript('3'), Some('\u{b3}'));
    assert_eq!(unicode_to_superscript('4'), Some('\u{2074}'));
    assert_eq!(unicode_to_superscript('-'), Some('\u{207b}'));
    assert_eq!(unicode_to_superscript('x'), None);
}

#[test]
fn configurations() {
    let base = config(Encoder::Ascii, RichTextFormat::Console);
    let none = FormattingConfigOverrides::default();
    assert_eq!(override_formatting_config(base, none), base);
    let some = FormattingConfigOverrides {
        encoder: Some(Encoder::Unicode),
        rich_text_format: None,
        include_annotations: Some(false),
    };
    assert_eq!(
        override_formatting_config(base, some),
        FormattingConfig {
            encoder: Encoder::Unicode,
            rich_text_format: RichTextFormat::Console,
            include_annotations: false
        }
    );
    assert!(check_formatting_config(&config(Encoder::Latex, RichTextFormat::Latex)));
    assert!(check_formatting_config(&config(Encoder::Latex, RichTextFormat::Disabled)));
    assert!(check_formatting_config(&config(Encoder::Unicode, RichTextFormat::Html)));
    assert!(!check_formatting_config(&config(Encoder::Latex, RichTextFormat::Html)));
    assert!(!check_formatting_config(&config(Encoder::Ascii, RichTextFormat::Latex)));
}

#[test]
fn scoped_configurations() {
    let mut stack = ScopedFormatting::root();
    assert_eq!(stack.current_formatting_config(), config(Encoder::Ascii, RichTextFormat::Console));
    let to_unicode = FormattingConfigOverrides {
        encoder: Some(Encoder::Unicode),
        rich_text_format: None,
        include_annotations: None,
    };
    assert!(stack.new(to_unicode));
    assert_eq!(stack.current_formatting_config().encoder, Encoder::Unicode);
    let to_latex_text = FormattingConfigOverrides {
        encoder: None,
        rich_text_format: Some(RichTextFormat::Latex),
        include_annotations: None,
    };
    assert!(!stack.new(to_latex_text));
    assert_eq!(stack.current_formatting_config().rich_text_format, RichTextFormat::Console);
    stack.leave();
    assert_eq!(stack.current_formatting_config().encoder, Encoder::Ascii);
    stack.leave();
    assert_eq!(stack.current_formatting_config().encoder, Encoder::Ascii);
}

#[test]
fn ascii_rendering() {
    let node = mfmt::concat(vec![
        mfmt::op("Li"),
        mfmt::sub(mfmt::comma_list(vec![1, 2])),
        mfmt::lit("("),
        mfmt::frac(mfmt::lit(3), mfmt::lit("x")),
        mfmt::sup(mfmt::lit(2)),
        mfmt::lit(")"),
    ]);
    assert_eq!(node.render(&ascii()), Ok("Li_1_2(3 / x^2)".to_string()));
    assert_eq!(mfmt::sup(mfmt::comma_list(vec![1, 2])).render(&ascii()), Ok("^1^2".to_string()));
    assert_eq!(mfmt::comma_list(vec![X::Variable(1), Inf]).render(&ascii()), Ok("1,Inf".to_string()));
    let specials = mfmt::concat(vec![
        mfmt::space(),
        mfmt::inf(),
        mfmt::tensor_prod(),
        mfmt::coprod_normal(),
        mfmt::coprod_iterated(),
        mfmt::coprod_hopf(),
        mfmt::comult(),
        mfmt::set_union(),
        mfmt::set_intersection(),
        mfmt::set_complement(),
    ]);
    assert_eq!(specials.render(&ascii()), Ok(" Inf *   ^    @    %  &|&!".to_string()));
    assert_eq!(mfmt::concat(Vec::<FormatNode>::new()).render(&ascii()), Ok("".to_string()));
    assert_eq!(mfmt::lit("a-b".to_string()).render(&ascii()), Ok("a-b".to_string()));
}

#[test]
fn unicode_rendering() {
    assert_eq!(mfmt::lit("a-b").render(&unicode()), Ok("a\u{2212}b".to_string()));
    assert_eq!(mfmt::sub(mfmt::lit(-12)).render(&unicode()), Ok("\u{208b}\u{2081}\u{2082}".to_string()));
    assert_eq!(mfmt::sup(mfmt::lit(30)).render(&unicode()), Ok("\u{b3}\u{2070}".to_string()));
    assert_eq!(mfmt::sub(mfmt::comma_list(vec![1, 2])).render(&unicode()), Ok("\u{2081}\u{2082}".to_string()));
    assert_eq!(
        mfmt::sub(mfmt::comma_list(vec![1, 23])).render(&unicode()),
        Ok("\u{2081},\u{2082}\u{2083}".to_string())
    );
    assert_eq!(
        mfmt::sup(mfmt::comma_list(vec![1, 23])).render(&unicode()),
        Ok("\u{b9}\u{2d2}\u{b2}\u{b3}".to_string())
    );
    assert_eq!(mfmt::comma_list(vec![1, 2]).render(&unicode()), Ok("1,2".to_string()));
    let specials = mfmt::concat(vec![
        mfmt::space(),
        mfmt::inf(),
        mfmt::tensor_prod(),
        mfmt::coprod_normal(),
        mfmt::coprod_iterated(),
        mfmt::coprod_hopf(),
        mfmt::comult(),
        mfmt::set_union(),
        mfmt::set_intersection(),
        mfmt::set_complement(),
    ]);
    assert_eq!(
        specials.render(&unicode()),
        Ok(" \u{221e}\u{2297} \u{2227}  \u{2297}  \u{2612} \u{25b3}\u{22c3}\u{22c2}\u{ac}".to_string())
    );
    assert_eq!(mfmt::frac(mfmt::lit(1), mfmt::lit(2)).render(&unicode()), Ok("1 / 2".to_string()));
}

#[test]
fn rendering_errors() {
    assert_eq!(mfmt::sub(mfmt::sup(mfmt::lit(1))).render(&ascii()), Err(FormatError::NestedScript));
    assert_eq!(mfmt::sup(mfmt::sup(mfmt::lit(1))).render(&unicode()), Err(FormatError::NestedScript));
    assert_eq!(mfmt::sub(mfmt::lit("x")).render(&unicode()), Err(FormatError::NoScriptForm));
    assert_eq!(mfmt::sub(mfmt::lit("x")).render(&ascii()), Ok("_x".to_string()));
    assert_eq!(mfmt::sub(mfmt::inf()).render(&unicode()), Err(FormatError::ScriptSpecial));
    assert_eq!(mfmt::sub(mfmt::inf()).render(&ascii()), Ok("_Inf".to_string()));
    assert_eq!(
        mfmt::lit(1).render(&config(Encoder::Latex, RichTextFormat::Latex)),
        Err(FormatError::LatexEncoder)
    );
    assert_eq!(
        mfmt::concat(vec![mfmt::lit("a"), mfmt::sub(mfmt::sub(mfmt::lit(1))), mfmt::sub(mfmt::lit("x"))]).render(&unicode()),
        Err(FormatError::NestedScript)
    );
}

#[test]
fn rich_text_rendering() {
    let console = config(Encoder::Ascii, RichTextFormat::Console);
    let html = config(Encoder::Ascii, RichTextFormat::Html);
    assert_eq!(mfmt::lit("12+3").render(&console), Ok("12+3".to_string()));
    assert_eq!(
        mfmt::lit("a1b").render(&console),
        Ok("\x1b[1;30ma\x1b[0;37m1\x1b[1;30mb\x1b[0;37m".to_string())
    );
    assert_eq!(mfmt::lit("ab+c").render(&html), Ok("<i>ab</i>+<i>c</i>".to_string()));
    assert_eq!(mfmt::lit("\u{e9}t\u{e9}").render(&html), Ok("<i>\u{e9}t\u{e9}</i>".to_string()));
    assert_eq!(mfmt::op("ab").render(&html), Ok("ab".to_string()));
    assert_eq!(
        mfmt::color(Color::Red, mfmt::lit("x1")).render(&html),
        Ok("<span style=\"color: Red\"><i>x</i>1</span>".to_string())
    );
    assert_eq!(
        mfmt::color(Color::Red, mfmt::color(Color::Blue, mfmt::lit(1))).render(&console),
        Ok("\x1b[1;31m\x1b[1;34m1\x1b[1;31m\x1b[0;37m".to_string())
    );
    assert_eq!(
        mfmt::color(Color::Red, mfmt::lit("x")).render(&console),
        Ok("\x1b[1;31m\x1b[0;31mx\x1b[1;31m\x1b[0;37m".to_string())
    );
    assert_eq!(mfmt::color(Color::Red, mfmt::lit("x")).render(&ascii()), Ok("x".to_string()));
}

#[test]
fn pieces_of_rendering() {
    assert_eq!(
        text_color_tags(Color::Normal, Color::Green, RichTextFormat::Latex),
        ("\\textcolor{Green}{".to_string(), "}".to_string())
    );
    assert_eq!(
        text_color_tags(Color::Normal, Color::Green, RichTextFormat::Disabled),
        (String::new(), String::new())
    );
    assert_eq!(
        format_fragment_as_math_normal("ab", true, Color::Normal, RichTextFormat::Latex),
        "ab"
    );
    assert_eq!(
        format_fragment_as_math_normal("12", false, Color::Normal, RichTextFormat::Html),
        "12"
    );
    assert_eq!(unicode_hspace("x"), " x ");
    let root = Context {
        config: ascii(),
        vpos: VPos::Normal,
        math_font: MathFont::Normal,
        color: Color::Normal,
    };
    assert_eq!(context_for_children(root, &mfmt::op("x")).unwrap().math_font, MathFont::Straight);
    assert_eq!(context_for_children(root, &mfmt::sub("x")).unwrap().vpos, VPos::Sub);
    assert_eq!(context_for_children(root, &mfmt::sup("x")).unwrap().vpos, VPos::Super);
    assert_eq!(context_for_children(root, &mfmt::color(Color::Cyan, "x")).unwrap().color, Color::Cyan);
    assert_eq!(context_for_children(root, &mfmt::lit("x")).unwrap(), root);
    let straight = Context { math_font: MathFont::Straight, ..root };
    assert_eq!(format_literal("ab1", &straight), "ab1");
    assert_eq!(encode(&mfmt::lit("ab1"), &straight), Ok("ab1".to_string()));
    assert_eq!("x".to_string().to_format_node().render(&ascii()), Ok("x".to_string()));
}

#[test]
fn format_strings_with_arguments() {
    let args = vec![
        FormatArg::Atom(mfmt::lit(5)),
        FormatArg::List(vec![mfmt::lit(1), mfmt::lit(33)]),
    ];
    let node = math_format_node(r"\op{QLi}_<>(<,>)", args).unwrap();
    assert_eq!(node.render(&ascii()), Ok("QLi_5(1,33)".to_string()));
    let text = math_format(
        r"\frac1{<>^<>}",
        vec![FormatArg::Atom(mfmt::lit(5)), FormatArg::Atom(mfmt::lit(9))],
        &unicode(),
    );
    assert!(matches!(text, Ok(t) if t == "1 / 5\u{2079}"));
    let colored = math_format(r"\yellow{-7\inf}\ x", vec![], &ascii());
    assert!(matches!(colored, Ok(t) if t == "-7Inf x"));
}

#[test]
fn format_strings_with_wrong_arguments() {
    let few = math_format_node("<> <>", vec![FormatArg::Atom(mfmt::lit(1))]);
    assert!(matches!(few, Err(e) if e.message == "Expected 2 args, but got 1"));
    let kind = math_format_node("<,>", vec![FormatArg::Atom(mfmt::lit(1))]);
    assert!(matches!(kind, Err(e) if e.message == "A placeholder has no argument of its kind"));
    let unknown = math_format(r"\foo", vec![], &ascii());
    assert!(matches!(unknown, Err(MathFormatError::Parsing(e)) if e.message == "Unknown command: 'foo'"));
    let script = math_format("_x", vec![], &unicode());
    assert!(matches!(script, Err(MathFormatError::Format(FormatError::NoScriptForm))));
}
