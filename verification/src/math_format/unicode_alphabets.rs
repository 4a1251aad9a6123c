//! Subscript and superscript forms of characters.

use vstd::prelude::*;

verus! {

/// The subscript form of a character, for the characters that have one:
/// the digits, plus and minus.
pub open spec fn subscript_of(ch: char) -> Option<char> {
    if ch == '+' {
        Some('₊')
    } else if ch == '-' {
        Some('₋')
    } else if ch == '0' {
        Some('₀')
    } else if ch == '1' {
        Some('₁')
    } else if ch == '2' {
        Some('₂')
    } else if ch == '3' {
        Some('₃')
    } else if ch == '4' {
        Some('₄')
    } else if ch == '5' {
        Some('₅')
    } else if ch == '6' {
        Some('₆')
    } else if ch == '7' {
        Some('₇')
    } else if ch == '8' {
        Some('₈')
    } else if ch == '9' {
        Some('₉')
    } else {
        None
    }
}

/// The superscript form of a character, for the characters that have one:
/// the digits, plus and minus.
pub open spec fn superscript_of(ch: char) -> Option<char> {
    if ch == '+' {
        Some('⁺')
    } else if ch == '-' {
        Some('⁻')
    } else if ch == '0' {
        Some('⁰')
    } else if ch == '1' {
        Some('¹')
    } else if ch == '2' {
        Some('²')
    } else if ch == '3' {
        Some('³')
    } else if ch == '4' {
        Some('⁴')
    } else if ch == '5' {
        Some('⁵')
    } else if ch == '6' {
        Some('⁶')
    } else if ch == '7' {
        Some('⁷')
    } else if ch == '8' {
        Some('⁸')
    } else if ch == '9' {
        Some('⁹')
    } else {
        None
    }
}

/// The subscript form of a character, if it has one.
pub fn unicode_to_subscript(ch: char) -> (r: Option<char>)
    ensures
        r == subscript_of(ch),
{
    match ch {
        '+' => Some('₊'),
        '-' => Some('₋'),
        '0' => Some('₀'),
        '1' => Some('₁'),
        '2' => Some('₂'),
        '3' => Some('₃'),
        '4' => Some('₄'),
        '5' => Some('₅'),
        '6' => Some('₆'),
        '7' => Some('₇'),
        '8' => Some('₈'),
        '9' => Some('₉'),
        _ => None,
    }
}

/// The superscript form of a character, if it has one.
pub fn unicode_to_superscript(ch: char) -> (r: Option<char>)
    ensures
        r == superscript_of(ch),
{
    match ch {
        '+' => Some('⁺'),
        '-' => Some('⁻'),
        '0' => Some('⁰'),
        '1' => Some('¹'),
        '2' => Some('²'),
        '3' => Some('³'),
        '4' => Some('⁴'),
        '5' => Some('⁵'),
        '6' => Some('⁶'),
        '7' => Some('⁷'),
        '8' => Some('⁸'),
        '9' => Some('⁹'),
        _ => None,
    }
}

} // verus!
