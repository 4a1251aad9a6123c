//! Helpers for text: the order of labels, and joining pieces of text.

use vstd::prelude::*;
use vstd::string::StringExecFns;
use crate::base::word_order::{WordOrder, word_compare};

verus! {

/// The code points of a text, position by position.
pub open spec fn char_codes(s: Seq<char>) -> Seq<int> {
    Seq::new(s.len(), |i: int| s[i] as int)
}

/// Compares two texts with `str::cmp` of the standard library, which orders
/// strings lexicographically by their bytes. For UTF-8 this is the
/// lexicographic order of their code points, and that is what the contract
/// claims; Verus does not check it.
#[verifier::external_body]
pub(crate) fn compare_text(a: &str, b: &str) -> (r: WordOrder)
    ensures
        r == word_compare(char_codes(a@), char_codes(b@)),
{
    match a.cmp(b) {
        std::cmp::Ordering::Less => WordOrder::Less,
        std::cmp::Ordering::Equal => WordOrder::Equal,
        std::cmp::Ordering::Greater => WordOrder::Greater,
    }
}

/// The character of a decimal digit.
pub open spec fn digit_char(d: int) -> char {
    if d == 0 {
        '0'
    } else if d == 1 {
        '1'
    } else if d == 2 {
        '2'
    } else if d == 3 {
        '3'
    } else if d == 4 {
        '4'
    } else if d == 5 {
        '5'
    } else if d == 6 {
        '6'
    } else if d == 7 {
        '7'
    } else if d == 8 {
        '8'
    } else {
        '9'
    }
}

/// The decimal digits of a natural number, without leading zeros.
pub open spec fn decimal_digits(n: nat) -> Seq<char>
    decreases n,
{
    if n < 10 {
        seq![digit_char(n as int)]
    } else {
        decimal_digits(n / 10).push(digit_char((n % 10) as int))
    }
}

/// The decimal text of a whole number: a minus sign for a negative number,
/// then its digits.
pub open spec fn decimal_text(n: int) -> Seq<char> {
    if n < 0 {
        seq!['-'] + decimal_digits((-n) as nat)
    } else {
        decimal_digits(n as nat)
    }
}

/// The text of one decimal digit.
fn digit_str(d: u32) -> (r: &'static str)
    requires
        d < 10,
    ensures
        r@ == seq![digit_char(d as int)],
{
    proof {
        reveal_strlit("0");
        reveal_strlit("1");
        reveal_strlit("2");
        reveal_strlit("3");
        reveal_strlit("4");
        reveal_strlit("5");
        reveal_strlit("6");
        reveal_strlit("7");
        reveal_strlit("8");
        reveal_strlit("9");
    }
    let r = match d {
        0 => "0",
        1 => "1",
        2 => "2",
        3 => "3",
        4 => "4",
        5 => "5",
        6 => "6",
        7 => "7",
        8 => "8",
        _ => "9",
    };
    assert(r@ =~= seq![digit_char(d as int)]);
    r
}

/// Appends the decimal digits of `n` to a text.
fn push_digits(s: &mut String, n: u32)
    ensures
        final(s)@ == old(s)@ + decimal_digits(n as nat),
    decreases n,
{
    if n >= 10 {
        push_digits(s, n / 10);
    }
    s.append(digit_str(n % 10));
    proof {
        if n >= 10 {
            assert(old(s)@ + decimal_digits((n / 10) as nat) + seq![digit_char((n % 10) as int)]
                =~= old(s)@ + decimal_digits(n as nat));
        } else {
            assert(old(s)@ + seq![digit_char((n % 10) as int)] =~= old(s)@ + decimal_digits(n as nat));
        }
    }
}

/// The decimal text of a number.
pub fn decimal(n: i32) -> (r: String)
    ensures
        r@ == decimal_text(n as int),
{
    let mut s = String::new();
    if n < 0 {
        proof {
            reveal_strlit("-");
        }
        s.append("-");
        assert(s@ =~= seq!['-']);
        let magnitude: u32 = if n == i32::MIN {
            2147483648u32
        } else {
            (-n) as u32
        };
        push_digits(&mut s, magnitude);
    } else {
        push_digits(&mut s, n as u32);
        assert(Seq::<char>::empty() + decimal_digits(n as nat) =~= decimal_digits(n as nat));
    }
    s
}

/// The texts of a sequence of strings.
pub open spec fn texts(parts: Seq<String>) -> Seq<Seq<char>> {
    Seq::new(parts.len(), |i: int| parts[i]@)
}

/// The texts written one after the other with `sep` between them.
pub open spec fn join_spec(ts: Seq<Seq<char>>, sep: Seq<char>) -> Seq<char>
    decreases ts.len(),
{
    if ts.len() == 0 {
        Seq::empty()
    } else if ts.len() == 1 {
        ts[0]
    } else {
        join_spec(ts.drop_last(), sep) + sep + ts.last()
    }
}

/// The texts of a list that are not empty, in their order.
pub open spec fn non_empty(ts: Seq<Seq<char>>) -> Seq<Seq<char>>
    decreases ts.len(),
{
    if ts.len() == 0 {
        Seq::empty()
    } else if ts.last().len() > 0 {
        non_empty(ts.drop_last()).push(ts.last())
    } else {
        non_empty(ts.drop_last())
    }
}

/// Joins strings with `Itertools::join` of the crate `itertools`, which
/// writes the first string and then, for every further one, the separator
/// and the string. Verus does not check this.
#[verifier::external_body]
pub(crate) fn join_strings(parts: &Vec<String>, sep: &str) -> (r: String)
    ensures
        r@ == join_spec(texts(parts@), sep@),
{
    itertools::Itertools::join(&mut parts.iter(), sep)
}

/// Sorts numbers with `Itertools::sorted` of the crate `itertools`, which
/// collects them and sorts them with the standard `sort`: the result holds
/// the same numbers, each as often, in ascending order. Verus does not check this.
#[verifier::external_body]
pub(crate) fn sorted_numbers(v: &[i32]) -> (r: Vec<i32>)
    ensures
        r@.to_multiset() == v@.to_multiset(),
        forall|i: int, j: int| 0 <= i < j < r@.len() ==> r@[i] <= r@[j],
{
    itertools::Itertools::sorted(v.iter().copied()).collect()
}

/// Joining pieces of text.
pub trait StringTools {
    /// The pieces of text.
    spec fn pieces(&self) -> Seq<Seq<char>>;

    /// The pieces that are not empty, written one after the other with
    /// `sep` between them.
    fn join_non_empty(&self, sep: &str) -> (r: String)
        ensures
            r@ == join_spec(non_empty(self.pieces()), sep@),
    ;
}

impl StringTools for Vec<String> {
    open spec fn pieces(&self) -> Seq<Seq<char>> {
        texts(self@)
    }

    fn join_non_empty(&self, sep: &str) -> (r: String) {
        let mut kept: Vec<String> = Vec::new();
        let mut i: usize = 0;
        assert(texts(self@).take(0) =~= Seq::<Seq<char>>::empty());
        assert(texts(kept@) =~= Seq::<Seq<char>>::empty());
        while i < self.len()
            invariant
                i <= self@.len(),
                texts(kept@) == non_empty(texts(self@).take(i as int)),
            decreases self@.len() - i,
        {
            let ghost before = texts(kept@);
            proof {
                assert(texts(self@).take(i + 1).drop_last() =~= texts(self@).take(i as int));
                assert(texts(self@).take(i + 1).last() == self@[i as int]@);
            }
            if !self[i].as_str().is_empty() {
                kept.push(self[i].clone());
                assert(texts(kept@) =~= before.push(self@[i as int]@));
            }
            i += 1;
        }
        assert(texts(self@).take(i as int) =~= texts(self@));
        join_strings(&kept, sep)
    }
}

} // verus!
