//! Builders of format nodes.

use vstd::prelude::*;
use crate::math_format::{ApplyColor, Color, CommaSeparatedList, Concatenation, FormatNode, Fraction,
    MathFormat, OperatorName, SpecialCharacter, Subscript, Superscript};

verus! {

/// Each node is how the value at its place is shown.
pub open spec fn all_shown<T: MathFormat>(elements: Seq<T>, nodes: Seq<FormatNode>) -> bool {
    nodes.len() == elements.len() && forall|i: int|
        0 <= i < elements.len() ==> (#[trigger] elements[i]).shown_as(nodes[i])
}

/// The value as a piece of formatted text.
pub fn lit<T: MathFormat>(v: T) -> (r: FormatNode)
    ensures
        v.shown_as(r),
{
    v.to_format_node()
}

/// The values as a list.
pub fn comma_list<T: MathFormat>(children: Vec<T>) -> (r: FormatNode)
    ensures
        r matches FormatNode::CommaSeparatedList(l) && all_shown(children@, l.children@),
{
    FormatNode::CommaSeparatedList(CommaSeparatedList::new(vec_to_format_nodes(children)))
}

/// The values one after the other.
pub fn concat<T: MathFormat>(children: Vec<T>) -> (r: FormatNode)
    ensures
        r matches FormatNode::Concatenation(l) && all_shown(children@, l.children@),
{
    FormatNode::Concatenation(Concatenation::new(vec_to_format_nodes(children)))
}

pub fn space() -> (r: FormatNode)
    ensures
        r == FormatNode::SpecialCharacter(SpecialCharacter::Space),
{
    FormatNode::SpecialCharacter(SpecialCharacter::Space)
}

pub fn inf() -> (r: FormatNode)
    ensures
        r == FormatNode::SpecialCharacter(SpecialCharacter::Infinity),
{
    FormatNode::SpecialCharacter(SpecialCharacter::Infinity)
}

pub fn tensor_prod() -> (r: FormatNode)
    ensures
        r == FormatNode::SpecialCharacter(SpecialCharacter::TensorProd),
{
    FormatNode::SpecialCharacter(SpecialCharacter::TensorProd)
}

pub fn coprod_normal() -> (r: FormatNode)
    ensures
        r == FormatNode::SpecialCharacter(SpecialCharacter::CoprodNormal),
{
    FormatNode::SpecialCharacter(SpecialCharacter::CoprodNormal)
}

pub fn coprod_iterated() -> (r: FormatNode)
    ensures
        r == FormatNode::SpecialCharacter(SpecialCharacter::CoprodIterated),
{
    FormatNode::SpecialCharacter(SpecialCharacter::CoprodIterated)
}

pub fn coprod_hopf() -> (r: FormatNode)
    ensures
        r == FormatNode::SpecialCharacter(SpecialCharacter::CoprodHopf),
{
    FormatNode::SpecialCharacter(SpecialCharacter::CoprodHopf)
}

pub fn comult() -> (r: FormatNode)
    ensures
        r == FormatNode::SpecialCharacter(SpecialCharacter::Comult),
{
    FormatNode::SpecialCharacter(SpecialCharacter::Comult)
}

pub fn set_union() -> (r: FormatNode)
    ensures
        r == FormatNode::SpecialCharacter(SpecialCharacter::SetUnion),
{
    FormatNode::SpecialCharacter(SpecialCharacter::SetUnion)
}

pub fn set_intersection() -> (r: FormatNode)
    ensures
        r == FormatNode::SpecialCharacter(SpecialCharacter::SetIntersection),
{
    FormatNode::SpecialCharacter(SpecialCharacter::SetIntersection)
}

pub fn set_complement() -> (r: FormatNode)
    ensures
        r == FormatNode::SpecialCharacter(SpecialCharacter::SetComplement),
{
    FormatNode::SpecialCharacter(SpecialCharacter::SetComplement)
}

/// The value as the name of an operator.
pub fn op<T: MathFormat>(child: T) -> (r: FormatNode)
    ensures
        r matches FormatNode::OperatorName(o) && child.shown_as(*o.child),
{
    FormatNode::OperatorName(OperatorName::new(Box::new(child.to_format_node())))
}

/// The fraction of two values.
pub fn frac<T1: MathFormat, T2: MathFormat>(numerator: T1, denominator: T2) -> (r: FormatNode)
    ensures
        r matches FormatNode::Fraction(f) && numerator.shown_as(*f.numerator) && denominator.shown_as(
            *f.denominator,
        ),
{
    FormatNode::Fraction(
        Fraction::new(Box::new(numerator.to_format_node()), Box::new(denominator.to_format_node())),
    )
}

/// The value as a subscript.
pub fn sub<T: MathFormat>(child: T) -> (r: FormatNode)
    ensures
        r matches FormatNode::Subscript(s) && child.shown_as(*s.child),
{
    FormatNode::Subscript(Subscript::new(Box::new(child.to_format_node())))
}

/// The value as a superscript.
pub fn sup<T: MathFormat>(child: T) -> (r: FormatNode)
    ensures
        r matches FormatNode::Superscript(s) && child.shown_as(*s.child),
{
    FormatNode::Superscript(Superscript::new(Box::new(child.to_format_node())))
}

/// The value in a colour.
pub fn color<T: MathFormat>(tint: Color, child: T) -> (r: FormatNode)
    ensures
        r matches FormatNode::ApplyColor(c) && c.color == tint && child.shown_as(*c.child),
{
    FormatNode::ApplyColor(ApplyColor::new(tint, Box::new(child.to_format_node())))
}

/// The values as pieces of formatted text.
pub fn vec_to_format_nodes<T: MathFormat>(elements: Vec<T>) -> (r: Vec<FormatNode>)
    ensures
        all_shown(elements@, r@),
{
    let ghost es = elements@;
    let mut rest = elements;
    let mut back: Vec<FormatNode> = Vec::new();
    let ghost n = es.len() as int;
    loop
        invariant
            rest@.len() <= n,
            n == es.len(),
            rest@ == es.take(rest@.len() as int),
            back@.len() == n - rest@.len(),
            forall|j: int| 0 <= j < back@.len() ==> es[n - 1 - j].shown_as(#[trigger] back@[j]),
        ensures
            back@.len() == n,
            forall|j: int| 0 <= j < n ==> es[n - 1 - j].shown_as(#[trigger] back@[j]),
        decreases rest@.len(),
    {
        let ghost k = rest@.len() as int;
        match rest.pop() {
            None => {
                break ;
            },
            Some(e) => {
                assert(es.take(k)[k - 1] == es[k - 1]);
                assert(rest@ =~= es.take(k - 1));
                back.push(e.to_format_node());
            },
        }
    }
    let mut r: Vec<FormatNode> = Vec::new();
    loop
        invariant
            back@.len() <= n,
            n == es.len(),
            r@.len() == n - back@.len(),
            forall|j: int| 0 <= j < back@.len() ==> es[n - 1 - j].shown_as(#[trigger] back@[j]),
            forall|i: int| 0 <= i < r@.len() ==> (#[trigger] es[i]).shown_as(r@[i]),
        ensures
            r@.len() == n,
            forall|i: int| 0 <= i < n ==> (#[trigger] es[i]).shown_as(r@[i]),
        decreases back@.len(),
    {
        let ghost k = back@.len() as int;
        match back.pop() {
            None => {
                break ;
            },
            Some(node) => {
                assert(es[n - 1 - (k - 1)].shown_as(node));
                r.push(node);
            },
        }
    }
    r
}

} // verus!
