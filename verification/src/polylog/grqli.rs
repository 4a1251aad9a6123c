//! The Grassmannian QLi functions: pullbacks of QLi functions.

use vstd::prelude::*;
use crate::base::string_tools::{char_codes, decimal_text, sorted_numbers};
use crate::math::delta_ratio::points_of;
use crate::math::gamma::{GammaExpr, bitset_of, gamma_key_of, pullback, pullback_parts, rekeyed,
    points_in_range, ConvertibleToGammaExpr};
use crate::math::linear::{ArithmeticError, expand_sums, sum_outcome};
use crate::math::shuffle::sorted_terms;
use crate::math::terms::{SumMap, Word, accumulate, single_map};
use crate::math::x::{X, XArg, to_x_vec};
use crate::math_format::{FormatNode, FormattingConfig, MathFormat, is_literal};
use crate::math_format::mfmt::{all_shown, comma_list, concat, lit, op};
use crate::math_format::render::{FormatError, rendered};
use crate::polylog::qli::{PolylogError, QLi, is_word_node, min_weight, point_in_gamma_range,
    point_ok, qli_label_fails, qli_map, qli_valid, tagged, word_node};

verus! {

/// The points that a list of variable numbers stands for.
pub open spec fn variables(v: Seq<i32>) -> Seq<X> {
    Seq::new(v.len(), |i: int| X::Variable(v[i]))
}

/// The pullback of the QLi of the given weight of the points along the
/// bonus points, as a sum of products of Gammas.
pub open spec fn grqli_view(weight: int, qli_points: Seq<i32>, bonus_points: Seq<i32>) -> Result<
    SumMap,
    ArithmeticError,
> {
    match qli_map(weight, tagged(variables(qli_points))) {
        Err(e) => Err(e),
        Ok(q) => match sum_outcome(
            accumulate(Map::empty(), rekeyed(sorted_terms(q), |k: Word| gamma_key_of(k))),
        ) {
            Err(e) => Err(e),
            Ok(g) => if bonus_points.len() == 0 {
                Ok(g)
            } else if !bonus_points.no_duplicates() {
                Ok(Map::empty())
            } else {
                sum_outcome(
                    expand_sums(
                        pullback_parts(sorted_terms(g), bitset_of(bonus_points)),
                        sorted_terms(g),
                    ),
                )
            },
        },
    }
}

/// The bonus points in ascending order.
pub open spec fn is_sorted_list(sorted: Seq<i32>, of: Seq<i32>) -> bool {
    sorted.to_multiset() == of.to_multiset() && forall|i: int, j: int|
        0 <= i < j < sorted.len() ==> sorted[i] <= sorted[j]
}

/// The node is the label of a GrQLi: the name as an operator, the weight
/// as a subscript, and in parentheses the bonus points in ascending order
/// and, after a slash if there are bonus points, the points of the QLi.
pub open spec fn is_grqli_label(node: FormatNode, weight: int, qli_points: Seq<i32>, bonus_points: Seq<i32>) -> bool {
    node matches FormatNode::Concatenation(c) && c.children@.len() == 7 && (c.children@[0] matches FormatNode::OperatorName(
        o,
    ) && is_word_node(*o.child, "GrQLi"@)) && (c.children@[1] matches FormatNode::Subscript(s)
        && is_literal(*s.child, decimal_text(weight))) && is_literal(c.children@[2], "("@) && (
    c.children@[3] matches FormatNode::CommaSeparatedList(l) && exists|sorted: Seq<i32>|
        is_sorted_list(sorted, bonus_points) && #[trigger] all_shown(sorted, l.children@))
        && is_literal(
        c.children@[4],
        if bonus_points.len() == 0 {
            ""@
        } else {
            " / "@
        },
    ) && (c.children@[5] matches FormatNode::CommaSeparatedList(l) && all_shown(
        qli_points,
        l.children@,
    )) && is_literal(c.children@[6], ")"@)
}

/// The text is the label of a GrQLi under the configuration.
pub open spec fn is_grqli_label_text(
    label: Seq<char>,
    weight: int,
    qli_points: Seq<i32>,
    bonus_points: Seq<i32>,
    config: FormattingConfig,
) -> bool {
    exists|node: FormatNode| #[trigger]
        is_grqli_label(node, weight, qli_points, bonus_points) && rendered(node, config) == Ok::<
            Seq<char>,
            FormatError,
        >(label)
}

/// There is a label node whose rendering fails with the error.
pub open spec fn grqli_label_fails(
    e: FormatError,
    weight: int,
    qli_points: Seq<i32>,
    bonus_points: Seq<i32>,
    config: FormattingConfig,
) -> bool {
    exists|node: FormatNode| #[trigger]
        is_grqli_label(node, weight, qli_points, bonus_points) && rendered(node, config) == Err::<
            Seq<char>,
            FormatError,
        >(e)
}

/// A copy of a list of numbers.
fn copy_numbers(v: &[i32]) -> (r: Vec<i32>)
    ensures
        r@ == v@,
{
    let mut r: Vec<i32> = Vec::new();
    let mut i: usize = 0;
    while i < v.len()
        invariant
            i <= v@.len(),
            r@ == v@.take(i as int),
        decreases v@.len() - i,
    {
        r.push(v[i]);
        assert(r@ =~= v@.take(i + 1));
        i += 1;
    }
    assert(v@.take(i as int) =~= v@);
    r
}

/// The label of a GrQLi.
pub fn grqli_label(weight: i32, qli_points: &[i32], bonus_points: &[i32], config: &FormattingConfig) -> (r:
    Result<String, FormatError>)
    ensures
        match r {
            Ok(label) => is_grqli_label_text(
                label@,
                weight as int,
                qli_points@,
                bonus_points@,
                *config,
            ),
            Err(e) => grqli_label_fails(e, weight as int, qli_points@, bonus_points@, *config),
        },
{
    let name = op(word_node("GrQLi"));
    let index = crate::math_format::mfmt::sub(lit(weight));
    let open = lit("(");
    let sorted = sorted_numbers(bonus_points);
    let ghost sorted_view = sorted@;
    let bonus = comma_list(sorted);
    let slash = lit(
        if bonus_points.len() == 0 {
            ""
        } else {
            " / "
        },
    );
    let list = comma_list(copy_numbers(qli_points));
    let close = lit(")");
    let parts = vec![name, index, open, bonus, slash, list, close];
    let ghost ps = parts@;
    let node = concat(parts);
    proof {
        let c = node->Concatenation_0;
        assert(ps[0].shown_as(c.children@[0]));
        assert(ps[1].shown_as(c.children@[1]));
        assert(ps[2].shown_as(c.children@[2]));
        assert(ps[3].shown_as(c.children@[3]));
        assert(ps[4].shown_as(c.children@[4]));
        assert(ps[5].shown_as(c.children@[5]));
        assert(ps[6].shown_as(c.children@[6]));
        assert(is_sorted_list(sorted_view, bonus_points@));
        assert(is_grqli_label(node, weight as int, qli_points@, bonus_points@));
    }
    node.render(config)
}

/// The Grassmannian QLi of the given weight: the QLi of the points, as a
/// sum of products of Gammas, pulled back along the bonus points, and
/// labelled with its name.
#[allow(non_snake_case)]
pub fn GrQLi(weight: i32, qli_points: &[i32], bonus_points: &[i32], config: &FormattingConfig) -> (r:
    Result<GammaExpr, PolylogError>)
    requires
        qli_points@.len() <= i32::MAX,
        points_in_range(qli_points@),
        points_in_range(bonus_points@),
    ensures
        r is Ok ==> r->Ok_0.wf(),
        qli_points@.len() < 4 || qli_points@.len() % 2 != 0 ==> r is Err && r->Err_0
            == PolylogError::BadPointCount,
        qli_points@.len() >= 4 && qli_points@.len() % 2 == 0 && weight < min_weight(
            qli_points@.len() as int,
        ) ==> r is Err && r->Err_0 == PolylogError::WeightTooLow,
        qli_valid(weight as int, qli_points@.len() as int) ==> match r {
            Ok(p) => grqli_view(weight as int, qli_points@, bonus_points@) == Ok::<
                SumMap,
                ArithmeticError,
            >(p@) && exists|label: Seq<char>| #[trigger]
                is_grqli_label_text(label, weight as int, qli_points@, bonus_points@, *config)
                    && p.labels() == single_map(char_codes(label), 1),
            Err(e) => match e {
                PolylogError::Arithmetic(a) => grqli_view(weight as int, qli_points@, bonus_points@)
                    == Err::<SumMap, ArithmeticError>(a),
                PolylogError::Format(f) => qli_label_fails(f, weight as int, variables(qli_points@), *config)
                    || grqli_label_fails(f, weight as int, qli_points@, bonus_points@, *config),
                _ => false,
            },
        },
{
    let xs = to_x_vec(qli_points);
    proof {
        assert(xs@ =~= variables(qli_points@));
        assert(points_of(xs@) =~= variables(qli_points@));
        assert forall|i: int| 0 <= i < xs@.len() implies point_ok(#[trigger] xs@[i].x()) && point_in_gamma_range(xs@[i].x()) by {
            assert(1 <= qli_points@[i] <= 16);
        }
    }
    let q = match QLi(weight, xs.as_slice(), config) {
        Err(e) => {
            return Err(e);
        },
        Ok(q) => q,
    };
    proof {
        q.lemma_view();
        q.lemma_terms_of_view(sorted_terms(q@));
    }
    let pulled = match pullback(q, bonus_points) {
        Err(e) => {
            return Err(PolylogError::Arithmetic(e));
        },
        Ok(p) => p,
    };
    proof {
        pulled.lemma_view();
    }
    let label = match grqli_label(weight, qli_points, bonus_points, config) {
        Err(e) => {
            return Err(PolylogError::Format(e));
        },
        Ok(l) => l,
    };
    let ghost text = label@;
    match pulled.drop_annotations().annotate(label) {
        Err(e) => Err(PolylogError::Arithmetic(e)),
        Ok(p) => {
            proof {
                assert(is_grqli_label_text(text, weight as int, qli_points@, bonus_points@, *config));
            }
            Ok(p)
        },
    }
}

} // verus!
