use polykit::math::delta::{DeltaExpr, D};
use polykit::math::gamma::{delta_expr_to_gamma_expr, pullback, GammaExpr};
use polykit::math::algebra::tensor_product;
use polykit::math::delta_ratio::{cross_ratio, cross_ratio_vec, neg_cross_ratio};
use polykit::math::lyndon_basis::to_lyndon_basis;
use polykit::math::x::{Inf, X};
use polykit::math_format::render::FormatError;
use polykit::math_format::{Encoder, FormattingConfig, RichTextFormat};
use polykit::polylog::grqli::GrQLi;
use polykit::polylog::polylog_space::CB_naive_via_QLi_fours;
use polykit::polylog::qli::{qli_label, word_node, PolylogError, QLi};

fn plain() -> FormattingConfig {
    FormattingConfig {
        encoder: Encoder::Ascii,
        rich_text_format: RichTextFormat::Disabled,
        include_annotations: true,
    }
}

fn labelled(sum: DeltaExpr, label: &str) -> DeltaExpr {
    sum.annotate(label.to_string()).unwrap()
}

#[test]
fn qli_of_weight_one() {
    let q = QLi(1, &[1, 2, 3, 4], &plain()).unwrap();
    assert_eq!(q, labelled(neg_cross_ratio(1, 2, 3, 4), "QLi_1(1,2,3,4)"));
    assert_eq!(q.l1_norm(), Ok(4));
    let with_infinity = QLi(1, &[X::Variable(1), X::Variable(2), X::Variable(3), Inf], &plain()).unwrap();
    assert_eq!(
        with_infinity,
        labelled(D(1, 3).sub(D(2, 3)).unwrap(), "QLi_1(1,2,3,Inf)")
    );
}

#[test]
fn qli_of_weight_two() {
    let q = QLi(2, &[1, 2, 3, 4], &plain()).unwrap();
    let expected = tensor_product(cross_ratio_vec(&[1, 2, 3, 4]), neg_cross_ratio(1, 2, 3, 4)).unwrap();
    assert_eq!(q, labelled(expected, "QLi_2(1,2,3,4)"));
    assert_eq!(q.l1_norm(), Ok(16));
}

#[test]
fn qli_of_six_points() {
    let q = QLi(2, &[1, 2, 3, 4, 5, 6], &plain()).unwrap().drop_annotations();
    // The node at each place, times the QLi of weight one of the points
    // without the two that follow the place.
    let first = tensor_product(
        neg_cross_ratio(1, 2, 3, 4),
        QLi(1, &[1, 4, 5, 6], &plain()).unwrap().drop_annotations(),
    )
    .unwrap();
    let second = tensor_product(
        neg_cross_ratio(3, 4, 5, 2).neg().unwrap(),
        cross_ratio(1, 5, 2, 6),
    )
    .unwrap();
    let third = tensor_product(
        neg_cross_ratio(3, 4, 5, 6),
        QLi(1, &[1, 2, 3, 6], &plain()).unwrap().drop_annotations(),
    )
    .unwrap();
    assert_eq!(q, first.add(second).unwrap().add(third).unwrap());
}

#[test]
fn qli_of_higher_weight_over_six_points() {
    let q = QLi(3, &[1, 2, 3, 4, 5, 6], &plain()).unwrap();
    for (word, _c) in q.iter() {
        assert_eq!(polykit::base::vector_like::VectorLike::len(&word), 3);
    }
    assert!(q.l1_norm().unwrap() > 0);
    let reduced = to_lyndon_basis(q.clone()).unwrap();
    assert_eq!(to_lyndon_basis(reduced.clone()).unwrap(), reduced);
}

#[test]
fn qli_asks_for_an_even_number_of_points_and_enough_weight() {
    assert_eq!(QLi(1, &[1, 2, 3], &plain()), Err(PolylogError::BadPointCount));
    assert_eq!(QLi(1, &[1, 2, 3, 4, 5], &plain()), Err(PolylogError::BadPointCount));
    let none: [i32; 0] = [];
    assert_eq!(QLi(1, &none, &plain()), Err(PolylogError::BadPointCount));
    assert_eq!(QLi(0, &[1, 2, 3, 4], &plain()), Err(PolylogError::WeightTooLow));
    assert_eq!(QLi(-5, &[1, 2, 3, 4], &plain()), Err(PolylogError::WeightTooLow));
    assert_eq!(QLi(1, &[1, 2, 3, 4, 5, 6], &plain()), Err(PolylogError::WeightTooLow));
    let latex = FormattingConfig {
        encoder: Encoder::Latex,
        rich_text_format: RichTextFormat::Latex,
        include_annotations: true,
    };
    assert_eq!(
        QLi(1, &[1, 2, 3, 4], &latex),
        Err(PolylogError::Format(FormatError::LatexEncoder))
    );
}

#[test]
fn qli_labels() {
    assert_eq!(
        qli_label(12, vec![X::Variable(1), Inf], &plain()),
        Ok("QLi_12(1,Inf)".to_string())
    );
    let unicode = FormattingConfig {
        encoder: Encoder::Unicode,
        rich_text_format: RichTextFormat::Disabled,
        include_annotations: true,
    };
    assert_eq!(
        qli_label(3, vec![X::Variable(1), X::Variable(2)], &unicode),
        Ok("QLi\u{2083}(1,2)".to_string())
    );
    assert_eq!(word_node("ab").render(&plain()), Ok("ab".to_string()));
}

#[test]
fn grqli_pulls_a_qli_back() {
    let g = GrQLi(1, &[1, 2, 3, 4], &[5, 7], &plain()).unwrap();
    let q = QLi(1, &[1, 2, 3, 4], &plain()).unwrap();
    let pulled: GammaExpr = pullback(q, &[5, 7]).unwrap();
    assert_eq!(
        g,
        pulled.drop_annotations().annotate("GrQLi_1(5,7 / 1,2,3,4)".to_string()).unwrap()
    );
    assert_eq!(g.l1_norm(), Ok(4));
    let bare = GrQLi(1, &[1, 2, 3, 4], &[], &plain()).unwrap();
    assert_eq!(
        bare,
        delta_expr_to_gamma_expr(neg_cross_ratio(1, 2, 3, 4))
            .unwrap()
            .annotate("GrQLi_1(1,2,3,4)".to_string())
            .unwrap()
    );
    let sorted = GrQLi(1, &[1, 2, 3, 4], &[9, 5], &plain()).unwrap();
    assert_eq!(
        sorted.render(|m| m.to_string()),
        " + (2,4,5,9)\n - (2,3,5,9)\n - (1,4,5,9)\n + (1,3,5,9)\n===\n + GrQLi_1(5,9 / 1,2,3,4)\n"
    );
    let overlapping = GrQLi(1, &[1, 2, 3, 4], &[4], &plain()).unwrap();
    assert_eq!(
        overlapping.render(|m| m.to_string()),
        " - (2,3,4)\n + (1,3,4)\n===\n + GrQLi_1(4 / 1,2,3,4)\n"
    );
    assert_eq!(GrQLi(0, &[1, 2, 3, 4], &[5], &plain()), Err(PolylogError::WeightTooLow));
    assert_eq!(GrQLi(1, &[1, 2, 3], &[5], &plain()), Err(PolylogError::BadPointCount));
}

#[test]
fn space_of_qli_of_fours() {
    let space = CB_naive_via_QLi_fours(1, &[1, 2, 3, 4, 5], &plain()).unwrap();
    assert_eq!(space.len(), 5);
    assert_eq!(space[0], QLi(1, &[1, 2, 3, 4], &plain()).unwrap());
    assert_eq!(space[1], QLi(1, &[1, 2, 3, 5], &plain()).unwrap());
    assert_eq!(space[4], QLi(1, &[2, 3, 4, 5], &plain()).unwrap());
    let six = CB_naive_via_QLi_fours(1, &[1, 2, 2, 3], &plain()).unwrap();
    assert_eq!(six, vec![QLi(1, &[1, 2, 2, 3], &plain()).unwrap()]);
    let order: Vec<String> = CB_naive_via_QLi_fours(1, &[6, 5, 4, 3, 2, 1], &plain())
        .unwrap()
        .into_iter()
        .map(|q| q.render(|_m| String::new()))
        .map(|text| text.split("===\n").nth(1).unwrap().to_string())
        .collect();
    assert_eq!(order.len(), 15);
    assert_eq!(order[0], " + QLi_1(6,5,4,3)\n");
    assert_eq!(order[1], " + QLi_1(6,5,4,2)\n");
    assert_eq!(order[3], " + QLi_1(6,5,3,2)\n");
    assert_eq!(order[14], " + QLi_1(4,3,2,1)\n");
    assert_eq!(CB_naive_via_QLi_fours(1, &[1, 2, 3], &plain()), Ok(vec![]));
    assert_eq!(
        CB_naive_via_QLi_fours(0, &[1, 2, 3, 4], &plain()),
        Err(PolylogError::WeightTooLow)
    );
    assert_eq!(CB_naive_via_QLi_fours(0, &[1, 2, 3], &plain()), Ok(vec![]));
    let none: [i32; 0] = [];
    assert_eq!(CB_naive_via_QLi_fours(2, &none, &plain()), Ok(vec![]));
}

#[test]
fn polylog_errors_have_messages() {
    assert_eq!(PolylogError::BadPointCount.message(), "Bad number of QLi points");
    assert_eq!(PolylogError::WeightTooLow.message(), "Weight too low");
    assert_eq!(
        PolylogError::Format(FormatError::LatexEncoder).message(),
        "Encoder::Latex not implemented"
    );
    assert_eq!(
        PolylogError::Arithmetic(polykit::math::linear::ArithmeticError::Overflow).message(),
        "A coefficient is out of the range of the coefficient type"
    );
    assert_eq!(
        FormatError::NestedScript.message(),
        "A subscript or superscript within a subscript or superscript"
    );
    assert_eq!(
        FormatError::ScriptSpecial.message(),
        "A special character within a subscript or superscript"
    );
    assert_eq!(
        FormatError::NoScriptForm.message(),
        "A character without a subscript or superscript form"
    );
}
