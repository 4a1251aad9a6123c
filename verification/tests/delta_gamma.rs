use bitvec::array::BitArray;
use polykit::base::vector_like::{Atom, VectorLike};
use polykit::base::word_order::WordOrder;
use polykit::math::algebra::tensor_product;
use polykit::math::delta::{Delta, DeltaExpr, DeltaProduct, D};
use polykit::math::delta_ratio::{cross_ratio, cross_ratio_vec, neg_cross_ratio};
use polykit::math::gamma::{
    delta_expr_to_gamma_expr, gamma_expr_to_delta_expr, pullback, variables_to_bitset,
    ConversionError, Gamma, GammaExpr, GammaProduct, G,
};
use polykit::math::linear::{ArithmeticError, Linear, LinearMonom, MonomVectorizable, TensorProduct};
use polykit::math::x::{to_x_vec, Inf, XArg, X};
use polykit::math_format::{Encoder, FormattingConfig, RichTextFormat};

fn plain() -> FormattingConfig {
    FormattingConfig {
        encoder: Encoder::Ascii,
        rich_text_format: RichTextFormat::Disabled,
        include_annotations: true,
    }
}

fn delta_product(pairs: &[(i32, i32)]) -> DeltaProduct {
    let deltas: Vec<Delta> = pairs.iter().map(|(a, b)| Delta::new(*a, *b)).collect();
    <DeltaProduct as VectorLike<Delta>>::from_slice(&deltas)
}

fn gamma_product(sets: &[&[i32]]) -> GammaProduct {
    let gammas: Vec<Gamma> = sets.iter().map(|s| Gamma::from_vector(s)).collect();
    <GammaProduct as VectorLike<Gamma>>::from_slice(&gammas)
}

#[test]
fn delta_is_kept_with_the_smaller_point_first() {
    let d = Delta::new(5, 2);
    assert_eq!(d.a(), 2);
    assert_eq!(d.b(), 5);
    assert!(!d.is_nil());
    assert_eq!(Delta::new(2, 5), d);
    assert_eq!(Delta::new(X::Variable(2), 5), d);
    assert_eq!(Delta::new(-128, 127).a(), -128);
    assert_eq!(Delta::new(-128, 127).b(), 127);
}

#[test]
fn delta_of_equal_points_or_infinity_is_nil() {
    assert!(Delta::new(3, 3).is_nil());
    assert!(Delta::new(Inf, 3).is_nil());
    assert!(Delta::new(3, Inf).is_nil());
    assert!(Delta::new(Inf, Inf).is_nil());
    assert_eq!(Delta::new(Inf, 3).a(), 0);
    assert_eq!(Delta::new(Inf, 3).b(), 0);
}

#[test]
fn deltas_are_ordered_by_the_larger_point_first() {
    let mut deltas = vec![
        Delta::new(1, 4),
        Delta::new(2, 3),
        Delta::new(1, 2),
        Delta::new(-5, 3),
        Delta::new(-1, -2),
    ];
    deltas.sort();
    let expected = vec![
        Delta::new(-2, -1),
        Delta::new(1, 2),
        Delta::new(-5, 3),
        Delta::new(2, 3),
        Delta::new(1, 4),
    ];
    assert_eq!(deltas, expected);
    for x in &expected {
        for y in &expected {
            assert_eq!(x.precedes(*y), x < y);
            assert_eq!(x.same_as(*y), x == y);
            assert_eq!(Delta::decode(x.encode()), *x);
            assert_eq!(x.encode() < y.encode(), x < y);
        }
    }
}

#[test]
fn delta_sum_of_a_nil_delta_is_zero() {
    for a in -3..=3 {
        assert_eq!(D(a, a), DeltaExpr::zero());
    }
    assert_eq!(D(Inf, 1), DeltaExpr::zero());
}

#[test]
fn delta_sum_does_not_depend_on_the_order_of_the_points() {
    assert_eq!(D(1, 2), D(2, 1));
    assert_eq!(D(1, 2), DeltaExpr::single(delta_product(&[(1, 2)])));
    assert_eq!(D(1, 2).coeff_for(&delta_product(&[(2, 1)])), 1);
    assert!(D(1, 2).sub(D(2, 1)).unwrap().is_zero());
}

#[test]
fn delta_product_behaves_like_a_vector() {
    let mut p = <DeltaProduct as VectorLike<Delta>>::new();
    assert_eq!(VectorLike::len(&p), 0);
    assert_eq!(VectorLike::pop(&mut p), None);
    p.reserve(3);
    p.reserve_exact(20);
    for i in 1..=12 {
        p.push(Delta::new(i, i + 1));
    }
    assert_eq!(VectorLike::len(&p), 12);
    assert_eq!(p.at(0), Delta::new(1, 2));
    assert_eq!(p.at(11), Delta::new(12, 13));
    let copy = p.duplicate();
    assert_eq!(VectorLike::pop(&mut p), Some(Delta::new(12, 13)));
    assert_eq!(VectorLike::len(&p), 11);
    assert_eq!(VectorLike::len(&copy), 12);
    assert_eq!(copy.compare(&p), WordOrder::Greater);
    assert_eq!(p.compare(&copy), WordOrder::Less);
    assert_eq!(p.compare(&p.clone()), WordOrder::Equal);
    assert_eq!(delta_product(&[(1, 3)]).compare(&delta_product(&[(2, 3)])), WordOrder::Less);
    assert_eq!(delta_product(&[(1, 4)]).compare(&delta_product(&[(2, 3), (1, 2)])), WordOrder::Greater);
    assert!(delta_product(&[(1, 3)]) < delta_product(&[(2, 3)]));
    let back = DeltaProduct::from_vector(copy.clone().to_vector());
    assert_eq!(back, copy);
}

#[test]
fn tensor_product_of_monomials_joins_them() {
    let l = delta_product(&[(1, 2), (3, 4)]);
    let r = delta_product(&[(5, 6)]);
    assert_eq!(l.tensor_product(&r), delta_product(&[(1, 2), (3, 4), (5, 6)]));
    assert_eq!(r.tensor_product(&l), delta_product(&[(5, 6), (1, 2), (3, 4)]));
    let g = gamma_product(&[&[1, 2]]);
    assert_eq!(g.tensor_product(&g), gamma_product(&[&[1, 2], &[1, 2]]));
}

#[test]
fn tensor_product_of_sums_is_bilinear() {
    let a = D(1, 2).mul(2).unwrap().add(D(3, 4)).unwrap();
    let b = D(5, 6).sub(D(1, 2).mul(3).unwrap()).unwrap();
    let t = tensor_product(a, b).unwrap();
    let mut expected = DeltaExpr::zero();
    expected.add_to(delta_product(&[(1, 2), (5, 6)]), 2).unwrap();
    expected.add_to(delta_product(&[(1, 2), (1, 2)]), -6).unwrap();
    expected.add_to(delta_product(&[(3, 4), (5, 6)]), 1).unwrap();
    expected.add_to(delta_product(&[(3, 4), (1, 2)]), -3).unwrap();
    assert_eq!(t, expected);
    assert!(tensor_product(D(1, 2), DeltaExpr::zero()).unwrap().is_zero());
    let big = D(1, 2).mul(65536).unwrap();
    assert_eq!(
        tensor_product(big.clone(), D(1, 2).mul(32768).unwrap()),
        Err(ArithmeticError::Overflow)
    );
    assert_eq!(
        tensor_product(big, D(1, 2).mul(-32768).unwrap()).unwrap().coeff_for(&delta_product(&[(1, 2), (1, 2)])),
        i32::MIN
    );
}

#[test]
fn cross_ratio_of_four_points() {
    let c = cross_ratio(1, 2, 3, 4);
    let expected = D(1, 2).add(D(3, 4)).unwrap().sub(D(2, 3)).unwrap().sub(D(1, 4)).unwrap();
    assert_eq!(c, expected);
    assert_eq!(c.l1_norm(), Ok(4));
    assert_eq!(neg_cross_ratio(1, 2, 3, 4), cross_ratio(1, 3, 2, 4));
    assert!(cross_ratio(1, 1, 1, 1).is_zero());
    assert_eq!(cross_ratio(1, 2, 3, Inf), D(1, 2).sub(D(2, 3)).unwrap());
}

#[test]
fn cross_ratio_of_a_cycle() {
    assert_eq!(cross_ratio_vec(&[1, 2, 3, 4]), cross_ratio(1, 2, 3, 4));
    let none: [i32; 0] = [];
    assert!(cross_ratio_vec(&none).is_zero());
    let six = cross_ratio_vec(&[1, 2, 3, 4, 5, 6]);
    let expected = D(1, 2)
        .sub(D(2, 3))
        .unwrap()
        .add(D(3, 4))
        .unwrap()
        .sub(D(4, 5))
        .unwrap()
        .add(D(5, 6))
        .unwrap()
        .sub(D(6, 1))
        .unwrap();
    assert_eq!(six, expected);
    assert!(cross_ratio_vec(&[1, 2]).is_zero());
}

#[test]
fn gamma_of_a_list_with_a_repeated_point_is_nil() {
    assert!(Gamma::from_vector(&[1, 2, 1]).is_nil());
    assert!(Gamma::from_vector(&[]).is_nil());
    assert!(Gamma::new().is_nil());
    assert!(!Gamma::from_vector(&[16]).is_nil());
    assert_eq!(variables_to_bitset(&[3, 3]), None);
    assert_eq!(variables_to_bitset(&[1, 16]), Some(0x8001));
    assert_eq!(G(&[2, 2]), GammaExpr::zero());
    assert_eq!(G(&[]), GammaExpr::zero());
    assert_eq!(G(&[3, 1]), GammaExpr::single(gamma_product(&[&[1, 3]])));
}

#[test]
fn gamma_holds_its_points_in_order() {
    let g = Gamma::from_vector(&[9, 1, 16, 4]);
    assert_eq!(g.index_iter(), vec![1, 4, 9, 16]);
    assert_eq!(Gamma::from_bitset(g.index_bitset()), g);
    assert_eq!(Gamma::from_vector(&[4, 16, 9, 1]), g);
    assert_eq!(g.to_string(), "(1,4,9,16)");
    assert_eq!(Gamma::new().to_string(), "()");
    assert_eq!(gamma_product(&[&[1, 2], &[3]]).to_string(), "(1,2) * (3)");
}

#[test]
fn gammas_are_ordered_as_bit_arrays_are() {
    let mut all: Vec<(Gamma, BitArray<[u16; 1]>)> = Vec::new();
    for mask in 0u32..64 {
        let points: Vec<i32> = [1, 2, 3, 7, 15, 16]
            .iter()
            .enumerate()
            .filter(|(i, _)| mask & (1 << i) != 0)
            .map(|(_, p)| *p)
            .collect();
        let mut bits = BitArray::<[u16; 1]>::ZERO;
        for p in &points {
            bits.set((*p - 1) as usize, true);
        }
        all.push((Gamma::from_vector(&points), bits));
    }
    for (g1, b1) in &all {
        for (g2, b2) in &all {
            assert_eq!(g1.cmp(g2), b1.cmp(b2));
            assert_eq!(g1.precedes(*g2), b1 < b2);
            assert_eq!(g1.same_as(*g2), b1 == b2);
            assert_eq!(
                Gamma::from_bitset(g1.index_bitset() & g2.index_bitset()).is_nil(),
                (*b1 & *b2).not_any()
            );
            let union: Vec<i32> =
                (*b1 | *b2).iter_ones().map(|i| i as i32 + 1).collect();
            assert_eq!(
                Gamma::from_bitset(g1.index_bitset() | g2.index_bitset()).index_iter(),
                union
            );
        }
    }
}

#[test]
fn gamma_product_behaves_like_a_vector() {
    let mut p = GammaProduct::new();
    p.push(Gamma::from_vector(&[1, 2]));
    p.push(Gamma::from_vector(&[3]));
    assert_eq!(VectorLike::len(&p), 2);
    assert_eq!(p.at(1), Gamma::from_vector(&[3]));
    assert_eq!(p, gamma_product(&[&[2, 1], &[3]]));
    assert_eq!(VectorLike::pop(&mut p), Some(Gamma::from_vector(&[3])));
    assert_eq!(p.duplicate(), gamma_product(&[&[1, 2]]));
    assert_eq!(gamma_product(&[&[1]]).compare(&gamma_product(&[&[2]])), WordOrder::Greater);
    assert_eq!(gamma_product(&[&[2]]).compare(&gamma_product(&[&[2], &[1]])), WordOrder::Less);
}

#[test]
fn deltas_become_gammas_and_back() {
    let d = D(1, 2)
        .mul(3)
        .unwrap()
        .add(DeltaExpr::single(delta_product(&[(2, 5), (1, 16)])))
        .unwrap();
    let g = delta_expr_to_gamma_expr(d.clone()).unwrap();
    let mut expected = GammaExpr::zero();
    expected.add_to(gamma_product(&[&[1, 2]]), 3).unwrap();
    expected.add_to(gamma_product(&[&[2, 5], &[1, 16]]), 1).unwrap();
    assert_eq!(g, expected);
    assert_eq!(gamma_expr_to_delta_expr(g).unwrap(), d);
}

#[test]
fn gammas_of_other_sizes_do_not_become_deltas() {
    assert_eq!(gamma_expr_to_delta_expr(G(&[1, 2, 3])), Err(ConversionError::Dimension));
    assert_eq!(gamma_expr_to_delta_expr(G(&[1])), Err(ConversionError::Dimension));
    let mixed = G(&[1, 2]).add(GammaExpr::single(gamma_product(&[&[1, 2], &[]]))).unwrap();
    assert_eq!(gamma_expr_to_delta_expr(mixed), Err(ConversionError::Dimension));
    assert_eq!(gamma_expr_to_delta_expr(GammaExpr::zero()), Ok(DeltaExpr::zero()));
}

#[test]
fn pullback_without_bonus_points_is_the_identity() {
    let g = G(&[1, 2])
        .add(G(&[3, 4, 5]).mul(-2).unwrap())
        .unwrap()
        .annotate("kept".to_string())
        .unwrap();
    assert_eq!(pullback(g.clone(), &[]).unwrap(), g);
    assert_eq!(pullback(GammaExpr::zero(), &[]).unwrap(), GammaExpr::zero());
    let d = D(1, 2).add(D(2, 3)).unwrap();
    assert_eq!(pullback(d.clone(), &[]).unwrap(), delta_expr_to_gamma_expr(d).unwrap());
}

#[test]
fn pullback_adds_the_bonus_points() {
    let g = G(&[1, 2])
        .add(GammaExpr::single(gamma_product(&[&[1, 2], &[3, 4]])).mul(5).unwrap())
        .unwrap()
        .add(G(&[2, 7]))
        .unwrap()
        .annotate("dropped".to_string())
        .unwrap();
    let pulled = pullback(g.clone(), &[7, 9]).unwrap();
    let mut expected = GammaExpr::zero();
    expected.add_to(gamma_product(&[&[1, 2, 7, 9]]), 1).unwrap();
    expected.add_to(gamma_product(&[&[1, 2, 7, 9], &[3, 4, 7, 9]]), 5).unwrap();
    assert_eq!(pulled, expected);
    assert!(pullback(g.clone(), &[9, 9]).unwrap().is_blank());
    assert_eq!(pullback(g.clone(), &[1]).unwrap(), G(&[1, 2, 7]));
    assert!(pullback(g, &[2]).unwrap().is_zero());
    assert_eq!(pullback(D(1, 2), &[3]).unwrap(), G(&[1, 2, 3]));
}

#[test]
fn pullback_label_names_the_bonus_points_in_order() {
    assert_eq!(
        polykit::math::gamma::make_pullback_label("QLi", &[12, 3, 7]),
        "pb(QLi, 3,7,12)"
    );
    assert_eq!(polykit::math::gamma::make_pullback_label("", &[]), "pb(, )");
}

#[test]
fn points_of_variables() {
    assert_eq!(to_x_vec(&[3, 1]), vec![X::Variable(3), X::Variable(1)]);
    assert_eq!(to_x_vec(&[]), Vec::<X>::new());
    assert_eq!(5.as_x(), X::Variable(5));
    assert_eq!(Inf.as_x(), X::Infinity);
    assert_eq!(X::from(4), X::Variable(4));
}

#[test]
fn delta_text() {
    assert_eq!(Delta::new(3, 1).to_string(&plain()), Ok("(1-3)".to_string()));
    assert_eq!(
        delta_product(&[(1, 2), (3, 4)]).to_string(&plain()),
        Ok("(1-2) * (3-4)".to_string())
    );
    let unicode = FormattingConfig {
        encoder: Encoder::Unicode,
        rich_text_format: RichTextFormat::Disabled,
        include_annotations: true,
    };
    assert_eq!(
        delta_product(&[(1, 2), (3, 4)]).to_string(&unicode),
        Ok("(1\u{2212}2)\u{2297}(3\u{2212}4)".to_string())
    );
    let sum: Linear<DeltaProduct> = D(1, 2).sub(D(3, 4).mul(2).unwrap()).unwrap();
    assert_eq!(
        sum.render(|m| m.to_string(&plain()).unwrap()),
        " + (1-2)\n-2 (3-4)\n"
    );
}

#[test]
fn conversion_adds_up_coinciding_products() {
    // The Deltas of a point with itself all become the Gamma of no point.
    let mut d = DeltaExpr::zero();
    d.add_to(delta_product(&[(1, 1)]), 5).unwrap();
    d.add_to(delta_product(&[(2, 2)]), -2).unwrap();
    let g = delta_expr_to_gamma_expr(d).unwrap();
    assert_eq!(g.iter(), vec![(gamma_product(&[&[]]), 3)]);
    let mut big = DeltaExpr::zero();
    big.add_to(delta_product(&[(1, 1)]), i32::MAX).unwrap();
    big.add_to(delta_product(&[(2, 2)]), 1).unwrap();
    assert_eq!(delta_expr_to_gamma_expr(big.clone()), Err(ArithmeticError::Overflow));
    assert_eq!(pullback(big, &[3]), Err(ArithmeticError::Overflow));
}

#[test]
fn conversion_errors_have_messages() {
    assert_eq!(
        ConversionError::Dimension.message(),
        "Delta expression requires dimension two"
    );
    assert_eq!(
        ConversionError::Arithmetic(ArithmeticError::Overflow).message(),
        ArithmeticError::Overflow.message()
    );
}

#[test]
fn making_room_keeps_what_a_vector_holds() {
    let mut d = delta_product(&[(1, 2), (3, 4)]);
    d.reserve(100);
    d.reserve_exact(1000);
    d.reserve(0);
    assert_eq!(d, delta_product(&[(1, 2), (3, 4)]));
    let mut g = gamma_product(&[&[1, 2, 3], &[4]]);
    g.reserve_exact(50);
    g.reserve(500);
    assert_eq!(g, gamma_product(&[&[1, 2, 3], &[4]]));
    let mut v: Vec<i32> = vec![7, 8, 9];
    <Vec<i32> as VectorLike<i32>>::reserve_exact(&mut v, 40);
    assert!(v.capacity() >= 43);
    <Vec<i32> as VectorLike<i32>>::reserve(&mut v, 400);
    assert!(v.capacity() >= 403);
    assert_eq!(v, vec![7, 8, 9]);
}

#[test]
fn sums_of_deltas_of_two_points_come_back_from_gammas() {
    let mut d = DeltaExpr::zero();
    d.add_to(delta_product(&[(1, 2)]), -4).unwrap();
    d.add_to(delta_product(&[(15, 16), (1, 16)]), 2).unwrap();
    d.add_to(delta_product(&[(3, 7), (7, 3), (2, 9)]), 1).unwrap();
    d.add_to(delta_product(&[]), 5).unwrap();
    let g = delta_expr_to_gamma_expr(d.duplicate()).unwrap();
    assert_eq!(g.len(), 4);
    assert_eq!(g.coeff_for(&gamma_product(&[&[3, 7], &[3, 7], &[2, 9]])), 1);
    assert_eq!(gamma_expr_to_delta_expr(g).unwrap(), d);
    // A Delta of a point with itself has no Gamma of two points to come back from.
    let nil = DeltaExpr::single(delta_product(&[(4, 4)]));
    let g = delta_expr_to_gamma_expr(nil).unwrap();
    assert_eq!(gamma_expr_to_delta_expr(g), Err(ConversionError::Dimension));
}
