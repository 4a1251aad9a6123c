use polykit::base::vector_like::VectorLike;
use polykit::math::linear::{ArithmeticError, Linear};
use polykit::math::lyndon::{factorial, lyndon_factorize};
use polykit::math::lyndon_basis::to_lyndon_basis;
use polykit::math::shuffle::{shuffle_product, shuffle_product_multi};

fn word_sum(words: &[&[i32]]) -> Linear<Vec<i32>> {
    let mut ret = Linear::<Vec<i32>>::zero();
    for w in words {
        ret.add_to(w.to_vec(), 1).unwrap();
    }
    ret
}

fn binomial(n: u64, k: u64) -> u64 {
    let mut r: u64 = 1;
    for i in 0..k {
        r = r * (n - i) / (i + 1);
    }
    r
}

fn is_lyndon(w: &[i32]) -> bool {
    !w.is_empty() && (1..w.len()).all(|i| w < &w[i..])
}

#[test]
fn shuffle_of_empty_words() {
    let empty: Vec<i32> = Vec::new();
    assert!(shuffle_product(&empty, &empty).unwrap().is_zero());
    assert_eq!(shuffle_product(&empty, &vec![1, 2]).unwrap(), word_sum(&[&[1, 2]]));
    assert_eq!(shuffle_product(&vec![3], &empty).unwrap(), word_sum(&[&[3]]));
}

#[test]
fn shuffle_adds_up_equal_interleavings() {
    let s = shuffle_product(&vec![1], &vec![1]).unwrap();
    assert_eq!(s.iter(), vec![(vec![1, 1], 2)]);
    let t = shuffle_product(&vec![1, 1], &vec![1]).unwrap();
    assert_eq!(t.iter(), vec![(vec![1, 1, 1], 3)]);
}

#[test]
fn shuffle_has_binomially_many_interleavings() {
    for p in 0..=5usize {
        for q in 0..=5usize {
            if p + q == 0 {
                continue;
            }
            let u: Vec<i32> = (0..p as i32).collect();
            let v: Vec<i32> = (100..100 + q as i32).collect();
            let s = shuffle_product(&u, &v).unwrap();
            let expected = binomial((p + q) as u64, p as u64);
            assert_eq!(s.len() as u64, expected);
            assert_eq!(s.l1_norm().unwrap() as u64, expected);
            for (w, c) in s.iter() {
                assert_eq!(c, 1);
                assert_eq!(w.len(), p + q);
            }
            let same: Vec<i32> = vec![7; p];
            let other: Vec<i32> = vec![7; q];
            assert_eq!(
                shuffle_product(&same, &other).unwrap().l1_norm().unwrap() as u64,
                expected
            );
        }
    }
}

#[test]
fn shuffle_is_commutative() {
    let words: Vec<Vec<i32>> = vec![
        vec![],
        vec![1],
        vec![2, 1],
        vec![1, 1, 2],
        vec![3, 1, 2, 1],
        vec![1, 2, 3, 4, 5],
        vec![1, 1, 1, 1, 1, 1],
    ];
    for u in &words {
        for v in &words {
            assert_eq!(shuffle_product(u, v).unwrap(), shuffle_product(v, u).unwrap());
        }
    }
}

#[test]
fn shuffle_general_agrees_with_the_recursion() {
    // Lengths for which no form is written out.
    let u = vec![1, 2, 3, 4];
    let v = vec![5, 6, 7];
    let direct = shuffle_product(&u, &v).unwrap();
    let mut expected = Linear::<Vec<i32>>::zero();
    for (mut w, c) in shuffle_product(&u, &vec![5, 6]).unwrap().into_iter() {
        VectorLike::push(&mut w, 7);
        expected.add_to(w, c).unwrap();
    }
    for (mut w, c) in shuffle_product(&vec![1, 2, 3], &v).unwrap().into_iter() {
        VectorLike::push(&mut w, 4);
        expected.add_to(w, c).unwrap();
    }
    assert_eq!(direct, expected);
    assert_eq!(direct.len(), 35);
}

#[test]
fn shuffle_written_out_agrees_with_the_recursion() {
    for p in 1..=5usize {
        for q in 1..=(6 - p) {
            let u: Vec<i32> = (1..=p as i32).collect();
            let v: Vec<i32> = (11..=10 + q as i32).map(|x| x % 13).collect();
            let direct = shuffle_product(&u, &v).unwrap();
            let mut expected = Linear::<Vec<i32>>::zero();
            let mut u_trunc = u.clone();
            let mut v_trunc = v.clone();
            let a = u_trunc.pop().unwrap();
            let b = v_trunc.pop().unwrap();
            for (mut w, c) in shuffle_product(&u, &v_trunc).unwrap().into_iter() {
                w.push(b);
                expected.add_to(w, c).unwrap();
            }
            for (mut w, c) in shuffle_product(&u_trunc, &v).unwrap().into_iter() {
                w.push(a);
                expected.add_to(w, c).unwrap();
            }
            assert_eq!(direct, expected);
        }
    }
}

#[test]
fn shuffle_multi_overflow_is_an_error() {
    // Twelve equal letters give the coefficient 12!, thirteen give too much.
    let twelve = vec![vec![1]; 12];
    assert_eq!(
        shuffle_product_multi(&twelve).unwrap().iter(),
        vec![(vec![1; 12], 479001600)]
    );
    let thirteen = vec![vec![1]; 13];
    assert_eq!(shuffle_product_multi(&thirteen), Err(ArithmeticError::Overflow));
}

#[test]
fn shuffle_multi_of_few_words() {
    let none: Vec<Vec<i32>> = vec![];
    assert!(shuffle_product_multi(&none).unwrap().is_zero());
    assert_eq!(shuffle_product_multi(&[vec![4, 2]]).unwrap(), word_sum(&[&[4, 2]]));
    assert_eq!(
        shuffle_product_multi(&[vec![1], vec![2]]).unwrap(),
        shuffle_product(&vec![1], &vec![2]).unwrap()
    );
}

#[test]
fn shuffle_multi_folds_from_the_left() {
    let s = shuffle_product_multi(&[vec![1], vec![2], vec![3]]).unwrap();
    assert_eq!(
        s,
        word_sum(&[&[1, 2, 3], &[1, 3, 2], &[2, 1, 3], &[2, 3, 1], &[3, 1, 2], &[3, 2, 1]])
    );
    let t = shuffle_product_multi(&[vec![1], vec![1], vec![1]]).unwrap();
    assert_eq!(t.iter(), vec![(vec![1, 1, 1], 6)]);
    let u = shuffle_product_multi(&[vec![1, 2], vec![3], vec![4], vec![5]]).unwrap();
    assert_eq!(u.l1_norm(), Ok(60));
}

#[test]
fn factorial_values() {
    assert_eq!(factorial(-3), Some(1));
    assert_eq!(factorial(0), Some(1));
    assert_eq!(factorial(1), Some(1));
    assert_eq!(factorial(5), Some(120));
    assert_eq!(factorial(12), Some(479001600));
    assert_eq!(factorial(13), None);
    assert_eq!(factorial(i32::MAX), None);
}

#[test]
fn lyndon_factorize_edge_cases() {
    let empty: Vec<i32> = Vec::new();
    assert_eq!(lyndon_factorize(&empty), Vec::<Vec<i32>>::new());
    assert_eq!(lyndon_factorize(&vec![5]), vec![vec![5]]);
    assert_eq!(lyndon_factorize(&vec![1, 1, 1]), vec![vec![1], vec![1], vec![1]]);
    assert_eq!(lyndon_factorize(&vec![3, 2, 1]), vec![vec![3], vec![2], vec![1]]);
    assert_eq!(lyndon_factorize(&vec![1, 2, 3]), vec![vec![1, 2, 3]]);
    assert_eq!(
        lyndon_factorize(&vec![1, 2, 1, 2, 1]),
        vec![vec![1, 2], vec![1, 2], vec![1]]
    );
}

#[test]
fn lyndon_factorize_gives_nonincreasing_lyndon_words() {
    // All words of up to six letters over three letters.
    for len in 0..=6u32 {
        for code in 0..3u32.pow(len) {
            let mut word = Vec::new();
            let mut c = code;
            for _ in 0..len {
                word.push((c % 3) as i32);
                c /= 3;
            }
            let factors = lyndon_factorize(&word);
            let joined: Vec<i32> = factors.iter().flatten().copied().collect();
            assert_eq!(joined, word);
            for f in &factors {
                assert!(is_lyndon(f));
            }
            for pair in factors.windows(2) {
                assert!(pair[0] >= pair[1]);
            }
            assert_eq!(factors.len() == 1, is_lyndon(&word));
        }
    }
}

#[test]
fn lyndon_basis_keeps_lyndon_words() {
    let mut expr = Linear::<Vec<i32>>::zero();
    expr.add_to(vec![1, 2], 3).unwrap();
    expr.add_to(vec![1, 1, 2], -2).unwrap();
    expr.add_to(vec![1, 2, 1, 3], 7).unwrap();
    expr.add_to(vec![5], 1).unwrap();
    assert_eq!(to_lyndon_basis(expr.clone()).unwrap(), expr);
}

#[test]
fn lyndon_basis_of_a_square() {
    // The word 1 1 is half the shuffle of 1 with itself, without 1 1: nothing.
    let mut expr = Linear::<Vec<i32>>::zero();
    expr.add_to(vec![1, 1], 4).unwrap();
    assert!(to_lyndon_basis(expr).unwrap().is_zero());
    // 2 1 2 1 is the shuffle of 2 1 with itself by two, without itself.
    let mut second = Linear::<Vec<i32>>::zero();
    second.add_to(vec![2, 1, 2, 1], 1).unwrap();
    let reduced = to_lyndon_basis(second).unwrap();
    for (w, _c) in reduced.iter() {
        assert!(is_lyndon(&w));
    }
}

#[test]
fn lyndon_basis_is_idempotent() {
    let mut expr = Linear::<Vec<i32>>::zero();
    let words: Vec<Vec<i32>> = vec![
        vec![3, 1, 2],
        vec![2, 2, 1, 1],
        vec![4, 3, 2, 1],
        vec![1, 3, 2, 3],
        vec![2, 1],
        vec![7],
        vec![1, 2, 1, 2],
        vec![3, 3, 1, 2, 1],
    ];
    for (i, w) in words.iter().enumerate() {
        expr.add_to(w.clone(), (i as i32) - 3).unwrap();
    }
    let once = to_lyndon_basis(expr).unwrap();
    for (w, _c) in once.iter() {
        assert!(is_lyndon(&w));
    }
    let twice = to_lyndon_basis(once.clone()).unwrap();
    assert_eq!(twice, once);
}

#[test]
fn lyndon_basis_drops_labels() {
    let expr = Linear::<Vec<i32>>::single(vec![2, 1])
        .annotate("label".to_string())
        .unwrap();
    let reduced = to_lyndon_basis(expr).unwrap();
    let mut expected = Linear::<Vec<i32>>::zero();
    expected.add_to(vec![1, 2], -1).unwrap();
    assert_eq!(reduced, expected);
}

#[test]
fn lyndon_basis_overflow_is_an_error() {
    let mut expr = Linear::<Vec<i32>>::zero();
    expr.add_to(vec![2, 1], i32::MIN).unwrap();
    assert_eq!(to_lyndon_basis(expr), Err(ArithmeticError::Overflow));
}

#[test]
fn lyndon_basis_words_are_rearrangements() {
    let mut expr = Linear::<Vec<i32>>::zero();
    expr.add_to(vec![3, 1, 2, 1], 2).unwrap();
    expr.add_to(vec![9, 8], -1).unwrap();
    expr.add_to(vec![5, 5, 4], 1).unwrap();
    let letters: Vec<Vec<i32>> = vec![vec![1, 1, 2, 3], vec![8, 9], vec![4, 5, 5]];
    let reduced = to_lyndon_basis(expr).unwrap();
    assert!(!reduced.is_zero());
    for (w, _c) in reduced.iter() {
        let mut sorted = w.clone();
        sorted.sort();
        assert!(letters.contains(&sorted));
    }
    assert_eq!(reduced.coeff_for(&vec![8, 9]), 1);
}

#[test]
fn lyndon_basis_is_linear() {
    let mut x = Linear::<Vec<i32>>::zero();
    x.add_to(vec![2, 1, 3], 1).unwrap();
    x.add_to(vec![7, 6, 5], 1).unwrap();
    x.add_to(vec![3, 2], 4).unwrap();
    let mut y = Linear::<Vec<i32>>::zero();
    y.add_to(vec![2, 1, 3], -1).unwrap();
    y.add_to(vec![3, 1, 2], 2).unwrap();
    y.add_to(vec![1, 1, 2], 5).unwrap();
    y.add_to(vec![3, 2], 1).unwrap();
    let both = x.duplicate().add(y.duplicate()).unwrap();
    assert_eq!(both.coeff_for(&vec![2, 1, 3]), 0);
    let rx = to_lyndon_basis(x.duplicate()).unwrap();
    let ry = to_lyndon_basis(y).unwrap();
    let mut expected = Linear::<Vec<i32>>::zero();
    expected.add_to(vec![1, 2, 3], -1).unwrap();
    expected.add_to(vec![1, 3, 2], -1).unwrap();
    expected.add_to(vec![5, 6, 7], 1).unwrap();
    expected.add_to(vec![2, 3], -4).unwrap();
    assert_eq!(rx, expected);
    assert_eq!(to_lyndon_basis(both).unwrap(), rx.duplicate().add(ry).unwrap());
    let tripled = to_lyndon_basis(x.mul(-3).unwrap()).unwrap();
    assert_eq!(tripled, rx.mul(-3).unwrap());
}
