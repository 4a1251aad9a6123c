use polykit::math::linear::{coeff_to_string, ArithmeticError, BasicLinear, Linear};

fn monom(v: &[i32]) -> Linear<Vec<i32>> {
    Linear::<Vec<i32>>::single(v.to_vec())
}

fn with_coeff(v: &[i32], c: i32) -> Linear<Vec<i32>> {
    let mut ret = Linear::<Vec<i32>>::zero();
    ret.add_to(v.to_vec(), c).unwrap();
    ret
}

#[test]
fn zero_is_empty() {
    let z = Linear::<Vec<i32>>::zero();
    assert!(z.is_zero());
    assert!(z.is_blank());
    assert_eq!(z.len(), 0);
    assert_eq!(z.coeff_for(&vec![1, 2]), 0);
    assert_eq!(z.l1_norm(), Ok(0));
}

#[test]
fn single_has_coefficient_one() {
    let s = monom(&[4, 2]);
    assert_eq!(s.coeff_for(&vec![4, 2]), 1);
    assert_eq!(s.coeff_for(&vec![2, 4]), 0);
    assert_eq!(s.len(), 1);
    assert!(!s.is_zero());
}

#[test]
fn add_to_adds_and_removes_at_zero() {
    let mut s = Linear::<Vec<i32>>::zero();
    s.add_to(vec![1], 5).unwrap();
    s.add_to(vec![2], -3).unwrap();
    s.add_to(vec![1], 2).unwrap();
    assert_eq!(s.coeff_for(&vec![1]), 7);
    assert_eq!(s.coeff_for(&vec![2]), -3);
    assert_eq!(s.len(), 2);
    let c = s.coeff_for(&vec![1]);
    s.add_to(vec![1], -c).unwrap();
    assert_eq!(s.coeff_for(&vec![1]), 0);
    assert_eq!(s.len(), 1);
    assert_eq!(s.iter(), vec![(vec![2], -3)]);
    s.add_to(vec![3], 0).unwrap();
    assert_eq!(s.len(), 1);
}

#[test]
fn coeff_for_does_not_create_entries() {
    let s = monom(&[1]);
    assert_eq!(s.coeff_for(&vec![9]), 0);
    assert_eq!(s.len(), 1);
}

#[test]
fn add_to_overflow_leaves_the_sum() {
    let mut s = with_coeff(&[1], i32::MAX);
    assert_eq!(s.add_to(vec![1], 1), Err(ArithmeticError::Overflow));
    assert_eq!(s.coeff_for(&vec![1]), i32::MAX);
    let mut t = with_coeff(&[1], i32::MIN);
    assert_eq!(t.sub_from(vec![1], 1), Err(ArithmeticError::Overflow));
    assert_eq!(t.coeff_for(&vec![1]), i32::MIN);
    let mut u = Linear::<Vec<i32>>::zero();
    assert_eq!(u.sub_from(vec![1], i32::MIN), Err(ArithmeticError::Overflow));
    assert!(u.is_zero());
}

#[test]
fn terms_are_kept_in_order() {
    let mut s = Linear::<Vec<i32>>::zero();
    s.add_to(vec![2, 1], 1).unwrap();
    s.add_to(vec![1], 2).unwrap();
    s.add_to(vec![1, 5], 3).unwrap();
    s.add_to(vec![], 4).unwrap();
    s.add_to(vec![2], 5).unwrap();
    assert_eq!(
        s.into_iter(),
        vec![(vec![], 4), (vec![1], 2), (vec![1, 5], 3), (vec![2], 5), (vec![2, 1], 1)]
    );
}

#[test]
fn sums_and_differences() {
    let a = with_coeff(&[1], 2).add(with_coeff(&[2], 3)).unwrap();
    let b = with_coeff(&[2], -3).add(with_coeff(&[3], 1)).unwrap();
    let sum = a.clone().add(b.clone()).unwrap();
    assert_eq!(sum.iter(), vec![(vec![1], 2), (vec![3], 1)]);
    let diff = a.clone().sub(b.clone()).unwrap();
    assert_eq!(diff.iter(), vec![(vec![1], 2), (vec![2], 6), (vec![3], -1)]);
    assert!(a.clone().sub(a.clone()).unwrap().is_zero());
    assert_eq!(a.clone().add(b.clone()).unwrap(), b.add(a).unwrap());
}

#[test]
fn sum_overflow_is_an_error() {
    let a = with_coeff(&[1], i32::MAX);
    assert_eq!(a.clone().add(monom(&[1])), Err(ArithmeticError::Overflow));
    assert_eq!(a.clone().sub(monom(&[1]).neg().unwrap()), Err(ArithmeticError::Overflow));
    assert_eq!(with_coeff(&[1], i32::MIN).neg(), Err(ArithmeticError::Overflow));
    assert_eq!(a.mul(2), Err(ArithmeticError::Overflow));
}

#[test]
fn scalar_multiples() {
    let a = with_coeff(&[1], 2).add(with_coeff(&[2], -3)).unwrap();
    assert_eq!(a.clone().mul(4).unwrap().iter(), vec![(vec![1], 8), (vec![2], -12)]);
    assert!(a.clone().mul(0).unwrap().is_zero());
    assert_eq!(a.clone().neg().unwrap().iter(), vec![(vec![1], -2), (vec![2], 3)]);
    assert_eq!(a.clone().mul(-1).unwrap(), a.neg().unwrap());
}

#[test]
fn div_int_divides_exactly() {
    let mut a = with_coeff(&[1], 6).add(with_coeff(&[2], -9)).unwrap();
    assert_eq!(a.div_int(3), Ok(()));
    assert_eq!(a.iter(), vec![(vec![1], 2), (vec![2], -3)]);
    assert_eq!(a.div_int(-1), Ok(()));
    assert_eq!(a.iter(), vec![(vec![1], -2), (vec![2], 3)]);
}

#[test]
fn div_int_fails_on_a_remainder() {
    let mut a = with_coeff(&[1], 6).add(with_coeff(&[2], 7)).unwrap();
    assert_eq!(a.div_int(3), Err(ArithmeticError::NotDivisible));
    assert_eq!(a.iter(), vec![(vec![1], 6), (vec![2], 7)]);
    assert_eq!(a.div_int(0), Err(ArithmeticError::NotDivisible));
    let mut z = Linear::<Vec<i32>>::zero();
    assert_eq!(z.div_int(0), Ok(()));
    let mut m = with_coeff(&[1], i32::MIN);
    assert_eq!(m.div_int(-1), Err(ArithmeticError::Overflow));
    assert_eq!(m.coeff_for(&vec![1]), i32::MIN);
}

#[test]
fn l1_norm_adds_absolute_values() {
    let a = with_coeff(&[1], 6).add(with_coeff(&[2], -9)).unwrap();
    assert_eq!(a.l1_norm(), Ok(15));
    let big = with_coeff(&[1], i32::MAX).add(with_coeff(&[2], 1)).unwrap();
    assert_eq!(big.l1_norm(), Err(ArithmeticError::Overflow));
    assert_eq!(with_coeff(&[1], i32::MIN).l1_norm(), Err(ArithmeticError::Overflow));
}

#[test]
fn from_collection_counts_repetitions() {
    let words = vec![vec![1], vec![2], vec![1], vec![1]];
    let s = Linear::<Vec<i32>>::from_collection(&words);
    assert_eq!(s.iter(), vec![(vec![1], 3), (vec![2], 1)]);
}

#[test]
fn map_adds_up_coinciding_images() {
    let a = with_coeff(&[1, 2], 2)
        .add(with_coeff(&[2, 1], 3))
        .unwrap()
        .add(with_coeff(&[3], -5))
        .unwrap();
    let sorted = a
        .map(|mut w: Vec<i32>| {
            w.sort();
            w
        })
        .unwrap();
    assert_eq!(sorted.iter(), vec![(vec![1, 2], 5), (vec![3], -5)]);
    let cancelled = with_coeff(&[1], 1)
        .add(with_coeff(&[2], -1))
        .unwrap()
        .map(|_w: Vec<i32>| vec![0])
        .unwrap();
    assert!(cancelled.is_zero());
}

#[test]
fn map_overflow_is_an_error() {
    let a = with_coeff(&[1], i32::MAX).add(with_coeff(&[2], 1)).unwrap();
    assert_eq!(a.map(|_w: Vec<i32>| vec![0]), Err(ArithmeticError::Overflow));
}

#[test]
fn map_expanding_scales_and_adds() {
    let a = with_coeff(&[1], 2).add(with_coeff(&[2], -1)).unwrap();
    let expanded = a
        .map_expanding(|w: Vec<i32>| {
            let mut twice = w.clone();
            twice.extend(w.iter());
            monom(&w).add(monom(&twice)).unwrap()
        })
        .unwrap();
    assert_eq!(
        expanded.iter(),
        vec![(vec![1], 2), (vec![1, 1], 2), (vec![2], -1), (vec![2, 2], -1)]
    );
}

#[test]
fn annotations_count_labels() {
    let a = monom(&[1]).annotate("first".to_string()).unwrap();
    let b = monom(&[1]).annotate("second".to_string()).unwrap();
    assert!(!a.is_blank());
    assert_ne!(a, b);
    assert_ne!(a, monom(&[1]));
    assert_eq!(a.clone().drop_annotations(), monom(&[1]));
    let both = a.clone().add(b).unwrap();
    assert_eq!(both.coeff_for(&vec![1]), 2);
    assert_eq!(
        both.render(|w| format!("{:?}", w)),
        "+2 [1]\n===\n + first\n + second\n"
    );
    let gone = a.clone().sub(a).unwrap();
    assert!(gone.is_blank());
}

#[test]
fn labels_are_ordered_by_code_points() {
    let s = Linear::<Vec<i32>>::zero()
        .annotate("b".to_string())
        .unwrap()
        .annotate("a\u{e9}".to_string())
        .unwrap()
        .annotate("ab".to_string())
        .unwrap()
        .annotate("B".to_string())
        .unwrap()
        .annotate("a".to_string())
        .unwrap();
    assert_eq!(s.render(|w| format!("{:?}", w)), "===\n + B\n + a\n + ab\n + a\u{e9}\n + b\n");
}

#[test]
fn map_annotations_changes_only_labels() {
    let a = monom(&[1])
        .annotate("x".to_string())
        .unwrap()
        .annotate("y".to_string())
        .unwrap();
    let b = a.map_annotations(|_s: String| "z".to_string()).unwrap();
    assert_eq!(b.render(|w| format!("{:?}", w)), " + [1]\n===\n+2 z\n");
}

#[test]
fn render_writes_a_line_for_each_term() {
    let a = with_coeff(&[1], 1)
        .add(with_coeff(&[2], -1))
        .unwrap()
        .add(with_coeff(&[3], 12))
        .unwrap()
        .add(with_coeff(&[4], -7))
        .unwrap()
        .add(with_coeff(&[5], 2))
        .unwrap();
    assert_eq!(
        a.render(|w| format!("{:?}", w)),
        " + [1]\n - [2]\n+12 [3]\n-7 [4]\n+2 [5]\n"
    );
    assert_eq!(Linear::<Vec<i32>>::zero().render(|w| format!("{:?}", w)), "");
}

#[test]
fn coefficient_texts() {
    assert_eq!(coeff_to_string(1), " +");
    assert_eq!(coeff_to_string(-1), " -");
    assert_eq!(coeff_to_string(0), " 0");
    assert_eq!(coeff_to_string(2), "+2");
    assert_eq!(coeff_to_string(-2), "-2");
    assert_eq!(coeff_to_string(i32::MAX), "+2147483647");
    assert_eq!(coeff_to_string(i32::MIN), "-2147483648");
}

#[test]
fn pop_last_takes_the_greatest_monomial() {
    let mut a = with_coeff(&[1], 1)
        .add(with_coeff(&[2, 0], 5))
        .unwrap()
        .add(with_coeff(&[2], 3))
        .unwrap();
    assert_eq!(a.pop_last(), Some((vec![2, 0], 5)));
    assert_eq!(a.pop_last(), Some((vec![2], 3)));
    assert_eq!(a.pop_last(), Some((vec![1], 1)));
    assert_eq!(a.pop_last(), None);
}

#[test]
fn basic_sums_work_alone() {
    let mut a = BasicLinear::<Vec<i32>>::single(vec![1]);
    a.add_to(vec![0], 2).unwrap();
    let b = BasicLinear::<Vec<i32>>::from_collection(&[vec![1], vec![1]]);
    let s = a.add(b).unwrap();
    assert_eq!(s.iter(), vec![(vec![0], 2), (vec![1], 3)]);
    assert_eq!(s.coeff_for(&vec![1]), 3);
    assert_eq!(s.l1_norm(), Ok(5));
    assert!(BasicLinear::<Vec<i32>>::zero().is_zero());
}

#[test]
fn arithmetic_errors_have_messages() {
    assert_eq!(
        ArithmeticError::Overflow.message(),
        "A coefficient is out of the range of the coefficient type"
    );
    assert_eq!(
        ArithmeticError::NotDivisible.message(),
        "A coefficient is not divisible by the denominator"
    );
    assert_eq!(
        ArithmeticError::NotUnit.message(),
        "The shuffle of the Lyndon factors of a word does not hold the word once"
    );
    assert_eq!(
        ArithmeticError::NotSmaller.message(),
        "A word that replaces another is not smaller than it"
    );
}

#[test]
fn duplicate_is_an_equal_and_separate_copy() {
    let mut sum = with_coeff(&[1, 2], 3)
        .add(with_coeff(&[2], -1))
        .unwrap()
        .annotate("first".to_string())
        .unwrap();
    let copy = sum.duplicate();
    assert_eq!(copy, sum);
    assert_eq!(copy.iter(), vec![(vec![1, 2], 3), (vec![2], -1)]);
    assert_eq!(copy.render(|m| format!("{:?}", m)), sum.render(|m| format!("{:?}", m)));
    sum.add_to(vec![2], 1).unwrap();
    assert_eq!(sum.len(), 1);
    assert_eq!(copy.len(), 2);
    assert_eq!(copy.coeff_for(&vec![2]), -1);
    let mut basic = BasicLinear::<Vec<i32>>::zero();
    basic.add_to(vec![5], 7).unwrap();
    let basic_copy = basic.duplicate();
    basic.add_to(vec![5], -7).unwrap();
    assert!(basic.is_zero());
    assert_eq!(basic_copy.iter(), vec![(vec![5], 7)]);
    assert!(Linear::<Vec<i32>>::zero().duplicate().is_zero());
}

#[test]
fn factor_on_the_left() {
    let sum = with_coeff(&[1, 2], 3).add(with_coeff(&[2], -1)).unwrap();
    let product = Linear::times(-2, sum.duplicate()).unwrap();
    assert_eq!(product.iter(), vec![(vec![1, 2], -6), (vec![2], 2)]);
    assert_eq!(product, sum.duplicate().mul(-2).unwrap());
    assert!(Linear::times(0, sum).unwrap().is_zero());
    assert_eq!(
        Linear::times(2, with_coeff(&[1], i32::MAX)),
        Err(ArithmeticError::Overflow)
    );
    let mut basic = BasicLinear::<Vec<i32>>::zero();
    basic.add_to(vec![4], 5).unwrap();
    assert_eq!(BasicLinear::times(3, basic).unwrap().iter(), vec![(vec![4], 15)]);
}
