use polykit::math::linear::Linear;
use polykit::math::lyndon::lyndon_factorize;
use polykit::math::lyndon_basis::to_lyndon_basis;
use polykit::math::shuffle::shuffle_product;

fn monom(v: &[i32]) -> Linear<Vec<i32>> {
    Linear::<Vec<i32>>::single(v.to_vec())
}

fn sum(words: &[&[i32]]) -> Linear<Vec<i32>> {
    let mut ret = Linear::<Vec<i32>>::zero();
    for w in words {
        ret = ret.add(monom(w)).unwrap();
    }
    ret
}

#[test]
fn lyndon_factorize_golden() {
    assert_eq!(
        lyndon_factorize(&vec![1, 2, 3, 2, 1]),
        vec![vec![1, 2, 3, 2], vec![1]]
    );
    assert_eq!(
        lyndon_factorize(&vec![1, 2, 2, 1, 1, 2]),
        vec![vec![1, 2, 2], vec![1, 1, 2]]
    );
}

#[test]
fn lyndon_basis_len0() {
    assert_eq!(
        to_lyndon_basis(Linear::<Vec<i32>>::zero()).unwrap(),
        Linear::<Vec<i32>>::zero()
    );
}

#[test]
fn lyndon_basis_len1() {
    let expr = sum(&[&[1], &[3], &[7]]);
    assert_eq!(to_lyndon_basis(expr.clone()).unwrap(), expr);
}

#[test]
fn lyndon_basis_len2() {
    assert_eq!(
        to_lyndon_basis(monom(&[1, 2]).add(monom(&[7, 5])).unwrap()).unwrap(),
        monom(&[1, 2]).sub(monom(&[5, 7])).unwrap()
    );
}

#[test]
fn lyndon_basis_len3() {
    assert_eq!(
        to_lyndon_basis(monom(&[2, 1, 3]).add(monom(&[7, 6, 5])).unwrap()).unwrap(),
        monom(&[1, 2, 3])
            .neg()
            .unwrap()
            .sub(monom(&[1, 3, 2]))
            .unwrap()
            .add(monom(&[5, 6, 7]))
            .unwrap()
    );
}

#[test]
fn shuffle_product_1_1() {
    assert_eq!(
        shuffle_product(&vec![1], &vec![2]).unwrap(),
        sum(&[&[1, 2], &[2, 1]])
    );
}

#[test]
fn shuffle_product_2_1() {
    assert_eq!(
        shuffle_product(&vec![1, 2], &vec![3]).unwrap(),
        sum(&[&[1, 2, 3], &[1, 3, 2], &[3, 1, 2]])
    );
}

#[test]
fn shuffle_product_2_2() {
    assert_eq!(
        shuffle_product(&vec![1, 2], &vec![3, 4]).unwrap(),
        sum(&[
            &[1, 2, 3, 4],
            &[1, 3, 2, 4],
            &[3, 1, 2, 4],
            &[1, 3, 4, 2],
            &[3, 1, 4, 2],
            &[3, 4, 1, 2],
        ])
    );
}
