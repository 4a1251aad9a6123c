use polykit::base::enumerator::Enumerator;
use polykit::base::util::{from_vec_ref, neg_one_pow, sort_two};
use polykit::base::string_tools::{decimal, StringTools};
use polykit::math::expr_matrix_builder::ExprMatrixBuilder;
use polykit::math::linalg::{Matrix, Triplet};
use polykit::math::linear::Linear;
use polykit::math::lyndon_basis::to_lyndon_basis;
use polykit::math::vector_space::space_matrix;

fn row(terms: &[(&[i32], i32)]) -> Linear<Vec<i32>> {
    let mut ret = Linear::<Vec<i32>>::zero();
    for (w, c) in terms {
        ret.add_to(w.to_vec(), *c).unwrap();
    }
    ret
}

#[test]
fn enumerator_numbers_keys_as_they_come() {
    let mut e = Enumerator::<Vec<i32>>::new();
    assert_eq!(e.len(), 0);
    assert_eq!(e.const_index(&vec![1]), None);
    assert_eq!(e.index(vec![5]), 0);
    assert_eq!(e.index(vec![1]), 1);
    assert_eq!(e.index(vec![5]), 0);
    assert_eq!(e.index(vec![]), 2);
    assert_eq!(e.len(), 3);
    assert_eq!(e.const_index(&vec![1]), Some(1));
    assert_eq!(e.const_index(&vec![2]), None);
    assert_eq!(e.len(), 3);
}

#[test]
fn matrix_grows_with_its_entries() {
    let mut m = Matrix::new();
    assert_eq!(m.num_rows(), 0);
    assert_eq!(m.num_cols(), 0);
    m.set(2, 0, 5);
    m.set(0, 3, -1);
    assert_eq!(m.num_rows(), 3);
    assert_eq!(m.num_cols(), 4);
    assert_eq!(
        m.triplets(),
        &vec![Triplet { row: 2, col: 0, value: 5 }, Triplet { row: 0, col: 3, value: -1 }]
    );
}

#[test]
fn builder_keeps_equal_rows_once() {
    let mut b = ExprMatrixBuilder::<Vec<i32>>::new();
    b.add_expr(row(&[(&[1], 2), (&[2], 3)]));
    b.add_expr(row(&[(&[2], 3), (&[1], 2)]));
    b.add_expr(row(&[(&[1], 2), (&[3], 3)]));
    let m = b.make_matrix();
    assert_eq!(m.num_rows(), 2);
    assert_eq!(m.num_cols(), 3);
    assert_eq!(
        m.triplets(),
        &vec![
            Triplet { row: 0, col: 0, value: 2 },
            Triplet { row: 1, col: 0, value: 2 },
            Triplet { row: 0, col: 1, value: 3 },
            Triplet { row: 1, col: 2, value: 3 },
        ]
    );
}

#[test]
fn builder_keeps_equal_columns_once() {
    let mut b = ExprMatrixBuilder::<Vec<i32>>::new();
    b.add_expr(row(&[(&[1], 1), (&[2], 1), (&[3], 4)]));
    b.add_expr(row(&[(&[1], 2), (&[2], 2)]));
    assert_eq!(
        b.unique_columns(),
        vec![vec![(0, 1), (1, 2)], vec![(0, 4)]]
    );
    let m = b.make_matrix();
    assert_eq!(m.num_rows(), 2);
    assert_eq!(m.num_cols(), 2);
    assert_eq!(m.triplets().len(), 3);
}

#[test]
fn builder_without_rows_gives_an_empty_matrix() {
    let b = ExprMatrixBuilder::<Vec<i32>>::new();
    let m = b.make_matrix();
    assert_eq!(m.num_rows(), 0);
    assert_eq!(m.num_cols(), 0);
    assert!(m.triplets().is_empty());
    let mut c = ExprMatrixBuilder::<Vec<i32>>::new();
    c.add_expr(Linear::<Vec<i32>>::zero());
    assert!(c.make_matrix().triplets().is_empty());
}

#[test]
fn small_helpers() {
    assert_eq!(sort_two((3, 1)), (1, 3));
    assert_eq!(sort_two((1, 3)), (1, 3));
    assert_eq!(sort_two((2, 2)), (2, 2));
    assert_eq!(neg_one_pow(0), 1);
    assert_eq!(neg_one_pow(1), -1);
    assert_eq!(neg_one_pow(7), -1);
    assert_eq!(neg_one_pow(8), 1);
}

#[test]
fn decimal_texts() {
    assert_eq!(decimal(0), "0");
    assert_eq!(decimal(7), "7");
    assert_eq!(decimal(10), "10");
    assert_eq!(decimal(-305), "-305");
    assert_eq!(decimal(i32::MAX), "2147483647");
    assert_eq!(decimal(i32::MIN), "-2147483648");
}

#[test]
fn joining_pieces_that_are_not_empty() {
    let parts = vec!["a".to_string(), "".to_string(), "bc".to_string()];
    assert_eq!(parts.join_non_empty(", "), "a, bc");
    assert_eq!(Vec::<String>::new().join_non_empty("-"), "");
    assert_eq!(vec!["x".to_string()].join_non_empty(", "), "x");
    assert_eq!(vec!["".to_string(), "".to_string()].join_non_empty(", "), "");
    assert_eq!(
        vec!["x".to_string(), "y".to_string(), "z".to_string()].join_non_empty(""),
        "xyz"
    );
}

#[test]
fn references_are_followed() {
    let a = 1;
    let b = 2;
    assert_eq!(from_vec_ref(vec![&b, &a, &b]), vec![2, 1, 2]);
    assert_eq!(from_vec_ref(Vec::<&i32>::new()), Vec::<i32>::new());
}

#[test]
fn matrix_of_a_space() {
    let space = vec![
        row(&[(&[1, 2], 1), (&[2, 1], 1)]),
        row(&[(&[2, 1], 3)]),
        row(&[(&[1, 2], 1), (&[2, 1], 1)]),
    ];
    let prepared: Vec<Linear<Vec<i32>>> =
        space.into_iter().map(|e| to_lyndon_basis(e).unwrap()).collect();
    // In the Lyndon basis the first sum is zero, and the second is -3 times 1 2.
    let m = space_matrix(prepared).unwrap();
    assert_eq!(m.num_rows(), 2);
    assert_eq!(m.num_cols(), 1);
    assert_eq!(m.triplets(), &vec![Triplet { row: 1, col: 0, value: -3 }]);
    let empty = space_matrix(Vec::<Linear<Vec<i32>>>::new()).unwrap();
    assert!(empty.triplets().is_empty());
}

#[test]
fn builder_is_unchanged_by_a_sum_added_again() {
    let mut b = ExprMatrixBuilder::<Vec<i32>>::new();
    b.add_expr(row(&[(&[1], 2), (&[2], 3)]));
    b.add_expr(row(&[(&[3, 1], -1), (&[2], 3)]));
    let rows = b.row_count();
    let columns = b.column_count();
    let before = b.make_matrix();
    assert_eq!(rows, 2);
    assert_eq!(columns, 3);
    let mut b = ExprMatrixBuilder::<Vec<i32>>::new();
    b.add_expr(row(&[(&[1], 2), (&[2], 3)]));
    b.add_expr(row(&[(&[3, 1], -1), (&[2], 3)]));
    b.add_expr(row(&[(&[3, 1], -1), (&[2], 3)]));
    b.add_expr(row(&[(&[1], 2), (&[2], 3)]));
    assert_eq!(b.row_count(), rows);
    assert_eq!(b.column_count(), columns);
    let after = b.make_matrix();
    assert_eq!(after.num_rows(), before.num_rows());
    assert_eq!(after.num_cols(), before.num_cols());
    assert_eq!(after.triplets(), before.triplets());
}
