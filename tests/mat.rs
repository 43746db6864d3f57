use rnmat::mat::{RNMat, RNMatError};
use rnmat::rnum::RNum;

#[test]
fn mat_test_eq() {
    // row !=
    assert_ne!(RNMat::from(vec![vec![(1, 2), (3, 4)]]), RNMat::new());
    // row ==, col !=
    assert_ne!(
        RNMat::from(vec![vec![(1, 2), (3, 4)]]),
        RNMat::from(vec![vec![(1, 2)]]),
    );
    // row ==, col ==, ele !=
    assert_ne!(
        RNMat::from(vec![vec![(1, -2), (-3, 4)], vec![(5, 6), (7, -8)]]),
        RNMat::from(vec![vec![(1, -2), (-3, 4)], vec![(-5, 6), (7, -8)]]),
    );

    // empty
    assert_eq!(RNMat::from(vec![]), RNMat::from(vec![]));

    // all ele ==
    assert_eq!(
        RNMat::from(vec![vec![(1, -2), (-3, 4)], vec![(-5, 6), (7, -8)]]),
        RNMat::from(vec![vec![(1, -2), (-3, 4)], vec![(-5, 6), (7, -8)]]),
    );
}

#[test]
fn test_push_row() {
    let mut rnm = RNMat::new();

    assert_eq!(0, rnm.row_num());
    assert_eq!(0, rnm.col_num());

    rnm.push_row(vec![RNum::new(1, 2), RNum::new(3, 4)]).unwrap();
    assert_eq!(1, rnm.row_num());
    assert_eq!(2, rnm.col_num());
}

#[test]
#[should_panic]
fn test_panic_push_row() {
    let mut rnm = RNMat::from(vec![vec![(1, 2)]]);
    rnm.push_row(vec![RNum::new(1, 2), RNum::new(3, 4)]).unwrap();
}

#[test]
fn test_push_col() {
    let mut rnm = RNMat::new();
    assert_eq!(0, rnm.row_num());
    assert_eq!(0, rnm.col_num());

    rnm.push_col(vec![RNum::new(1, 2), RNum::new(3, 4)]).unwrap();
    assert_eq!(rnm, RNMat::from(vec![vec![(1, 2)], vec![(3, 4)]]));
}

#[test]
#[should_panic]
fn test_panic_push_col() {
    let mut rnm = RNMat::from(vec![vec![(1, 2)]]);
    rnm.push_col(vec![RNum::new(1, 2), RNum::new(3, 4)]).unwrap();
}

#[test]
fn test_is_valid_dimension() {
    assert_eq!(true, RNMat::new().is_valid_dimension(&RNMat::new()));
    assert_eq!(
        false,
        RNMat::new().is_valid_dimension(&RNMat::from(vec![vec![(1, 2)]]))
    );
    // 1x2 x 1x2
    assert_eq!(
        false,
        RNMat::from(vec![vec![(1, 2), (3, 4)]])
            .is_valid_dimension(&RNMat::from(vec![vec![(1, 2), (3, 4)]]))
    );
    // 2x1 x 2x2
    assert_eq!(
        false,
        RNMat::from(vec![vec![(1, 2)], vec![(3, 4)]]).is_valid_dimension(&RNMat::from(vec![
            vec![(1, 2), (3, 4)],
            vec![(5, 6), (7, 8)]
        ]))
    );
}

#[test]
fn test_swap() {
    let mut mat1 = RNMat::from(vec![vec![(1, 2), (3, 4)], vec![(5, 6), (7, 8)]]);
    mat1.swap_row(0, 1).unwrap();
    assert_eq!(
        mat1,
        RNMat::from(vec![vec![(5, 6), (7, 8)], vec![(1, 2), (3, 4)]])
    )
}

#[test]
#[should_panic]
fn test_panic_swap() {
    let mut mat1 = RNMat::from(vec![vec![(1, 2), (3, 4)], vec![(5, 6), (7, 8)]]);
    mat1.swap_row(2, 1).unwrap();
    assert_eq!(
        mat1,
        RNMat::from(vec![vec![(5, 6), (7, 8)], vec![(1, 2), (3, 4)]])
    )
}

#[test]
fn test_row_mul_scalar() {
    let mut mat = RNMat::from(vec![vec![(1, 2), (3, 4)]]);
    mat.row_mul_scalar(RNum::new(1, 2), 0usize).unwrap();
    assert_eq!(mat, RNMat::from(vec![vec![(1, 4), (3, 8)]]));

    mat.row_mul_scalar(RNum::new(0, 1), 0).unwrap();
    assert_eq!(mat, RNMat::from(vec![vec![(0, 1), (0, 2)]]));
}

#[test]
#[should_panic]
fn test_panic_row_mul_scalar() {
    let mut mat = RNMat::new();
    mat.row_mul_scalar(RNum::new(1, 2), 0).unwrap();
}

#[test]
fn empty_matrix_identity() {
    let m = RNMat::new();
    assert_eq!(0, m.row_num());
    assert_eq!(0, m.col_num());
    assert_eq!(RNMat::new(), RNMat::new());
    assert!(RNMat::new() == RNMat::from(vec![]));
}

#[test]
fn push_row_errors_and_growth() {
    let mut m = RNMat::from(vec![vec![(1, 2), (3, 4)]]);
    assert_eq!(Err(RNMatError::RowDismatch), m.push_row(vec![RNum::new(1, 1)]));
    assert_eq!(Err(RNMatError::RowDismatch), m.push_row(vec![]));
    assert_eq!(1, m.row_num());
    assert_eq!(Ok(()), m.push_row(vec![RNum::new(5, 6), RNum::new(7, 8)]));
    assert_eq!(2, m.row_num());
    assert_eq!(m, RNMat::from(vec![vec![(1, 2), (3, 4)], vec![(5, 6), (7, 8)]]));
}

#[test]
fn push_col_shapes() {
    let mut m = RNMat::new();
    m.push_col(vec![RNum::new(1, 1), RNum::new(2, 1), RNum::new(3, 1)]).unwrap();
    assert_eq!(3, m.row_num());
    assert_eq!(1, m.col_num());
    assert_eq!(Err(RNMatError::ColDismatch), m.push_col(vec![RNum::new(1, 1)]));
    assert_eq!(Err(RNMatError::ColDismatch), m.push_col(vec![]));
    assert_eq!(Ok(()), m.push_col(vec![RNum::new(4, 1), RNum::new(5, 1), RNum::new(6, 1)]));
    assert_eq!(
        m,
        RNMat::from(vec![vec![(1, 1), (4, 1)], vec![(2, 1), (5, 1)], vec![(3, 1), (6, 1)]])
    );
}

#[test]
fn swap_errors_and_self_swap() {
    let mut m = RNMat::from(vec![vec![(1, 2)], vec![(3, 4)]]);
    assert_eq!(Err(RNMatError::InvalidIndex), m.swap_row(0, 2));
    assert_eq!(Err(RNMatError::InvalidIndex), m.swap_row(5, 0));
    assert_eq!(Ok(()), m.swap_row(1, 1));
    assert_eq!(m, RNMat::from(vec![vec![(1, 2)], vec![(3, 4)]]));
}

#[test]
fn swap_twice_restores() {
    let original = vec![vec![(1, 2), (3, 4)], vec![(5, 6), (7, 8)], vec![(-1, 3), (0, 1)]];
    for i in 0..3 {
        for j in 0..3 {
            let mut m = RNMat::from(original.clone());
            m.swap_row(i, j).unwrap();
            m.swap_row(i, j).unwrap();
            assert_eq!(m, RNMat::from(original.clone()));
        }
    }
}

#[test]
fn swap_scenario_with_signs() {
    let mut m = RNMat::from(vec![vec![(1, -2), (-3, 4)], vec![(-5, 6), (7, -8)]]);
    m.swap_row(0, 1).unwrap();
    assert_eq!(m, RNMat::from(vec![vec![(-5, 6), (7, -8)], vec![(1, -2), (-3, 4)]]));
}

#[test]
fn scale_scenario() {
    let mut m = RNMat::from(vec![vec![(1, 2), (3, 4)]]);
    m.row_mul_scalar(RNum::new(1, 2), 0).unwrap();
    assert_eq!(m, RNMat::from(vec![vec![(1, 4), (3, 8)]]));
}

#[test]
fn scale_leaves_other_rows() {
    let mut m = RNMat::from(vec![vec![(1, 2), (3, 4)], vec![(5, 6), (7, 8)]]);
    assert_eq!(Err(RNMatError::InvalidIndex), m.row_mul_scalar(RNum::new(2, 1), 2));
    m.row_mul_scalar(RNum::new(-2, 1), 1).unwrap();
    assert_eq!(m, RNMat::from(vec![vec![(1, 2), (3, 4)], vec![(-5, 3), (-7, 4)]]));
}

#[test]
fn multiplication_compatibility() {
    let one_by_two = RNMat::from(vec![vec![(1, 2), (3, 4)]]);
    assert!(!one_by_two.is_valid_dimension(&RNMat::from(vec![vec![(1, 2), (3, 4)]])));
    assert!(RNMat::new().is_valid_dimension(&RNMat::new()));
    // 2x2 times 2x1: the column count of the left is the row count of the right
    let two_by_two = RNMat::from(vec![vec![(1, 2), (3, 4)], vec![(5, 6), (7, 8)]]);
    let two_by_one = RNMat::from(vec![vec![(1, 2)], vec![(3, 4)]]);
    assert!(two_by_two.is_valid_dimension(&two_by_one));
    assert!(one_by_two.is_valid_dimension(&two_by_one));
}

#[test]
fn grid_reduces_entries() {
    let m = RNMat::from(vec![vec![(2, 4), (0, -5)], vec![(-6, -9), (8, -2)]]);
    assert_eq!(m, RNMat::from(vec![vec![(1, 2), (0, 1)], vec![(2, 3), (-4, 1)]]));
    assert_eq!(2, m.row_num());
    assert_eq!(2, m.col_num());
}

#[test]
fn error_names() {
    assert_eq!("RowDismatch", RNMatError::RowDismatch.as_str());
    assert_eq!("ColDismatch", RNMatError::ColDismatch.as_str());
    assert_eq!("InvalidIndex", RNMatError::InvalidIndex.as_str());
}
