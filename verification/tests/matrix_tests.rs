use chunkbench::matrix::{multiply_matrices, multiply_matrices_sequential, multiply_row_block};
use chunkbench::partition::PartitionError;

fn mat(rows: &[&[i32]]) -> Vec<Vec<i32>> {
    rows.iter().map(|r| r.to_vec()).collect()
}

#[test]
fn two_by_two_product() {
    let a = mat(&[&[1, 2], &[3, 4]]);
    let b = mat(&[&[5, 6], &[7, 8]]);
    let expected = vec![vec![19i64, 22], vec![43, 50]];
    for w in 1..=2usize {
        assert_eq!(multiply_matrices(&a, &b, w).unwrap(), expected);
    }
    for w in 3..=8usize {
        assert_eq!(multiply_matrices(&a, &b, w), Err(PartitionError::TooManyWorkers));
    }
    assert_eq!(multiply_matrices_sequential(&a, &b), expected);
}

#[test]
fn identity_times_matrix() {
    let eye = mat(&[&[1, 0, 0], &[0, 1, 0], &[0, 0, 1]]);
    let a = mat(&[&[2, -3, 4], &[0, 7, -1], &[5, 5, 5]]);
    let expected: Vec<Vec<i64>> =
        a.iter().map(|r| r.iter().map(|&x| x as i64).collect()).collect();
    for w in 1..=3usize {
        assert_eq!(multiply_matrices(&eye, &a, w).unwrap(), expected);
        assert_eq!(multiply_matrices(&a, &eye, w).unwrap(), expected);
    }
}

#[test]
fn four_by_four_with_three_workers_matches_sequential() {
    let a = mat(&[
        &[3, 1, -4, 2],
        &[0, 5, 2, -7],
        &[8, -2, 6, 1],
        &[-9, 4, 0, 3],
    ]);
    let b = mat(&[
        &[1, 2, 3, 4],
        &[-5, 6, -7, 8],
        &[9, -10, 11, -12],
        &[13, 14, -15, 16],
    ]);
    let parallel = multiply_matrices(&a, &b, 3).unwrap();
    let sequential = multiply_matrices_sequential(&a, &b);
    assert_eq!(parallel, sequential);
    // spot-check one cell against a hand-computed dot product:
    // row 0 of a . column 0 of b = 3*1 + 1*(-5) + (-4)*9 + 2*13 = -12
    assert_eq!(parallel[0][0], -12);
}

#[test]
fn all_valid_worker_counts_agree() {
    let a = mat(&[
        &[7, -3, 2, 9, 0],
        &[1, 1, 1, 1, 1],
        &[-2, 4, -6, 8, -10],
        &[0, 0, 3, 0, 0],
        &[5, -5, 5, -5, 5],
    ]);
    let b = mat(&[
        &[2, 0, 1, 0, 3],
        &[0, 4, 0, 5, 0],
        &[6, 0, 7, 0, 8],
        &[0, 9, 0, 1, 0],
        &[2, 0, 3, 0, 4],
    ]);
    let reference = multiply_matrices_sequential(&a, &b);
    for w in 1..=5usize {
        assert_eq!(multiply_matrices(&a, &b, w).unwrap(), reference);
    }
}

#[test]
fn rerunning_matrix_gives_identical_output() {
    let a = mat(&[&[12, -7], &[34, 56]]);
    let b = mat(&[&[-1, 2], &[3, -4]]);
    let first = multiply_matrices(&a, &b, 2).unwrap();
    let second = multiply_matrices(&a, &b, 2).unwrap();
    assert_eq!(first, second);
}

#[test]
fn row_block_fills_only_its_rows() {
    let a = mat(&[&[1, 2], &[3, 4]]);
    let b = mat(&[&[5, 6], &[7, 8]]);
    let block = multiply_row_block(&a, &b, 1, 2);
    assert_eq!(block[0], vec![0i64, 0]);
    assert_eq!(block[1], vec![43i64, 50]);
}

#[test]
fn matrix_zero_workers_rejected() {
    let a = mat(&[&[1]]);
    assert_eq!(multiply_matrices(&a, &a, 0), Err(PartitionError::ZeroWorkers));
}
