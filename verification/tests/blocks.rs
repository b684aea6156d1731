use scirust::algorithms::mat_mul;
use scirust::error::MatrixError;
use scirust::matrix::{BasicMatrix, Create, Matrix};
use scirust::par::{
    assemble_blocks, create, create_block, create_blocked, is_leaf, join_products, mat_mul_grid, min, sub_mul,
    subdivide_coords, BLOCK_SIZE, DEFAULT_BLOCK_SIZE,
};
use scirust::par;

fn cells<M: BasicMatrix<i64>>(m: &M) -> Vec<Vec<i64>> {
    (0..m.num_rows())
        .map(|i| (0..m.num_cols()).map(|j| m.get(i, j).unwrap()).collect())
        .collect()
}

fn gen(i: usize, j: usize) -> i64 {
    (i * 1000 + j) as i64
}

#[test]
fn min_of_two() {
    assert_eq!(min(3, 5), 3);
    assert_eq!(min(5, 3), 3);
    assert_eq!(min(4, 4), 4);
}

#[test]
fn four_by_four_in_blocks_of_two() {
    let blocked: Matrix<i64> = create_blocked(4, 4, 2, gen);
    let plain: Matrix<i64> = Matrix::create(4, 4, gen);
    assert_eq!(cells(&blocked), cells(&plain));
    assert_eq!(blocked.get(3, 2), Ok(3002));
}

#[test]
fn blocked_construction_is_the_same_for_every_block_size() {
    for (rows, cols) in [(1, 1), (1, 7), (7, 1), (5, 5), (6, 4), (9, 13)] {
        let plain: Matrix<i64> = Matrix::create(rows, cols, gen);
        for block_size in 1..16 {
            let blocked: Matrix<i64> = create_blocked(rows, cols, block_size, gen);
            assert_eq!((blocked.num_rows(), blocked.num_cols()), (rows, cols));
            assert_eq!(cells(&blocked), cells(&plain));
        }
        let huge: Matrix<i64> = create_blocked(rows, cols, usize::MAX, gen);
        assert_eq!(cells(&huge), cells(&plain));
    }
}

#[test]
fn blocked_construction_without_cells() {
    let a: Matrix<i64> = create_blocked(0, 3, 2, gen);
    assert_eq!((a.num_rows(), a.num_cols()), (0, 3));
    let b: Matrix<i64> = create_blocked(3, 0, 2, gen);
    assert_eq!((b.num_rows(), b.num_cols()), (3, 0));
}

#[test]
fn blocked_construction_with_the_default_block_size() {
    let rows = DEFAULT_BLOCK_SIZE + 3;
    let a: Matrix<i64> = create(rows, 2, gen);
    let plain: Matrix<i64> = Matrix::create(rows, 2, gen);
    assert_eq!(cells(&a), cells(&plain));
}

#[test]
fn blocked_construction_calls_the_generator_once_per_cell() {
    let calls = std::cell::RefCell::new(Vec::new());
    let _m: Matrix<i64> = create_blocked(3, 3, 2, |i, j| {
        calls.borrow_mut().push((i, j));
        0
    });
    let mut seen = calls.borrow().clone();
    seen.sort();
    let all: Vec<(usize, usize)> = (0..3).flat_map(|i| (0..3).map(move |j| (i, j))).collect();
    assert_eq!(seen, all);
}

#[test]
fn one_block_holds_the_cells_from_its_offset_on() {
    let b: Matrix<i64> = create_block(2, 4, 2, 3, &gen);
    assert_eq!(cells(&b), vec![vec![2004, 2005, 2006], vec![3004, 3005, 3006]]);
}

#[test]
fn blocks_are_put_together_row_by_row() {
    let blocks: Vec<Vec<Matrix<i64>>> = vec![
        vec![create_block(0, 0, 2, 2, &gen), create_block(0, 2, 2, 1, &gen)],
        vec![create_block(2, 0, 1, 2, &gen), create_block(2, 2, 1, 1, &gen)],
    ];
    let whole: Matrix<i64> = assemble_blocks(&blocks);
    let plain: Matrix<i64> = Matrix::create(3, 3, gen);
    assert_eq!(cells(&whole), cells(&plain));
}

#[test]
fn rectangles_are_split_with_the_larger_half_second() {
    let (tl, tr, bl, br) = subdivide_coords(((10, 20), (5, 8)));
    assert_eq!(tl, ((10, 20), (2, 4)));
    assert_eq!(tr, ((10, 24), (2, 4)));
    assert_eq!(bl, ((12, 20), (3, 4)));
    assert_eq!(br, ((12, 24), (3, 4)));
    let (tl, tr, bl, br) = subdivide_coords(((0, 0), (1, 3)));
    assert_eq!(tl, ((0, 0), (0, 1)));
    assert_eq!(tr, ((0, 1), (0, 2)));
    assert_eq!(bl, ((0, 0), (1, 1)));
    assert_eq!(br, ((0, 1), (1, 2)));
}

#[test]
fn small_or_thin_rectangles_are_leaves() {
    assert!(is_leaf(((0, 0), (64, 128)), ((0, 0), (128, 200))));
    assert!(is_leaf(((0, 0), (200, 128)), ((0, 0), (128, 64))));
    assert!(!is_leaf(((0, 0), (64, 129)), ((0, 0), (129, 64))));
    assert!(is_leaf(((0, 0), (1, 10000)), ((0, 0), (10000, 100))));
    assert!(is_leaf(((0, 0), (100, 10000)), ((0, 0), (10000, 1))));
    assert!(!is_leaf(((0, 0), (usize::MAX, usize::MAX)), ((0, 0), (usize::MAX, usize::MAX))));
    assert_eq!(BLOCK_SIZE, 8192);
}

#[test]
fn divide_and_conquer_product_is_the_product() {
    let a: Matrix<i64> = Matrix::create(101, 97, |i, j| ((i * 31 + j * 17) % 23) as i64 - 11);
    let b: Matrix<i64> = Matrix::create(97, 103, |i, j| ((i * 13 + j * 29) % 19) as i64 - 9);
    let plain: Matrix<i64> = mat_mul(&a, &b).unwrap();
    let split: Matrix<i64> = par::mat_mul(&a, &b).unwrap();
    assert_eq!((split.num_rows(), split.num_cols()), (101, 103));
    assert_eq!(cells(&split), cells(&plain));
}

#[test]
fn divide_and_conquer_product_of_small_operands() {
    let i2: Matrix<i64> = Matrix::create(2, 2, |i, j| if i == j { 1 } else { 0 });
    let b: Matrix<i64> = Matrix::create(2, 2, |i, j| (i * 2 + j + 1) as i64);
    let p: Matrix<i64> = par::mat_mul(&i2, &b).unwrap();
    assert_eq!(cells(&p), vec![vec![1, 2], vec![3, 4]]);
}

#[test]
fn divide_and_conquer_product_of_a_long_row_and_a_long_column() {
    let a: Matrix<i64> = Matrix::create(1, 10000, |_, j| (j % 7) as i64);
    let b: Matrix<i64> = Matrix::create(10000, 1, |i, _| (i % 5) as i64);
    let plain: Matrix<i64> = mat_mul(&a, &b).unwrap();
    let split: Matrix<i64> = par::mat_mul(&a, &b).unwrap();
    assert_eq!(cells(&split), cells(&plain));
}

#[test]
fn divide_and_conquer_product_checks_the_shapes() {
    let a: Matrix<i64> = Matrix::create(2, 3, |_, _| 1);
    let b: Matrix<i64> = Matrix::create(2, 2, |_, _| 1);
    let p: Result<Matrix<i64>, MatrixError> = par::mat_mul(&a, &b);
    assert_eq!(
        p.map(|_| ()),
        Err(MatrixError::DimensionMismatch { lhs_rows: 2, lhs_cols: 3, rhs_rows: 2, rhs_cols: 2 })
    );
    let none: Matrix<i64> = Matrix::create(0, 2, |_, _| 1);
    let q: Matrix<i64> = par::mat_mul(&none, &b).unwrap();
    assert_eq!((q.num_rows(), q.num_cols()), (0, 2));
}

#[test]
fn product_built_by_blocks_is_the_product() {
    let a: Matrix<i64> = Matrix::create(150, 3, |i, j| (i + j) as i64);
    let b: Matrix<i64> = Matrix::create(3, 140, |i, j| (i * 2 + j) as i64 - 50);
    let plain: Matrix<i64> = mat_mul(&a, &b).unwrap();
    let grid: Matrix<i64> = mat_mul_grid(&a, &b).unwrap();
    assert_eq!(cells(&grid), cells(&plain));
}

#[test]
fn product_of_rectangles() {
    let a: Matrix<i64> = Matrix::create(4, 5, |i, j| (i * 5 + j) as i64);
    let b: Matrix<i64> = Matrix::create(6, 4, |i, j| (i as i64) - (j as i64));
    // Rows 1..3 and columns 2..5 of a, rows 3..6 and columns 0..2 of b.
    let p: Matrix<i64> = sub_mul(&a, ((1, 2), (2, 3)), &b, ((3, 0), (3, 2))).unwrap();
    // [[7, 8, 9], [12, 13, 14]] * [[3, 2], [4, 3], [5, 4]]
    assert_eq!(cells(&p), vec![vec![98, 74], vec![158, 119]]);
}

#[test]
fn product_of_rectangles_checks_windows_and_shapes() {
    let a: Matrix<i64> = Matrix::create(4, 5, |_, _| 1);
    let b: Matrix<i64> = Matrix::create(6, 4, |_, _| 1);
    let outside: Result<Matrix<i64>, MatrixError> = sub_mul(&a, ((3, 0), (2, 2)), &b, ((0, 0), (2, 2)));
    assert_eq!(
        outside.map(|_| ()),
        Err(MatrixError::InvalidWindow { row: 3, col: 0, rows: 2, cols: 2, base_rows: 4, base_cols: 5 })
    );
    let empty: Result<Matrix<i64>, MatrixError> = sub_mul(&a, ((0, 0), (2, 2)), &b, ((0, 0), (2, 0)));
    assert_eq!(
        empty.map(|_| ()),
        Err(MatrixError::InvalidWindow { row: 0, col: 0, rows: 2, cols: 0, base_rows: 6, base_cols: 4 })
    );
    let misfit: Result<Matrix<i64>, MatrixError> = sub_mul(&a, ((0, 0), (2, 3)), &b, ((0, 0), (2, 2)));
    assert_eq!(
        misfit.map(|_| ()),
        Err(MatrixError::DimensionMismatch { lhs_rows: 2, lhs_cols: 3, rhs_rows: 2, rhs_cols: 2 })
    );
}

#[test]
fn eight_products_are_joined_to_four_quadrants() {
    let m = |rows: usize, cols: usize, x: i64| -> Matrix<i64> { Matrix::create(rows, cols, move |_, _| x) };
    let whole: Matrix<i64> = join_products(
        &m(1, 2, 1),
        &m(1, 2, 10),
        &m(1, 1, 2),
        &m(1, 1, 20),
        &m(2, 2, 3),
        &m(2, 2, 30),
        &m(2, 1, 4),
        &m(2, 1, 40),
    )
    .unwrap();
    assert_eq!(cells(&whole), vec![vec![11, 11, 22], vec![33, 33, 44], vec![33, 33, 44]]);
}

#[test]
fn joining_refuses_products_that_do_not_fit() {
    let m = |rows: usize, cols: usize| -> Matrix<i64> { Matrix::create(rows, cols, |_, _| 1) };
    let sum: Result<Matrix<i64>, MatrixError> =
        join_products(&m(1, 2), &m(2, 2), &m(1, 1), &m(1, 1), &m(2, 2), &m(2, 2), &m(2, 1), &m(2, 1));
    assert_eq!(
        sum.map(|_| ()),
        Err(MatrixError::DimensionMismatch { lhs_rows: 1, lhs_cols: 2, rhs_rows: 2, rhs_cols: 2 })
    );
    let band: Result<Matrix<i64>, MatrixError> =
        join_products(&m(1, 2), &m(1, 2), &m(2, 1), &m(2, 1), &m(2, 2), &m(2, 2), &m(2, 1), &m(2, 1));
    assert_eq!(
        band.map(|_| ()),
        Err(MatrixError::DimensionMismatch { lhs_rows: 1, lhs_cols: 2, rhs_rows: 2, rhs_cols: 1 })
    );
    let stack: Result<Matrix<i64>, MatrixError> =
        join_products(&m(1, 2), &m(1, 2), &m(1, 1), &m(1, 1), &m(2, 3), &m(2, 3), &m(2, 1), &m(2, 1));
    assert_eq!(
        stack.map(|_| ()),
        Err(MatrixError::DimensionMismatch { lhs_rows: 1, lhs_cols: 3, rhs_rows: 2, rhs_cols: 4 })
    );
}
