use matrix::Matrix;
use matrix::MatrixError;

#[test]
fn create_zero_matrix() {
    let matrix = Matrix::new(3, 3, 0);
    for i in 0..matrix.data.len() {
        assert_eq!(matrix.data[i], 0);
    }
}

#[test]
fn create_matrix_from_vecs() {
    let data = vec![vec![1, 2, 3], vec![4, 5, 6], vec![7, 8, 9]];
    let data_flattened: Vec<i32> = data.clone().into_iter().flatten().collect();

    let matrix = Matrix::from(data).unwrap();

    assert_eq!(matrix.data, data_flattened);
}

#[test]
fn multiply_matrices() {
    let matrix1 = Matrix::from(vec![vec![1, 2, 3], vec![4, 5, 6], vec![7, 8, 9]]).unwrap();

    let matrix2 = Matrix::from(vec![vec![9, 8, 7], vec![6, 5, 4], vec![3, 2, 1]]).unwrap();

    let expected_matrix =
        Matrix::from(vec![vec![30, 24, 18], vec![84, 69, 54], vec![138, 114, 90]]).unwrap();

    assert_eq!(matrix1.multiply(&matrix2).unwrap(), expected_matrix);
}

#[test]
fn scalar_multiply() {
    let matrix = Matrix::from(vec![vec![1, 2, 3], vec![4, 5, 6], vec![7, 8, 9]]).unwrap();

    let expected_matrix =
        Matrix::from(vec![vec![2, 4, 6], vec![8, 10, 12], vec![14, 16, 18]]).unwrap();

    assert_eq!(matrix.scale(2), expected_matrix);
}

#[test]
fn random_matrix() {
    let max = 10;
    let random_matrix = Matrix::new_random(5, 5, 0, max);

    assert_eq!(random_matrix.rows, 5);
    assert_eq!(random_matrix.cols, 5);
    assert!(random_matrix.data.iter().max().unwrap() < &max);
}

#[test]
fn shape_invariant_holds_for_every_constructor() {
    let filled = Matrix::new(4, 7, 1i64);
    assert_eq!(filled.data.len(), filled.rows * filled.cols);

    let nested = Matrix::from(vec![vec![1i64, 2], vec![3, 4], vec![5, 6]]).unwrap();
    assert_eq!(nested.data.len(), nested.rows * nested.cols);

    let random = Matrix::new_random(6, 3, -5, 5);
    assert_eq!(random.data.len(), random.rows * random.cols);

    let product = nested.multiply(&Matrix::new(2, 3, 1i64)).unwrap();
    assert_eq!(product.data.len(), product.rows * product.cols);

    let scaled = nested.scale(3);
    assert_eq!(scaled.data.len(), scaled.rows * scaled.cols);

    let empty = Matrix::new(0, 5, 0i64);
    assert_eq!(empty.data.len(), 0);
    assert_eq!(empty.data.len(), empty.rows * empty.cols);
}

#[test]
fn rows_round_trip_through_construction() {
    let rows = vec![vec![1i64, 2, 3], vec![4, 5, 6], vec![7, 8, 9], vec![10, 11, 12]];
    let matrix = Matrix::from(rows.clone()).unwrap();
    for (i, row) in rows.iter().enumerate() {
        assert_eq!(&matrix.get_row(i).unwrap(), row);
    }
}

#[test]
fn column_extraction_visits_rows_in_order() {
    let matrix = Matrix::from(vec![vec![1i64, 2, 3], vec![4, 5, 6]]).unwrap();
    assert_eq!(matrix.get_column(0).unwrap(), vec![1, 4]);
    assert_eq!(matrix.get_column(1).unwrap(), vec![2, 5]);
    assert_eq!(matrix.get_column(2).unwrap(), vec![3, 6]);
}

#[test]
fn get_reads_row_major_elements() {
    let matrix = Matrix::from(vec![vec![1i64, 2, 3], vec![4, 5, 6]]).unwrap();
    assert_eq!(matrix.get(0, 0), Ok(&1));
    assert_eq!(matrix.get(0, 2), Ok(&3));
    assert_eq!(matrix.get(1, 1), Ok(&5));
}

#[test]
fn get_rejects_out_of_range_indices() {
    let matrix = Matrix::from(vec![vec![1i64, 2, 3], vec![4, 5, 6]]).unwrap();
    assert_eq!(matrix.get(2, 0), Err(MatrixError::IndexOutOfRange));
    assert_eq!(matrix.get(0, 3), Err(MatrixError::IndexOutOfRange));
    assert_eq!(matrix.get(2, 3), Err(MatrixError::IndexOutOfRange));
}

#[test]
fn set_replaces_only_the_chosen_element() {
    let mut matrix = Matrix::from(vec![vec![1i64, 2], vec![3, 4]]).unwrap();
    assert_eq!(matrix.set(1, 0, 9), Ok(()));
    assert_eq!(matrix.data, vec![1, 2, 9, 4]);
}

#[test]
fn set_rejects_out_of_range_indices() {
    let mut matrix = Matrix::from(vec![vec![1i64, 2], vec![3, 4]]).unwrap();
    assert_eq!(matrix.set(2, 0, 9), Err(MatrixError::IndexOutOfRange));
    assert_eq!(matrix.set(0, 2, 9), Err(MatrixError::IndexOutOfRange));
    assert_eq!(matrix.data, vec![1, 2, 3, 4]);
}

#[test]
fn row_and_column_reads_reject_out_of_range_indices() {
    let matrix = Matrix::from(vec![vec![1i64, 2], vec![3, 4]]).unwrap();
    assert_eq!(matrix.get_row(2), Err(MatrixError::IndexOutOfRange));
    assert_eq!(matrix.get_column(2), Err(MatrixError::IndexOutOfRange));
}

#[test]
fn ragged_rows_are_rejected() {
    let ragged = vec![vec![1i64, 2, 3], vec![4, 5], vec![6, 7, 8]];
    assert_eq!(Matrix::from(ragged), Err(MatrixError::Shape));
}

#[test]
fn empty_row_collection_is_rejected() {
    let empty: Vec<Vec<i64>> = Vec::new();
    assert_eq!(Matrix::from(empty), Err(MatrixError::Shape));
}

#[test]
fn incompatible_shapes_are_rejected_by_multiplication() {
    let two_by_three = Matrix::from(vec![vec![1i64, 2, 3], vec![4, 5, 6]]).unwrap();
    let another_two_by_three = Matrix::from(vec![vec![1i64, 0, 0], vec![0, 1, 0]]).unwrap();
    assert_eq!(
        two_by_three.multiply(&another_two_by_three),
        Err(MatrixError::DimensionMismatch)
    );
}

#[test]
fn multiplication_is_associative_on_compatible_shapes() {
    let a = Matrix::new_random(2, 3, 0, 10);
    let b = Matrix::new_random(3, 4, 0, 10);
    let c = Matrix::new_random(4, 2, 0, 10);

    let left = a.multiply(&b).unwrap().multiply(&c).unwrap();
    let right = a.multiply(&b.multiply(&c).unwrap()).unwrap();

    assert_eq!(left, right);
}

#[test]
fn random_elements_stay_inside_the_half_open_range() {
    for max in 2..12 {
        for _ in 0..10 {
            let matrix = Matrix::new_random(3, 4, 0, max);
            for value in matrix.data.iter() {
                assert!(0 <= *value && *value < max);
            }
        }
    }
}

#[test]
fn equality_compares_shape_and_data() {
    let two_by_three = Matrix::from(vec![vec![1i64, 2, 3], vec![4, 5, 6]]).unwrap();
    let three_by_two = Matrix::from(vec![vec![1i64, 2], vec![3, 4], vec![5, 6]]).unwrap();
    assert_eq!(two_by_three.data, three_by_two.data);
    assert_ne!(two_by_three, three_by_two);

    let same = Matrix::from(vec![vec![1i64, 2, 3], vec![4, 5, 6]]).unwrap();
    assert_eq!(two_by_three, same);
}

#[test]
fn text_rendering_dumps_rows_then_shape() {
    let matrix = Matrix::from(vec![vec![1i64, 2], vec![3, 4]]).unwrap();
    assert_eq!(matrix.to_text(), "1, 2, \n3, 4, \nRows: 2, Columns: 2");
}

#[test]
fn text_rendering_handles_zero_and_negatives() {
    let matrix = Matrix::from(vec![vec![0i64, -5, 123]]).unwrap();
    assert_eq!(matrix.to_text(), "0, -5, 123, \nRows: 1, Columns: 3");
}

#[test]
fn scaling_by_zero_and_negative_factors() {
    let matrix = Matrix::from(vec![vec![1i64, -2], vec![3, -4]]).unwrap();
    assert_eq!(matrix.scale(0).data, vec![0, 0, 0, 0]);
    assert_eq!(matrix.scale(-1).data, vec![-1, 2, -3, 4]);
}
