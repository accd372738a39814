use smith_waterman::{Matrix, ERR_OUT_OF_BOUNDS};

#[test]
fn test_matrix() {
    let mut mat = Matrix::<usize>::new(10, 10);
    assert_eq!(Ok(&0), mat.get(1, 1));
    assert_eq!(Ok(()), mat.set(9, 9, 5));
    assert_eq!(Ok(&5), mat.get(9, 9));
    assert_eq!(100, mat.len());
    assert_eq!(Err(ERR_OUT_OF_BOUNDS), mat.get(100, 100));
}

#[test]
fn test_max_index() {
    let mut mat = Matrix::<usize>::new(4, 4);
    assert_eq!(Ok(()), mat.set(0, 0, 100));
    assert_eq!(Ok(()), mat.set(3, 2, 500));
    assert_eq!((3, 2), mat.max_index());
}

#[test]
fn max_index_prefers_first_cell_in_row_major_order() {
    let mut mat = Matrix::<i32>::new(3, 3);
    assert_eq!(Ok(()), mat.set(2, 0, 7));
    assert_eq!(Ok(()), mat.set(1, 2, 7));
    assert_eq!(Ok(()), mat.set(2, 2, 7));
    assert_eq!((1, 2), mat.max_index());
}

#[test]
fn max_index_of_all_equal_cells_is_origin() {
    let mat = Matrix::<i32>::new(5, 2);
    assert_eq!((0, 0), mat.max_index());
}

#[test]
fn max_index_handles_negative_values() {
    let mut mat = Matrix::<i32>::new(2, 2);
    assert_eq!(Ok(()), mat.set(0, 0, -5));
    assert_eq!(Ok(()), mat.set(0, 1, -2));
    assert_eq!(Ok(()), mat.set(1, 0, -9));
    assert_eq!(Ok(()), mat.set(1, 1, -3));
    assert_eq!((0, 1), mat.max_index());
}

#[test]
fn set_out_of_bounds_leaves_grid_unchanged() {
    let mut mat = Matrix::<usize>::new(3, 2);
    assert_eq!(Err(ERR_OUT_OF_BOUNDS), mat.set(2, 0, 4));
    for row in 0..2 {
        for col in 0..3 {
            assert_eq!(Ok(&0), mat.get(row, col));
        }
    }
}

#[test]
fn address_is_checked_on_the_flat_position() {
    let mut mat = Matrix::<usize>::new(3, 2);
    assert_eq!(Ok(()), mat.set(1, 0, 8));
    assert_eq!(Ok(&8), mat.get(0, 3));
    assert_eq!(Err(ERR_OUT_OF_BOUNDS), mat.get(1, 3));
}

#[test]
fn overflowing_address_is_out_of_bounds() {
    let mat = Matrix::<usize>::new(3, 2);
    assert_eq!(Err(ERR_OUT_OF_BOUNDS), mat.get(usize::MAX, 1));
    assert_eq!(Err(ERR_OUT_OF_BOUNDS), mat.get(0, usize::MAX));
}

#[test]
fn zero_width_grid_is_empty() {
    let mat = Matrix::<usize>::new(0, 5);
    assert_eq!(0, mat.len());
    assert_eq!(Err(ERR_OUT_OF_BOUNDS), mat.get(0, 0));
}

