use gf_linalg::finite_field::GFElement;
use gf_linalg::linalg::Matrix;

fn grid(cells: &[&[i32]], m: i32) -> Vec<Vec<GFElement>> {
    cells.iter().map(|row| row.iter().map(|v| GFElement::new(*v, m)).collect()).collect()
}

#[test]
fn test_matrix_display() {
    // Construct small matrix
    //  0 1
    //  1 2
    let rows: Vec<Vec<GFElement>> = (0..=1)
        .map(|row_idx| (0..=1).map(|col_idx| GFElement::new(row_idx + col_idx, 3)).collect())
        .collect();
    let matrix = Matrix::new(rows);
    assert_eq!(matrix.render(), "0 1\n1 2");
}

#[test]
fn test_rref() {
    // Construct small matrix
    //  0 1
    //  1 2
    let rows: Vec<Vec<GFElement>> = (0..=1)
        .map(|row_idx| (0..=1).map(|col_idx| GFElement::new(row_idx + col_idx, 3)).collect())
        .collect();
    let matrix = Matrix::new(rows);
    // Verify reduced row echelon form is correct
    let matrix_rref = matrix.to_rref();
    assert_eq!(matrix_rref.render(), "1 0\n0 1");
    // Verify that rref form stays
    assert_eq!(matrix_rref.to_rref().render(), "1 0\n0 1");
}

#[test]
fn test_rref_larger_matrix() {
    // Construct a 3x4 matrix
    //  1 2 3 4
    //  0 1 2 3
    //  1 1 1 1
    let matrix = Matrix::new(grid(&[&[1, 2, 3, 4], &[0, 1, 2, 3], &[1, 1, 1, 1]], 5));
    let matrix_rref = matrix.to_rref();
    // Expected RREF:
    //  1 0 4 3
    //  0 1 2 3
    //  0 0 0 0
    assert_eq!(matrix_rref.render(), "1 0 4 3\n0 1 2 3\n0 0 0 0");
    // Verify that rref form stays
    assert_eq!(matrix_rref.to_rref().render(), matrix_rref.render());
}

#[test]
fn test_solvable() {
    // Test whether a matrix is marked as solvable
    let matrix = Matrix::new(grid(&[&[1, 0, 1], &[0, 1, 1], &[0, 0, 0]], 2));
    assert_eq!(matrix.to_rref().is_solvable(), true);
}

#[test]
fn test_unsolvable() {
    // Test whether a matrix is marked as unsolvable
    // The last "light" is 1 but no switches influence it
    let matrix = Matrix::new(grid(&[&[1, 0, 1], &[0, 1, 1], &[0, 0, 1]], 2));
    assert_eq!(matrix.to_rref().is_solvable(), false);
}

#[test]
fn test_any_row_unsolvable() {
    let cases: [(&[&[i32]], bool); 3] = [
        (&[&[0, 0, 1]], true),
        (&[&[0, 0, 0]], false),
        (&[&[1, 0, 1]], false),
    ];
    for (cells, expected) in cases {
        let matrix = Matrix::new(grid(cells, 2));
        assert_eq!(matrix.to_rref().is_any_row_unsolvable(), expected);
    }
}

#[test]
fn test_every_row_has_a_pivot() {
    assert_eq!(Matrix::new(grid(&[&[0, 0]], 2)).every_row_has_a_pivot(), true);
    assert_eq!(Matrix::new(grid(&[&[0, 1]], 2)).every_row_has_a_pivot(), true);
    assert_eq!(Matrix::new(grid(&[&[2, 0]], 3)).every_row_has_a_pivot(), false);
    assert_eq!(Matrix::new(grid(&[&[0, 2]], 3)).every_row_has_a_pivot(), false);
    assert_eq!(Matrix::new(grid(&[&[0, 1], &[0, 2]], 3)).every_row_has_a_pivot(), false);
}

#[test]
fn test_every_column_has_a_pivot() {
    assert_eq!(Matrix::new(grid(&[&[1, 0], &[0, 1]], 2)).every_column_has_a_pivot(), true);
    assert_eq!(Matrix::new(grid(&[&[1, 0], &[0, 0]], 2)).every_column_has_a_pivot(), true);
    assert_eq!(Matrix::new(grid(&[&[1, 1], &[0, 0]], 2)).every_column_has_a_pivot(), true);
    assert_eq!(Matrix::new(grid(&[&[0, 0], &[1, 1]], 2)).every_column_has_a_pivot(), true);
}

#[test]
fn test_transpose_rectangular() {
    let t = Matrix::new(grid(&[&[1, 2, 3], &[4, 5, 6]], 7)).transpose();
    assert_eq!(t.render(), "1 4\n2 5\n3 6");
}

#[test]
fn test_solution() {
    let solvable = Matrix::new(grid(&[&[1, 0, 1], &[0, 1, 1]], 2));
    let expected: Vec<GFElement> = vec![GFElement::new(1, 2), GFElement::new(1, 2)];
    assert_eq!(solvable.solution(), Some(expected));
}

#[test]
fn test_solution_mod_seven() {
    // 2x + 3y == 5, 2x + 6y == 1 mod 7 has the solution x == 1, y == 1
    let matrix = Matrix::new(grid(&[&[2, 3, 5], &[2, 6, 1]], 7));
    let expected: Vec<GFElement> = vec![GFElement::new(1, 7), GFElement::new(1, 7)];
    assert_eq!(matrix.solution(), Some(expected));
}

#[test]
fn test_solution_three_rows() {
    // A system with a redundant all-zero row: solvable, with the free
    // position reading zero from the augmentation column
    let matrix = Matrix::new(grid(&[&[1, 0, 1], &[0, 1, 1], &[0, 0, 0]], 2));
    assert_eq!(matrix.is_solvable(), true);
    let solution = matrix.solution().unwrap();
    assert_eq!(solution[0], GFElement::new(1, 2));
    assert_eq!(solution[1], GFElement::new(1, 2));
    assert_eq!(solution.len(), 3);
    assert_eq!(solution[2], GFElement::new(0, 2));
}

#[test]
fn test_solution_none_for_contradiction() {
    let matrix = Matrix::new(grid(&[&[1, 0, 1], &[0, 1, 1], &[0, 0, 1]], 2));
    assert_eq!(matrix.is_solvable(), false);
    assert_eq!(matrix.solution(), None);
}

#[test]
fn test_contradiction_never_solvable_with_other_rows() {
    // A contradiction row spoils the system regardless of the rest
    let matrix = Matrix::new(grid(&[&[1, 2, 3], &[0, 0, 4], &[0, 1, 2]], 5));
    assert_eq!(matrix.is_solvable(), false);
}

#[test]
fn test_rref_idempotent_random_shapes() {
    // Reducing twice equals reducing once, element for element
    let cases: [&[&[i32]]; 3] = [
        &[&[2, 3], &[4, 1]],
        &[&[0, 0, 3], &[2, 0, 1]],
        &[&[1, 1, 1], &[2, 2, 2], &[3, 3, 3]],
    ];
    for cells in cases {
        let once = Matrix::new(grid(cells, 5)).to_rref();
        let twice = once.to_rref();
        assert_eq!(once.render(), twice.render());
    }
}

#[test]
fn test_rref_leading_entries_are_one() {
    let reduced = Matrix::new(grid(&[&[0, 0, 3], &[2, 0, 1], &[4, 4, 4]], 5)).to_rref();
    assert_eq!(reduced.every_row_has_a_pivot(), true);
}

#[test]
fn test_render_pads_to_widest() {
    let matrix = Matrix::new(grid(&[&[10, 2], &[3, 123]], 1000));
    assert_eq!(matrix.render(), " 10   2\n  3 123");
}

#[test]
fn test_single_cell() {
    let matrix = Matrix::new(grid(&[&[4]], 5));
    assert_eq!(matrix.to_rref().render(), "1");
    assert_eq!(matrix.render(), "4");
}
