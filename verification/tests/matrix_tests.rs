use rs_paint::matrix::{flood_fill_matrix, Matrix};

fn grid_from(rows: &[&str]) -> Matrix<char> {
    let height = rows.len();
    let width = if height == 0 { 0 } else { rows[0].len() };
    let mut m = Matrix::new(height, width, ' ');
    for (i, row) in rows.iter().enumerate() {
        for (j, ch) in row.chars().enumerate() {
            *m.at_mut(i, j) = ch;
        }
    }
    m
}

fn rows_of(m: &Matrix<char>) -> Vec<String> {
    (0..m.row()).map(|i| m.row_at(i).iter().collect::<String>()).collect()
}

#[test]
fn new_fills_every_cell() {
    let m = Matrix::new(3, 4, 7u8);
    assert_eq!(m.row(), 3);
    assert_eq!(m.col(), 4);
    assert_eq!(m.data().len(), 12);
    for i in 0..3 {
        for j in 0..4 {
            assert_eq!(*m.at(i, j), 7);
        }
    }
}

#[test]
fn new_with_no_rows_or_no_columns_is_empty() {
    let a: Matrix<u8> = Matrix::new(0, 5, 1);
    assert_eq!((a.row(), a.col(), a.data().len()), (0, 5, 0));
    let b: Matrix<u8> = Matrix::new(5, 0, 1);
    assert_eq!((b.row(), b.col(), b.data().len()), (5, 0, 0));
    assert_eq!(b.row_at(4).len(), 0);
}

#[test]
fn at_mut_writes_one_cell() {
    let mut m = Matrix::new(3, 4, 0u32);
    *m.at_mut(1, 2) = 9;
    for i in 0..3 {
        for j in 0..4 {
            let expected = if (i, j) == (1, 2) { 9 } else { 0 };
            assert_eq!(*m.at(i, j), expected);
        }
    }
}

#[test]
fn data_is_row_major() {
    let mut m = Matrix::new(2, 3, 0usize);
    for i in 0..2 {
        for j in 0..3 {
            *m.at_mut(i, j) = 10 * i + j;
        }
    }
    assert_eq!(m.data(), &vec![0, 1, 2, 10, 11, 12]);
    assert_eq!(m.row_at(0), &[0, 1, 2]);
    assert_eq!(m.row_at(1), &[10, 11, 12]);
}

#[test]
fn row_at_mut_writes_one_row() {
    let mut m = Matrix::new(3, 2, 0u8);
    {
        let row = m.row_at_mut(1);
        assert_eq!(row.len(), 2);
        row[0] = 5;
        row[1] = 6;
    }
    assert_eq!(m.data(), &vec![0, 0, 5, 6, 0, 0]);
}

#[test]
fn swap_exchanges_two_cells() {
    let mut m = Matrix::new(2, 3, 0u8);
    *m.at_mut(0, 1) = 1;
    *m.at_mut(1, 2) = 2;
    m.swap(0, 1, 1, 2);
    assert_eq!(m.data(), &vec![0, 2, 0, 0, 0, 1]);
    m.swap(1, 2, 0, 1);
    assert_eq!(m.data(), &vec![0, 1, 0, 0, 0, 2]);
}

#[test]
fn swap_of_a_cell_with_itself_changes_nothing() {
    let mut m = Matrix::new(2, 2, 0u8);
    *m.at_mut(1, 0) = 3;
    m.swap(1, 0, 1, 0);
    assert_eq!(m.data(), &vec![0, 0, 3, 0]);
}

#[test]
fn clone_is_equal_and_independent() {
    let mut m = Matrix::new(2, 2, 1u8);
    let copy = m.clone();
    assert_eq!(m, copy);
    *m.at_mut(0, 0) = 2;
    assert_ne!(m, copy);
    assert_eq!(*copy.at(0, 0), 1);
}

#[test]
fn into_iter_walks_in_storage_order() {
    let mut m = Matrix::new(2, 2, 0u8);
    *m.at_mut(0, 1) = 1;
    *m.at_mut(1, 0) = 2;
    *m.at_mut(1, 1) = 3;
    let cells: Vec<u8> = m.into_iter().collect();
    assert_eq!(cells, vec![0, 1, 2, 3]);
}

#[test]
fn fill_with_the_seed_value_changes_nothing() {
    let mut m = grid_from(&["aab", "abb", "bba"]);
    let before = m.clone();
    flood_fill_matrix(&mut m, 0, 0, 'a');
    assert_eq!(m, before);
    flood_fill_matrix(&mut m, 2, 0, 'b');
    assert_eq!(m, before);
}

#[test]
fn fill_twice_is_the_same_as_once() {
    let mut m = grid_from(&["aab", "abb", "bba"]);
    flood_fill_matrix(&mut m, 0, 0, 'c');
    let once = m.clone();
    flood_fill_matrix(&mut m, 0, 0, 'c');
    assert_eq!(m, once);
    assert_eq!(rows_of(&m), vec!["ccb", "cbb", "bba"]);
}

#[test]
fn fill_flows_round_a_short_diagonal() {
    let mut m = grid_from(&["aaaaa", "abaaa", "aabaa", "aaaba", "aaaaa"]);
    flood_fill_matrix(&mut m, 0, 0, 'c');
    assert_eq!(rows_of(&m), vec!["ccccc", "cbccc", "ccbcc", "cccbc", "ccccc"]);
}

#[test]
fn fill_does_not_cross_a_diagonal_from_corner_to_corner() {
    let mut m = grid_from(&["baaaa", "abaaa", "aabaa", "aaaba", "aaaab"]);
    flood_fill_matrix(&mut m, 0, 4, 'c');
    assert_eq!(rows_of(&m), vec!["bcccc", "abccc", "aabcc", "aaabc", "aaaab"]);
    flood_fill_matrix(&mut m, 4, 0, 'd');
    assert_eq!(rows_of(&m), vec!["bcccc", "dbccc", "ddbcc", "dddbc", "ddddb"]);
}

#[test]
fn fill_leaves_a_region_of_the_same_value_that_it_cannot_reach() {
    let mut m = grid_from(&["aabaa", "aabaa", "bbbaa"]);
    flood_fill_matrix(&mut m, 0, 0, 'x');
    assert_eq!(rows_of(&m), vec!["xxbaa", "xxbaa", "bbbaa"]);
}

#[test]
fn fill_from_each_corner_covers_a_uniform_grid() {
    for (i, j) in [(0, 0), (0, 6), (3, 0), (3, 6)] {
        let mut m = Matrix::new(4, 7, 0u8);
        flood_fill_matrix(&mut m, i, j, 1);
        assert_eq!(m, Matrix::new(4, 7, 1u8));
    }
}

#[test]
fn fill_on_the_smallest_grids() {
    let mut one = Matrix::new(1, 1, 0u8);
    flood_fill_matrix(&mut one, 0, 0, 5);
    assert_eq!(one.data(), &vec![5]);

    let mut row = grid_from(&["aabaa"]);
    flood_fill_matrix(&mut row, 0, 4, 'z');
    assert_eq!(rows_of(&row), vec!["aabzz"]);

    let mut column = grid_from(&["a", "a", "b", "a"]);
    flood_fill_matrix(&mut column, 1, 0, 'z');
    assert_eq!(rows_of(&column), vec!["z", "z", "b", "a"]);
}

#[test]
fn fill_goes_through_a_winding_corridor() {
    let mut m = grid_from(&["a#aaa#aaa", "a#a#a#a#a", "a#a#a#a#a", "aaa#aaa#a"]);
    flood_fill_matrix(&mut m, 0, 0, '.');
    assert_eq!(rows_of(&m), vec![".#...#...", ".#.#.#.#.", ".#.#.#.#.", "...#...#."]);
}

#[test]
fn fill_reaches_cells_left_of_the_seed_and_under_overhangs() {
    let mut m = grid_from(&["#####", "#aaa#", "#a#a#", "#a#a#", "aaaa#"]);
    flood_fill_matrix(&mut m, 3, 3, 'f');
    assert_eq!(rows_of(&m), vec!["#####", "#fff#", "#f#f#", "#f#f#", "ffff#"]);
}

#[test]
fn fill_of_a_large_uniform_grid_ends() {
    let mut m = Matrix::new(400, 300, false);
    flood_fill_matrix(&mut m, 200, 150, true);
    assert!(m.data().iter().all(|cell| *cell));
}
