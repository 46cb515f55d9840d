use algorithms::peaks::two_d::{find_peak, find_peak_greedy, find_peak_naive, shape};

fn assert_is_peak(input: &[&[u64]], found: Option<(usize, usize)>) {
    let n = input.len();
    let m = input[0].len();
    match found {
        None => panic!("failed to find peak in input {:?}", input),
        Some((i, j)) => {
            let x = input[i][j];
            if i != 0 {
                assert!(x >= input[i - 1][j])
            }
            if j != 0 {
                assert!(x >= input[i][j - 1])
            }
            if i != n - 1 {
                assert!(x >= input[i + 1][j])
            }
            if j != m - 1 {
                assert!(x >= input[i][j + 1])
            }
        }
    }
}

const GRID_A: &[&[u64]] = &[&[1, 2, 3, 4], &[5, 18, 20, 8], &[9, 10, 19, 12], &[13, 14, 15, 16]];
const GRID_B: &[&[u64]] = &[&[1, 2, 3, 4], &[5, 18, 7, 8], &[9, 10, 19, 12], &[13, 14, 15, 16]];
const GRID_C: &[&[u64]] = &[&[1, 2, 3, 4], &[5, 6, 7, 8], &[9, 10, 17, 12], &[13, 14, 15, 16]];
const GRID_D: &[&[u64]] = &[&[1, 2, 3, 4], &[5, 6, 7, 8], &[9, 10, 11, 12], &[13, 14, 15, 16]];

#[test]
fn test_find_peak_2d() {
    assert_eq!(find_peak(&Vec::<&[i64]>::new()), None);
    assert_eq!(find_peak(&[&Vec::<i64>::new()]), None);
    assert_is_peak(GRID_A, find_peak(GRID_A));
    assert_is_peak(GRID_B, find_peak(GRID_B));
    assert_is_peak(GRID_C, find_peak(GRID_C));
    assert_is_peak(GRID_D, find_peak(GRID_D));
}

#[test]
fn test_find_peak_greedy() {
    assert_eq!(find_peak_greedy(&Vec::<&[i64]>::new()), None);
    assert_eq!(find_peak_greedy(&[&Vec::<i64>::new()]), None);
    assert_is_peak(GRID_A, find_peak_greedy(GRID_A));
    assert_is_peak(GRID_B, find_peak_greedy(GRID_B));
    assert_is_peak(GRID_C, find_peak_greedy(GRID_C));
    assert_is_peak(GRID_D, find_peak_greedy(GRID_D));
}

#[test]
fn test_find_peak_naive_2d() {
    assert_eq!(find_peak_naive(&Vec::<&[i64]>::new()), None);
    assert_eq!(find_peak_naive(&[&Vec::<i64>::new()]), None);
    assert_is_peak(GRID_A, find_peak_naive(GRID_A));
    assert_is_peak(GRID_B, find_peak_naive(GRID_B));
    assert_is_peak(GRID_C, find_peak_naive(GRID_C));
    assert_is_peak(GRID_D, find_peak_naive(GRID_D));
}

#[test]
fn every_finder_reaches_the_twenty() {
    assert_eq!(find_peak(GRID_A), Some((1, 2)));
    assert_eq!(find_peak_greedy(GRID_A), Some((1, 2)));
    assert_eq!(find_peak_naive(GRID_A), Some((1, 2)));
}

#[test]
fn bisection_over_rows_exact_cells() {
    // middle row 1 has its greatest value 18 at column 1; the 10 below is smaller
    assert_eq!(find_peak(GRID_B), Some((1, 1)));
    // middle row 1: greatest 8 at column 3, below is 12: rows 2..3; row 2:
    // greatest 17 at column 2, below is 15
    assert_eq!(find_peak(GRID_C), Some((2, 2)));
    // rising everywhere: ends in the last row at its greatest value
    assert_eq!(find_peak(GRID_D), Some((3, 3)));
}

#[test]
fn greedy_ascent_exact_cells() {
    // from (2, 2) = 19 the neighbours are 7, 10, 15, 12: none is greater
    assert_eq!(find_peak_greedy(GRID_B), Some((2, 2)));
    // from (2, 2) = 17: no neighbour is greater
    assert_eq!(find_peak_greedy(GRID_C), Some((2, 2)));
    // from (2, 2) = 11: down to 15, then right to 16
    assert_eq!(find_peak_greedy(GRID_D), Some((3, 3)));
}

#[test]
fn naive_scan_returns_the_first_peak_in_row_major_order() {
    assert_eq!(find_peak_naive(GRID_B), Some((1, 1)));
    assert_eq!(find_peak_naive(GRID_C), Some((2, 2)));
    assert_eq!(find_peak_naive(GRID_D), Some((3, 3)));
    let two_peaks: &[&[u64]] = &[&[0, 9, 0], &[0, 0, 0], &[9, 0, 0]];
    assert_eq!(find_peak_naive(two_peaks), Some((0, 1)));
}

#[test]
fn rows_of_unequal_length_give_none() {
    let jagged: &[&[u64]] = &[&[1, 2], &[3]];
    assert_eq!(find_peak(jagged), None);
    assert_eq!(find_peak_greedy(jagged), None);
    assert_eq!(find_peak_naive(jagged), None);
    let longer_later: &[&[u64]] = &[&[1], &[2], &[3, 4]];
    assert_eq!(find_peak(longer_later), None);
    assert_eq!(find_peak_greedy(longer_later), None);
    assert_eq!(find_peak_naive(longer_later), None);
    let empty_first: &[&[u64]] = &[&[], &[1]];
    assert_eq!(find_peak(empty_first), None);
    assert_eq!(find_peak_greedy(empty_first), None);
    assert_eq!(find_peak_naive(empty_first), None);
}

#[test]
fn rows_without_columns_give_none() {
    let hollow: &[&[u64]] = &[&[], &[], &[]];
    assert_eq!(find_peak(hollow), None);
    assert_eq!(find_peak_greedy(hollow), None);
    assert_eq!(find_peak_naive(hollow), None);
}

#[test]
fn single_row_behaves_like_a_sequence() {
    let grid: &[&[u64]] = &[&[5, 1, 3]];
    assert_is_peak(grid, find_peak(grid));
    assert_is_peak(grid, find_peak_greedy(grid));
    assert_is_peak(grid, find_peak_naive(grid));
    // the row's greatest value
    assert_eq!(find_peak(grid), Some((0, 0)));
    // from the centre 1: left is 5, right is 3
    assert_eq!(find_peak_greedy(grid), Some((0, 0)));
    assert_eq!(find_peak_naive(grid), Some((0, 0)));
}

#[test]
fn single_column() {
    let grid: &[&[u64]] = &[&[1], &[4], &[2], &[3]];
    assert_eq!(find_peak(grid), Some((1, 0)));
    // from the centre 2: up is 4, down is 3
    assert_eq!(find_peak_greedy(grid), Some((1, 0)));
    assert_eq!(find_peak_naive(grid), Some((1, 0)));
    let grid: &[&[u64]] = &[&[4], &[1], &[2], &[3]];
    assert_eq!(find_peak(grid), Some((0, 0)));
    // from the centre 2: up is 1, down is 3
    assert_eq!(find_peak_greedy(grid), Some((3, 0)));
    assert_eq!(find_peak_naive(grid), Some((0, 0)));
}

#[test]
fn single_cell_is_its_own_peak() {
    let grid: &[&[u64]] = &[&[42]];
    assert_eq!(find_peak(grid), Some((0, 0)));
    assert_eq!(find_peak_greedy(grid), Some((0, 0)));
    assert_eq!(find_peak_naive(grid), Some((0, 0)));
}

#[test]
fn row_maximum_ties_go_to_the_first_column() {
    let grid: &[&[u64]] = &[&[3, 7, 7, 1]];
    assert_eq!(find_peak(grid), Some((0, 1)));
    let flat: &[&[u64]] = &[&[2, 2], &[2, 2], &[2, 2]];
    assert_eq!(find_peak(flat), Some((1, 0)));
}

#[test]
fn greedy_neighbour_ties_go_up_then_left_then_down_then_right() {
    let cross: &[&[u64]] = &[&[0, 2, 0], &[2, 1, 2], &[0, 2, 0]];
    assert_eq!(find_peak_greedy(cross), Some((0, 1)));
    let no_up: &[&[u64]] = &[&[0, 0, 0], &[2, 1, 2], &[0, 2, 0]];
    assert_eq!(find_peak_greedy(no_up), Some((1, 0)));
    let down_and_right: &[&[u64]] = &[&[0, 0, 0], &[0, 1, 2], &[0, 2, 0]];
    assert_eq!(find_peak_greedy(down_and_right), Some((2, 1)));
    let flat: &[&[u64]] = &[&[5, 5, 5], &[5, 5, 5], &[5, 5, 5]];
    assert_eq!(find_peak_greedy(flat), Some((1, 1)));
}

#[test]
fn greedy_ascent_may_take_many_steps() {
    // a spiral of rising values from the centre outwards
    let grid: &[&[u64]] = &[&[9, 10, 11, 12, 13], &[8, 0, 0, 0, 14], &[7, 0, 1, 0, 15], &[6, 0, 2, 0, 16], &[5, 4, 3, 0, 17]];
    assert_eq!(find_peak_greedy(grid), Some((4, 4)));
}

#[test]
fn every_finder_returns_a_peak_on_every_small_grid() {
    // every 2x3 and 3x2 grid over {0, 1, 2}
    let mut cells = [0u64; 6];
    loop {
        let wide: &[&[u64]] = &[&cells[0..3], &cells[3..6]];
        assert_is_peak(wide, find_peak(wide));
        assert_is_peak(wide, find_peak_greedy(wide));
        assert_is_peak(wide, find_peak_naive(wide));
        let tall: &[&[u64]] = &[&cells[0..2], &cells[2..4], &cells[4..6]];
        assert_is_peak(tall, find_peak(tall));
        assert_is_peak(tall, find_peak_greedy(tall));
        assert_is_peak(tall, find_peak_naive(tall));
        let mut k = 0;
        while k < 6 && cells[k] == 2 {
            cells[k] = 0;
            k += 1;
        }
        if k == 6 {
            break;
        }
        cells[k] += 1;
    }
}

#[test]
fn repeated_calls_on_a_grid_agree() {
    let first = find_peak(GRID_C);
    assert_eq!(find_peak(GRID_C), first);
    let greedy = find_peak_greedy(GRID_C);
    assert_eq!(find_peak_greedy(GRID_C), greedy);
    let naive = find_peak_naive(GRID_C);
    assert_eq!(find_peak_naive(GRID_C), naive);
}

#[test]
fn shape_of_grids() {
    assert_eq!(shape(&Vec::<&[i64]>::new()), Some((0, 0)));
    assert_eq!(shape(GRID_A), Some((4, 4)));
    let hollow: &[&[u64]] = &[&[], &[]];
    assert_eq!(shape(hollow), Some((2, 0)));
    let wide: &[&[u64]] = &[&[1, 2, 3]];
    assert_eq!(shape(wide), Some((1, 3)));
    let jagged: &[&[u64]] = &[&[1, 2], &[3]];
    assert_eq!(shape(jagged), None);
}
