use flip_solver::csp_valid::{count_valid_dumb, count_valid_smart};

#[test]
fn one_symbol_only_fills_the_grid_in_one_way() {
    assert_eq!(count_valid_dumb(&[25, 0, 0, 0], 0, 0), 1);
    assert_eq!(count_valid_dumb(&[0, 25, 0, 0], 0, 0), 1);
    assert_eq!(count_valid_dumb(&[0, 0, 25, 0], 25, 5), 1);
}

#[test]
fn special_squares_are_limited() {
    assert_eq!(count_valid_dumb(&[0, 0, 25, 0], 24, 5), 0);
    assert_eq!(count_valid_dumb(&[0, 0, 0, 25], 25, 4), 0);
}

#[test]
fn too_few_symbols_fill_no_grid() {
    assert_eq!(count_valid_dumb(&[24, 0, 0, 0], 25, 5), 0);
    assert_eq!(count_valid_dumb(&[0, 0, 0, 0], 25, 5), 0);
}

#[test]
fn one_odd_cell_has_25_places() {
    assert_eq!(count_valid_dumb(&[24, 1, 0, 0], 0, 0), 25);
    assert_eq!(count_valid_dumb(&[1, 24, 0, 0], 0, 0), 25);
}

#[test]
fn a_two_among_bombs_is_no_special_square() {
    assert_eq!(count_valid_dumb(&[24, 0, 1, 0], 0, 0), 25);
    assert_eq!(count_valid_dumb(&[23, 0, 2, 0], 0, 0), 300);
}

#[test]
fn a_two_among_ones_is_a_special_square() {
    assert_eq!(count_valid_dumb(&[0, 24, 1, 0], 0, 0), 0);
    assert_eq!(count_valid_dumb(&[0, 24, 1, 0], 1, 1), 25);
    assert_eq!(count_valid_dumb(&[0, 24, 0, 1], 1, 0), 0);
}

#[test]
fn the_formula_counts_small_buckets() {
    assert_eq!(count_valid_smart(&[24, 0, 1, 0], 0, 0), 25);
    assert_eq!(count_valid_smart(&[0, 24, 1, 0], 1, 1), 25);
    assert_eq!(count_valid_smart(&[0, 24, 1, 0], 0, 0), 0);
    assert_eq!(count_valid_smart(&[25, 0, 0, 0], 0, 0), 1);
    assert_eq!(count_valid_smart(&[23, 0, 1, 1], 2, 2), 600);
    assert_eq!(count_valid_smart(&[22, 1, 1, 1], 1, 1), 13800);
    assert_eq!(count_valid_smart(&[22, 1, 1, 1], 0, 0), 13800);
    assert_eq!(count_valid_smart(&[21, 2, 1, 1], 2, 1), 151800);
    assert_eq!(count_valid_smart(&[20, 5, 0, 0], 0, 0), 53130);
}

#[test]
fn the_formula_agrees_with_trying_every_grid() {
    for (symbols, in_total, per_line) in [
        ([24usize, 0, 1, 0], 0usize, 0usize),
        ([23, 0, 1, 1], 2, 2),
        ([22, 1, 1, 1], 1, 1),
        ([21, 2, 1, 1], 2, 1),
        ([22, 3, 0, 0], 0, 0),
    ] {
        let by_formula = count_valid_smart(&symbols, in_total, per_line) as u64;
        assert_eq!(by_formula, count_valid_dumb(&symbols, in_total, per_line));
    }
}

#[test]
fn the_formula_takes_the_symbols_as_given() {
    // 24 symbols for 25 cells: no grid holds them, the formula still counts
    assert_eq!(count_valid_smart(&[20, 2, 1, 1], 3, 3), 637440);
    assert_eq!(count_valid_dumb(&[20, 2, 1, 1], 3, 3), 0);
}
