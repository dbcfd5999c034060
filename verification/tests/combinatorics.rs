use flip_solver::math::{
    contains_line, count_assigned, count_assigned_packed, count_set_squares, count_special,
    count_special_locations_bomb_bitset, count_symbols, is_special_location,
    is_special_location_bomb_bitset, multinomial_coefficient, nk, nk_list, split_multiset,
    transpose_in_place, transpose_packed, vec_to_board,
};

const GRID: [[usize; 5]; 5] = [
    [3, 1, 0, 1, 0],
    [1, 1, 2, 0, 3],
    [1, 0, 1, 1, 0],
    [1, 1, 2, 1, 1],
    [1, 1, 1, 0, 1],
];

#[test]
fn binomials() {
    assert_eq!(nk(0, 0), 1);
    assert_eq!(nk(5, 0), 1);
    assert_eq!(nk(5, 2), 10);
    assert_eq!(nk(5, 3), 10);
    assert_eq!(nk(5, 5), 1);
    assert_eq!(nk(3, 5), 0);
    assert_eq!(nk(25, 6), 177100);
    assert_eq!(nk(25, 12), 5200300);
    assert_eq!(nk(7, 1), 7);
}

#[test]
fn multinomials() {
    assert_eq!(multinomial_coefficient(&[]), 1);
    assert_eq!(multinomial_coefficient(&[4]), 1);
    assert_eq!(multinomial_coefficient(&[2, 1, 1]), 12);
    assert_eq!(multinomial_coefficient(&[0, 3, 2, 0]), 10);
    assert_eq!(multinomial_coefficient(&[1, 1, 1, 1]), 24);
    assert_eq!(multinomial_coefficient(&[0, 0, 0]), 1);
}

#[test]
fn subsets_come_in_lexicographic_order() {
    let expected = vec![
        vec![false, false, true, true],
        vec![false, true, false, true],
        vec![false, true, true, false],
        vec![true, false, false, true],
        vec![true, false, true, false],
        vec![true, true, false, false],
    ];
    assert_eq!(nk_list(4, 2), expected);
}

#[test]
fn subsets_at_the_edges() {
    assert_eq!(nk_list(5, 0), vec![vec![false; 5]]);
    assert_eq!(nk_list(3, 3), vec![vec![true; 3]]);
    assert_eq!(nk_list(2, 3), Vec::<Vec<bool>>::new());
    assert_eq!(nk_list(0, 0), vec![Vec::<bool>::new()]);
}

#[test]
fn there_are_n_choose_k_subsets() {
    for n in 0..9usize {
        for k in 0..10usize {
            let list = nk_list(n, k);
            assert_eq!(list.len(), nk(n, k));
            for v in &list {
                assert_eq!(v.len(), n);
                assert_eq!(v.iter().filter(|b| **b).count(), k);
            }
        }
    }
}

#[test]
fn a_vector_becomes_a_grid_row_by_row() {
    let mut v = vec![false; 25];
    v[0] = true;
    v[7] = true;
    v[24] = true;
    let a = vec_to_board(&v);
    for i in 0..25 {
        assert_eq!(a[i / 5][i % 5], i == 0 || i == 7 || i == 24);
    }
    v.push(true);
    assert_eq!(vec_to_board(&v), a);
}

#[test]
fn special_locations_have_a_bomb_free_line() {
    assert!(is_special_location(&GRID, 3, 0));
    assert!(is_special_location(&GRID, 0, 0));
    assert!(is_special_location(&GRID, 3, 3));
    assert!(!is_special_location(&GRID, 0, 1));
    assert!(!is_special_location(&GRID, 1, 4));
    assert!(!is_special_location(&GRID, 2, 2));
}

#[test]
fn special_squares_are_counted_in_total_and_by_line() {
    assert_eq!(count_special(&GRID), (2, 1));
    assert_eq!(count_special(&[[1; 5]; 5]), (0, 0));
    assert_eq!(count_special(&[[2; 5]; 5]), (25, 5));
    assert_eq!(count_special(&[[0; 5]; 5]), (0, 0));
    let mut g = [[1usize; 5]; 5];
    g[0] = [2, 3, 2, 1, 1];
    g[1][0] = 3;
    assert_eq!(count_special(&g), (4, 3));
}

#[test]
fn symbols_are_counted() {
    assert_eq!(count_symbols(&GRID), [6, 15, 2, 2]);
    assert_eq!(count_symbols(&[[0; 5]; 5]), [25, 0, 0, 0]);
    assert_eq!(count_assigned(&GRID), 19);
    assert_eq!(count_assigned(&[[0; 5]; 5]), 0);
    assert_eq!(count_assigned(&[[127; 5]; 5]), 25);
}

#[test]
fn revealed_cells_of_a_packed_state_are_counted() {
    assert_eq!(count_assigned_packed(0), 0);
    assert_eq!(count_assigned_packed(919573188941137), 19);
    assert_eq!(count_assigned_packed(844459289870336), 2);
    assert_eq!(count_assigned_packed((1u64 << 50) - 1), 25);
}

#[test]
fn lines_of_true_entries() {
    let mut a = [[false; 5]; 5];
    assert!(contains_line(&a, 0));
    assert!(!contains_line(&a, 1));
    a[1][0] = true;
    a[1][3] = true;
    a[4][3] = true;
    assert!(contains_line(&a, 2));
    assert!(!contains_line(&a, 3));
    a[2][3] = true;
    assert!(contains_line(&a, 3));
    assert_eq!(count_set_squares(&a), 4);
    assert_eq!(count_set_squares(&[[true; 5]; 5]), 25);
}

#[test]
fn special_locations_of_a_bomb_placement() {
    let mut bombs = [[false; 5]; 5];
    assert_eq!(count_special_locations_bomb_bitset(&bombs), 25);
    bombs[0][0] = true;
    assert!(!is_special_location_bomb_bitset(&bombs, 0, 0));
    assert!(is_special_location_bomb_bitset(&bombs, 0, 1));
    assert!(is_special_location_bomb_bitset(&bombs, 3, 0));
    assert_eq!(count_special_locations_bomb_bitset(&bombs), 24);
    bombs[1][1] = true;
    assert!(!is_special_location_bomb_bitset(&bombs, 0, 1));
    assert_eq!(count_special_locations_bomb_bitset(&bombs), 21);
    for i in 0..5 {
        bombs[i][i] = true;
    }
    assert_eq!(count_special_locations_bomb_bitset(&bombs), 0);
}

#[test]
fn multisets_are_split_in_lexicographic_order() {
    let got = split_multiset(&[0, 5, 2, 2], 2, [false, false, true, true]);
    let expected = vec![
        [[0, 0, 0, 2], [0, 5, 2, 0]],
        [[0, 0, 1, 1], [0, 5, 1, 1]],
        [[0, 0, 2, 0], [0, 5, 0, 2]],
    ];
    assert_eq!(got, expected);
}

#[test]
fn multisets_split_over_all_symbols() {
    let got = split_multiset(&[1, 1, 1, 1], 2, [true; 4]);
    let expected = vec![
        [[0, 0, 1, 1], [1, 1, 0, 0]],
        [[0, 1, 0, 1], [1, 0, 1, 0]],
        [[0, 1, 1, 0], [1, 0, 0, 1]],
        [[1, 0, 0, 1], [0, 1, 1, 0]],
        [[1, 0, 1, 0], [0, 1, 0, 1]],
        [[1, 1, 0, 0], [0, 0, 1, 1]],
    ];
    assert_eq!(got, expected);
    assert_eq!(split_multiset(&[1, 1, 1, 1], 5, [true; 4]), Vec::<[[usize; 4]; 2]>::new());
    assert_eq!(split_multiset(&[3, 2, 1, 0], 0, [false; 4]), vec![[[0, 0, 0, 0], [3, 2, 1, 0]]]);
}

#[test]
fn transposing_a_grid_in_place() {
    let mut a = GRID;
    transpose_in_place(&mut a);
    for i in 0..5 {
        for j in 0..5 {
            assert_eq!(a[i][j], GRID[j][i]);
        }
    }
    transpose_in_place(&mut a);
    assert_eq!(a, GRID);
}

#[test]
fn transposing_a_packed_word() {
    assert_eq!(transpose_packed(919573188941137), 938232545300677);
    assert_eq!(transpose_packed(0), 0);
    assert_eq!(transpose_packed(3 << 40), 3 << 8);
}

#[test]
fn transposing_twice_gives_the_word_back() {
    for x in [0u64, 919573188941137, 844459289870336, (1u64 << 50) - 1, 12345678901234] {
        assert_eq!(transpose_packed(transpose_packed(x)), x);
    }
}

#[test]
fn transposing_drops_the_bits_above_the_grid() {
    let x = 919573188941137u64 | (1u64 << 50);
    assert_eq!(transpose_packed(transpose_packed(x)), 919573188941137);
}
