use flip_solver::packed::{
    array_to_u64, board_has_possible_2_3_for_state, coins_of_state, get_from_packed_state,
    is_possible_board_of_state, set_in_packed_state, u64_to_array,
};

const GRID: [[usize; 5]; 5] = [
    [3, 1, 0, 1, 0],
    [1, 1, 2, 0, 3],
    [1, 0, 1, 1, 0],
    [1, 1, 2, 1, 1],
    [1, 1, 1, 0, 1],
];

const PACKED: u64 = 919573188941137;

#[test]
fn packs_a_grid_row_by_row() {
    assert_eq!(array_to_u64(&GRID), PACKED);
    assert_eq!(array_to_u64(&[[0; 5]; 5]), 0);
    assert_eq!(array_to_u64(&[[3; 5]; 5]), (1u64 << 50) - 1);
}

#[test]
fn unpacks_what_was_packed() {
    assert_eq!(u64_to_array(PACKED), GRID);
    assert_eq!(u64_to_array(0), [[0; 5]; 5]);
}

#[test]
fn unpacking_ignores_the_bits_above_the_grid() {
    assert_eq!(u64_to_array(PACKED | (1u64 << 50) | (1u64 << 63)), GRID);
}

#[test]
fn cell_offsets_follow_the_layout() {
    assert_eq!(get_from_packed_state(3, 4, 4), 3);
    assert_eq!(get_from_packed_state(3 << 48, 0, 0), 3);
    assert_eq!(get_from_packed_state(2 << 10, 3, 4), 2);
    assert_eq!(get_from_packed_state(1 << 2, 4, 3), 1);
    for r in 0..5 {
        for c in 0..5 {
            assert_eq!(get_from_packed_state(PACKED, r, c), GRID[r][c]);
        }
    }
}

#[test]
fn set_replaces_one_cell_only() {
    let next = set_in_packed_state(PACKED, 1, 3, 2);
    for r in 0..5 {
        for c in 0..5 {
            let expected = if (r, c) == (1, 3) { 2 } else { GRID[r][c] };
            assert_eq!(get_from_packed_state(next, r, c), expected);
        }
    }
    assert_eq!(set_in_packed_state(next, 1, 3, 0), PACKED);
    assert_eq!(set_in_packed_state(0, 0, 0, 3), 844424930131968);
}

#[test]
fn set_keeps_the_bits_above_the_grid() {
    let high = 1u64 << 60;
    assert_eq!(set_in_packed_state(high, 4, 4, 1), high | 1);
}

#[test]
fn every_board_is_compatible_with_itself() {
    for board in [0u64, PACKED, (1u64 << 50) - 1, 844424930131968] {
        assert!(is_possible_board_of_state(board, board));
        assert!(!board_has_possible_2_3_for_state(board, board));
    }
}

#[test]
fn compatibility_checks_the_revealed_cells_only() {
    let state = set_in_packed_state(set_in_packed_state(0, 0, 0, 3), 1, 2, 2);
    assert!(is_possible_board_of_state(PACKED, state));
    assert!(is_possible_board_of_state(PACKED, 0));
    let wrong = set_in_packed_state(state, 4, 4, 2);
    assert!(!is_possible_board_of_state(PACKED, wrong));
    let other = set_in_packed_state(0, 0, 0, 1);
    assert!(!is_possible_board_of_state(PACKED, other));
}

#[test]
fn a_reveal_only_tightens_compatibility() {
    let state = set_in_packed_state(0, 0, 0, 3);
    for (r, c, v) in [(1usize, 2usize, 2usize), (1, 2, 3), (4, 4, 1), (0, 1, 1)] {
        let next = set_in_packed_state(state, r, c, v);
        if is_possible_board_of_state(PACKED, next) {
            assert!(is_possible_board_of_state(PACKED, state));
        }
    }
    assert!(is_possible_board_of_state(PACKED, set_in_packed_state(state, 1, 2, 2)));
}

#[test]
fn overwriting_a_revealed_cell_may_loosen_compatibility() {
    let state = set_in_packed_state(0, 0, 0, 1);
    let next = set_in_packed_state(state, 0, 0, 3);
    assert!(is_possible_board_of_state(PACKED, next));
    assert!(!is_possible_board_of_state(PACKED, state));
}

#[test]
fn hidden_twos_and_threes_are_seen() {
    assert!(board_has_possible_2_3_for_state(PACKED, 0));
    let mut state = 0;
    for (r, c) in [(0usize, 0usize), (1, 2), (1, 4), (3, 2)] {
        state = set_in_packed_state(state, r, c, GRID[r][c]);
    }
    assert!(!board_has_possible_2_3_for_state(PACKED, state));
    let ones = set_in_packed_state(state, 4, 4, 1);
    assert!(!board_has_possible_2_3_for_state(PACKED, ones));
    let missing = set_in_packed_state(state, 3, 2, 0);
    assert!(board_has_possible_2_3_for_state(PACKED, missing));
}

#[test]
fn coins_are_the_product_of_what_is_revealed() {
    assert_eq!(coins_of_state(0), 0);
    assert_eq!(coins_of_state(PACKED), 36);
    assert_eq!(coins_of_state(set_in_packed_state(0, 2, 2, 1)), 1);
    assert_eq!(coins_of_state((1u64 << 50) - 1), 847288609443);
}

#[test]
fn a_reveal_multiplies_the_coins() {
    let state = set_in_packed_state(set_in_packed_state(0, 0, 0, 3), 1, 2, 2);
    assert_eq!(coins_of_state(state), 6);
    for v in 1..4usize {
        let next = set_in_packed_state(state, 4, 1, v);
        assert_eq!(coins_of_state(next), 6 * v as u64);
    }
}
