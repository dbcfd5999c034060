use dashmap::DashMap;
use flip_solver::control::{is_threshold_mode, SearchMode};
use flip_solver::csp_constraints::find_possible_boards;
use flip_solver::math::transpose_packed;
use flip_solver::packed::{coins_of_state, get_from_packed_state, set_in_packed_state};
use flip_solver::possible_boards::{accumulate_symbol_counts, filter_possible_boards_of_next_depth};
use flip_solver::search::{
    candidate_squares, ends_exploration, first_hit, is_good_assignment, is_won_state, jobs_per_square,
    max_coins, root_jobs, root_verdict, same_col_group, same_row_group, same_row_or_col_group,
    swap_candidate, swap_keys, symbol_is_possible, terminal_value, try_swap_one_row_or_col,
    RootVerdict,
};

const GRID: [[usize; 5]; 5] = [
    [3, 1, 0, 1, 0],
    [1, 1, 2, 0, 3],
    [1, 0, 1, 1, 0],
    [1, 1, 2, 1, 1],
    [1, 1, 1, 0, 1],
];

const BOARD: u64 = 919573188941137;

const SR: [usize; 5] = [5, 7, 3, 6, 4];
const SC: [usize; 5] = [7, 4, 6, 3, 5];
const BR: [usize; 5] = [2, 1, 2, 0, 1];
const BC: [usize; 5] = [0, 1, 1, 2, 2];

const MODES: [SearchMode; 6] = [
    SearchMode::WinChance,
    SearchMode::WinEight,
    SearchMode::SurviveNextMove,
    SearchMode::SurviveLevel,
    SearchMode::SurviveEight,
    SearchMode::Coins,
];

fn root_store() -> (Vec<u64>, Vec<usize>, usize) {
    let (boards, counts, sets) = find_possible_boards(0, &SR, &SC, &BR, &BC, 1);
    let groups = sets.len();
    let mut indices = vec![0; groups * 26 + 1];
    let mut index = 0;
    for j in 0..counts.len() {
        index += counts[j];
        indices[j + 1] = index;
    }
    (boards, indices, groups)
}

fn uncover(cells: &[(usize, usize)]) -> u64 {
    let mut state = 0;
    for (r, c) in cells {
        state = set_in_packed_state(state, *r, *c, GRID[*r][*c]);
    }
    state
}

#[test]
fn a_state_is_won_when_no_board_hides_a_two_or_three() {
    let boards = vec![BOARD];
    let indices = vec![0, 1];
    assert!(!is_won_state(0, &boards, &indices, 0, 1));
    let all = uncover(&[(0, 0), (1, 2), (1, 4), (3, 2)]);
    assert!(is_won_state(all, &boards, &indices, 0, 1));
    let but_one = uncover(&[(0, 0), (1, 2), (1, 4)]);
    assert!(!is_won_state(but_one, &boards, &indices, 0, 1));
    assert!(is_won_state(0, &boards, &indices, 1, 1));
    assert!(is_won_state(0, &boards, &indices, 1, 0));
}

#[test]
fn a_won_state_needs_every_board() {
    let other = set_in_packed_state(BOARD, 4, 4, 2);
    let boards = vec![BOARD, other];
    let indices = vec![0, 1, 2];
    let all = uncover(&[(0, 0), (1, 2), (1, 4), (3, 2)]);
    assert!(is_won_state(all, &boards, &indices, 0, 1));
    assert!(!is_won_state(all, &boards, &indices, 0, 2));
    assert!(!is_won_state(all, &boards, &indices, 1, 2));
}

#[test]
fn the_most_coins_of_the_boards() {
    let (boards, _, _) = root_store();
    assert_eq!(max_coins(&boards, 0), 48);
    assert_eq!(max_coins(&vec![BOARD], 0), 36);
    assert_eq!(max_coins(&vec![3, 9, 1], 0), 3);
    assert_eq!(max_coins(&vec![3, 9, 1], 2), 1);
    assert_eq!(max_coins(&vec![0], 0), 0);
}

#[test]
fn rows_of_one_group() {
    let sr = [5, 5, 5, 6, 5];
    let br = [1, 1, 2, 1, 1];
    assert!(same_row_group(0, &sr, &br, 0, 1));
    assert!(same_row_group(0, &sr, &br, 1, 0));
    assert!(same_row_group(0, &sr, &br, 0, 4));
    assert!(!same_row_group(0, &sr, &br, 0, 2));
    assert!(!same_row_group(0, &sr, &br, 0, 3));
    let state = set_in_packed_state(0, 0, 2, 1);
    assert!(!same_row_group(state, &sr, &br, 0, 1));
    let both = set_in_packed_state(state, 1, 2, 1);
    assert!(same_row_group(both, &sr, &br, 0, 1));
    let uneven = set_in_packed_state(state, 1, 2, 2);
    assert!(!same_row_group(uneven, &sr, &br, 0, 1));
    assert!(!same_row_group(uneven, &sr, &br, 3, 1));
    assert!(same_row_group(uneven, &sr, &br, 2, 2));
    // a larger sum with a larger reveal leaves the same
    let level = set_in_packed_state(set_in_packed_state(0, 1, 2, 1), 3, 2, 2);
    assert!(same_row_group(level, &sr, &br, 3, 1));
    assert!(!same_row_group(level, &sr, &br, 4, 1));
}

#[test]
fn columns_of_one_group() {
    let sc = [5, 5, 5, 6, 5];
    let bc = [1, 1, 2, 1, 1];
    assert!(same_col_group(0, &sc, &bc, 0, 1));
    assert!(!same_col_group(0, &sc, &bc, 0, 2));
    assert!(!same_col_group(0, &sc, &bc, 0, 3));
    let state = set_in_packed_state(0, 2, 0, 1);
    assert!(!same_col_group(state, &sc, &bc, 0, 1));
    let both = set_in_packed_state(state, 2, 1, 1);
    assert!(same_col_group(both, &sc, &bc, 0, 1));
    let uneven = set_in_packed_state(state, 2, 1, 2);
    assert!(!same_col_group(uneven, &sc, &bc, 0, 1));
    assert!(!same_col_group(uneven, &sc, &bc, 3, 1));
    let level = set_in_packed_state(set_in_packed_state(0, 2, 1, 1), 2, 3, 2);
    assert!(same_col_group(level, &sc, &bc, 3, 1));
    assert!(!same_col_group(level, &sc, &bc, 4, 1));
}

#[test]
fn the_last_cell_of_a_kind_is_the_one_to_explore() {
    let s = [5, 5, 5, 5, 5];
    let b = [1, 1, 1, 1, 1];
    for r in 0..5 {
        for c in 0..5 {
            assert_eq!(is_good_assignment(0, &s, &s, &b, &b, r, c), r == 4 && c == 4);
        }
    }
    for r in 0..5 {
        for c in 0..5 {
            assert!(is_good_assignment(0, &[1, 2, 3, 4, 5], &[5, 4, 3, 2, 1], &b, &b, r, c));
        }
    }
    assert!(is_good_assignment(0, &SR, &SC, &BR, &BC, 0, 0));
}

#[test]
fn equivalent_cells_share_a_line() {
    let s = [5, 5, 5, 5, 5];
    let b = [1, 1, 1, 1, 1];
    assert!(same_row_or_col_group(0, &s, &s, &b, &b, 0, 2, 3, 2));
    assert!(same_row_or_col_group(0, &s, &s, &b, &b, 1, 0, 1, 4));
    assert!(!same_row_or_col_group(0, &s, &s, &b, &b, 0, 0, 1, 1));
    assert!(!same_row_or_col_group(0, &s, &s, &b, &b, 2, 2, 2, 2));
    assert!(!same_row_or_col_group(0, &[5, 6, 5, 5, 5], &s, &b, &b, 0, 2, 1, 2));
}

#[test]
fn a_node_ends_by_the_rule_of_its_mode() {
    let boards = vec![BOARD];
    let indices = vec![0, 1];
    let won = uncover(&[(0, 0), (1, 2), (1, 4), (3, 2)]);
    assert_eq!(terminal_value(SearchMode::WinChance, won, 1, &boards, &indices, 0, 1), Some(1));
    assert_eq!(terminal_value(SearchMode::Coins, won, 1, &boards, &indices, 0, 1), Some(36));
    assert_eq!(coins_of_state(won), 36);
    assert_eq!(terminal_value(SearchMode::WinEight, won, 1, &boards, &indices, 0, 1), Some(0));
    assert_eq!(terminal_value(SearchMode::SurviveEight, won, 1, &boards, &indices, 0, 1), None);
    assert_eq!(terminal_value(SearchMode::SurviveLevel, won, 4, &boards, &indices, 0, 1), Some(1));
    assert_eq!(terminal_value(SearchMode::SurviveLevel, won, 5, &boards, &indices, 0, 1), None);
    let open = uncover(&[(0, 0), (1, 2), (1, 4)]);
    assert_eq!(terminal_value(SearchMode::WinChance, open, 1, &boards, &indices, 0, 1), None);
    assert_eq!(terminal_value(SearchMode::Coins, open, 1, &boards, &indices, 0, 1), None);
    assert_eq!(terminal_value(SearchMode::WinEight, open, 1, &boards, &indices, 0, 1), None);
    assert_eq!(terminal_value(SearchMode::SurviveLevel, open, 3, &boards, &indices, 0, 1), Some(1));
}

#[test]
fn a_win_with_eight_reveals_counts() {
    let boards = vec![BOARD];
    let indices = vec![0, 1];
    let cells = [(0, 0), (1, 2), (1, 4), (3, 2), (0, 1), (0, 3), (1, 0), (1, 1)];
    let eight = uncover(&cells);
    assert_eq!(terminal_value(SearchMode::WinEight, eight, 1, &boards, &indices, 0, 1), Some(1));
    assert_eq!(terminal_value(SearchMode::SurviveEight, eight, 1, &boards, &indices, 0, 1), Some(1));
    let seven = uncover(&cells[0..7]);
    assert_eq!(terminal_value(SearchMode::WinEight, seven, 1, &boards, &indices, 0, 1), Some(0));
    assert_eq!(terminal_value(SearchMode::SurviveEight, seven, 1, &boards, &indices, 0, 1), None);
    let unwon = uncover(&cells[1..8]);
    assert_eq!(terminal_value(SearchMode::WinEight, unwon, 1, &boards, &indices, 0, 1), None);
}

#[test]
fn surviving_the_next_move_ends_at_once() {
    let (boards, indices, groups) = root_store();
    for state in [0, set_in_packed_state(0, 0, 0, 1)] {
        let v = terminal_value(SearchMode::SurviveNextMove, state, 1, &boards, &indices, 0, groups);
        assert_eq!(v, Some(1));
    }
}

#[test]
fn the_verdict_on_a_root() {
    let boards = vec![BOARD];
    let indices = vec![0, 1];
    let won = uncover(&[(0, 0), (1, 2), (1, 4), (3, 2)]);
    for mode in MODES {
        assert_eq!(root_verdict(mode, won, 1, &boards, &indices, 0, 1), RootVerdict::TerminalState);
    }
    let open = uncover(&[(0, 0), (1, 2), (1, 4)]);
    assert_eq!(root_verdict(SearchMode::WinChance, open, 1, &boards, &indices, 0, 1), RootVerdict::Search);
    assert_eq!(root_verdict(SearchMode::Coins, open, 1, &boards, &indices, 0, 1), RootVerdict::Search);
    assert_eq!(root_verdict(SearchMode::WinEight, open, 1, &boards, &indices, 0, 1), RootVerdict::Search);
    assert_eq!(root_verdict(SearchMode::SurviveNextMove, open, 1, &boards, &indices, 0, 1), RootVerdict::Search);
    assert_eq!(root_verdict(SearchMode::SurviveLevel, open, 3, &boards, &indices, 0, 1), RootVerdict::Value(1));
    assert_eq!(root_verdict(SearchMode::SurviveLevel, open, 4, &boards, &indices, 0, 1), RootVerdict::Search);
    assert_eq!(root_verdict(SearchMode::SurviveEight, open, 1, &boards, &indices, 0, 1), RootVerdict::Search);
    let cells = [(1, 2), (1, 4), (3, 2), (0, 1), (0, 3), (1, 0), (1, 1), (2, 0)];
    let eight = uncover(&cells);
    assert_eq!(root_verdict(SearchMode::SurviveEight, eight, 1, &boards, &indices, 0, 1), RootVerdict::Value(1));
    assert_eq!(root_verdict(SearchMode::WinEight, eight, 1, &boards, &indices, 0, 1), RootVerdict::Search);
}

#[test]
fn the_modes_that_count_reveals() {
    let counting: Vec<bool> = MODES.iter().map(|m| is_threshold_mode(*m)).collect();
    assert_eq!(counting, vec![false, true, false, true, true, false]);
}

#[test]
fn possible_symbols_of_a_cell() {
    let (boards, indices, groups) = root_store();
    let counts = accumulate_symbol_counts(&boards, &indices, 0, groups);
    assert!(!symbol_is_possible(&counts, 0, 0, 0));
    assert!(symbol_is_possible(&counts, 0, 0, 1));
    assert!(symbol_is_possible(&counts, 0, 0, 2));
    assert!(symbol_is_possible(&counts, 0, 0, 3));
    assert!(symbol_is_possible(&counts, 3, 3, 1));
    assert!(!symbol_is_possible(&counts, 3, 3, 0));
    assert!(!symbol_is_possible(&counts, 3, 3, 2));
    assert!(!symbol_is_possible(&counts, 3, 3, 3));
    assert!(!symbol_is_possible(&vec![], 0, 0, 1));
}

#[test]
fn the_cells_that_a_node_explores() {
    let (boards, indices, groups) = root_store();
    let counts = accumulate_symbol_counts(&boards, &indices, 0, groups);
    let expected = vec![(0, 0), (0, 2), (0, 4), (1, 0), (1, 2), (1, 4), (3, 0), (3, 2), (3, 4)];
    assert_eq!(candidate_squares(0, &counts, SearchMode::WinChance, &SR, &SC, &BR, &BC), expected);
    assert_eq!(candidate_squares(0, &counts, SearchMode::Coins, &SR, &SC, &BR, &BC), expected);
    let all: Vec<(usize, usize)> = (0..25).map(|i| (i / 5, i % 5)).collect();
    assert_eq!(candidate_squares(0, &counts, SearchMode::SurviveEight, &SR, &SC, &BR, &BC), all);
    let revealed = set_in_packed_state(0, 0, 2, 1);
    let fewer = candidate_squares(revealed, &counts, SearchMode::WinChance, &SR, &SC, &BR, &BC);
    assert!(!fewer.contains(&(0, 2)));
    assert_eq!(fewer.len(), 8);
}

#[test]
fn equivalent_cells_are_explored_once() {
    let s = [5, 5, 5, 5, 5];
    let b = [1, 1, 1, 1, 1];
    let squares = candidate_squares(0, &vec![], SearchMode::WinEight, &s, &s, &b, &b);
    assert_eq!(squares, vec![(4, 4)]);
    assert!(candidate_squares(0, &vec![], SearchMode::WinChance, &s, &s, &b, &b).is_empty());
}

#[test]
fn the_first_moves_of_the_root() {
    let (boards, indices, groups) = root_store();
    let counts = accumulate_symbol_counts(&boards, &indices, 0, groups);
    let jobs = root_jobs(0, &counts, SearchMode::WinChance);
    assert_eq!(jobs.len(), 24);
    assert_eq!(jobs[0], (0, 0, 1, set_in_packed_state(0, 0, 0, 1)));
    assert_eq!(jobs[1], (0, 0, 2, set_in_packed_state(0, 0, 0, 2)));
    assert_eq!(jobs[2], (0, 0, 3, set_in_packed_state(0, 0, 0, 3)));
    assert_eq!(jobs[3], (0, 2, 1, set_in_packed_state(0, 0, 2, 1)));
    for (r, c, s, next) in &jobs {
        assert_eq!(get_from_packed_state(*next, *r, *c), *s);
        assert_eq!(set_in_packed_state(*next, *r, *c, 0), 0);
        assert!(symbol_is_possible(&counts, *r, *c, *s));
    }
    let per_square = jobs_per_square(&jobs);
    assert_eq!(per_square[0][0], 3);
    assert_eq!(per_square[0][1], 0);
    assert_eq!(per_square[0][2], 3);
    assert_eq!(per_square.iter().flatten().sum::<usize>(), 24);
    let counting = root_jobs(0, &counts, SearchMode::SurviveLevel);
    assert!(counting.len() > jobs.len());
    assert!(counting.contains(&(3, 3, 1, set_in_packed_state(0, 3, 3, 1))));
    assert!(!counting.contains(&(3, 3, 2, set_in_packed_state(0, 3, 3, 2))));
}

#[test]
fn a_revealed_cell_gets_no_first_move() {
    let (mut boards, mut indices, groups) = root_store();
    let state = set_in_packed_state(0, 0, 0, 3);
    filter_possible_boards_of_next_depth(state, &mut boards, &mut indices, 0, groups);
    let counts = accumulate_symbol_counts(&boards, &indices, groups, groups);
    let jobs = root_jobs(state, &counts, SearchMode::SurviveEight);
    assert!(jobs.iter().all(|j| (j.0, j.1) != (0, 0)));
    assert!(jobs.iter().all(|j| get_from_packed_state(j.3, 0, 0) == 3));
}

#[test]
fn a_safe_cell_ends_the_exploration() {
    let (boards, indices, groups) = root_store();
    let counts = accumulate_symbol_counts(&boards, &indices, 0, groups);
    assert!(ends_exploration(SearchMode::WinChance, &counts, 0, 0));
    assert!(ends_exploration(SearchMode::Coins, &counts, 0, 0));
    assert!(ends_exploration(SearchMode::SurviveNextMove, &counts, 0, 0));
    assert!(!ends_exploration(SearchMode::WinEight, &counts, 0, 0));
    assert!(!ends_exploration(SearchMode::SurviveLevel, &counts, 0, 0));
    assert!(!ends_exploration(SearchMode::SurviveEight, &counts, 0, 0));
    assert!(!ends_exploration(SearchMode::WinChance, &counts, 0, 2));
}

#[test]
fn a_swap_needs_matching_rows() {
    let s = [5, 5, 5, 5, 5];
    let state = set_in_packed_state(0, 0, 0, 1);
    assert_eq!(swap_candidate(state, &s, 0, 1, 30), Some(set_in_packed_state(0, 1, 0, 1)));
    assert_eq!(swap_candidate(state, &s, 0, 4, 30), Some(set_in_packed_state(0, 4, 0, 1)));
    // the column of the reveal cannot be kept, an empty column cannot be swapped
    assert_eq!(swap_candidate(state, &s, 0, 1, 31), None);
    assert_eq!(swap_candidate(state, &s, 0, 1, 28), None);
    // two untouched rows stand for themselves
    assert_eq!(swap_candidate(state, &s, 1, 2, 31), Some(state));
    assert_eq!(swap_candidate(state, &s, 1, 2, 30), None);
    // the sums that are left must agree
    assert_eq!(swap_candidate(state, &[5, 6, 5, 5, 5], 0, 1, 30), None);
    let two = set_in_packed_state(state, 1, 0, 2);
    assert_eq!(swap_candidate(two, &s, 0, 1, 31), None);
    assert_eq!(swap_candidate(two, &[5, 6, 5, 5, 5], 0, 1, 31), Some(two));
    let swapped = set_in_packed_state(set_in_packed_state(0, 0, 0, 2), 1, 0, 1);
    assert_eq!(swap_candidate(two, &s, 0, 1, 30), Some(swapped));
}

#[test]
fn the_states_that_stand_for_a_state() {
    let s = [5, 5, 5, 5, 5];
    let b = [1, 1, 1, 1, 1];
    let state = set_in_packed_state(0, 0, 0, 1);
    let own = 281474976710656u64;
    assert_eq!(state, own);
    let expected = vec![
        274877906944, 268435456, 262144, 256, own, own, own, own, own, own,
        70368744177664, 17592186044416, 4398046511104, 1099511627776, own, own, own, own, own, own,
    ];
    assert_eq!(swap_keys(state, &s, &s, &b, &b), expected);
    assert_eq!(swap_keys(set_in_packed_state(0, 0, 0, 3), &SR, &SC, &BR, &BC), Vec::<u64>::new());
    let two = set_in_packed_state(state, 1, 0, 2);
    let keys = swap_keys(two, &s, &s, &b, &b);
    assert_eq!(keys.len(), 20);
    assert_eq!(
        &keys[0..6],
        &[563224831328256, 550024249344, 549756076032, 549755814144, 281475513581568, 281474977234944]
    );
}

#[test]
fn column_swaps_are_row_swaps_of_the_transpose() {
    let s = [5, 5, 5, 5, 5];
    let b = [1, 1, 1, 1, 1];
    let differ = [1, 2, 3, 4, 5];
    let state = set_in_packed_state(set_in_packed_state(0, 0, 1, 2), 3, 1, 1);
    let rows_only = swap_keys(state, &s, &s, &b, &differ);
    let cols_only = swap_keys(transpose_packed(state), &s, &s, &differ, &b);
    let turned: Vec<u64> = cols_only.iter().map(|k| transpose_packed(*k)).collect();
    assert_eq!(rows_only, turned);
    assert!(!rows_only.is_empty());
}

#[test]
fn the_probe_answers_with_the_value_of_an_equal_state() {
    let s = [5, 5, 5, 5, 5];
    let b = [1, 1, 1, 1, 1];
    let state = set_in_packed_state(0, 0, 0, 1);
    let cache: DashMap<u64, u64> = DashMap::new();
    assert_eq!(try_swap_one_row_or_col(state, &s, &s, &b, &b, &cache), None);
    cache.insert(12345, 1);
    assert_eq!(try_swap_one_row_or_col(state, &s, &s, &b, &b, &cache), None);
    cache.insert(set_in_packed_state(0, 0, 3, 1), 0.75f64.to_bits());
    let found = try_swap_one_row_or_col(state, &s, &s, &b, &b, &cache);
    assert_eq!(found.map(f64::from_bits), Some(0.75));
    cache.insert(set_in_packed_state(0, 2, 0, 1), 0.5f64.to_bits());
    let first = try_swap_one_row_or_col(state, &s, &s, &b, &b, &cache);
    assert_eq!(first.map(f64::from_bits), Some(0.5));
}

#[test]
fn the_probe_finds_nothing_without_a_state_that_stands_for_it() {
    let cache: DashMap<u64, u64> = DashMap::new();
    let state = set_in_packed_state(0, 0, 0, 3);
    cache.insert(state, 7);
    cache.insert(0, 8);
    assert_eq!(try_swap_one_row_or_col(state, &SR, &SC, &BR, &BC, &cache), None);
}

#[test]
fn the_first_answer_of_the_lookups_counts() {
    assert_eq!(first_hit(&vec![]), None);
    assert_eq!(first_hit(&vec![None, None, None]), None);
    assert_eq!(first_hit(&vec![Some(7)]), Some(7));
    assert_eq!(first_hit(&vec![None, Some(7)]), Some(7));
    assert_eq!(first_hit(&vec![None, Some(7), Some(9), None]), Some(7));
    assert_eq!(first_hit(&vec![Some(0), Some(9)]), Some(0));
}
