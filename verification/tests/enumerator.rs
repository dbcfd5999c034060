use flip_solver::csp_constraints::{find_possible_boards, fsf};
use flip_solver::level_constraints::{
    get_buckets_of_state, get_constraint, get_counts_array, state_fits_cons,
};
use flip_solver::packed::{
    get_from_packed_state, is_possible_board_of_state, set_in_packed_state, u64_to_array,
};

const GRID: [[usize; 5]; 5] = [
    [3, 1, 0, 1, 0],
    [1, 1, 2, 0, 3],
    [1, 0, 1, 1, 0],
    [1, 1, 2, 1, 1],
    [1, 1, 1, 0, 1],
];

const SR: [usize; 5] = [5, 7, 3, 6, 4];
const SC: [usize; 5] = [7, 4, 6, 3, 5];
const BR: [usize; 5] = [2, 1, 2, 0, 1];
const BC: [usize; 5] = [0, 1, 1, 2, 2];

fn meets_margins(board: u64, sr: &[usize; 5], sc: &[usize; 5], br: &[usize; 5], bc: &[usize; 5]) -> bool {
    let g = u64_to_array(board);
    (0..5).all(|i| {
        let row_sum: usize = (0..5).map(|j| g[i][j]).sum();
        let col_sum: usize = (0..5).map(|j| g[j][i]).sum();
        let row_bombs = (0..5).filter(|j| g[i][*j] == 0).count();
        let col_bombs = (0..5).filter(|j| g[*j][i] == 0).count();
        row_sum == sr[i] && col_sum == sc[i] && row_bombs == br[i] && col_bombs == bc[i]
    })
}

#[test]
fn catalogue_entries() {
    assert_eq!(get_constraint(1, 0), ([6, 15, 3, 1], 2, 2));
    assert_eq!(get_constraint(1, 9), ([6, 14, 4, 1], 3, 2));
    assert_eq!(get_constraint(3, 4), ([8, 10, 6, 1], 2, 3));
    assert_eq!(get_constraint(7, 3), ([13, 2, 9, 1], 5, 4));
    assert_eq!(get_constraint(8, 9), ([10, 5, 7, 3], 4, 4));
}

#[test]
fn every_bucket_fills_the_grid() {
    for level in 1..9 {
        for index in 0..10 {
            let (symbols, in_total, per_line) = get_constraint(level, index);
            assert_eq!(symbols.iter().sum::<usize>(), 25);
            assert!(per_line <= 5 && in_total <= 25);
        }
    }
}

#[test]
fn catalogue_counts() {
    let counts = get_counts_array();
    assert_eq!(counts[0], [0; 10]);
    assert_eq!(counts[1][0], 1732660000);
    assert_eq!(counts[1][4], 7039383000);
    assert_eq!(counts[4][0], 171421352000);
    assert_eq!(counts[8][9], 1051011410400);
    for level in 1..9 {
        for index in 0..10 {
            assert!(counts[level][index] > 0);
        }
    }
}

#[test]
fn a_grid_fits_the_buckets_of_its_symbols() {
    assert!(state_fits_cons(&GRID, &([6, 15, 2, 2], 2, 2)));
    assert!(state_fits_cons(&GRID, &([6, 15, 2, 2], 2, 1)));
    assert!(!state_fits_cons(&GRID, &([6, 15, 2, 2], 1, 1)));
    assert!(!state_fits_cons(&GRID, &([6, 15, 2, 2], 2, 0)));
    assert!(!state_fits_cons(&GRID, &([6, 15, 3, 1], 2, 2)));
    assert!(!state_fits_cons(&GRID, &([6, 14, 2, 2], 5, 5)));
}

#[test]
fn the_bucket_set_names_every_bucket_that_fits() {
    assert_eq!(get_buckets_of_state(&GRID, 1), (1 << 3) + (1 << 8));
    assert_eq!(get_buckets_of_state(&GRID, 2), 0);
    assert_eq!(get_buckets_of_state(&[[1; 5]; 5], 1), 0);
    let mut g = [[1usize; 5]; 5];
    for i in 0..5 {
        g[i][0] = 0;
    }
    g[0][1] = 0;
    g[0][2] = 0;
    g[1][1] = 3;
    g[2][1] = 3;
    g[3][1] = 3;
    g[4][1] = 2;
    // no special square: both buckets of these symbols
    assert_eq!(get_buckets_of_state(&g, 2), 1 + 32);
    g[4][1] = 1;
    g[4][3] = 2;
    assert_eq!(get_buckets_of_state(&g, 2), 1 + 32);
    // two special squares on different lines: the bucket with the wider limit only
    g[3][1] = 1;
    g[3][4] = 3;
    assert_eq!(get_buckets_of_state(&g, 2), 1);
    // two special squares on one column: none
    g[3][4] = 1;
    g[3][3] = 3;
    assert_eq!(get_buckets_of_state(&g, 2), 0);
}

#[test]
fn a_full_grid_is_feasible_exactly_if_it_meets_the_margins() {
    assert!(fsf(&GRID, &SR, &SC, &BR, &BC));
    assert!(!fsf(&GRID, &[5, 7, 3, 6, 5], &SC, &BR, &BC));
    assert!(!fsf(&GRID, &SR, &SC, &[2, 1, 2, 1, 1], &BC));
    assert!(!fsf(&GRID, &SR, &[7, 4, 6, 3, 4], &BR, &BC));
    assert!(!fsf(&GRID, &SR, &SC, &BR, &[0, 1, 1, 2, 3]));
}

#[test]
fn a_partial_grid_is_pruned_by_its_lines() {
    let free = [[127usize; 5]; 5];
    assert!(fsf(&free, &SR, &SC, &BR, &BC));
    // a sum that one of the free cells would exceed even with ones
    assert!(!fsf(&free, &[4, 7, 3, 6, 4], &SC, &[0, 1, 2, 0, 1], &BC));
    // a sum that is out of reach even with threes
    assert!(!fsf(&free, &[15, 7, 3, 6, 4], &SC, &[1, 1, 2, 0, 1], &BC));
    assert!(fsf(&free, &[15, 7, 3, 6, 4], &SC, &[0, 1, 2, 0, 1], &BC));
    let mut g = free;
    g[0][0] = 3;
    g[0][1] = 3;
    assert!(!fsf(&g, &SR, &SC, &BR, &BC));
    g[0][1] = 1;
    assert!(fsf(&g, &SR, &SC, &BR, &BC));
    g[0][2] = 0;
    g[0][3] = 0;
    g[0][4] = 0;
    assert!(!fsf(&g, &SR, &SC, &BR, &BC));
}

#[test]
fn the_enumerator_finds_the_boards_of_a_puzzle() {
    let (boards, counts, sets) = find_possible_boards(0, &SR, &SC, &BR, &BC, 1);
    assert_eq!(counts, vec![86, 46]);
    assert_eq!(sets, vec![264, 528]);
    assert_eq!(boards.len(), 132);
    assert_eq!(boards[0], 289842999678292);
    assert_eq!(boards[1], 289846220903761);
    assert_eq!(boards[85], 932783484918037);
    assert_eq!(boards[86], 319758520390996);
    assert_eq!(boards[87], 319771392709972);
    assert_eq!(boards[131], 669142286177557);
    assert!(boards.contains(&919573188941137));
}

#[test]
fn every_enumerated_board_is_admissible() {
    let (boards, counts, sets) = find_possible_boards(0, &SR, &SC, &BR, &BC, 1);
    assert_eq!(counts.iter().sum::<usize>(), boards.len());
    let mut at = 0;
    for g in 0..counts.len() {
        assert!(sets[g] != 0);
        for _ in 0..counts[g] {
            let board = boards[at];
            assert!(board < (1u64 << 50));
            assert!(meets_margins(board, &SR, &SC, &BR, &BC));
            assert_eq!(get_buckets_of_state(&u64_to_array(board), 1), sets[g]);
            at += 1;
        }
    }
    let mut sorted = boards.clone();
    sorted.sort();
    sorted.dedup();
    assert_eq!(sorted.len(), boards.len());
}

#[test]
fn revealed_cells_are_pinned() {
    let state = set_in_packed_state(0, 0, 0, 3);
    let (boards, counts, sets) = find_possible_boards(state, &SR, &SC, &BR, &BC, 1);
    assert_eq!(counts, vec![34]);
    assert_eq!(sets, vec![264]);
    for b in &boards {
        assert_eq!(get_from_packed_state(*b, 0, 0), 3);
        assert!(is_possible_board_of_state(*b, state));
    }
    let (all, _, _) = find_possible_boards(0, &SR, &SC, &BR, &BC, 1);
    let expected: Vec<u64> =
        all.iter().copied().filter(|b| get_from_packed_state(*b, 0, 0) == 3).collect();
    assert_eq!(boards, expected);
}

#[test]
fn margins_that_no_bucket_of_the_level_reaches_give_no_board() {
    let sr = [5, 6, 5, 6, 5];
    let sc = [5, 7, 3, 6, 6];
    let br = [1, 0, 2, 1, 2];
    let bc = [2, 1, 2, 0, 1];
    let (boards, counts, sets) = find_possible_boards(0, &sr, &sc, &br, &bc, 1);
    assert!(boards.is_empty());
    assert!(counts.is_empty());
    assert!(sets.is_empty());
}

#[test]
fn another_level_gives_no_board() {
    let (boards, counts, sets) = find_possible_boards(0, &SR, &SC, &BR, &BC, 2);
    assert!(boards.is_empty() && counts.is_empty() && sets.is_empty());
}

#[test]
fn a_wrong_reveal_gives_no_board() {
    let state = set_in_packed_state(0, 3, 3, 2);
    let (boards, _, _) = find_possible_boards(state, &SR, &SC, &BR, &BC, 1);
    assert!(boards.is_empty());
}
