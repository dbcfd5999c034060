use flip_solver::control::SearchMode;
use flip_solver::csp_constraints::find_possible_boards;
use flip_solver::packed::{coins_of_state, is_possible_board_of_state, set_in_packed_state};
use flip_solver::search::RootVerdict;
use flip_solver::store::BoardStore;

const BOARD: u64 = 919573188941137;

const SR: [usize; 5] = [5, 7, 3, 6, 4];
const SC: [usize; 5] = [7, 4, 6, 3, 5];
const BR: [usize; 5] = [2, 1, 2, 0, 1];
const BC: [usize; 5] = [0, 1, 1, 2, 2];

fn puzzle_store(state: u64) -> BoardStore {
    let (boards, counts, _) = find_possible_boards(state, &SR, &SC, &BR, &BC, 1);
    BoardStore::new(boards, &counts, state).unwrap()
}

#[test]
fn the_boards_of_a_puzzle_make_a_root() {
    let store = puzzle_store(0);
    assert_eq!(store.groups(), 2);
    assert_eq!(store.len(), 132);
    assert_eq!(store.current_state(), 0);
    assert_eq!(store.current_depth(), 0);
    let pinned = puzzle_store(set_in_packed_state(0, 0, 0, 3));
    assert_eq!(pinned.groups(), 1);
    assert_eq!(pinned.len(), 34);
    assert_eq!(pinned.current_depth(), 0);
}

#[test]
fn counts_must_add_up_to_the_boards() {
    assert!(BoardStore::new(vec![BOARD, BOARD], &vec![1, 1], 0).is_some());
    assert!(BoardStore::new(vec![BOARD, BOARD], &vec![2], 0).is_some());
    assert!(BoardStore::new(vec![BOARD, BOARD], &vec![0, 2, 0], 0).is_some());
    assert!(BoardStore::new(vec![BOARD, BOARD], &vec![1], 0).is_none());
    assert!(BoardStore::new(vec![BOARD, BOARD], &vec![2, 1], 0).is_none());
    assert!(BoardStore::new(vec![BOARD], &vec![usize::MAX, 2], 0).is_none());
    assert!(BoardStore::new(vec![], &vec![], 0).is_some());
    assert!(BoardStore::new(vec![BOARD], &vec![], 0).is_none());
}

#[test]
fn the_boards_of_a_root_must_be_compatible_with_its_state() {
    let fits = set_in_packed_state(0, 0, 0, 3);
    let differs = set_in_packed_state(0, 0, 0, 1);
    assert!(BoardStore::new(vec![BOARD], &vec![1], fits).is_some());
    assert!(BoardStore::new(vec![BOARD], &vec![1], differs).is_none());
    assert!(BoardStore::new(vec![BOARD], &vec![1], 1u64 << 60).is_none());
}

#[test]
fn a_descent_keeps_the_compatible_boards() {
    let (boards, _, _) = find_possible_boards(0, &SR, &SC, &BR, &BC, 1);
    let (store, revealed) = puzzle_store(0).descend(0, 0, 1);
    assert!(revealed);
    let state = set_in_packed_state(0, 0, 0, 1);
    assert_eq!(store.current_state(), state);
    assert_eq!(store.current_depth(), 1);
    let expected = boards.iter().filter(|b| is_possible_board_of_state(**b, state)).count();
    assert_eq!(store.len(), expected);
    assert_eq!(store.len(), 58);
    let counts = store.symbol_counts();
    assert_eq!(counts[0][0][0], [0, 52, 0, 0]);
    assert_eq!(counts[1][0][0], [0, 6, 0, 0]);
}

#[test]
fn only_an_unrevealed_cell_takes_a_symbol() {
    let store = puzzle_store(0);
    for (row, col, symbol) in [(5usize, 0usize, 1usize), (0, 5, 1), (0, 0, 0), (0, 0, 4)] {
        let (same, revealed) = store.clone().descend(row, col, symbol);
        assert!(!revealed);
        assert_eq!(same.current_depth(), 0);
        assert_eq!(same.len(), 132);
    }
    let (down, revealed) = store.descend(0, 0, 3);
    assert!(revealed);
    let (same, again) = down.descend(0, 0, 3);
    assert!(!again);
    assert_eq!(same.current_depth(), 1);
    assert_eq!(same.len(), 34);
}

#[test]
fn an_ascent_leads_back() {
    let store = puzzle_store(0);
    let at_root = store.clone().ascend();
    assert_eq!(at_root.current_depth(), 0);
    assert_eq!(at_root.len(), 132);
    let (down, _) = store.descend(0, 0, 1);
    let (deeper, _) = down.descend(0, 2, 1);
    assert_eq!(deeper.current_depth(), 2);
    let up = deeper.ascend();
    assert_eq!(up.current_depth(), 1);
    assert_eq!(up.current_state(), set_in_packed_state(0, 0, 0, 1));
    assert_eq!(up.len(), 58);
    let (sibling, _) = up.ascend().descend(0, 0, 3);
    assert_eq!(sibling.len(), 34);
    assert_eq!(sibling.ascend().len(), 132);
}

#[test]
fn a_full_descent_reveals_the_whole_board() {
    let grid = flip_solver::packed::u64_to_array(BOARD);
    let mut store = BoardStore::new(vec![BOARD], &vec![1], 0).unwrap();
    let mut reveals = 0;
    for r in 0..5 {
        for c in 0..5 {
            let (next, revealed) = store.descend(r, c, grid[r][c]);
            assert_eq!(revealed, grid[r][c] != 0);
            if revealed {
                reveals += 1;
            }
            store = next;
            assert_eq!(store.current_depth(), reveals);
            assert_eq!(store.len(), 1);
        }
    }
    assert_eq!(reveals, 19);
    assert!(store.is_won());
    for _ in 0..19 {
        store = store.ascend();
    }
    assert_eq!(store.current_state(), 0);
    assert!(!store.is_won());
}

#[test]
fn a_wrong_reveal_leaves_no_board() {
    let (store, revealed) = puzzle_store(0).descend(3, 3, 2);
    assert!(revealed);
    assert_eq!(store.len(), 0);
    assert_eq!(store.most_coins(), None);
    assert!(store.is_won());
    assert_eq!(store.ascend().len(), 132);
}

#[test]
fn the_store_knows_when_the_game_is_won() {
    let mut store = BoardStore::new(vec![BOARD], &vec![1], 0).unwrap();
    assert!(!store.is_won());
    assert_eq!(store.root_verdict(SearchMode::WinChance, 1), RootVerdict::Search);
    assert_eq!(store.terminal_value(SearchMode::WinChance, 1), None);
    assert_eq!(store.terminal_value(SearchMode::SurviveNextMove, 1), Some(1));
    for (r, c, v) in [(0, 0, 3), (1, 2, 2), (1, 4, 3), (3, 2, 2)] {
        assert!(!store.is_won());
        store = store.descend(r, c, v).0;
    }
    assert!(store.is_won());
    assert_eq!(store.terminal_value(SearchMode::WinChance, 1), Some(1));
    assert_eq!(store.terminal_value(SearchMode::Coins, 1), Some(36));
    assert_eq!(store.terminal_value(SearchMode::WinEight, 1), Some(0));
    assert_eq!(store.terminal_value(SearchMode::SurviveEight, 1), None);
    assert_eq!(store.terminal_value(SearchMode::SurviveLevel, 4), Some(1));
    assert_eq!(store.terminal_value(SearchMode::SurviveLevel, 5), None);
    assert_eq!(store.root_verdict(SearchMode::Coins, 1), RootVerdict::TerminalState);
}

#[test]
fn the_most_coins_of_the_possible_boards() {
    let store = puzzle_store(0);
    assert_eq!(store.most_coins(), Some(48));
    let one = BoardStore::new(vec![BOARD], &vec![1], 0).unwrap();
    assert_eq!(one.most_coins(), Some(coins_of_state(BOARD)));
    let (down, _) = store.descend(0, 0, 3);
    assert_eq!(down.most_coins(), Some(36));
    assert_eq!(down.ascend().most_coins(), Some(48));
}

#[test]
fn a_clone_searches_on_its_own() {
    let store = puzzle_store(0);
    let (down, _) = store.clone().descend(0, 0, 3);
    assert_eq!(down.len(), 34);
    assert_eq!(store.len(), 132);
    assert_eq!(store.current_depth(), 0);
    let copy = down.clone();
    assert_eq!(copy.current_state(), down.current_state());
    assert_eq!(copy.symbol_counts(), down.symbol_counts());
}
