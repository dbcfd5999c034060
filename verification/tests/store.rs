use flip_solver::csp_constraints::find_possible_boards;
use flip_solver::packed::{is_possible_board_of_state, set_in_packed_state};
use flip_solver::possible_boards::{accumulate_symbol_counts, filter_possible_boards_of_next_depth};

const SR: [usize; 5] = [5, 7, 3, 6, 4];
const SC: [usize; 5] = [7, 4, 6, 3, 5];
const BR: [usize; 5] = [2, 1, 2, 0, 1];
const BC: [usize; 5] = [0, 1, 1, 2, 2];

fn sliced_root() -> (Vec<u64>, Vec<usize>, usize) {
    let (boards, counts, sets) = find_possible_boards(0, &SR, &SC, &BR, &BC, 1);
    let groups = sets.len();
    let mut indices = vec![0; groups * 26 + 1];
    let mut index = 0;
    for j in 0..counts.len() {
        index += counts[j];
        indices[j + 1] = index;
    }
    (boards, indices, groups)
}

#[test]
fn the_filter_keeps_the_compatible_boards_of_each_group() {
    let (mut boards, mut indices, groups) = sliced_root();
    let root = boards.clone();
    let state = set_in_packed_state(0, 0, 0, 1);
    filter_possible_boards_of_next_depth(state, &mut boards, &mut indices, 0, groups);
    assert_eq!(&indices[0..5], &[0, 86, 132, 184, 190]);
    assert_eq!(boards.len(), 190);
    assert_eq!(&boards[0..132], &root[..]);
    let first: Vec<u64> =
        root[0..86].iter().copied().filter(|b| is_possible_board_of_state(*b, state)).collect();
    let second: Vec<u64> =
        root[86..132].iter().copied().filter(|b| is_possible_board_of_state(*b, state)).collect();
    assert_eq!(&boards[132..184], &first[..]);
    assert_eq!(&boards[184..190], &second[..]);
}

#[test]
fn a_group_may_run_empty() {
    let (mut boards, mut indices, groups) = sliced_root();
    let state = set_in_packed_state(0, 0, 0, 3);
    filter_possible_boards_of_next_depth(state, &mut boards, &mut indices, 0, groups);
    assert_eq!(&indices[0..5], &[0, 86, 132, 166, 166]);
    assert_eq!(boards.len(), 166);
}

#[test]
fn a_sibling_overwrites_the_deeper_slices() {
    let (mut boards, mut indices, groups) = sliced_root();
    let first = set_in_packed_state(0, 0, 0, 1);
    filter_possible_boards_of_next_depth(first, &mut boards, &mut indices, 0, groups);
    let deeper = set_in_packed_state(first, 0, 2, 1);
    filter_possible_boards_of_next_depth(deeper, &mut boards, &mut indices, groups, groups);
    assert!(boards.len() > 190);
    for b in &boards[190..] {
        assert!(is_possible_board_of_state(*b, deeper));
    }
    let second = set_in_packed_state(0, 0, 0, 3);
    filter_possible_boards_of_next_depth(second, &mut boards, &mut indices, 0, groups);
    assert_eq!(boards.len(), 166);
    assert_eq!(&indices[0..5], &[0, 86, 132, 166, 166]);
}

#[test]
fn the_indices_of_a_descent_never_decrease() {
    let (mut boards, mut indices, groups) = sliced_root();
    let mut state = 0;
    for (depth, (r, c, v)) in [(0usize, 0usize, 3usize), (1, 2, 2), (1, 4, 3)].iter().enumerate() {
        state = set_in_packed_state(state, *r, *c, *v);
        filter_possible_boards_of_next_depth(state, &mut boards, &mut indices, depth * groups, groups);
        let used = &indices[0..(depth + 2) * groups + 1];
        for w in used.windows(2) {
            assert!(w[0] <= w[1]);
        }
        for b in &boards[indices[(depth + 1) * groups]..] {
            assert!(is_possible_board_of_state(*b, state));
        }
    }
}

#[test]
fn symbols_are_counted_by_group_and_cell() {
    let (boards, indices, groups) = sliced_root();
    let acc = accumulate_symbol_counts(&boards, &indices, 0, groups);
    assert_eq!(acc.len(), 2);
    assert_eq!(acc[0][0][0], [0, 52, 0, 34]);
    assert_eq!(acc[0][0][2], [28, 28, 0, 30]);
    assert_eq!(acc[0][3][3], [0, 86, 0, 0]);
    assert_eq!(acc[0][1][4], [14, 8, 32, 32]);
    assert_eq!(acc[1][0][0], [0, 6, 40, 0]);
    assert_eq!(acc[1][0][2], [10, 5, 31, 0]);
    assert_eq!(acc[1][3][3], [0, 46, 0, 0]);
    assert_eq!(acc[1][1][4], [10, 5, 6, 25]);
}

#[test]
fn on_every_cell_the_counts_add_up_to_the_boards() {
    let (mut boards, mut indices, groups) = sliced_root();
    let state = set_in_packed_state(0, 0, 0, 1);
    filter_possible_boards_of_next_depth(state, &mut boards, &mut indices, 0, groups);
    for start in [0, groups] {
        let acc = accumulate_symbol_counts(&boards, &indices, start, groups);
        let mut total = 0;
        for g in 0..groups {
            let size = indices[start + g + 1] - indices[start + g];
            for r in 0..5 {
                for c in 0..5 {
                    assert_eq!(acc[g][r][c].iter().sum::<usize>(), size);
                    total += acc[g][r][c].iter().sum::<usize>();
                }
            }
        }
        assert_eq!(total, 25 * (indices[start + groups] - indices[start]));
    }
}

#[test]
fn weighted_shares_of_a_cell_add_up_to_one() {
    let (boards, indices, groups) = sliced_root();
    let acc = accumulate_symbol_counts(&boards, &indices, 0, groups);
    let weights = [1.0 / 2598990000.0 + 1.0 / 2598990000.0, 1.0 / 7039383000.0 + 1.0 / 7039383000.0];
    let total: f64 = (0..groups).map(|g| weights[g] * (indices[g + 1] - indices[g]) as f64).sum();
    let mut all = 0.0;
    for r in 0..5 {
        for c in 0..5 {
            let mut cell = 0.0;
            for s in 0..4 {
                let share: f64 = (0..groups).map(|g| weights[g] * acc[g][r][c][s] as f64).sum();
                cell += share / total;
            }
            assert!((cell - 1.0).abs() < 1e-12);
            all += cell;
        }
    }
    assert!((all - 25.0).abs() < 1e-9);
}

#[test]
fn no_groups_no_counts() {
    let acc = accumulate_symbol_counts(&vec![], &vec![0], 0, 0);
    assert!(acc.is_empty());
}
