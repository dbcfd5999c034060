//! The rules of the search: when a state is won, which cells are worth a
//! reveal, which cells are equivalent, and what a finished node is worth.

use vstd::prelude::*;
use dashmap::DashMap;
use crate::control::{counts_reveals, is_threshold_mode, SearchMode};
use crate::csp_constraints::valid_margins;
use crate::math::{count_assigned_packed, transpose_packed, transposed};
use crate::packed::{
    assigned_count, board_has_possible_2_3_for_state, cell, coins, coins_of_state,
    get_from_packed_state, hides_two_or_three, lemma_field_bound, set_in_packed_state, with_cell,
};

verus! {

/// No board from `lo` up to `hi` hides a 2 or 3 from `state`.
pub open spec fn all_found(boards: Seq<u64>, lo: int, hi: int, state: u64) -> bool {
    forall|i: int| lo <= i < hi ==> !hides_two_or_three(#[trigger] boards[i], state)
}

/// Whether every 2 and 3 of every board of the slices from `index_start` up
/// to `index_end` is revealed.
pub fn is_won_state(
    packed_state: u64,
    possible_boards: &Vec<u64>,
    indices: &Vec<usize>,
    index_start: usize,
    index_end: usize,
) -> (won: bool)
    requires
        index_start < indices.len(),
        index_end < indices.len(),
        indices[index_start as int] < indices[index_end as int] ==> indices[index_end as int]
            <= possible_boards.len(),
    ensures
        won == all_found(
            possible_boards@,
            indices[index_start as int] as int,
            indices[index_end as int] as int,
            packed_state,
        ),
{
    let lo = indices[index_start];
    let hi = indices[index_end];
    if lo >= hi {
        return true;
    }
    for i in lo..hi
        invariant
            lo < hi <= possible_boards.len(),
            lo == indices[index_start as int],
            hi == indices[index_end as int],
            all_found(possible_boards@, lo as int, i as int, packed_state),
    {
        if board_has_possible_2_3_for_state(possible_boards[i], packed_state) {
            assert(hides_two_or_three(possible_boards@[i as int], packed_state));
            return false;
        }
    }
    true
}

/// The most coins that a board from `lo` up to `hi` is worth; 0 if there is
/// none.
pub open spec fn most_coins(boards: Seq<u64>, lo: int, hi: int) -> int
    decreases hi - lo,
{
    if hi <= lo {
        0
    } else if coins(boards[hi - 1]) > most_coins(boards, lo, hi - 1) {
        coins(boards[hi - 1])
    } else {
        most_coins(boards, lo, hi - 1)
    }
}

/// The most coins that one of the boards from `from` on is worth.
pub fn max_coins(possible_boards: &Vec<u64>, from: usize) -> (most: u64)
    requires
        from < possible_boards.len(),
    ensures
        most == most_coins(possible_boards@, from as int, possible_boards.len() as int),
{
    let mut most: u64 = 0;
    for i in from..possible_boards.len()
        invariant
            most == most_coins(possible_boards@, from as int, i as int),
    {
        let worth = coins_of_state(possible_boards[i]);
        if worth > most {
            most = worth;
        }
    }
    most
}

/// The sum of the revealed symbols among the first `n` cells of row `row`.
pub open spec fn row_points(state: u64, row: int, n: int) -> int
    decreases n,
{
    if n <= 0 {
        0
    } else {
        row_points(state, row, n - 1) + cell(state, row, n - 1)
    }
}

/// The sum of the revealed symbols among the first `n` cells of column `col`.
pub open spec fn col_points(state: u64, col: int, n: int) -> int
    decreases n,
{
    if n <= 0 {
        0
    } else {
        col_points(state, col, n - 1) + cell(state, n - 1, col)
    }
}

/// Two rows are of one group: they hold the same number of bombs, are
/// revealed in the same columns, and the same sum is left to reveal.
pub open spec fn rows_alike(state: u64, sr: [usize; 5], br: [usize; 5], r1: int, r2: int) -> bool {
    &&& br[r1] == br[r2]
    &&& forall|c: int| 0 <= c < 5 ==> (#[trigger] cell(state, r1, c) != 0) == (cell(state, r2, c) != 0)
    &&& sr[r1] - row_points(state, r1, 5) == sr[r2] - row_points(state, r2, 5)
}

/// Two columns are of one group: they hold the same number of bombs, are
/// revealed in the same rows, and the same sum is left to reveal.
pub open spec fn cols_alike(state: u64, sc: [usize; 5], bc: [usize; 5], c1: int, c2: int) -> bool {
    &&& bc[c1] == bc[c2]
    &&& forall|r: int| 0 <= r < 5 ==> (#[trigger] cell(state, r, c1) != 0) == (cell(state, r, c2) != 0)
    &&& sc[c1] - col_points(state, c1, 5) == sc[c2] - col_points(state, c2, 5)
}

proof fn lemma_points_bound(state: u64, line: int, n: int)
    requires
        0 <= line < 5,
        0 <= n <= 5,
    ensures
        0 <= row_points(state, line, n) <= 3 * n,
        0 <= col_points(state, line, n) <= 3 * n,
    decreases n,
{
    if n > 0 {
        lemma_points_bound(state, line, n - 1);
        lemma_field_bound(state, 24 - (5 * line + (n - 1)));
        lemma_field_bound(state, 24 - (5 * (n - 1) + line));
    }
}

/// Whether two rows are of one group.
pub fn same_row_group(
    packed_state: u64,
    sr: &[usize; 5],
    br: &[usize; 5],
    r1: usize,
    r2: usize,
) -> (alike: bool)
    requires
        r1 < 5,
        r2 < 5,
        forall|i: int| 0 <= i < 5 ==> (#[trigger] sr[i]) <= 15,
    ensures
        alike == rows_alike(packed_state, *sr, *br, r1 as int, r2 as int),
{
    if br[r1] == br[r2] {
        let mut used1: usize = 0;
        let mut used2: usize = 0;
        for c in 0..5usize
            invariant
                r1 < 5,
                r2 < 5,
                used1 == row_points(packed_state, r1 as int, c as int),
                used2 == row_points(packed_state, r2 as int, c as int),
                forall|k: int|
                    0 <= k < c ==> (#[trigger] cell(packed_state, r1 as int, k) != 0) == (cell(
                        packed_state,
                        r2 as int,
                        k,
                    ) != 0),
        {
            proof {
                lemma_points_bound(packed_state, r1 as int, c as int);
                lemma_points_bound(packed_state, r2 as int, c as int);
            }
            let v1 = get_from_packed_state(packed_state, r1, c);
            let v2 = get_from_packed_state(packed_state, r2, c);
            if (v2 != 0) != (v1 != 0) {
                return false;
            }
            used1 += v1;
            used2 += v2;
        }
        proof {
            lemma_points_bound(packed_state, r1 as int, 5);
            lemma_points_bound(packed_state, r2 as int, 5);
        }
        assert(sr[r1 as int] <= 15 && sr[r2 as int] <= 15);
        if sr[r1] + used2 == sr[r2] + used1 {
            return true;
        }
    }
    false
}

/// Whether two columns are of one group.
pub fn same_col_group(
    packed_state: u64,
    sc: &[usize; 5],
    bc: &[usize; 5],
    c1: usize,
    c2: usize,
) -> (alike: bool)
    requires
        c1 < 5,
        c2 < 5,
        forall|i: int| 0 <= i < 5 ==> (#[trigger] sc[i]) <= 15,
    ensures
        alike == cols_alike(packed_state, *sc, *bc, c1 as int, c2 as int),
{
    if bc[c1] == bc[c2] {
        let mut used1: usize = 0;
        let mut used2: usize = 0;
        for r in 0..5usize
            invariant
                c1 < 5,
                c2 < 5,
                used1 == col_points(packed_state, c1 as int, r as int),
                used2 == col_points(packed_state, c2 as int, r as int),
                forall|k: int|
                    0 <= k < r ==> (#[trigger] cell(packed_state, k, c1 as int) != 0) == (cell(
                        packed_state,
                        k,
                        c2 as int,
                    ) != 0),
        {
            proof {
                lemma_points_bound(packed_state, c1 as int, r as int);
                lemma_points_bound(packed_state, c2 as int, r as int);
            }
            let v1 = get_from_packed_state(packed_state, r, c1);
            let v2 = get_from_packed_state(packed_state, r, c2);
            if (v1 != 0) != (v2 != 0) {
                return false;
            }
            used1 += v1;
            used2 += v2;
        }
        proof {
            lemma_points_bound(packed_state, c1 as int, 5);
            lemma_points_bound(packed_state, c2 as int, 5);
        }
        assert(sc[c1 as int] <= 15 && sc[c2 as int] <= 15);
        if sc[c1] + used2 == sc[c2] + used1 {
            return true;
        }
    }
    false
}

/// A cell is the one to explore of its kind: no later row is of the group
/// of its row, and no later column of the group of its column.
pub open spec fn canonical(
    state: u64,
    sr: [usize; 5],
    sc: [usize; 5],
    br: [usize; 5],
    bc: [usize; 5],
    row: int,
    col: int,
) -> bool {
    &&& forall|r: int| row < r < 5 ==> !#[trigger] rows_alike(state, sr, br, r, row)
    &&& forall|c: int| col < c < 5 ==> !#[trigger] cols_alike(state, sc, bc, c, col)
}

/// Whether a cell is the one to explore of its kind.
pub fn is_good_assignment(
    packed_state: u64,
    sr: &[usize; 5],
    sc: &[usize; 5],
    br: &[usize; 5],
    bc: &[usize; 5],
    row: usize,
    col: usize,
) -> (good: bool)
    requires
        row < 5,
        col < 5,
        valid_margins(*sr, *sc, *br, *bc),
    ensures
        good == canonical(packed_state, *sr, *sc, *br, *bc, row as int, col as int),
{
    for r in row + 1..5usize
        invariant
            row < 5,
            valid_margins(*sr, *sc, *br, *bc),
            forall|k: int| row < k < r ==> !#[trigger] rows_alike(packed_state, *sr, *br, k, row as int),
    {
        if same_row_group(packed_state, sr, br, r, row) {
            return false;
        }
    }
    for c in col + 1..5usize
        invariant
            col < 5,
            valid_margins(*sr, *sc, *br, *bc),
            forall|k: int| row < k < 5 ==> !#[trigger] rows_alike(packed_state, *sr, *br, k, row as int),
            forall|k: int| col < k < c ==> !#[trigger] cols_alike(packed_state, *sc, *bc, k, col as int),
    {
        if same_col_group(packed_state, sc, bc, c, col) {
            return false;
        }
    }
    true
}

/// Whether two cells are equivalent: they lie in one column and their rows
/// are of one group, or in one row and their columns are of one group.
pub fn same_row_or_col_group(
    packed_state: u64,
    sr: &[usize; 5],
    sc: &[usize; 5],
    br: &[usize; 5],
    bc: &[usize; 5],
    r1: usize,
    c1: usize,
    r2: usize,
    c2: usize,
) -> (alike: bool)
    requires
        r1 < 5,
        c1 < 5,
        r2 < 5,
        c2 < 5,
        valid_margins(*sr, *sc, *br, *bc),
    ensures
        alike == ((r1 != r2 && c1 == c2 && rows_alike(packed_state, *sr, *br, r1 as int, r2 as int))
            || (c1 != c2 && r1 == r2 && cols_alike(
            packed_state,
            *sc,
            *bc,
            c1 as int,
            c2 as int,
        ))),
{
    if r1 != r2 && c1 == c2 {
        if same_row_group(packed_state, sr, br, r1, r2) {
            return true;
        }
    }
    if c1 != c2 && r1 == r2 {
        if same_col_group(packed_state, sc, bc, c1, c2) {
            return true;
        }
    }
    false
}

/// What a node is worth without further reveals, if the mode says that the
/// game ends there: 1 for a win, 0 for a win that came too early, the coins
/// of the state in `Coins` mode. `None` if the search goes on.
pub open spec fn settled(mode: SearchMode, state: u64, level: int, won: bool) -> Option<int> {
    match mode {
        SearchMode::WinChance => if won {
            Some(1int)
        } else {
            None
        },
        SearchMode::SurviveLevel => if assigned_count(state) >= level {
            Some(1int)
        } else {
            None
        },
        SearchMode::WinEight => if won {
            if assigned_count(state) >= 8 {
                Some(1int)
            } else {
                Some(0int)
            }
        } else {
            None
        },
        SearchMode::SurviveEight => if assigned_count(state) >= 8 {
            Some(1int)
        } else {
            None
        },
        SearchMode::SurviveNextMove => Some(1int),
        SearchMode::Coins => if won {
            Some(coins(state))
        } else {
            None
        },
    }
}

/// Where the game ends, every mode but `Coins` is worth 0 or 1: the value
/// of an end is a chance. A state in which every 2 and 3 is found is worth 1
/// in `WinChance` mode and its coins in `Coins` mode.
pub proof fn lemma_settled_values(mode: SearchMode, state: u64, level: int, won: bool)
    ensures
        mode != SearchMode::Coins && settled(mode, state, level, won).is_some() ==> 0 <= settled(
            mode,
            state,
            level,
            won,
        ).unwrap() <= 1,
        won ==> settled(SearchMode::WinChance, state, level, won) == Some(1int),
        won ==> settled(SearchMode::Coins, state, level, won) == Some(coins(state)),
        settled(SearchMode::SurviveNextMove, state, level, won) == Some(1int),
{
}

/// The value of a node below the root if the game ends there, by the rule
/// of the mode; `None` if the search has to go on.
pub fn terminal_value(
    mode: SearchMode,
    packed_state: u64,
    level: usize,
    possible_boards: &Vec<u64>,
    indices: &Vec<usize>,
    index_start: usize,
    index_end: usize,
) -> (value: Option<u64>)
    requires
        index_start < indices.len(),
        index_end < indices.len(),
        indices[index_start as int] < indices[index_end as int] ==> indices[index_end as int]
            <= possible_boards.len(),
    ensures
        value.is_some() == settled(
            mode,
            packed_state,
            level as int,
            all_found(
                possible_boards@,
                indices[index_start as int] as int,
                indices[index_end as int] as int,
                packed_state,
            ),
        ).is_some(),
        value.is_some() ==> value.unwrap() == settled(
            mode,
            packed_state,
            level as int,
            all_found(
                possible_boards@,
                indices[index_start as int] as int,
                indices[index_end as int] as int,
                packed_state,
            ),
        ).unwrap(),
{
    match mode {
        SearchMode::WinChance => {
            if is_won_state(packed_state, possible_boards, indices, index_start, index_end) {
                return Some(1);
            }
        },
        SearchMode::SurviveLevel => {
            if count_assigned_packed(packed_state) >= level {
                return Some(1);
            }
        },
        SearchMode::WinEight => {
            if is_won_state(packed_state, possible_boards, indices, index_start, index_end) {
                return if count_assigned_packed(packed_state) >= 8 {
                    Some(1)
                } else {
                    Some(0)
                };
            }
        },
        SearchMode::SurviveEight => {
            if count_assigned_packed(packed_state) >= 8 {
                return Some(1);
            }
        },
        SearchMode::SurviveNextMove => {
            return Some(1);
        },
        SearchMode::Coins => {
            if is_won_state(packed_state, possible_boards, indices, index_start, index_end) {
                return Some(coins_of_state(packed_state));
            }
        },
    }
    None
}

/// `dashmap::DashMap`, the memo table of a search: from packed state to the
/// bits of its value. It is declared to be handed through; nothing of what
/// it holds is visible here.
#[verifier::external_type_specification]
#[verifier::external_body]
#[verifier::reject_recursive_types(K)]
#[verifier::reject_recursive_types(V)]
#[verifier::reject_recursive_types(S)]
pub struct ExDashMap<K, V, S>(DashMap<K, V, S>);

/// Looks `key` up with `DashMap::get` and copies the value out of the entry.
/// The table is shared with the other workers of a search, which insert at
/// any moment, so nothing is claimed of what comes back.
#[verifier::external_body]
fn cache_get(cache: &DashMap<u64, u64>, key: u64) -> (value: Option<u64>) {
    match cache.get(&key) {
        Some(entry) => Some(*entry.value()),
        None => None,
    }
}

/// Whether the column choice `cols_to_keep` keeps column `c`: bit `c` is set.
pub open spec fn keeps(cols_to_keep: usize, c: int) -> bool {
    (cols_to_keep >> (c as usize)) & 1 == 1
}

/// Rows `r1` and `r2` can be swapped outside the kept columns: in a kept
/// column both are revealed or neither is; in every other column at least
/// one is revealed.
pub open spec fn swap_feasible(state: u64, r1: int, r2: int, cols_to_keep: usize) -> bool {
    forall|c: int|
        0 <= c < 5 ==> if #[trigger] keeps(cols_to_keep, c) {
            (cell(state, r1, c) != 0) == (cell(state, r2, c) != 0)
        } else {
            cell(state, r1, c) != 0 || cell(state, r2, c) != 0
        }
}

/// The sum of the revealed symbols of row `row` in the kept columns among
/// the first `n`.
pub open spec fn kept_points(state: u64, row: int, cols_to_keep: usize, n: int) -> int
    decreases n,
{
    if n <= 0 {
        0
    } else {
        kept_points(state, row, cols_to_keep, n - 1) + if keeps(cols_to_keep, n - 1) {
            cell(state, row, n - 1)
        } else {
            0
        }
    }
}

/// The state with rows `r1` and `r2` swapped in those of the first `n`
/// columns that are not kept.
pub open spec fn swapped_upto(state: u64, r1: int, r2: int, cols_to_keep: usize, n: int) -> u64
    decreases n,
{
    if n <= 0 {
        state
    } else if keeps(cols_to_keep, n - 1) {
        swapped_upto(state, r1, r2, cols_to_keep, n - 1)
    } else {
        with_cell(
            with_cell(
                swapped_upto(state, r1, r2, cols_to_keep, n - 1),
                r1,
                n - 1,
                cell(state, r2, n - 1),
            ),
            r2,
            n - 1,
            cell(state, r1, n - 1),
        )
    }
}

/// The state that stands for `state` when rows `r1` and `r2` are swapped
/// outside the kept columns: there is one if the swap is feasible and leaves
/// the same sum to reveal on both rows.
pub open spec fn swap_key(
    state: u64,
    sums: [usize; 5],
    r1: int,
    r2: int,
    cols_to_keep: usize,
) -> Option<u64> {
    if swap_feasible(state, r1, r2, cols_to_keep) && sums[r1] - kept_points(
        state,
        r1,
        cols_to_keep,
        5,
    ) == sums[r2] - kept_points(state, r2, cols_to_keep, 5) {
        Some(swapped_upto(state, r1, r2, cols_to_keep, 5))
    } else {
        None
    }
}

/// The key as it is looked up: transposed back where the rows stand for
/// columns.
pub open spec fn as_looked_up(key: u64, flip: bool) -> u64 {
    if flip {
        transposed(key)
    } else {
        key
    }
}

/// The keys of rows `r1` and `r2` for the first `n` column choices.
pub open spec fn pair_keys(
    state: u64,
    sums: [usize; 5],
    r1: int,
    r2: int,
    n: int,
    flip: bool,
) -> Seq<u64>
    decreases n,
{
    if n <= 0 {
        Seq::empty()
    } else {
        pair_keys(state, sums, r1, r2, n - 1, flip) + match swap_key(
            state,
            sums,
            r1,
            r2,
            (n - 1) as usize,
        ) {
            Some(key) => seq![as_looked_up(key, flip)],
            None => Seq::empty(),
        }
    }
}

/// The keys of row `r1` with each later row below `n` that holds as many
/// bombs.
pub open spec fn row_keys(
    state: u64,
    sums: [usize; 5],
    bombs: [usize; 5],
    r1: int,
    n: int,
    flip: bool,
) -> Seq<u64>
    decreases n - r1,
{
    if n <= r1 + 1 {
        Seq::empty()
    } else {
        row_keys(state, sums, bombs, r1, n - 1, flip) + if bombs[r1] == bombs[n - 1] {
            pair_keys(state, sums, r1, n - 1, 32, flip)
        } else {
            Seq::empty()
        }
    }
}

/// The keys of the first `n` rows, each with the rows behind it.
pub open spec fn line_keys(
    state: u64,
    sums: [usize; 5],
    bombs: [usize; 5],
    n: int,
    flip: bool,
) -> Seq<u64>
    decreases n,
{
    if n <= 0 {
        Seq::empty()
    } else {
        line_keys(state, sums, bombs, n - 1, flip) + row_keys(state, sums, bombs, n - 1, 5, flip)
    }
}

/// The states that stand for `state` under a swap of two rows or of two
/// columns, in the order in which the probe looks them up.
pub open spec fn probe_keys(
    state: u64,
    sr: [usize; 5],
    sc: [usize; 5],
    br: [usize; 5],
    bc: [usize; 5],
) -> Seq<u64> {
    line_keys(state, sr, br, 5, false) + line_keys(transposed(state), sc, bc, 5, true)
}

proof fn lemma_kept_points_bound(state: u64, row: int, cols_to_keep: usize, n: int)
    requires
        0 <= row < 5,
        0 <= n <= 5,
    ensures
        0 <= kept_points(state, row, cols_to_keep, n) <= 3 * n,
    decreases n,
{
    if n > 0 {
        lemma_kept_points_bound(state, row, cols_to_keep, n - 1);
        lemma_field_bound(state, 24 - (5 * row + (n - 1)));
    }
}

/// The state that stands for `packed_state` when rows `r1` and `r2` are
/// swapped outside the columns that `cols_to_keep` keeps, if that swap is
/// feasible and leaves the same sum to reveal on both rows.
pub fn swap_candidate(
    packed_state: u64,
    sums: &[usize; 5],
    r1: usize,
    r2: usize,
    cols_to_keep: usize,
) -> (key: Option<u64>)
    requires
        r1 < 5,
        r2 < 5,
        forall|i: int| 0 <= i < 5 ==> (#[trigger] sums[i]) <= 15,
    ensures
        key == swap_key(packed_state, *sums, r1 as int, r2 as int, cols_to_keep),
{
    let mut kept1: usize = 0;
    let mut kept2: usize = 0;
    let mut permuted = packed_state;
    for c in 0..5usize
        invariant
            r1 < 5,
            r2 < 5,
            kept1 == kept_points(packed_state, r1 as int, cols_to_keep, c as int),
            kept2 == kept_points(packed_state, r2 as int, cols_to_keep, c as int),
            permuted == swapped_upto(packed_state, r1 as int, r2 as int, cols_to_keep, c as int),
            forall|k: int|
                0 <= k < c ==> if #[trigger] keeps(cols_to_keep, k) {
                    (cell(packed_state, r1 as int, k) != 0) == (cell(packed_state, r2 as int, k)
                        != 0)
                } else {
                    cell(packed_state, r1 as int, k) != 0 || cell(packed_state, r2 as int, k) != 0
                },
    {
        proof {
            lemma_kept_points_bound(packed_state, r1 as int, cols_to_keep, c as int);
            lemma_kept_points_bound(packed_state, r2 as int, cols_to_keep, c as int);
        }
        let v1 = get_from_packed_state(packed_state, r1, c);
        let v2 = get_from_packed_state(packed_state, r2, c);
        let keep = ((cols_to_keep >> c) & 1) == 1;
        assert(keep == keeps(cols_to_keep, c as int));
        if keep {
            if (v1 != 0) != (v2 != 0) {
                return None;
            }
            kept1 += v1;
            kept2 += v2;
        } else {
            if v1 == 0 && v2 == 0 {
                return None;
            }
            permuted = set_in_packed_state(permuted, r1, c, v2);
            permuted = set_in_packed_state(permuted, r2, c, v1);
        }
    }
    proof {
        lemma_kept_points_bound(packed_state, r1 as int, cols_to_keep, 5);
        lemma_kept_points_bound(packed_state, r2 as int, cols_to_keep, 5);
    }
    assert(sums[r1 as int] <= 15 && sums[r2 as int] <= 15);
    if sums[r1] + kept2 != sums[r2] + kept1 {
        return None;
    }
    Some(permuted)
}

fn line_swap_keys(
    packed_state: u64,
    sums: &[usize; 5],
    bombs: &[usize; 5],
    flip: bool,
    keys: &mut Vec<u64>,
)
    requires
        forall|i: int| 0 <= i < 5 ==> (#[trigger] sums[i]) <= 15,
    ensures
        final(keys)@ == old(keys)@ + line_keys(packed_state, *sums, *bombs, 5, flip),
{
    let ghost start = keys@;
    assert(start =~= start + Seq::<u64>::empty());
    for r1 in 0..5usize
        invariant
            forall|i: int| 0 <= i < 5 ==> (#[trigger] sums[i]) <= 15,
            keys@ == start + line_keys(packed_state, *sums, *bombs, r1 as int, flip),
    {
        let ghost rows = line_keys(packed_state, *sums, *bombs, r1 as int, flip);
        assert(keys@ =~= start + (rows + Seq::<u64>::empty()));
        for r2 in r1 + 1..5usize
            invariant
                r1 < 5,
                forall|i: int| 0 <= i < 5 ==> (#[trigger] sums[i]) <= 15,
                keys@ == start + (rows + row_keys(
                    packed_state,
                    *sums,
                    *bombs,
                    r1 as int,
                    r2 as int,
                    flip,
                )),
        {
            let ghost pairs = row_keys(packed_state, *sums, *bombs, r1 as int, r2 as int, flip);
            if bombs[r1] == bombs[r2] {
                assert(keys@ =~= start + (rows + (pairs + Seq::<u64>::empty())));
                for cols_to_keep in 0..32usize
                    invariant
                        r1 < 5,
                        r2 < 5,
                        forall|i: int| 0 <= i < 5 ==> (#[trigger] sums[i]) <= 15,
                        keys@ == start + (rows + (pairs + pair_keys(
                            packed_state,
                            *sums,
                            r1 as int,
                            r2 as int,
                            cols_to_keep as int,
                            flip,
                        ))),
                {
                    let ghost so_far = pair_keys(
                        packed_state,
                        *sums,
                        r1 as int,
                        r2 as int,
                        cols_to_keep as int,
                        flip,
                    );
                    match swap_candidate(packed_state, sums, r1, r2, cols_to_keep) {
                        Some(key) => {
                            let looked_up = if flip {
                                transpose_packed(key)
                            } else {
                                key
                            };
                            keys.push(looked_up);
                            assert(keys@ =~= start + (rows + (pairs + (so_far + seq![looked_up]))));
                        },
                        None => {
                            assert(keys@ =~= start + (rows + (pairs + (so_far + Seq::<
                                u64,
                            >::empty()))));
                        },
                    }
                }
            } else {
                assert(keys@ =~= start + (rows + (pairs + Seq::<u64>::empty())));
            }
        }
    }
}

/// The states that stand for `packed_state` under a swap of two rows with
/// the same number of bombs, or of two such columns: the states whose value
/// is the value of `packed_state`.
pub fn swap_keys(
    packed_state: u64,
    sr: &[usize; 5],
    sc: &[usize; 5],
    br: &[usize; 5],
    bc: &[usize; 5],
) -> (keys: Vec<u64>)
    requires
        valid_margins(*sr, *sc, *br, *bc),
    ensures
        keys@ == probe_keys(packed_state, *sr, *sc, *br, *bc),
{
    let mut keys: Vec<u64> = Vec::new();
    line_swap_keys(packed_state, sr, br, false, &mut keys);
    assert(keys@ =~= line_keys(packed_state, *sr, *br, 5, false));
    let turned = transpose_packed(packed_state);
    line_swap_keys(turned, sc, bc, true, &mut keys);
    keys
}

/// The value that the memo table holds for a state that stands for
/// `packed_state` under a swap of two rows or two columns: that of the first
/// such state for which the table answers. Without such a state there is no
/// value.
pub fn try_swap_one_row_or_col(
    packed_state: u64,
    sr: &[usize; 5],
    sc: &[usize; 5],
    br: &[usize; 5],
    bc: &[usize; 5],
    cache_chances: &DashMap<u64, u64>,
) -> (found: Option<u64>)
    requires
        valid_margins(*sr, *sc, *br, *bc),
    ensures
        found.is_some() ==> probe_keys(packed_state, *sr, *sc, *br, *bc).len() > 0,
{
    let keys = swap_keys(packed_state, sr, sc, br, bc);
    let mut answers: Vec<Option<u64>> = Vec::new();
    let mut hit = false;
    let mut i: usize = 0;
    while i < keys.len() && !hit
        invariant
            i <= keys.len(),
            answers.len() == i,
            keys@ == probe_keys(packed_state, *sr, *sc, *br, *bc),
        decreases keys.len() - i,
    {
        let answer = cache_get(cache_chances, keys[i]);
        hit = answer.is_some();
        answers.push(answer);
        i += 1;
    }
    proof {
        lemma_first_answer(answers@, 0);
    }
    first_hit(&answers)
}

/// The first answer among the outcomes of the lookups from `from` on: what
/// the probe returns when the table answered them so. There is none where
/// every lookup missed.
pub open spec fn first_answer(answers: Seq<Option<u64>>, from: int) -> Option<u64>
    decreases answers.len() - from,
{
    if from < 0 || from >= answers.len() {
        None
    } else if answers[from].is_some() {
        answers[from]
    } else {
        first_answer(answers, from + 1)
    }
}

/// An answer is the answer of one of the lookups.
pub proof fn lemma_first_answer(answers: Seq<Option<u64>>, from: int)
    requires
        0 <= from,
    ensures
        first_answer(answers, from).is_some() ==> from < answers.len(),
        first_answer(answers, from).is_some() <==> exists|i: int|
            from <= i < answers.len() && (#[trigger] answers[i]).is_some(),
    decreases answers.len() - from,
{
    if from < answers.len() {
        lemma_first_answer(answers, from + 1);
        if answers[from].is_some() {
            assert(answers[from].is_some());
        }
    }
}

/// What the probe returns for the outcomes of its lookups, in their order:
/// the first answer, whatever was looked up behind it.
pub fn first_hit(answers: &Vec<Option<u64>>) -> (found: Option<u64>)
    ensures
        found == first_answer(answers@, 0),
{
    let mut i: usize = 0;
    while i < answers.len()
        invariant
            i <= answers.len(),
            first_answer(answers@, 0) == first_answer(answers@, i as int),
        decreases answers.len() - i,
    {
        match answers[i] {
            Some(value) => {
                return Some(value);
            },
            None => {},
        }
        i += 1;
    }
    None
}

/// Some board of some weight group holds `symbol` at cell `(row, col)`: the
/// symbol has a probability above 0 there.
pub open spec fn possible(
    counts: Seq<[[[usize; 4]; 5]; 5]>,
    row: int,
    col: int,
    symbol: int,
) -> bool {
    exists|g: int| 0 <= g < counts.len() && (#[trigger] counts[g])[row][col][symbol] > 0
}

/// Whether `symbol` has a probability above 0 at cell `(row, col)`.
pub fn symbol_is_possible(
    counts: &Vec<[[[usize; 4]; 5]; 5]>,
    row: usize,
    col: usize,
    symbol: usize,
) -> (found: bool)
    requires
        row < 5,
        col < 5,
        symbol < 4,
    ensures
        found == possible(counts@, row as int, col as int, symbol as int),
{
    for g in 0..counts.len()
        invariant
            row < 5,
            col < 5,
            symbol < 4,
            forall|k: int|
                0 <= k < g ==> (#[trigger] counts[k])[row as int][col as int][symbol as int] == 0,
    {
        if counts[g][row][col][symbol] > 0 {
            return true;
        }
    }
    false
}

/// A cell is worth a reveal: it is unrevealed and may hold a 2 or 3, or the
/// mode counts reveals.
pub open spec fn worth_a_reveal(
    state: u64,
    counts: Seq<[[[usize; 4]; 5]; 5]>,
    mode: SearchMode,
    row: int,
    col: int,
) -> bool {
    cell(state, row, col) == 0 && (possible(counts, row, col, 2) || possible(counts, row, col, 3)
        || counts_reveals(mode))
}

/// The cells to explore among the first `n` in row-major order: those worth
/// a reveal that are the ones to explore of their kind.
pub open spec fn squares_upto(
    state: u64,
    counts: Seq<[[[usize; 4]; 5]; 5]>,
    mode: SearchMode,
    sr: [usize; 5],
    sc: [usize; 5],
    br: [usize; 5],
    bc: [usize; 5],
    n: int,
) -> Seq<(usize, usize)>
    decreases n,
{
    if n <= 0 {
        Seq::empty()
    } else {
        let row = (n - 1) / 5;
        let col = (n - 1) % 5;
        squares_upto(state, counts, mode, sr, sc, br, bc, n - 1) + if worth_a_reveal(
            state,
            counts,
            mode,
            row,
            col,
        ) && canonical(state, sr, sc, br, bc, row, col) {
            seq![(row as usize, col as usize)]
        } else {
            Seq::empty()
        }
    }
}

/// The cells that a node explores, in row-major order: unrevealed cells
/// that may hold a 2 or 3 (all unrevealed cells where the mode counts
/// reveals), one of each kind.
pub fn candidate_squares(
    packed_state: u64,
    counts: &Vec<[[[usize; 4]; 5]; 5]>,
    mode: SearchMode,
    sr: &[usize; 5],
    sc: &[usize; 5],
    br: &[usize; 5],
    bc: &[usize; 5],
) -> (squares: Vec<(usize, usize)>)
    requires
        valid_margins(*sr, *sc, *br, *bc),
    ensures
        squares@ == squares_upto(packed_state, counts@, mode, *sr, *sc, *br, *bc, 25),
{
    let mut squares: Vec<(usize, usize)> = Vec::new();
    for row in 0..5usize
        invariant
            valid_margins(*sr, *sc, *br, *bc),
            squares@ == squares_upto(packed_state, counts@, mode, *sr, *sc, *br, *bc, 5 * row),
    {
        for col in 0..5usize
            invariant
                row < 5,
                valid_margins(*sr, *sc, *br, *bc),
                squares@ == squares_upto(
                    packed_state,
                    counts@,
                    mode,
                    *sr,
                    *sc,
                    *br,
                    *bc,
                    5 * row + col,
                ),
        {
            let ghost before = squares@;
            proof {
                let n: int = 5 * row + col;
                assert(n / 5 == row && n % 5 == col);
            }
            let mut taken = false;
            if get_from_packed_state(packed_state, row, col) == 0 {
                if symbol_is_possible(counts, row, col, 2) || symbol_is_possible(
                    counts,
                    row,
                    col,
                    3,
                ) || is_threshold_mode(mode) {
                    if is_good_assignment(packed_state, sr, sc, br, bc, row, col) {
                        squares.push((row, col));
                        taken = true;
                    }
                }
            }
            proof {
                if taken {
                    assert(squares@ =~= before + seq![(row, col)]);
                } else {
                    assert(squares@ =~= before + Seq::<(usize, usize)>::empty());
                }
            }
        }
    }
    squares
}

/// The reveals that the root hands out among the first `n`, where reveal
/// number `3 * (5 * row + col) + symbol - 1` puts `symbol` on cell
/// `(row, col)`: each with its cell, its symbol and the state it leads to.
pub open spec fn jobs_upto(
    state: u64,
    counts: Seq<[[[usize; 4]; 5]; 5]>,
    mode: SearchMode,
    n: int,
) -> Seq<(usize, usize, usize, u64)>
    decreases n,
{
    if n <= 0 {
        Seq::empty()
    } else {
        let row = (n - 1) / 15;
        let col = ((n - 1) / 3) % 5;
        let symbol = (n - 1) % 3 + 1;
        jobs_upto(state, counts, mode, n - 1) + if worth_a_reveal(state, counts, mode, row, col)
            && possible(counts, row, col, symbol) {
            seq![(row as usize, col as usize, symbol as usize, with_cell(state, row, col, symbol))]
        } else {
            Seq::empty()
        }
    }
}

/// The first moves that the root searches: for each cell worth a reveal,
/// each symbol from 1 to 3 that it may hold, with the state after the
/// reveal.
pub fn root_jobs(packed_state: u64, counts: &Vec<[[[usize; 4]; 5]; 5]>, mode: SearchMode) -> (jobs:
    Vec<(usize, usize, usize, u64)>)
    ensures
        jobs@ == jobs_upto(packed_state, counts@, mode, 75),
{
    let mut jobs: Vec<(usize, usize, usize, u64)> = Vec::new();
    for row in 0..5usize
        invariant
            jobs@ == jobs_upto(packed_state, counts@, mode, 15 * row),
    {
        for col in 0..5usize
            invariant
                row < 5,
                jobs@ == jobs_upto(packed_state, counts@, mode, 15 * row + 3 * col),
        {
            let worth = get_from_packed_state(packed_state, row, col) == 0 && (symbol_is_possible(
                counts,
                row,
                col,
                2,
            ) || symbol_is_possible(counts, row, col, 3) || is_threshold_mode(mode));
            for symbol in 1..4usize
                invariant
                    row < 5,
                    col < 5,
                    worth == worth_a_reveal(packed_state, counts@, mode, row as int, col as int),
                    jobs@ == jobs_upto(
                        packed_state,
                        counts@,
                        mode,
                        15 * row + 3 * col + symbol - 1,
                    ),
            {
                let ghost before = jobs@;
                proof {
                    let n: int = 15 * row + 3 * col + symbol - 1;
                    assert(n / 15 == row && (n / 3) % 5 == col && n % 3 + 1 == symbol);
                }
                let mut taken = false;
                if worth && symbol_is_possible(counts, row, col, symbol) {
                    let next = set_in_packed_state(packed_state, row, col, symbol);
                    jobs.push((row, col, symbol, next));
                    taken = true;
                    assert(jobs@ =~= before + seq![(row, col, symbol, next)]);
                }
                proof {
                    if !taken {
                        assert(jobs@ =~= before + Seq::<(usize, usize, usize, u64)>::empty());
                    }
                }
            }
        }
    }
    jobs
}

/// What the root of a search does before it hands out reveals.
#[derive(Copy, Clone, Debug, PartialEq, Eq, Structural)]
pub enum RootVerdict {
    /// Every 2 and 3 is revealed already: there is nothing to search.
    TerminalState,
    /// The mode's threshold is reached already: the value is known.
    Value(u64),
    /// The first moves have to be searched.
    Search,
}

/// The verdict on a root: a root at which every 2 and 3 is revealed is
/// terminal in every mode; otherwise the modes that survive a number of
/// reveals are worth 1 once that number is reached.
pub open spec fn root_rule(mode: SearchMode, state: u64, level: int, won: bool) -> RootVerdict {
    if won {
        RootVerdict::TerminalState
    } else if mode == SearchMode::SurviveLevel && assigned_count(state) >= level {
        RootVerdict::Value(1)
    } else if mode == SearchMode::SurviveEight && assigned_count(state) >= 8 {
        RootVerdict::Value(1)
    } else {
        RootVerdict::Search
    }
}

/// The verdict on the root state of a search.
pub fn root_verdict(
    mode: SearchMode,
    packed_state: u64,
    level: usize,
    possible_boards: &Vec<u64>,
    indices: &Vec<usize>,
    index_start: usize,
    index_end: usize,
) -> (verdict: RootVerdict)
    requires
        index_start < indices.len(),
        index_end < indices.len(),
        indices[index_start as int] < indices[index_end as int] ==> indices[index_end as int]
            <= possible_boards.len(),
    ensures
        verdict == root_rule(
            mode,
            packed_state,
            level as int,
            all_found(
                possible_boards@,
                indices[index_start as int] as int,
                indices[index_end as int] as int,
                packed_state,
            ),
        ),
{
    if is_won_state(packed_state, possible_boards, indices, index_start, index_end) {
        return RootVerdict::TerminalState;
    }
    match mode {
        SearchMode::SurviveLevel => {
            if count_assigned_packed(packed_state) >= level {
                return RootVerdict::Value(1);
            }
        },
        SearchMode::SurviveEight => {
            if count_assigned_packed(packed_state) >= 8 {
                return RootVerdict::Value(1);
            }
        },
        _ => {},
    }
    RootVerdict::Search
}

/// Whether a node stops at a cell once it is explored: the cell cannot hold
/// a bomb, so its reveal is free, and the mode does not count reveals.
pub fn ends_exploration(
    mode: SearchMode,
    counts: &Vec<[[[usize; 4]; 5]; 5]>,
    row: usize,
    col: usize,
) -> (ends: bool)
    requires
        row < 5,
        col < 5,
    ensures
        ends == (!possible(counts@, row as int, col as int, 0) && !counts_reveals(mode)),
{
    !symbol_is_possible(counts, row, col, 0) && !is_threshold_mode(mode)
}

/// How many reveals the root hands out on each cell.
pub fn jobs_per_square(jobs: &Vec<(usize, usize, usize, u64)>) -> (per_square: [[usize; 5]; 5])
    requires
        forall|i: int| 0 <= i < jobs.len() ==> (#[trigger] jobs[i]).0 < 5 && jobs[i].1 < 5,
    ensures
        forall|r: int, c: int|
            0 <= r < 5 && 0 <= c < 5 ==> (#[trigger] per_square[r][c]) == jobs_on(
                jobs@,
                jobs.len() as int,
                r,
                c,
            ),
{
    let mut per_square: [[usize; 5]; 5] = [[0usize;5];5];
    let mut i: usize = 0;
    while i < jobs.len()
        invariant
            i <= jobs.len(),
            forall|k: int| 0 <= k < jobs.len() ==> (#[trigger] jobs[k]).0 < 5 && jobs[k].1 < 5,
            forall|r: int, c: int|
                0 <= r < 5 && 0 <= c < 5 ==> (#[trigger] per_square[r][c]) == jobs_on(
                    jobs@,
                    i as int,
                    r,
                    c,
                ),
        decreases jobs.len() - i,
    {
        let row = jobs[i].0;
        let col = jobs[i].1;
        proof {
            assert(jobs[i as int].0 < 5 && jobs[i as int].1 < 5);
            lemma_jobs_on_bound(jobs@, i as int, row as int, col as int);
            assert(per_square[row as int][col as int] == jobs_on(
                jobs@,
                i as int,
                row as int,
                col as int,
            ));
        }
        per_square[row][col] += 1;
        i += 1;
    }
    per_square
}

proof fn lemma_jobs_on_bound(jobs: Seq<(usize, usize, usize, u64)>, n: int, row: int, col: int)
    requires
        0 <= n,
    ensures
        0 <= jobs_on(jobs, n, row, col) <= n,
    decreases n,
{
    if n > 0 {
        lemma_jobs_on_bound(jobs, n - 1, row, col);
    }
}

/// The number of reveals on cell `(row, col)` among the first `n`.
pub open spec fn jobs_on(jobs: Seq<(usize, usize, usize, u64)>, n: int, row: int, col: int) -> int
    decreases n,
{
    if n <= 0 {
        0
    } else {
        jobs_on(jobs, n - 1, row, col) + if jobs[n - 1].0 == row && jobs[n - 1].1 == col {
            1int
        } else {
            0int
        }
    }
}

} // verus!
