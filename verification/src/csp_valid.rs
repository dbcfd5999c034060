//! Counting the grids of a bucket: how many full grids hold no more of each
//! symbol than given and keep to the limits on special squares.

use vstd::prelude::*;
use crate::csp_constraints::{blank_grid, grid_with, lemma_grid_with, UNASSIGNED};
use crate::math::{
    binomial, bit_rows, bomb_free_line, bomb_free_line_at, contains_line, count_set_squares,
    count_special, count_special_locations_bomb_bitset, count_where, flag_at, flags_with,
    has_line_of, is_special_location_bomb_bitset, lemma_binomial_positive,
    lemma_binomial_below_power, lemma_binomial_symmetric, lemma_binomial_weighted, lemma_count_bound, lemma_flags_equal,
    lemma_flags_with, lemma_no_flags, lemma_picks_len, lemma_picks_member, lemma_power_add, lemma_power_values,
    lemma_power_monotone, lemma_power_positive, lemma_splits_member, multinomial,
    multinomial_coefficient, multinomial_from, nk, nk_list, no_flags, picks, power, short_side,
    special_line_max, special_square_at, split_multiset, split_pairs, splits, splits_from,
    sum_from, symbol_is, true_at, vec_to_board, may_take,
};
use crate::packed::grid_at;

verus! {

/// A grid that is filled cell by cell, with running counts.
pub struct CountingBoard {
    board: [[usize; 5]; 5],
    sum_rows: [usize; 5],
    sum_cols: [usize; 5],
    bombs_rows: [usize; 5],
    bombs_cols: [usize; 5],
    ass_rows: [usize; 5],
    ass_cols: [usize; 5],
    assigned: usize,
    count: [usize; 4],
}

impl CountingBoard {
    /// The grid as far as it is filled.
    pub closed spec fn grid(self) -> [[usize; 5]; 5] {
        self.board
    }

    /// The number of cells that are filled.
    pub closed spec fn filled(self) -> int {
        self.assigned as int
    }

    /// The first `filled()` cells in row-major order are filled, the others
    /// are free, and the running counts are those of the filled cells.
    pub closed spec fn wf(self) -> bool {
        &&& self.assigned <= 25
        &&& forall|i: int| self.assigned <= i < 25 ==> #[trigger] grid_at(self.board, i) == UNASSIGNED
        &&& forall|s: int|
            0 <= s < 4 ==> (#[trigger] self.count[s]) == count_where(
                symbol_is(self.board, s),
                self.assigned as int,
            )
        &&& forall|i: int| 0 <= i < 5 ==> (#[trigger] self.sum_rows[i]) <= 3 * self.ass_rows[i]
        &&& forall|i: int| 0 <= i < 5 ==> (#[trigger] self.sum_cols[i]) <= 3 * self.ass_cols[i]
        &&& forall|i: int| 0 <= i < 5 ==> (#[trigger] self.bombs_rows[i]) <= self.ass_rows[i]
        &&& forall|i: int| 0 <= i < 5 ==> (#[trigger] self.bombs_cols[i]) <= self.ass_cols[i]
        &&& forall|i: int| 0 <= i < 5 ==> (#[trigger] self.ass_rows[i]) <= self.assigned
        &&& forall|i: int| 0 <= i < 5 ==> (#[trigger] self.ass_cols[i]) <= self.assigned
    }

    /// The board with no cell filled.
    pub fn new() -> (cb: CountingBoard)
        ensures
            cb.wf(),
            cb.filled() == 0,
            cb.grid() == blank_grid(),
    {
        let cb = CountingBoard {
            board: [[UNASSIGNED;5];5],
            sum_rows: [0usize;5],
            sum_cols: [0usize;5],
            bombs_rows: [0usize;5],
            bombs_cols: [0usize;5],
            ass_rows: [0usize;5],
            ass_cols: [0usize;5],
            assigned: 0,
            count: [0usize;4],
        };
        proof {
            broadcast use vstd::array::axiom_spec_array_fill_for_copy_type;

            assert(cb.board =~~= blank_grid());
            assert forall|i: int| 0 <= i < 25 implies #[trigger] grid_at(cb.board, i)
                == UNASSIGNED by {
                assert(cb.board[i / 5][i % 5] == UNASSIGNED);
            }
        }
        cb
    }
}

/// A full grid holds at most `nr_symbols[s]` cells of each symbol `s`, at
/// most `in_total` special squares, and at most `per_line` of them on one
/// row or column.
pub open spec fn within(
    g: [[usize; 5]; 5],
    nr_symbols: [usize; 4],
    in_total: int,
    per_line: int,
) -> bool {
    &&& forall|s: int| 0 <= s < 4 ==> count_where(symbol_is(g, s), 25) <= #[trigger] nr_symbols[s]
    &&& count_where(special_square_at(g), 25) <= in_total
    &&& special_line_max(g, 5) <= per_line
}

/// The number of ways to fill the cells from `idx` on with symbols so that
/// the grid is `within` the limits.
pub open spec fn fillings(
    g: [[usize; 5]; 5],
    idx: int,
    nr_symbols: [usize; 4],
    in_total: int,
    per_line: int,
) -> int
    decreases 25 - idx, 5int,
{
    if idx >= 25 {
        if within(g, nr_symbols, in_total, per_line) {
            1
        } else {
            0
        }
    } else {
        fillings_with(g, idx, 4, nr_symbols, in_total, per_line)
    }
}

/// The number of such fillings that put one of the first `k` symbols on cell
/// `idx`.
pub open spec fn fillings_with(
    g: [[usize; 5]; 5],
    idx: int,
    k: int,
    nr_symbols: [usize; 4],
    in_total: int,
    per_line: int,
) -> int
    decreases 25 - idx, k,
{
    if k <= 0 || k > 4 || idx >= 25 {
        0
    } else {
        fillings_with(g, idx, k - 1, nr_symbols, in_total, per_line) + fillings(
            grid_with(g, idx, (k - 1) as usize),
            idx + 1,
            nr_symbols,
            in_total,
            per_line,
        )
    }
}

/// There are at most `4^(25 - idx)` fillings of the cells from `idx` on.
pub proof fn lemma_fillings_bound(
    g: [[usize; 5]; 5],
    idx: int,
    nr_symbols: [usize; 4],
    in_total: int,
    per_line: int,
)
    requires
        0 <= idx <= 25,
    ensures
        0 <= fillings(g, idx, nr_symbols, in_total, per_line) <= power(4, (25 - idx) as nat),
    decreases 25 - idx, 5int,
{
    if idx < 25 {
        lemma_fillings_with_bound(g, idx, 4, nr_symbols, in_total, per_line);
    }
}

proof fn lemma_fillings_with_bound(
    g: [[usize; 5]; 5],
    idx: int,
    k: int,
    nr_symbols: [usize; 4],
    in_total: int,
    per_line: int,
)
    requires
        0 <= idx < 25,
        0 <= k <= 4,
    ensures
        0 <= fillings_with(g, idx, k, nr_symbols, in_total, per_line) <= k * power(4, (24 - idx) as nat),
    decreases 25 - idx, k,
{
    if k > 0 {
        lemma_fillings_with_bound(g, idx, k - 1, nr_symbols, in_total, per_line);
        lemma_fillings_bound(
            grid_with(g, idx, (k - 1) as usize),
            idx + 1,
            nr_symbols,
            in_total,
            per_line,
        );
        assert((k - 1) * power(4, (24 - idx) as nat) + power(4, (24 - idx) as nat) == k * power(4, (24 - idx) as nat))
            by (nonlinear_arith);
    } else {
        assert(k * power(4, (24 - idx) as nat) == 0) by (nonlinear_arith)
            requires
                k == 0,
        ;
    }
}

/// The symbol counts of the first `n` cells do not depend on the cells
/// behind them, and only grow with `n`.
proof fn lemma_prefix_count(g: [[usize; 5]; 5], h: [[usize; 5]; 5], s: int, n: int, m: int)
    requires
        0 <= n <= m <= 25,
        forall|i: int| 0 <= i < n ==> grid_at(g, i) == grid_at(h, i),
    ensures
        count_where(symbol_is(g, s), n) <= count_where(symbol_is(h, s), m),
    decreases m,
{
    if m > n {
        lemma_prefix_count(g, h, s, n, m - 1);
    } else if n > 0 {
        lemma_prefix_count(g, h, s, n - 1, n - 1);
        assert(grid_at(g, n - 1) == grid_at(h, n - 1));
        lemma_prefix_same(g, h, s, n);
    }
}

proof fn lemma_prefix_same(g: [[usize; 5]; 5], h: [[usize; 5]; 5], s: int, n: int)
    requires
        0 <= n <= 25,
        forall|i: int| 0 <= i < n ==> grid_at(g, i) == grid_at(h, i),
    ensures
        count_where(symbol_is(g, s), n) == count_where(symbol_is(h, s), n),
    decreases n,
{
    if n > 0 {
        lemma_prefix_same(g, h, s, n - 1);
        assert(grid_at(g, n - 1) == grid_at(h, n - 1));
    }
}

/// Once the first `idx` cells hold too many of a symbol, no filling of the
/// other cells is within the limits.
proof fn lemma_too_many(
    g: [[usize; 5]; 5],
    idx: int,
    s: int,
    nr_symbols: [usize; 4],
    in_total: int,
    per_line: int,
)
    requires
        0 <= idx <= 25,
        0 <= s < 4,
        count_where(symbol_is(g, s), idx) > nr_symbols[s],
    ensures
        fillings(g, idx, nr_symbols, in_total, per_line) == 0,
    decreases 25 - idx, 5int,
{
    if idx >= 25 {
        assert(!within(g, nr_symbols, in_total, per_line));
    } else {
        lemma_too_many_with(g, idx, 4, s, nr_symbols, in_total, per_line);
    }
}

proof fn lemma_too_many_with(
    g: [[usize; 5]; 5],
    idx: int,
    k: int,
    s: int,
    nr_symbols: [usize; 4],
    in_total: int,
    per_line: int,
)
    requires
        0 <= idx < 25,
        0 <= k <= 4,
        0 <= s < 4,
        count_where(symbol_is(g, s), idx) > nr_symbols[s],
    ensures
        fillings_with(g, idx, k, nr_symbols, in_total, per_line) == 0,
    decreases 25 - idx, k,
{
    if k > 0 {
        lemma_too_many_with(g, idx, k - 1, s, nr_symbols, in_total, per_line);
        let child = grid_with(g, idx, (k - 1) as usize);
        lemma_grid_with(g, idx, (k - 1) as usize);
        lemma_prefix_count(g, child, s, idx, idx + 1);
        lemma_too_many(child, idx + 1, s, nr_symbols, in_total, per_line);
    }
}

/// Whether a full grid keeps to the limits on special squares.
fn fits_free_multiplier_constraint(
    cb: &CountingBoard,
    max_fm_total: usize,
    max_fm_per_line: usize,
) -> (ok: bool)
    ensures
        ok == (count_where(special_square_at(cb.grid()), 25) <= max_fm_total && special_line_max(
            cb.grid(),
            5,
        ) <= max_fm_per_line),
{
    let (fm_total, fm_per_line) = count_special(&cb.board);
    if fm_total > max_fm_total || fm_per_line > max_fm_per_line {
        return false;
    }
    true
}

#[verifier::rlimit(40)]
fn sh_valid(
    cb: &mut CountingBoard,
    nr_symbols: &[usize; 4],
    per_line: usize,
    in_total: usize,
    x: usize,
    y: usize,
    sols: &mut u64,
)
    requires
        old(cb).wf(),
        old(cb).filled() == 5 * x + y,
        y < 5,
        *old(sols) + fillings(
            old(cb).grid(),
            old(cb).filled(),
            *nr_symbols,
            in_total as int,
            per_line as int,
        ) <= u64::MAX,
    ensures
        *final(cb) == *old(cb),
        *final(sols) == *old(sols) + fillings(
            old(cb).grid(),
            old(cb).filled(),
            *nr_symbols,
            in_total as int,
            per_line as int,
        ),
    decreases 25 - old(cb).filled(),
{
    let ghost start = *cb;
    let ghost g = cb.board;
    let ghost idx = cb.assigned as int;
    let ghost found = *sols as int;
    for symbol in 0..4usize
        invariant
            *cb == start,
            start.wf(),
            *sols == found,
            forall|s: int|
                0 <= s < symbol ==> count_where(symbol_is(g, s), idx) <= #[trigger] nr_symbols[s],
            g == start.board,
            idx == start.assigned,
    {
        if cb.count[symbol] > nr_symbols[symbol] {
            proof {
                lemma_too_many(g, idx, symbol as int, *nr_symbols, in_total as int, per_line as int);
            }
            return;
        }
    }
    if cb.assigned == 25 {
        if fits_free_multiplier_constraint(cb, in_total, per_line) {
            *sols += 1;
        }
    } else {
        proof {
            assert(idx / 5 == x && idx % 5 == y);
        }
        for symbol in 0..4usize
            invariant
                x < 5,
                y < 5,
                idx == 5 * x + y,
                idx < 25,
                start == *old(cb),
                *cb == start,
                start.wf(),
                g == start.board,
                idx == start.assigned,
                found + fillings(g, idx, *nr_symbols, in_total as int, per_line as int)
                    <= u64::MAX,
                *sols == found + fillings_with(
                    g,
                    idx,
                    symbol as int,
                    *nr_symbols,
                    in_total as int,
                    per_line as int,
                ),
        {
            let ghost child = grid_with(g, idx, symbol);
            proof {
                lemma_grid_with(g, idx, symbol);
                lemma_fillings_with_rest(
                    g,
                    idx,
                    symbol as int,
                    *nr_symbols,
                    in_total as int,
                    per_line as int,
                );
                lemma_fillings_bound(
                    child,
                    idx + 1,
                    *nr_symbols,
                    in_total as int,
                    per_line as int,
                );
                assert(cb.ass_rows[x as int] <= 25);
                assert(cb.ass_cols[y as int] <= 25);
                assert(cb.sum_rows[x as int] <= 75 && cb.sum_cols[y as int] <= 75);
                assert(cb.bombs_rows[x as int] <= 25 && cb.bombs_cols[y as int] <= 25);
                lemma_count_bound(symbol_is(g, symbol as int), idx);
                assert(cb.count[symbol as int] <= 25);
            }
            cb.board[x][y] = symbol;
            if symbol == 0 {
                cb.bombs_rows[x] += 1;
                cb.bombs_cols[y] += 1;
            } else {
                cb.sum_rows[x] += symbol;
                cb.sum_cols[y] += symbol;
            }
            cb.ass_rows[x] += 1;
            cb.ass_cols[y] += 1;
            cb.assigned += 1;
            cb.count[symbol] += 1;
            proof {
                assert(cb.board =~~= child);
                assert forall|s: int| 0 <= s < 4 implies (#[trigger] cb.count[s]) == count_where(
                    symbol_is(child, s),
                    idx + 1,
                ) by {
                    lemma_prefix_same(g, child, s, idx);
                    assert(grid_at(child, idx) == symbol);
                }
                assert forall|i: int| idx + 1 <= i < 25 implies #[trigger] grid_at(child, i)
                    == UNASSIGNED by {
                    assert(grid_at(g, i) == UNASSIGNED);
                }
                assert(cb.wf());
                assert(5 * ((x * 5 + y + 1) / 5) + (x * 5 + y + 1) % 5 == idx + 1);
                assert(cb.filled() == idx + 1);
                assert(start.filled() == idx);
            }
            sh_valid(
                cb,
                nr_symbols,
                per_line,
                in_total,
                (x * 5 + y + 1) / 5,
                (x * 5 + y + 1) % 5,
                sols,
            );
            cb.board[x][y] = UNASSIGNED;
            if symbol == 0 {
                cb.bombs_rows[x] -= 1;
                cb.bombs_cols[y] -= 1;
            } else {
                cb.sum_rows[x] -= symbol;
                cb.sum_cols[y] -= symbol;
            }
            cb.ass_rows[x] -= 1;
            cb.ass_cols[y] -= 1;
            cb.assigned -= 1;
            cb.count[symbol] -= 1;
            proof {
                lemma_grid_with(child, idx, UNASSIGNED);
                assert(cb.board =~~= grid_with(child, idx, UNASSIGNED));
                assert forall|r: int| 0 <= r < 5 implies #[trigger] cb.board[r] == g[r] by {
                    assert forall|c: int| 0 <= c < 5 implies cb.board[r][c] == g[r][c] by {
                        let i = 5 * r + c;
                        assert(i / 5 == r && i % 5 == c);
                        assert(grid_at(grid_with(child, idx, UNASSIGNED), i) == if i == idx {
                            UNASSIGNED as int
                        } else {
                            grid_at(child, i)
                        });
                        assert(grid_at(child, i) == if i == idx {
                            symbol as int
                        } else {
                            grid_at(g, i)
                        });
                        assert(grid_at(g, idx) == UNASSIGNED);
                    }
                    assert(cb.board[r] =~= g[r]);
                }
                assert(cb.board =~= g);
                assert(cb.sum_rows =~= start.sum_rows);
                assert(cb.sum_cols =~= start.sum_cols);
                assert(cb.bombs_rows =~= start.bombs_rows);
                assert(cb.bombs_cols =~= start.bombs_cols);
                assert(cb.ass_rows =~= start.ass_rows);
                assert(cb.ass_cols =~= start.ass_cols);
                assert(cb.count =~= start.count);
            }
        }
    }
}

/// What the symbols from `k` on add to the fillings of a cell.
proof fn lemma_fillings_with_rest(
    g: [[usize; 5]; 5],
    idx: int,
    k: int,
    nr_symbols: [usize; 4],
    in_total: int,
    per_line: int,
)
    requires
        0 <= idx < 25,
        0 <= k < 4,
    ensures
        fillings_with(g, idx, k + 1, nr_symbols, in_total, per_line) == fillings_with(
            g,
            idx,
            k,
            nr_symbols,
            in_total,
            per_line,
        ) + fillings(grid_with(g, idx, k as usize), idx + 1, nr_symbols, in_total, per_line),
        fillings_with(g, idx, k + 1, nr_symbols, in_total, per_line) <= fillings(
            g,
            idx,
            nr_symbols,
            in_total,
            per_line,
        ),
    decreases 4 - k,
{
    if k < 3 {
        lemma_fillings_with_rest(g, idx, k + 1, nr_symbols, in_total, per_line);
        lemma_fillings_bound(
            grid_with(g, idx, (k + 1) as usize),
            idx + 1,
            nr_symbols,
            in_total,
            per_line,
        );
    }
}

/// The number of full grids that hold at most `nr_symbols[s]` cells of each
/// symbol `s`, at most `in_total` special squares, and at most `per_line` of
/// them on one row or column, counted by trying every grid.
pub fn count_valid_dumb(nr_symbols: &[usize; 4], in_total: usize, per_line: usize) -> (count: u64)
    ensures
        count == fillings(blank_grid(), 0, *nr_symbols, in_total as int, per_line as int),
{
    let mut cb = CountingBoard::new();
    let mut sols: u64 = 0;
    proof {
        lemma_fillings_bound(blank_grid(), 0, *nr_symbols, in_total as int, per_line as int);
        lemma_power_values();
    }
    sh_valid(&mut cb, nr_symbols, per_line, in_total, 0, 0, &mut sols);
    sols
}

/// With `bb` marking the bombs, the number of special locations among the
/// first `n` cells in row-major order.
pub open spec fn special_rank(bb: [[bool; 5]; 5], n: int) -> int {
    count_where(bomb_free_line_at(bb), n)
}

/// The grid that flags, among the first `n` cells, the special locations
/// that `combo` chooses: `combo[k]` speaks of the special location number
/// `k` in row-major order.
pub open spec fn marked_upto(bb: [[bool; 5]; 5], combo: Seq<bool>, n: int) -> [[bool; 5]; 5]
    decreases n,
{
    if n <= 0 {
        no_flags()
    } else if bomb_free_line(bb, (n - 1) / 5, (n - 1) % 5) && combo[special_rank(bb, n - 1)] {
        flags_with(marked_upto(bb, combo, n - 1), n - 1, true)
    } else {
        marked_upto(bb, combo, n - 1)
    }
}

/// A choice of special squares keeps to the limits: no row or column holds
/// more than `per_line` of them, and there are at most `in_total`.
pub open spec fn legal(b: [[bool; 5]; 5], in_total: int, per_line: int) -> bool {
    !has_line_of(b, per_line + 1) && count_where(true_at(b), 25) <= in_total
}

/// The number of legal choices among the first `n` of `combos`.
pub open spec fn ways_upto(
    bb: [[bool; 5]; 5],
    combos: Seq<Seq<bool>>,
    n: int,
    in_total: int,
    per_line: int,
) -> int
    decreases n,
{
    if n <= 0 {
        0
    } else {
        ways_upto(bb, combos, n - 1, in_total, per_line) + if legal(
            marked_upto(bb, combos[n - 1], 25),
            in_total,
            per_line,
        ) {
            1int
        } else {
            0int
        }
    }
}

/// The number of legal ways to choose `cs` special squares among the special
/// locations of a bomb placement.
pub open spec fn ways(bb: [[bool; 5]; 5], cs: int, in_total: int, per_line: int) -> int {
    let combos = picks(Seq::empty(), special_rank(bb, 25) as nat, cs as nat, 0);
    ways_upto(bb, combos, combos.len() as int, in_total, per_line)
}

proof fn lemma_rank_monotone(bb: [[bool; 5]; 5], a: int, b: int)
    requires
        0 <= a <= b,
    ensures
        0 <= special_rank(bb, a) <= special_rank(bb, b) <= b,
    decreases b,
{
    if a < b {
        lemma_rank_monotone(bb, a, b - 1);
    } else {
        lemma_count_bound(bomb_free_line_at(bb), a);
    }
}

proof fn lemma_ways_bound(
    bb: [[bool; 5]; 5],
    combos: Seq<Seq<bool>>,
    n: int,
    in_total: int,
    per_line: int,
)
    requires
        0 <= n,
    ensures
        0 <= ways_upto(bb, combos, n, in_total, per_line) <= n,
    decreases n,
{
    if n > 0 {
        lemma_ways_bound(bb, combos, n - 1, in_total, per_line);
    }
}

/// Flags the special locations that `combo` chooses.
fn mark_specials(bb: &[[bool; 5]; 5], combo: &Vec<bool>) -> (marked: [[bool; 5]; 5])
    requires
        combo.len() == special_rank(*bb, 25),
    ensures
        marked == marked_upto(*bb, combo@, 25),
{
    let mut board_special: [[bool; 5]; 5] = [[false;5];5];
    let mut index: usize = 0;
    proof {
        lemma_no_flags();
        assert forall|j: int| 0 <= j < 25 implies #[trigger] flag_at(board_special, j) == flag_at(
            no_flags(),
            j,
        ) by {
            assert(board_special[j / 5][j % 5] == false);
        }
        lemma_flags_equal(board_special, no_flags());
    }
    for row in 0..5usize
        invariant
            combo.len() == special_rank(*bb, 25),
            index == special_rank(*bb, 5 * row),
            board_special == marked_upto(*bb, combo@, 5 * row),
    {
        for col in 0..5usize
            invariant
                row < 5,
                combo.len() == special_rank(*bb, 25),
                index == special_rank(*bb, 5 * row + col),
                board_special == marked_upto(*bb, combo@, 5 * row + col),
        {
            let ghost n: int = 5 * row + col;
            let ghost before = board_special;
            proof {
                assert(n / 5 == row && n % 5 == col);
                lemma_rank_monotone(*bb, n + 1, 25);
                lemma_rank_monotone(*bb, n, n + 1);
                assert(bomb_free_line_at(*bb)(n) == bomb_free_line(*bb, row as int, col as int));
            }
            if is_special_location_bomb_bitset(bb, row, col) {
                if combo[index] {
                    board_special[row][col] = true;
                    proof {
                        lemma_flags_with(before, n, true);
                        assert forall|j: int| 0 <= j < 25 implies #[trigger] flag_at(
                            board_special,
                            j,
                        ) == flag_at(flags_with(before, n, true), j) by {
                            assert(flag_at(flags_with(before, n, true), j) == if j == n {
                                true
                            } else {
                                flag_at(before, j)
                            });
                            if j != n {
                                assert(j / 5 != row || j % 5 != col);
                            }
                        }
                        lemma_flags_equal(board_special, flags_with(before, n, true));
                    }
                }
                index += 1;
            }
        }
    }
    board_special
}

/// The number of legal ways to choose `cs` special squares among the `csl`
/// special locations of a bomb placement.
fn count_ways(bb: &[[bool; 5]; 5], csl: usize, cs: usize, in_total: usize, per_line: usize) -> (found:
    usize)
    requires
        csl == special_rank(*bb, 25),
        cs <= csl,
        per_line < usize::MAX,
    ensures
        found == ways(*bb, cs as int, in_total as int, per_line as int),
        found <= binomial(csl as nat, cs as nat),
{
    let combos = nk_list(csl, cs);
    let ghost rows = bit_rows(combos);
    let mut found: usize = 0;
    let mut k: usize = 0;
    proof {
        lemma_picks_len(Seq::empty(), csl as nat, cs as nat, 0);
    }
    while k < combos.len()
        invariant
            k <= combos.len(),
            csl == special_rank(*bb, 25),
            cs <= csl,
            per_line < usize::MAX,
            rows == bit_rows(combos),
            rows == picks(Seq::empty(), csl as nat, cs as nat, 0),
            rows.len() == binomial(csl as nat, cs as nat),
            found == ways_upto(*bb, rows, k as int, in_total as int, per_line as int),
        decreases combos.len() - k,
    {
        proof {
            lemma_picks_member(Seq::empty(), csl as nat, cs as nat, 0, k as int);
            lemma_ways_bound(*bb, rows, k as int, in_total as int, per_line as int);
            assert(rows[k as int] == combos[k as int]@);
        }
        let board_special = mark_specials(bb, &combos[k]);
        let lines_illegal = contains_line(&board_special, per_line + 1);
        let total_illegal = count_set_squares(&board_special) > in_total;
        if !(lines_illegal || total_illegal) {
            found += 1;
        }
        k += 1;
    }
    proof {
        lemma_ways_bound(*bb, rows, rows.len() as int, in_total as int, per_line as int);
    }
    found
}

/// Special squares take twos and threes only.
pub open spec fn only_specials() -> Seq<bool> {
    seq![false, false, true, true]
}

/// What is left for the cells that are no special squares when `cs` of the
/// `csl` special locations are special squares: no bombs, the ones without
/// those that fill the other special locations, the twos and the threes.
pub open spec fn rest_symbols(nr_symbols: [usize; 4], csl: int, cs: int) -> Seq<usize> {
    seq![0usize, (nr_symbols[1] - (csl - cs)) as usize, nr_symbols[2], nr_symbols[3]]
}

/// The number of ways to hand out a split: what is left goes to the cells
/// that are no special squares, the twos and threes that are taken go to the
/// special squares.
pub open spec fn split_value(pair: (Seq<usize>, Seq<usize>)) -> int {
    (multinomial(pair.1) * binomial((pair.0[2] + pair.0[3]) as nat, pair.0[2] as nat)) as int
}

/// The sum over the first `n` splits of the ways to hand them out, each
/// times the ways to choose the special squares.
pub open spec fn splits_sum(pairs: Seq<(Seq<usize>, Seq<usize>)>, n: int, ways: int) -> int
    decreases n,
{
    if n <= 0 {
        0
    } else {
        splits_sum(pairs, n - 1, ways) + split_value(pairs[n - 1]) * ways
    }
}

/// The number of grids with the bombs at `bb` and exactly `cs` special
/// squares, by the counting formula.
pub open spec fn for_specials(
    bb: [[bool; 5]; 5],
    nr_symbols: [usize; 4],
    cs: int,
    in_total: int,
    per_line: int,
) -> int {
    let csl = special_rank(bb, 25);
    if nr_symbols[1] + cs < csl {
        0
    } else {
        let pairs = splits(
            Seq::empty(),
            0,
            only_specials(),
            rest_symbols(nr_symbols, csl, cs),
            cs as nat,
        );
        splits_sum(pairs, pairs.len() as int, ways(bb, cs, in_total, per_line))
    }
}

/// The number of grids with the bombs at `bb` and fewer than `n` special
/// squares, by the counting formula.
pub open spec fn for_placement_upto(
    bb: [[bool; 5]; 5],
    nr_symbols: [usize; 4],
    n: int,
    in_total: int,
    per_line: int,
) -> int
    decreases n,
{
    if n <= 0 {
        0
    } else {
        for_placement_upto(bb, nr_symbols, n - 1, in_total, per_line) + for_specials(
            bb,
            nr_symbols,
            n - 1,
            in_total,
            per_line,
        )
    }
}

/// The largest number of special squares that is tried: the larger of the
/// two limits, but no more than there are special locations.
pub open spec fn most_specials(bb: [[bool; 5]; 5], in_total: int, per_line: int) -> int {
    let limit = if per_line >= in_total {
        per_line
    } else {
        in_total
    };
    if limit <= special_rank(bb, 25) {
        limit
    } else {
        special_rank(bb, 25)
    }
}

/// The sum of the counts for the first `n` bomb placements.
pub open spec fn smart_upto(
    placements: Seq<Seq<bool>>,
    n: int,
    nr_symbols: [usize; 4],
    in_total: int,
    per_line: int,
) -> int
    decreases n,
{
    if n <= 0 {
        0
    } else {
        let bb = crate::math::board_of(placements[n - 1]);
        smart_upto(placements, n - 1, nr_symbols, in_total, per_line) + for_placement_upto(
            bb,
            nr_symbols,
            most_specials(bb, in_total, per_line) + 1,
            in_total,
            per_line,
        )
    }
}

/// The count of the grids of a bucket by the counting formula: the sum over
/// the ways to place the bombs, over the number of special squares and over
/// the ways to split the twos and threes between the special squares and
/// the other cells.
pub open spec fn smart_count(nr_symbols: [usize; 4], in_total: int, per_line: int) -> int {
    let placements = picks(Seq::empty(), 25, nr_symbols[0] as nat, 0);
    smart_upto(placements, placements.len() as int, nr_symbols, in_total, per_line)
}

/// `C(a + b + c, a) * C(b + c, b) <= 3^(a + b + c)`.
proof fn lemma_trinomial_bound(a: nat, b: nat, c: nat)
    ensures
        1 <= binomial(a + b + c, a) * binomial(b + c, b) <= power(3, a + b + c),
{
    lemma_binomial_below_power(b + c, b);
    lemma_binomial_weighted(a + b + c, a, 2);
    lemma_binomial_positive(a + b + c, a);
    let x = binomial(a + b + c, a) as int;
    let y = binomial(b + c, b) as int;
    let p = power(2, b + c) as int;
    assert(x * y <= x * p && x * y >= 1) by (nonlinear_arith)
        requires
            1 <= y <= p,
            x >= 1,
    ;
    assert((a + b + c - a) as nat == b + c);
}

/// The ways to hand out what a split leaves, for a split without bombs.
proof fn lemma_multinomial_of_rest(left: Seq<usize>)
    requires
        left.len() == 4,
        left[0] == 0,
    ensures
        multinomial(left) == binomial((left[1] + left[2] + left[3]) as nat, left[1] as nat)
            * binomial((left[2] + left[3]) as nat, left[2] as nat),
        sum_from(left, 0) == left[1] + left[2] + left[3],
{
    let x = left[1] as nat;
    let y = left[2] as nat;
    let z = left[3] as nat;
    assert(sum_from(left, 4) == 0);
    assert(sum_from(left, 3) == z);
    assert(sum_from(left, 2) == y + z);
    assert(sum_from(left, 1) == x + y + z);
    assert(sum_from(left, 0) == x + y + z);
    assert(multinomial_from(left, 4) == 1);
    crate::math::lemma_binomial_full(z);
    assert(multinomial_from(left, 3) == binomial(z, z) * 1);
    assert(multinomial_from(left, 3) == 1);
    assert(multinomial_from(left, 2) == binomial(y + z, y) * multinomial_from(left, 3));
    assert(multinomial_from(left, 2) == binomial(y + z, y));
    assert(multinomial_from(left, 1) == binomial(x + y + z, x) * multinomial_from(left, 2));
    assert(binomial(x + y + z, 0) == 1);
    assert(multinomial_from(left, 0) == binomial(x + y + z, 0) * multinomial_from(left, 1));
    assert(multinomial_from(left, 0) == multinomial_from(left, 1)) by (nonlinear_arith)
        requires
            multinomial_from(left, 0) == binomial(x + y + z, 0) * multinomial_from(left, 1),
            binomial(x + y + z, 0) == 1,
    ;
}

/// With a last symbol to choose there is at most one way to reach the size.
proof fn lemma_last_level(
    prefix: Seq<usize>,
    size: nat,
    c: nat,
    only: Seq<bool>,
    available: Seq<usize>,
    size_fms: nat,
)
    requires
        prefix.len() == 3,
        available.len() == 4,
    ensures
        splits_from(prefix, size, c, only, available, size_fms).len() <= if size + c <= size_fms {
            1int
        } else {
            0int
        },
    decreases usize::MAX + 1 - c,
{
    if c <= available[3] {
        lemma_last_level(prefix, size, c + 1, only, available, size_fms);
        let longer = prefix.push(c as usize);
        assert(splits(longer, size + c, only, available, size_fms).len() == if size + c
            == size_fms {
            1int
        } else {
            0int
        });
    }
}

/// With two symbols to choose there are at most as many splits as pieces
/// are missing, and one.
proof fn lemma_third_level(
    prefix: Seq<usize>,
    size: nat,
    c: nat,
    only: Seq<bool>,
    available: Seq<usize>,
    size_fms: nat,
)
    requires
        prefix.len() == 2,
        available.len() == 4,
    ensures
        splits_from(prefix, size, c, only, available, size_fms).len() <= if size + c <= size_fms {
            size_fms - size - c + 1
        } else {
            0int
        },
    decreases usize::MAX + 1 - c,
{
    if c <= available[2] {
        lemma_third_level(prefix, size, c + 1, only, available, size_fms);
        let longer = prefix.push(c as usize);
        lemma_last_level(longer, size + c, 0, only, available, size_fms);
        assert(splits(longer, size + c, only, available, size_fms) == splits_from(
            longer,
            size + c,
            0,
            only,
            available,
            size_fms,
        ));
    }
}

/// Of a symbol that may not be taken, nothing but 0 pieces is taken.
proof fn lemma_blocked(
    prefix: Seq<usize>,
    size: nat,
    c: nat,
    only: Seq<bool>,
    available: Seq<usize>,
    size_fms: nat,
)
    requires
        prefix.len() < 4,
        available.len() == 4,
        only.len() == 4,
        !only[prefix.len() as int],
        c >= 1,
    ensures
        splits_from(prefix, size, c, only, available, size_fms).len() == 0,
    decreases usize::MAX + 1 - c,
{
    if c <= available[prefix.len() as int] {
        lemma_blocked(prefix, size, c + 1, only, available, size_fms);
    }
}

/// There are at most `size_fms + 1` ways to take `size_fms` twos and threes.
proof fn lemma_splits_few(available: Seq<usize>, size_fms: nat)
    requires
        available.len() == 4,
    ensures
        splits(Seq::empty(), 0, only_specials(), available, size_fms).len() <= size_fms + 1,
{
    let only = only_specials();
    let none = Seq::<usize>::empty();
    let one = none.push(0usize);
    let two = one.push(0usize);
    lemma_blocked(none, 0, 1, only, available, size_fms);
    lemma_blocked(one, 0, 1, only, available, size_fms);
    lemma_third_level(two, 0, 0, only, available, size_fms);
    assert(splits(two, 0, only, available, size_fms) == splits_from(
        two,
        0,
        0,
        only,
        available,
        size_fms,
    ));
    assert(splits(one, 0, only, available, size_fms) == splits_from(
        one,
        0,
        0,
        only,
        available,
        size_fms,
    ));
    assert(splits(none, 0, only, available, size_fms) == splits_from(
        none,
        0,
        0,
        only,
        available,
        size_fms,
    ));
    assert(may_take(one, 0, 0, only, size_fms));
    assert(may_take(none, 0, 0, only, size_fms));
}

/// What one split adds to the count stays below `3^m`, where `m` is the
/// number of cells that hold no bomb.
#[verifier::rlimit(40)]
proof fn lemma_term_bound(
    available: Seq<usize>,
    csl: nat,
    cs: nat,
    j: int,
)
    requires
        available.len() == 4,
        available[0] == 0,
        cs <= csl <= 25,
        available[1] + available[2] + available[3] + csl - cs <= 25,
        0 <= j < splits(Seq::empty(), 0, only_specials(), available, cs).len(),
    ensures
        ({
            let pair = splits(Seq::empty(), 0, only_specials(), available, cs)[j];
            let m = (available[1] + available[2] + available[3] + csl - cs) as nat;
            &&& pair.0.len() == 4
            &&& pair.1.len() == 4
            &&& pair.0[2] + pair.0[3] == cs
            &&& pair.1[0] == 0
            &&& sum_from(pair.1, 0) <= available[1] + available[2] + available[3]
            &&& 1 <= multinomial(pair.1)
            &&& 1 <= binomial(cs, pair.0[2] as nat)
            &&& multinomial(pair.1) * sum_from(pair.1, 0) <= power(3, m) * 25
            &&& binomial(cs, pair.0[2] as nat) * short_side(cs, pair.0[2] as nat) <= power(3, m)
                * 25
            &&& split_value(pair) * binomial(csl, cs) <= power(3, m)
            &&& 1 <= split_value(pair) <= power(3, m)
        }),
{
    let only = only_specials();
    let pair = splits(Seq::empty(), 0, only, available, cs)[j];
    let taken = pair.0;
    let left = pair.1;
    assert(sum_from(Seq::<usize>::empty(), 0) == 0);
    lemma_splits_member(Seq::empty(), 0, only, available, cs, j);
    assert(taken[0] + left[0] == available[0]);
    assert(taken[1] + left[1] == available[1]);
    assert(taken[2] + left[2] == available[2]);
    assert(taken[3] + left[3] == available[3]);
    assert(taken[0] == 0);
    if taken[1] > 0 {
        assert(only[1]);
    }
    assert(taken[1] == 0);
    assert(sum_from(taken, 4) == 0);
    assert(sum_from(taken, 3) == taken[3]);
    assert(sum_from(taken, 2) == taken[2] + taken[3]);
    assert(sum_from(taken, 1) == taken[1] + sum_from(taken, 2));
    assert(sum_from(taken, 0) == taken[0] + sum_from(taken, 1));
    let a2 = taken[2] as nat;
    let a3 = taken[3] as nat;
    assert(a2 + a3 == cs);
    let x = left[1] as nat;
    let y = left[2] as nat;
    let z = left[3] as nat;
    let s = x + y + z;
    let m = (available[1] + available[2] + available[3] + csl - cs) as nat;
    assert(s + csl == m);
    lemma_multinomial_of_rest(left);
    lemma_trinomial_bound(x, y, z);
    let mult = multinomial(left) as int;
    assert(1 <= mult <= power(3, s));
    // the twos among the special squares, and the special squares among the locations
    lemma_binomial_below_power(cs, a2);
    lemma_binomial_symmetric(csl, cs);
    lemma_binomial_weighted(csl, (csl - cs) as nat, 2);
    lemma_binomial_positive(csl, cs);
    let w23 = binomial(cs, a2) as int;
    let all = binomial(csl, cs) as int;
    assert((csl - (csl - cs)) as nat == cs);
    assert(all * power(2, cs) <= power(3, csl));
    assert(w23 * all <= power(3, csl) && w23 <= w23 * all) by (nonlinear_arith)
        requires
            1 <= w23 <= power(2, cs),
            all >= 1,
            all * power(2, cs) <= power(3, csl),
    ;
    lemma_power_add(3, s, csl);
    lemma_power_positive(3, s);
    lemma_power_positive(3, csl);
    let ps = power(3, s) as int;
    let pc = power(3, csl) as int;
    let pm = power(3, m) as int;
    assert(pm == ps * pc);
    assert((mult * w23) * all <= pm && mult * w23 <= pm && mult <= pm && w23 <= pm && mult * w23
        >= 1) by (nonlinear_arith)
        requires
            1 <= mult <= ps,
            1 <= w23,
            w23 <= w23 * all,
            w23 * all <= pc,
            all >= 1,
            pm == ps * pc,
            ps >= 1,
            pc >= 1,
    ;
    assert(mult * sum_from(left, 0) <= pm * 25) by (nonlinear_arith)
        requires
            1 <= mult <= pm,
            0 <= sum_from(left, 0) <= 25,
    ;
    assert(short_side(cs, a2) <= 25);
    assert(w23 * short_side(cs, a2) <= pm * 25) by (nonlinear_arith)
        requires
            1 <= w23 <= pm,
            0 <= short_side(cs, a2) <= 25,
    ;
    assert(split_value(pair) == mult * w23);
}

/// The largest count that the counting formula is computed for: `676 * 4^25`.
pub const COUNT_LIMIT: u64 = 761108337025613824;

/// The sum over the splits of the twos and threes between `cs` special
/// squares and the other cells.
#[verifier::rlimit(40)]
fn sum_splits(nr_non_special: &[usize; 4], cs: usize, ways: usize, Ghost(csl): Ghost<nat>) -> (sum:
    usize)
    requires
        nr_non_special[0] == 0,
        cs <= csl <= 25,
        nr_non_special[1] + nr_non_special[2] + nr_non_special[3] + csl - cs <= 25,
        ways <= binomial(csl, cs as nat),
        usize::MAX >= COUNT_LIMIT,
    ensures
        sum == splits_sum(
            splits(Seq::empty(), 0, only_specials(), nr_non_special@, cs as nat),
            splits(Seq::empty(), 0, only_specials(), nr_non_special@, cs as nat).len() as int,
            ways as int,
        ),
        sum <= 26 * power(
            3,
            (nr_non_special[1] + nr_non_special[2] + nr_non_special[3] + csl - cs) as nat,
        ),
{
    let only: [bool; 4] = [false, false, true, true];
    assert(only@ =~= only_specials());
    let pairs = split_multiset(nr_non_special, cs, only);
    let ghost all = split_pairs(pairs);
    let ghost m = (nr_non_special[1] + nr_non_special[2] + nr_non_special[3] + csl - cs) as nat;
    let ghost top = power(3, m) as int;
    proof {
        lemma_splits_few(nr_non_special@, cs as nat);
        lemma_power_values();
        lemma_power_monotone(3, m, 25);
        lemma_power_positive(3, m);
    }
    let mut sum: usize = 0;
    let mut j: usize = 0;
    while j < pairs.len()
        invariant
            j <= pairs.len(),
            pairs.len() <= cs + 1,
            nr_non_special[0] == 0,
            cs <= csl <= 25,
            m == nr_non_special[1] + nr_non_special[2] + nr_non_special[3] + csl - cs,
            m <= 25,
            ways <= binomial(csl, cs as nat),
            usize::MAX >= COUNT_LIMIT,
            all == split_pairs(pairs),
            all == splits(Seq::empty(), 0, only_specials(), nr_non_special@, cs as nat),
            top == power(3, m),
            1 <= top <= 847288609443,
            sum == splits_sum(all, j as int, ways as int),
            sum <= j * top,
        decreases pairs.len() - j,
    {
        let as23 = pairs[j][0];
        let a_rest = pairs[j][1];
        let ghost pair = all[j as int];
        proof {
            lemma_term_bound(nr_non_special@, csl, cs as nat, j as int);
            assert(pair.0 == as23@ && pair.1 == a_rest@);
            assert(top * 25 <= usize::MAX) by (nonlinear_arith)
                requires
                    top <= 847288609443,
                    usize::MAX >= 761108337025613824,
            ;
        }
        let ways23 = nk(as23[2] + as23[3], as23[2]);
        let handed = multinomial_coefficient(a_rest.as_slice());
        proof {
            let value = split_value(pair);
            let both = binomial(csl, cs as nat) as int;
            assert(value == handed * ways23);
            assert(value * ways <= top && (j + 1) * top <= 26 * top) by (nonlinear_arith)
                requires
                    1 <= value,
                    value * both <= top,
                    0 <= ways <= both,
                    j + 1 <= 26,
                    top >= 1,
            ;
            assert(sum + value * ways <= (j + 1) * top) by (nonlinear_arith)
                requires
                    sum <= j * top,
                    value * ways <= top,
            ;
            assert(26 * top <= usize::MAX);
        }
        sum += handed * ways23 * ways;
        j += 1;
    }
    assert(sum <= 26 * top) by (nonlinear_arith)
        requires
            sum <= j * top,
            j <= 26,
            top >= 1,
    ;
    sum
}

/// The number of grids with the bombs at `bb`, by the counting formula.
fn count_for_placement(
    bb: &[[bool; 5]; 5],
    nr_symbols: &[usize; 4],
    in_total: usize,
    per_line: usize,
) -> (count: usize)
    requires
        nr_symbols[1] + nr_symbols[2] + nr_symbols[3] <= 25,
        per_line < usize::MAX,
        usize::MAX >= COUNT_LIMIT,
    ensures
        count == for_placement_upto(
            *bb,
            *nr_symbols,
            most_specials(*bb, in_total as int, per_line as int) + 1,
            in_total as int,
            per_line as int,
        ),
        count <= 676 * power(3, (nr_symbols[1] + nr_symbols[2] + nr_symbols[3]) as nat),
{
    let csl = count_special_locations_bomb_bitset(bb);
    let limit = if per_line >= in_total {
        per_line
    } else {
        in_total
    };
    let max_cs = if limit <= csl {
        limit
    } else {
        csl
    };
    let ghost m = (nr_symbols[1] + nr_symbols[2] + nr_symbols[3]) as nat;
    let ghost top = power(3, m) as int;
    proof {
        lemma_count_bound(bomb_free_line_at(*bb), 25);
        lemma_power_values();
        lemma_power_monotone(3, m, 25);
        lemma_power_positive(3, m);
    }
    let mut count: usize = 0;
    let mut cs: usize = 0;
    while cs < max_cs + 1
        invariant
            cs <= max_cs + 1,
            max_cs <= csl <= 25,
            max_cs == most_specials(*bb, in_total as int, per_line as int),
            csl == special_rank(*bb, 25),
            m == nr_symbols[1] + nr_symbols[2] + nr_symbols[3],
            m <= 25,
            per_line < usize::MAX,
            usize::MAX >= COUNT_LIMIT,
            top == power(3, m),
            1 <= top <= 847288609443,
            count == for_placement_upto(
                *bb,
                *nr_symbols,
                cs as int,
                in_total as int,
                per_line as int,
            ),
            count <= cs * (26 * top),
        decreases max_cs + 1 - cs,
    {
        let ghost before = count as int;
        if nr_symbols[1] + cs >= csl {
            let mut nr_non_special: [usize; 4] = *nr_symbols;
            nr_non_special[0] = 0;
            nr_non_special[1] -= csl - cs;
            assert(nr_non_special@ =~= rest_symbols(*nr_symbols, csl as int, cs as int));
            let found = count_ways(bb, csl, cs, in_total, per_line);
            proof {
                assert((cs + 1) * (26 * top) <= 26 * (26 * top)) by (nonlinear_arith)
                    requires
                        cs + 1 <= 26,
                        top >= 1,
                ;
                assert(before + 26 * top <= (cs + 1) * (26 * top)) by (nonlinear_arith)
                    requires
                        before <= cs * (26 * top),
                ;
            }
            let part = sum_splits(&nr_non_special, cs, found, Ghost(csl as nat));
            count += part;
        } else {
            assert(cs * (26 * top) <= (cs + 1) * (26 * top)) by (nonlinear_arith)
                requires
                    top >= 1,
                    cs >= 0,
            ;
        }
        cs += 1;
    }
    assert(count <= 676 * top) by (nonlinear_arith)
        requires
            count <= cs * (26 * top),
            cs <= 26,
            top >= 1,
    ;
    count
}

/// The number of grids of a bucket by the counting formula: for each way to
/// place the bombs and each number of special squares, the ways to choose
/// the special squares within the limits times the ways to hand out the
/// symbols.
pub fn count_valid_smart(nr_symbols: &[usize; 4], in_total: usize, per_line: usize) -> (count: usize)
    requires
        nr_symbols[0] + nr_symbols[1] + nr_symbols[2] + nr_symbols[3] <= 25,
        per_line < usize::MAX,
        usize::MAX >= COUNT_LIMIT,
    ensures
        count == smart_count(*nr_symbols, in_total as int, per_line as int),
{
    let placements = nk_list(25, nr_symbols[0]);
    let ghost rows = bit_rows(placements);
    let ghost bombs = nr_symbols[0] as nat;
    let ghost m = (nr_symbols[1] + nr_symbols[2] + nr_symbols[3]) as nat;
    let ghost top = power(3, m) as int;
    let ghost all = binomial(25, bombs) as int;
    proof {
        lemma_picks_len(Seq::empty(), 25, bombs, 0);
        lemma_power_values();
        lemma_power_monotone(3, m, (25 - bombs) as nat);
        lemma_power_positive(3, m);
        lemma_binomial_weighted(25, bombs, 3);
        let wide = power(3, (25 - bombs) as nat) as int;
        assert(all * (676 * top) <= 761108337025613824) by (nonlinear_arith)
            requires
                all * wide <= 1125899906842624,
                1 <= top <= wide,
                all >= 0,
        ;
    }
    let mut c: usize = 0;
    let mut p: usize = 0;
    while p < placements.len()
        invariant
            p <= placements.len(),
            rows == bit_rows(placements),
            rows == picks(Seq::empty(), 25, bombs, 0),
            rows.len() == all,
            bombs == nr_symbols[0],
            m == nr_symbols[1] + nr_symbols[2] + nr_symbols[3],
            bombs + m <= 25,
            per_line < usize::MAX,
            usize::MAX >= COUNT_LIMIT,
            top == power(3, m),
            top >= 1,
            all * (676 * top) <= 761108337025613824,
            c == smart_upto(rows, p as int, *nr_symbols, in_total as int, per_line as int),
            c <= p * (676 * top),
        decreases placements.len() - p,
    {
        proof {
            lemma_picks_member(Seq::empty(), 25, bombs, 0, p as int);
            assert(rows[p as int] == placements[p as int]@);
        }
        let bb = vec_to_board(&placements[p]);
        let part = count_for_placement(&bb, nr_symbols, in_total, per_line);
        proof {
            assert(c + part <= (p + 1) * (676 * top)) by (nonlinear_arith)
                requires
                    c <= p * (676 * top),
                    part <= 676 * top,
            ;
            assert((p + 1) * (676 * top) <= all * (676 * top)) by (nonlinear_arith)
                requires
                    p + 1 <= all,
                    top >= 1,
            ;
        }
        c += part;
        p += 1;
    }
    c
}

} // verus!
