//! Packed boards and states: a 5x5 grid of 2-bit symbols in one 64-bit word.
//!
//! Cell `(row, col)` occupies the two bits at offset `(4 - row) * 10 + (4 - col) * 2`.
//! In a board the symbol 0 is a bomb; in a state it marks an unrevealed cell.

use vstd::prelude::*;

verus! {

/// Every word below this bound uses the 50 grid bits only.
pub const PACKED_LIMIT: u64 = 0x4_0000_0000_0000;

/// The 2-bit field number `k` of `x`, counted from the least significant end.
pub open spec fn field(x: u64, k: int) -> u64 {
    (x >> ((2 * k) as u64)) & 3
}

/// The symbol of the cell with row-major index `i` (0 is the top left cell).
pub open spec fn cell_at(x: u64, i: int) -> int {
    field(x, 24 - i) as int
}

/// The symbol at cell `(row, col)` of a packed word.
pub open spec fn cell(x: u64, row: int, col: int) -> int {
    cell_at(x, 5 * row + col)
}

/// The word `x` with the cell `(row, col)` replaced by the symbol `v`.
pub open spec fn with_cell(x: u64, row: int, col: int, v: int) -> u64 {
    let by = (2 * (24 - (5 * row + col))) as u64;
    (x & !(3u64 << by)) | ((v as u64) << by)
}

/// A 5x5 grid whose entries are all symbols.
pub open spec fn is_symbol_grid(g: [[usize; 5]; 5]) -> bool {
    forall|r: int, c: int| 0 <= r < 5 && 0 <= c < 5 ==> (#[trigger] g[r][c]) <= 3
}

/// `board` agrees with `state` on every field that `state` has revealed.
pub open spec fn compatible(board: u64, state: u64) -> bool {
    forall|k: int|
        0 <= k < 32 && #[trigger] field(state, k) != 0 ==> field(board, k) == field(state, k)
}

/// Some field holds a 2 or 3 in exactly one of the two words.
pub open spec fn hides_two_or_three(board: u64, state: u64) -> bool {
    exists|k: int| 0 <= k < 32 && (#[trigger] field(board, k) >= 2) != (field(state, k) >= 2)
}

/// Number of revealed cells among the first `n` cells in row-major order.
pub open spec fn assigned_upto(x: u64, n: int) -> int
    decreases n,
{
    if n <= 0 {
        0
    } else {
        assigned_upto(x, n - 1) + if cell_at(x, n - 1) != 0 {
            1int
        } else {
            0int
        }
    }
}

/// Number of revealed cells of a state.
pub open spec fn assigned_count(x: u64) -> int {
    assigned_upto(x, 25)
}

/// Product of the revealed symbols among the first `n` cells in row-major order.
pub open spec fn product_upto(x: u64, n: int) -> int
    decreases n,
{
    if n <= 0 {
        1
    } else {
        product_upto(x, n - 1) * if cell_at(x, n - 1) != 0 {
            cell_at(x, n - 1)
        } else {
            1int
        }
    }
}

/// The coins a state is worth: the product of its revealed symbols, 0 when
/// nothing is revealed.
pub open spec fn coins(x: u64) -> int {
    if assigned_count(x) == 0 {
        0
    } else {
        product_upto(x, 25)
    }
}

/// 3 to the power of `n`.
pub open spec fn pow3(n: int) -> int
    decreases n,
{
    if n <= 0 {
        1
    } else {
        3 * pow3(n - 1)
    }
}

/// A field holds a symbol: a value from 0 to 3.
pub proof fn lemma_field_bound(x: u64, k: int)
    requires
        0 <= k < 32,
    ensures
        field(x, k) <= 3,
{
    let s = (2 * k) as u64;
    assert((x >> s) & 3 <= 3) by (bit_vector);
}

/// Fields of the word that `set_in_packed_state` builds.
proof fn lemma_field_of_set(x: u64, k: int, v: u64, j: int)
    requires
        0 <= k < 32,
        0 <= j < 32,
        v <= 3,
    ensures
        field((x & !(3u64 << ((2 * k) as u64))) | (v << ((2 * k) as u64)), j) == if j == k {
            v
        } else {
            field(x, j)
        },
{
    let s = (2 * k) as u64;
    let t = (2 * j) as u64;
    assert(s < 64 && t < 64 && s % 2 == 0 && t % 2 == 0 && v <= 3 ==> (((x & !(3u64 << s)) | (v
        << s)) >> t) & 3 == (if s == t {
        v
    } else {
        (x >> t) & 3
    })) by (bit_vector);
}

/// Two words with the same 32 fields are equal.
pub proof fn lemma_fields_equal(x: u64, y: u64)
    requires
        forall|k: int| 0 <= k < 32 ==> field(x, k) == field(y, k),
    ensures
        x == y,
{
    lemma_fields_equal_from(x, y, 0);
    assert(x >> 0u64 == x && y >> 0u64 == y) by (bit_vector);
}

proof fn lemma_fields_equal_from(x: u64, y: u64, k: int)
    requires
        0 <= k < 32,
        forall|j: int| k <= j < 32 ==> field(x, j) == field(y, j),
    ensures
        x >> ((2 * k) as u64) == y >> ((2 * k) as u64),
    decreases 32 - k,
{
    let s = (2 * k) as u64;
    assert(field(x, k) == field(y, k));
    if k == 31 {
        assert((x >> 62u64) & 3 == (y >> 62u64) & 3 ==> x >> 62u64 == y >> 62u64) by (bit_vector);
    } else {
        lemma_fields_equal_from(x, y, k + 1);
        let above = (2 * (k + 1)) as u64;
        assert(above == s + 2);
        assert(s <= 60 && x >> ((s + 2) as u64) == y >> ((s + 2) as u64) && (x >> s) & 3 == (y >> s)
            & 3 ==> x >> s == y >> s) by (bit_vector);
    }
}

/// A word below `PACKED_LIMIT` has nothing outside the 25 grid cells.
pub proof fn lemma_packed_high_fields(x: u64, k: int)
    requires
        x < PACKED_LIMIT,
        25 <= k < 32,
    ensures
        field(x, k) == 0,
{
    let t = (2 * k) as u64;
    assert(x < 0x4_0000_0000_0000 && 50 <= t < 64 ==> (x >> t) & 3 == 0) by (bit_vector);
}

/// Two words below `PACKED_LIMIT` with the same 25 cells are equal.
pub proof fn lemma_cells_equal(x: u64, y: u64)
    requires
        x < PACKED_LIMIT,
        y < PACKED_LIMIT,
        forall|r: int, c: int| 0 <= r < 5 && 0 <= c < 5 ==> cell(x, r, c) == cell(y, r, c),
    ensures
        x == y,
{
    assert forall|k: int| 0 <= k < 32 implies field(x, k) == field(y, k) by {
        if k >= 25 {
            lemma_packed_high_fields(x, k);
            lemma_packed_high_fields(y, k);
        } else {
            let i = 24 - k;
            let r = i / 5;
            let c = i % 5;
            assert(cell(x, r, c) == cell(y, r, c));
            assert(5 * r + c == i);
        }
    }
    lemma_fields_equal(x, y);
}

/// The symbol at cell `(row, col)` of a packed word.
pub fn get_from_packed_state(packed_state: u64, row: usize, col: usize) -> (symbol: usize)
    requires
        row < 5,
        col < 5,
    ensures
        symbol == cell(packed_state, row as int, col as int),
        symbol <= 3,
{
    let by: u64 = ((4 - row) * 10 + (4 - col) * 2) as u64;
    assert((packed_state >> by) & 3 <= 3) by (bit_vector);
    ((packed_state >> by) & 0x3) as usize
}

/// The packed word with the cell `(row, col)` replaced by `symbol`; every
/// other bit stays.
pub fn set_in_packed_state(packed_state: u64, row: usize, col: usize, symbol: usize) -> (next: u64)
    requires
        row < 5,
        col < 5,
        symbol <= 3,
    ensures
        next == with_cell(packed_state, row as int, col as int, symbol as int),
        cell(next, row as int, col as int) == symbol,
        forall|k: int|
            0 <= k < 32 && k != 24 - (5 * row + col) ==> #[trigger] field(next, k) == field(
                packed_state,
                k,
            ),
        forall|r: int, c: int|
            0 <= r < 5 && 0 <= c < 5 && (r != row || c != col) ==> #[trigger] cell(next, r, c)
                == cell(packed_state, r, c),
        packed_state < PACKED_LIMIT ==> next < PACKED_LIMIT,
{
    let by: u64 = ((4 - row) * 10 + (4 - col) * 2) as u64;
    let v: u64 = symbol as u64;
    let tmp = packed_state & !(0x3u64 << by);
    let next = tmp | (v << by);
    proof {
        let k = 24 - (5 * row + col);
        assert(by == (2 * k) as u64);
        assert forall|j: int| 0 <= j < 32 implies field(next, j) == if j == k {
            v
        } else {
            field(packed_state, j)
        } by {
            lemma_field_of_set(packed_state, k, v, j);
        }
        assert(packed_state < 0x4_0000_0000_0000 && by <= 48 && v <= 3 ==> (packed_state & !(3u64
            << by)) | (v << by) < 0x4_0000_0000_0000) by (bit_vector);
    }
    next
}

/// The entry of a grid at row-major index `i`.
pub open spec fn grid_at(g: [[usize; 5]; 5], i: int) -> int {
    g[i / 5][i % 5] as int
}

/// The packed word of the first `n` cells of a grid in row-major order.
pub open spec fn packed_upto(g: [[usize; 5]; 5], n: int) -> u64
    decreases n,
{
    if n <= 0 {
        0
    } else {
        with_cell(packed_upto(g, n - 1), (n - 1) / 5, (n - 1) % 5, grid_at(g, n - 1))
    }
}

/// The packed word of a grid.
pub open spec fn packed_of(g: [[usize; 5]; 5]) -> u64 {
    packed_upto(g, 25)
}

/// Cell by cell, what the packed word of the first `n` cells holds.
pub proof fn lemma_packed_upto(g: [[usize; 5]; 5], n: int)
    requires
        is_symbol_grid(g),
        0 <= n <= 25,
    ensures
        packed_upto(g, n) < PACKED_LIMIT,
        forall|i: int|
            0 <= i < 25 ==> #[trigger] cell_at(packed_upto(g, n), i) == if i < n {
                grid_at(g, i)
            } else {
                0
            },
    decreases n,
{
    if n == 0 {
        assert forall|i: int| 0 <= i < 25 implies #[trigger] cell_at(0, i) == 0 by {
            let t = (2 * (24 - i)) as u64;
            assert((0u64 >> t) & 3 == 0) by (bit_vector);
        }
    } else {
        let before = packed_upto(g, n - 1);
        let m = n - 1;
        lemma_packed_upto(g, m);
        assert(g[m / 5][m % 5] <= 3);
        lemma_with_cell(before, m / 5, m % 5, grid_at(g, m));
        assert forall|i: int| 0 <= i < 25 implies #[trigger] cell_at(packed_upto(g, n), i) == if i
            < n {
            grid_at(g, i)
        } else {
            0
        } by {
            assert(cell_at(before, i) == if i < m {
                grid_at(g, i)
            } else {
                0
            });
            assert(field(packed_upto(g, n), 24 - i) == if 24 - i == 24 - (5 * (m / 5) + m % 5) {
                grid_at(g, m) as u64
            } else {
                field(before, 24 - i)
            });
        }
    }
}

/// The packed word of a grid: cell by cell, the grid's symbols.
pub fn array_to_u64(state: &[[usize; 5]; 5]) -> (packed: u64)
    requires
        is_symbol_grid(*state),
    ensures
        packed == packed_of(*state),
        packed < PACKED_LIMIT,
        forall|r: int, c: int|
            0 <= r < 5 && 0 <= c < 5 ==> #[trigger] cell(packed, r, c) == state[r][c],
{
    let mut r: u64 = 0;
    assert(0u64 >> 0u64 == 0) by (bit_vector);
    for row in 0..5usize
        invariant
            is_symbol_grid(*state),
            r >> ((10 * row) as u64) == 0,
            forall|k: int|
                0 <= k < 5 * row ==> #[trigger] field(r, k) == grid_at(*state, 5 * row - 1 - k),
    {
        for col in 0..5usize
            invariant
                row < 5,
                is_symbol_grid(*state),
                r >> ((10 * row + 2 * col) as u64) == 0,
                forall|k: int|
                    0 <= k < 5 * row + col ==> #[trigger] field(r, k) == grid_at(
                        *state,
                        5 * row + col - 1 - k,
                    ),
        {
            let ghost n: int = 5 * row + col;
            let ghost s: u64 = (2 * n) as u64;
            let v: u64 = state[row][col] as u64;
            let ghost before = r;
            assert(state[row as int][col as int] <= 3);
            r = r << 2;
            r = r | v;
            proof {
                assert(s <= 48 && v <= 3 && before >> s == 0 ==> ((before << 2) | v) >> ((s
                    + 2) as u64) == 0 && (((before << 2) | v) >> 0u64) & 3 == v) by (bit_vector);
                assert(n / 5 == row && n % 5 == col);
                assert forall|k: int| 0 <= k < n + 1 implies #[trigger] field(r, k) == grid_at(
                    *state,
                    n - k,
                ) by {
                    if k > 0 {
                        let t: u64 = (2 * (k - 1)) as u64;
                        assert(field(before, k - 1) == grid_at(*state, n - 1 - (k - 1)));
                        assert(t <= 48 && v <= 3 ==> (((before << 2) | v) >> ((t + 2) as u64)) & 3
                            == ((before << 2) >> ((t + 2) as u64)) & 3) by (bit_vector);
                        assert(s <= 48 && t < s && before >> s == 0 ==> ((before << 2) >> ((t
                            + 2) as u64)) & 3 == (before >> t) & 3) by (bit_vector);
                    }
                }
            }
        }
    }
    proof {
        assert(r >> 50u64 == 0 ==> r < 0x4_0000_0000_0000) by (bit_vector);
        assert forall|row: int, col: int| 0 <= row < 5 && 0 <= col < 5 implies #[trigger] cell(
            r,
            row,
            col,
        ) == state[row][col] by {
            let i = 5 * row + col;
            assert(field(r, 24 - i) == grid_at(*state, 25 - 1 - (24 - i)));
            assert(i / 5 == row && i % 5 == col);
        }
        lemma_packed_upto(*state, 25);
        assert forall|row: int, col: int| 0 <= row < 5 && 0 <= col < 5 implies cell(r, row, col)
            == cell(packed_of(*state), row, col) by {
            let i = 5 * row + col;
            assert(i / 5 == row && i % 5 == col);
            assert(cell_at(packed_upto(*state, 25), i) == grid_at(*state, i));
        }
        lemma_cells_equal(r, packed_of(*state));
    }
    r
}

/// The grid of a packed word; bits above the grid are ignored.
pub fn u64_to_array(r: u64) -> (state: [[usize; 5]; 5])
    ensures
        is_symbol_grid(state),
        forall|row: int, col: int|
            0 <= row < 5 && 0 <= col < 5 ==> #[trigger] state[row][col] == cell(r, row, col),
{
    let mut state: [[usize; 5]; 5] = [[0usize;5];5];
    for row in 0..5usize
        invariant
            forall|a: int, b: int|
                0 <= a < row && 0 <= b < 5 ==> #[trigger] state[a][b] == cell(r, a, b),
    {
        for col in 0..5usize
            invariant
                row < 5,
                forall|a: int, b: int|
                    0 <= a < row && 0 <= b < 5 ==> #[trigger] state[a][b] == cell(r, a, b),
                forall|b: int| 0 <= b < col ==> #[trigger] state[row as int][b] == cell(r, row as int, b),
        {
            state[row][col] = get_from_packed_state(r, row, col);
        }
    }
    proof {
        assert forall|a: int, b: int| 0 <= a < 5 && 0 <= b < 5 implies (#[trigger] state[a][b])
            <= 3 by {
            assert(state[a][b] == cell(r, a, b));
            lemma_field_bound(r, 24 - (5 * a + b));
        }
    }
    state
}

/// Fields of a word after one cell was replaced.
pub proof fn lemma_with_cell(x: u64, row: int, col: int, v: int)
    requires
        0 <= row < 5,
        0 <= col < 5,
        0 <= v <= 3,
    ensures
        forall|k: int|
            0 <= k < 32 ==> #[trigger] field(with_cell(x, row, col, v), k) == if k == 24 - (5
                * row + col) {
                v as u64
            } else {
                field(x, k)
            },
        x < PACKED_LIMIT ==> with_cell(x, row, col, v) < PACKED_LIMIT,
{
    let k0 = 24 - (5 * row + col);
    let by = (2 * k0) as u64;
    let w = v as u64;
    assert forall|k: int| 0 <= k < 32 implies #[trigger] field(with_cell(x, row, col, v), k)
        == if k == k0 {
        w
    } else {
        field(x, k)
    } by {
        lemma_field_of_set(x, k0, w, k);
    }
    assert(x < 0x4_0000_0000_0000 && by <= 48 && w <= 3 ==> (x & !(3u64 << by)) | (w << by)
        < 0x4_0000_0000_0000) by (bit_vector);
}

/// Whether `packed_board` can still be the hidden board when `packed_state`
/// is what has been revealed.
pub fn is_possible_board_of_state(packed_board: u64, packed_state: u64) -> (possible: bool)
    ensures
        possible == compatible(packed_board, packed_state),
{
    let mask_upper = 0xAAAA_AAAA_AAAA_AAAA_u64;
    let upper_bits = mask_upper & packed_state;
    let mask_lower = 0x5555_5555_5555_5555_u64;
    let lower_bits = mask_lower & packed_state;
    let mask_assigned = packed_state | (lower_bits << 1) | (upper_bits >> 1);
    let masked = packed_board & mask_assigned;
    proof {
        assert forall|k: int| 0 <= k < 32 implies #[trigger] field(masked, k) == if field(
            packed_state,
            k,
        ) != 0 {
            field(packed_board, k)
        } else {
            0
        } by {
            let t = (2 * k) as u64;
            let b = packed_board;
            let x = packed_state;
            assert(t < 64 && t % 2 == 0 ==> ((b & (x | ((0x5555_5555_5555_5555u64 & x) << 1) | ((
            0xAAAA_AAAA_AAAA_AAAAu64 & x) >> 1))) >> t) & 3 == (if (x >> t) & 3 != 0 {
                (b >> t) & 3
            } else {
                0
            })) by (bit_vector);
        }
        if compatible(packed_board, packed_state) {
            assert forall|k: int| 0 <= k < 32 implies field(masked, k) == field(
                packed_state,
                k,
            ) by {
                assert(field(masked, k) == if field(packed_state, k) != 0 {
                    field(packed_board, k)
                } else {
                    0
                });
            }
            lemma_fields_equal(masked, packed_state);
        }
        if masked == packed_state {
            assert forall|k: int| 0 <= k < 32 && #[trigger] field(packed_state, k)
                != 0 implies field(packed_board, k) == field(packed_state, k) by {
                assert(field(masked, k) == if field(packed_state, k) != 0 {
                    field(packed_board, k)
                } else {
                    0
                });
            }
        }
    }
    masked == packed_state
}

/// Whether `packed_board` holds a 2 or 3 that `packed_state` has not revealed.
pub fn board_has_possible_2_3_for_state(packed_board: u64, packed_state: u64) -> (has: bool)
    ensures
        has == hides_two_or_three(packed_board, packed_state),
{
    let mask_upper = 0xAAAA_AAAA_AAAA_AAAA_u64;
    let upper_board = packed_board & mask_upper;
    let upper_state = packed_state & mask_upper;
    proof {
        assert forall|x: u64, k: int| 0 <= k < 32 implies #[trigger] field(
            x & 0xAAAA_AAAA_AAAA_AAAAu64,
            k,
        ) == if field(x, k) >= 2 {
            2u64
        } else {
            0u64
        } by {
            let t = (2 * k) as u64;
            assert(t < 64 && t % 2 == 0 ==> ((x & 0xAAAA_AAAA_AAAA_AAAAu64) >> t) & 3 == (if (x
                >> t) & 3 >= 2 {
                2u64
            } else {
                0u64
            })) by (bit_vector);
        }
        if upper_board != upper_state {
            if !hides_two_or_three(packed_board, packed_state) {
                assert forall|k: int| 0 <= k < 32 implies field(upper_board, k) == field(
                    upper_state,
                    k,
                ) by {
                    assert((field(packed_board, k) >= 2) == (field(packed_state, k) >= 2));
                }
                lemma_fields_equal(upper_board, upper_state);
            }
        } else {
            assert forall|k: int| 0 <= k < 32 implies (#[trigger] field(packed_board, k) >= 2) == (
            field(packed_state, k) >= 2) by {
                assert(field(upper_board, k) == field(upper_state, k));
            }
        }
    }
    upper_board != upper_state
}

proof fn lemma_pow3_values()
    ensures
        pow3(25) == 847288609443,
        forall|n: int| 0 <= n <= 25 ==> 1 <= #[trigger] pow3(n) <= pow3(25),
{
    assert(pow3(5) == 243) by {
        reveal_with_fuel(pow3, 6);
    }
    lemma_pow3_steps(5, 5, 243, 243);
    lemma_pow3_steps(10, 10, 59049, 59049);
    lemma_pow3_steps(20, 5, 3486784401, 243);
    assert forall|n: int| 0 <= n <= 25 implies 1 <= #[trigger] pow3(n) <= pow3(25) by {
        lemma_pow3_monotone(n, 25);
    }
}

proof fn lemma_pow3_add(a: int, b: int)
    requires
        0 <= a,
        0 <= b,
    ensures
        pow3(a + b) == pow3(a) * pow3(b),
    decreases a,
{
    if a > 0 {
        lemma_pow3_add(a - 1, b);
        assert(3 * (pow3(a - 1) * pow3(b)) == (3 * pow3(a - 1)) * pow3(b)) by (nonlinear_arith);
    } else {
        assert(pow3(0) * pow3(b) == pow3(b)) by (nonlinear_arith)
            requires
                pow3(0) == 1,
        ;
    }
}

proof fn lemma_pow3_steps(a: int, b: int, x: int, y: int)
    requires
        0 <= a,
        0 <= b,
        pow3(a) == x,
        pow3(b) == y,
    ensures
        pow3(a + b) == x * y,
{
    lemma_pow3_add(a, b);
}

proof fn lemma_pow3_monotone(a: int, b: int)
    requires
        0 <= a <= b,
    ensures
        1 <= pow3(a) <= pow3(b),
    decreases b,
{
    if a < b {
        lemma_pow3_monotone(a, b - 1);
    } else if a > 0 {
        lemma_pow3_monotone(a - 1, b - 1);
    }
}

/// The product of the revealed symbols among `n` cells is between 1 and `3^n`.
pub proof fn lemma_product_bound(x: u64, n: int)
    requires
        0 <= n <= 25,
    ensures
        1 <= product_upto(x, n) <= pow3(n),
        0 <= assigned_upto(x, n) <= n,
    decreases n,
{
    if n > 0 {
        lemma_product_bound(x, n - 1);
        lemma_field_bound(x, 24 - (n - 1));
        let p = product_upto(x, n - 1);
        let f = if cell_at(x, n - 1) != 0 {
            cell_at(x, n - 1)
        } else {
            1int
        };
        assert(1 <= p * f <= 3 * pow3(n - 1)) by (nonlinear_arith)
            requires
                1 <= p <= pow3(n - 1),
                1 <= f <= 3,
        ;
    }
}

proof fn lemma_product_of_unassigned(x: u64, n: int)
    requires
        0 <= n <= 25,
        assigned_upto(x, n) == 0,
    ensures
        product_upto(x, n) == 1,
    decreases n,
{
    if n > 0 {
        lemma_product_bound(x, n - 1);
        lemma_product_of_unassigned(x, n - 1);
    }
}

/// The coins of a state: the product of the revealed symbols, 0 when no cell
/// is revealed.
pub fn coins_of_state(state: u64) -> (total: u64)
    ensures
        total == coins(state),
{
    let mut total: u64 = 0;
    proof {
        lemma_pow3_values();
    }
    for r in 0..5usize
        invariant
            pow3(25) == 847288609443,
            total == if assigned_upto(state, 5 * r) == 0 {
                0
            } else {
                product_upto(state, 5 * r)
            },
    {
        for c in 0..5usize
            invariant
                r < 5,
                pow3(25) == 847288609443,
                total == if assigned_upto(state, 5 * r + c) == 0 {
                    0
                } else {
                    product_upto(state, 5 * r + c)
                },
        {
            let s = get_from_packed_state(state, r, c);
            proof {
                let n: int = 5 * r + c;
                lemma_product_bound(state, n);
                lemma_product_bound(state, n + 1);
                lemma_pow3_monotone(n + 1, 25);
                assert(cell_at(state, n) == s);
                assert(assigned_upto(state, n + 1) == assigned_upto(state, n) + if s != 0 {
                    1int
                } else {
                    0int
                });
                assert(product_upto(state, n + 1) == product_upto(state, n) * if s != 0 {
                    s as int
                } else {
                    1int
                });
                if s > 0 && assigned_upto(state, n) == 0 {
                    lemma_product_of_unassigned(state, n);
                }
            }
            let ghost before = total as int;
            if s > 0 {
                if total == 0 {
                    total = s as u64;
                } else {
                    total = total * (s as u64);
                }
            }
            proof {
                let n: int = 5 * r + c;
                let p = product_upto(state, n);
                if s > 0 {
                    assert(product_upto(state, n + 1) == p * (s as int));
                    if before == 0 {
                        assert(p == 1);
                        assert(p * (s as int) == s as int) by (nonlinear_arith)
                            requires
                                p == 1,
                        ;
                    } else {
                        assert(before == p);
                    }
                } else {
                    assert(product_upto(state, n + 1) == p * 1);
                }
            }
        }
    }
    total
}

/// Every word is compatible with itself and hides nothing from itself.
pub proof fn lemma_compatible_with_itself(board: u64)
    ensures
        compatible(board, board),
        !hides_two_or_three(board, board),
{
}

/// Compatibility only tightens with a reveal. A board that is compatible with
/// the state after cell `(row, col)` was set is compatible with the state
/// before exactly if the cell was unrevealed before or already held the
/// board's symbol.
pub proof fn lemma_reveal_tightens(board: u64, state: u64, row: int, col: int, v: int)
    requires
        0 <= row < 5,
        0 <= col < 5,
        0 <= v <= 3,
    ensures
        compatible(board, with_cell(state, row, col, v)) ==> (compatible(board, state) <==> (cell(
            state,
            row,
            col,
        ) == 0 || cell(state, row, col) == cell(board, row, col))),
        compatible(board, with_cell(state, row, col, v)) && cell(state, row, col) == 0
            ==> compatible(board, state),
{
    let next = with_cell(state, row, col, v);
    let k0 = 24 - (5 * row + col);
    lemma_with_cell(state, row, col, v);
    if compatible(board, next) {
        if cell(state, row, col) == 0 || cell(state, row, col) == cell(board, row, col) {
            assert forall|k: int| 0 <= k < 32 && #[trigger] field(state, k) != 0 implies field(
                board,
                k,
            ) == field(state, k) by {
                if k != k0 {
                    assert(field(next, k) == field(state, k));
                }
            }
        } else {
            assert(field(state, k0) != 0);
        }
    }
}

proof fn lemma_upto_of_reveal(state: u64, row: int, col: int, v: int, n: int)
    requires
        0 <= row < 5,
        0 <= col < 5,
        1 <= v <= 3,
        cell(state, row, col) == 0,
        0 <= n <= 25,
    ensures
        product_upto(with_cell(state, row, col, v), n) == product_upto(state, n) * if 5 * row + col
            < n {
            v
        } else {
            1
        },
        assigned_upto(with_cell(state, row, col, v), n) == assigned_upto(state, n) + if 5 * row
            + col < n {
            1int
        } else {
            0int
        },
    decreases n,
{
    if n > 0 {
        let next = with_cell(state, row, col, v);
        lemma_upto_of_reveal(state, row, col, v, n - 1);
        lemma_with_cell(state, row, col, v);
        assert(field(next, 24 - (n - 1)) == if n - 1 == 5 * row + col {
            v as u64
        } else {
            field(state, 24 - (n - 1))
        });
        let p = product_upto(state, n - 1);
        if n - 1 == 5 * row + col {
            assert(product_upto(next, n) == p * v);
            assert(product_upto(state, n) == p * 1);
            assert(p * 1 * v == p * v) by (nonlinear_arith);
        } else {
            let f = if cell_at(state, n - 1) != 0 {
                cell_at(state, n - 1)
            } else {
                1int
            };
            let g = if 5 * row + col < n - 1 {
                v
            } else {
                1int
            };
            assert((p * g) * f == (p * f) * g) by (nonlinear_arith);
        }
    }
}

/// Revealing a symbol `v` on an unrevealed cell of a state that already has a
/// revealed cell multiplies its coins by `v`.
pub proof fn lemma_coins_of_reveal(state: u64, row: int, col: int, v: int)
    requires
        0 <= row < 5,
        0 <= col < 5,
        1 <= v <= 3,
        cell(state, row, col) == 0,
        assigned_count(state) >= 1,
    ensures
        coins(with_cell(state, row, col, v)) == coins(state) * v,
{
    lemma_upto_of_reveal(state, row, col, v, 25);
}

/// A reveal on an unrevealed cell raises the number of revealed cells by
/// one; there are never more than 25.
pub proof fn lemma_assigned_of_reveal(state: u64, row: int, col: int, v: int)
    requires
        0 <= row < 5,
        0 <= col < 5,
        1 <= v <= 3,
        cell(state, row, col) == 0,
    ensures
        assigned_count(with_cell(state, row, col, v)) == assigned_count(state) + 1,
        assigned_count(with_cell(state, row, col, v)) <= 25,
{
    lemma_upto_of_reveal(state, row, col, v, 25);
    lemma_product_bound(with_cell(state, row, col, v), 25);
}

/// The state with nothing revealed is worth no coins.
pub proof fn lemma_coins_of_empty()
    ensures
        coins(0) == 0,
        assigned_count(0) == 0,
{
    assert forall|k: int| 0 <= k < 32 implies field(0, k) == 0 by {
        let t = (2 * k) as u64;
        assert((0u64 >> t) & 3 == 0) by (bit_vector);
    }
    lemma_assigned_of_empty(25);
}

proof fn lemma_assigned_of_empty(n: int)
    requires
        0 <= n <= 25,
        forall|k: int| 0 <= k < 32 ==> field(0, k) == 0,
    ensures
        assigned_upto(0, n) == 0,
    decreases n,
{
    if n > 0 {
        lemma_assigned_of_empty(n - 1);
        assert(field(0, 24 - (n - 1)) == 0);
    }
}

} // verus!
