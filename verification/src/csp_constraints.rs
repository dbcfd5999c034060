//! The board enumerator: all boards that meet the margins of the rows and
//! columns, agree with what is revealed and fit a bucket of the level,
//! grouped by the set of buckets they fit.

use vstd::prelude::*;
use vstd::array::{spec_array_fill_for_copy_type, spec_array_update};
use crate::level_constraints::{bucket_set, get_buckets_of_state};
use crate::packed::{
    array_to_u64, cell_at, get_from_packed_state, grid_at, is_symbol_grid, packed_of,
};

verus! {

/// The entry of a cell that holds no symbol yet.
pub const UNASSIGNED: usize = 127;

/// Row sums are at most 15 and bomb counts at most 5.
pub open spec fn valid_margins(
    sr: [usize; 5],
    sc: [usize; 5],
    br: [usize; 5],
    bc: [usize; 5],
) -> bool {
    &&& forall|i: int| 0 <= i < 5 ==> (#[trigger] sr[i]) <= 15
    &&& forall|i: int| 0 <= i < 5 ==> (#[trigger] sc[i]) <= 15
    &&& forall|i: int| 0 <= i < 5 ==> (#[trigger] br[i]) <= 5
    &&& forall|i: int| 0 <= i < 5 ==> (#[trigger] bc[i]) <= 5
}

/// Every cell holds a symbol or is unassigned.
pub open spec fn is_partial_grid(g: [[usize; 5]; 5]) -> bool {
    forall|i: int| 0 <= i < 25 ==> #[trigger] grid_at(g, i) <= 3 || grid_at(g, i) == UNASSIGNED
}

/// The grid `g` with the cell of row-major index `i` set to `k`.
pub open spec fn grid_with(g: [[usize; 5]; 5], i: int, k: usize) -> [[usize; 5]; 5] {
    spec_array_update(g, i / 5, spec_array_update(g[i / 5], i % 5, k))
}

/// The grid with no cell assigned.
pub open spec fn blank_grid() -> [[usize; 5]; 5] {
    spec_array_fill_for_copy_type::<[usize; 5], 5>(
        spec_array_fill_for_copy_type::<usize, 5>(UNASSIGNED),
    )
}

/// The cells of a grid after one cell was set.
pub proof fn lemma_grid_with(g: [[usize; 5]; 5], i: int, k: usize)
    requires
        0 <= i < 25,
    ensures
        forall|j: int|
            0 <= j < 25 ==> #[trigger] grid_at(grid_with(g, i, k), j) == if j == i {
                k as int
            } else {
                grid_at(g, j)
            },
{
    broadcast use vstd::array::axiom_spec_array_update;

    assert forall|j: int| 0 <= j < 25 implies #[trigger] grid_at(grid_with(g, i, k), j) == if j
        == i {
        k as int
    } else {
        grid_at(g, j)
    } by {
        let inner = spec_array_update(g[i / 5], i % 5, k);
        assert(inner@ == g[i / 5]@.update(i % 5, k));
        assert(grid_with(g, i, k)@ == g@.update(i / 5, inner));
    }
}

/// Line `line` of a grid: lines 0 to 4 are the rows, lines 5 to 9 the columns.
pub open spec fn line_cell(g: [[usize; 5]; 5], line: int, i: int) -> usize {
    if line < 5 {
        g[line][i]
    } else {
        g[i][line - 5]
    }
}

/// The sum of the points among the first `n` cells of a line.
pub open spec fn points_upto(g: [[usize; 5]; 5], line: int, n: int) -> int
    decreases n,
{
    if n <= 0 {
        0
    } else {
        points_upto(g, line, n - 1) + if 1 <= line_cell(g, line, n - 1) <= 3 {
            line_cell(g, line, n - 1) as int
        } else {
            0
        }
    }
}

/// The number of bombs among the first `n` cells of a line.
pub open spec fn bombs_upto(g: [[usize; 5]; 5], line: int, n: int) -> int
    decreases n,
{
    if n <= 0 {
        0
    } else {
        bombs_upto(g, line, n - 1) + if line_cell(g, line, n - 1) == 0 {
            1int
        } else {
            0
        }
    }
}

/// The number of assigned cells among the first `n` cells of a line.
pub open spec fn filled_upto(g: [[usize; 5]; 5], line: int, n: int) -> int
    decreases n,
{
    if n <= 0 {
        0
    } else {
        filled_upto(g, line, n - 1) + if line_cell(g, line, n - 1) <= 3 {
            1int
        } else {
            0
        }
    }
}

/// The sum that line `line` must reach.
pub open spec fn sum_target(sr: [usize; 5], sc: [usize; 5], line: int) -> int {
    if line < 5 {
        sr[line] as int
    } else {
        sc[line - 5] as int
    }
}

/// The number of bombs that line `line` must hold.
pub open spec fn bomb_target(br: [usize; 5], bc: [usize; 5], line: int) -> int {
    if line < 5 {
        br[line] as int
    } else {
        bc[line - 5] as int
    }
}

/// Can a line with `ass` assigned cells, of sum `sum` and with `bombs` bombs,
/// still reach the sum `s` with `b` bombs? A full line must meet both
/// exactly. Otherwise neither may be exceeded, the missing bombs must fit
/// into the free cells, and the cells left for points must be able to make
/// up the missing sum with symbols from 1 to 3.
pub open spec fn line_feasible(ass: int, sum: int, bombs: int, s: int, b: int) -> bool {
    if ass == 5 {
        sum == s && bombs == b
    } else {
        &&& sum <= s
        &&& bombs <= b
        &&& ass + (b - bombs) <= 5
        &&& 5 - ass - (b - bombs) <= s - sum
        &&& s - sum <= 3 * (5 - ass - (b - bombs))
    }
}

/// Line `line` of `g` can still reach its margins.
pub open spec fn line_ok(
    g: [[usize; 5]; 5],
    line: int,
    sr: [usize; 5],
    sc: [usize; 5],
    br: [usize; 5],
    bc: [usize; 5],
) -> bool {
    line_feasible(
        filled_upto(g, line, 5),
        points_upto(g, line, 5),
        bombs_upto(g, line, 5),
        sum_target(sr, sc, line),
        bomb_target(br, bc, line),
    )
}

/// Every row and column of `g` can still reach its margins.
pub open spec fn feasible(
    g: [[usize; 5]; 5],
    sr: [usize; 5],
    sc: [usize; 5],
    br: [usize; 5],
    bc: [usize; 5],
) -> bool {
    forall|line: int| 0 <= line < 10 ==> #[trigger] line_ok(g, line, sr, sc, br, bc)
}

/// Line `line` of `g` has exactly the sum and the bombs of its margins.
pub open spec fn line_exact(
    g: [[usize; 5]; 5],
    line: int,
    sr: [usize; 5],
    sc: [usize; 5],
    br: [usize; 5],
    bc: [usize; 5],
) -> bool {
    points_upto(g, line, 5) == sum_target(sr, sc, line) && bombs_upto(g, line, 5) == bomb_target(
        br,
        bc,
        line,
    )
}

/// Every row and column of `g` has exactly the sum and the bombs of its
/// margins.
pub open spec fn margins_hold(
    g: [[usize; 5]; 5],
    sr: [usize; 5],
    sc: [usize; 5],
    br: [usize; 5],
    bc: [usize; 5],
) -> bool {
    forall|line: int| 0 <= line < 10 ==> #[trigger] line_exact(g, line, sr, sc, br, bc)
}

/// `h` is a full grid that agrees with `g` on every cell that `g` has
/// assigned.
pub open spec fn extends(g: [[usize; 5]; 5], h: [[usize; 5]; 5]) -> bool {
    &&& is_symbol_grid(h)
    &&& forall|i: int| 0 <= i < 25 && #[trigger] grid_at(g, i) <= 3 ==> grid_at(h, i) == grid_at(g, i)
}

proof fn lemma_line_stats_bound(g: [[usize; 5]; 5], line: int, n: int)
    requires
        0 <= n,
    ensures
        0 <= bombs_upto(g, line, n) <= filled_upto(g, line, n) <= n,
        0 <= points_upto(g, line, n) <= 3 * (filled_upto(g, line, n) - bombs_upto(g, line, n)),
        filled_upto(g, line, n) - bombs_upto(g, line, n) <= points_upto(g, line, n),
    decreases n,
{
    if n > 0 {
        lemma_line_stats_bound(g, line, n - 1);
    }
}

/// What a completion adds to the first `n` cells of a line: bombs on free
/// cells, and on the other free cells between 1 and 3 points each.
#[verifier::rlimit(40)]
proof fn lemma_line_of_completion(g: [[usize; 5]; 5], h: [[usize; 5]; 5], line: int, n: int)
    requires
        extends(g, h),
        0 <= line < 10,
        0 <= n <= 5,
    ensures
        filled_upto(h, line, n) == n,
        bombs_upto(g, line, n) <= bombs_upto(h, line, n),
        points_upto(g, line, n) <= points_upto(h, line, n),
        bombs_upto(h, line, n) - bombs_upto(g, line, n) <= n - filled_upto(g, line, n),
        (n - filled_upto(g, line, n)) - (bombs_upto(h, line, n) - bombs_upto(g, line, n))
            <= points_upto(h, line, n) - points_upto(g, line, n),
        points_upto(h, line, n) - points_upto(g, line, n) <= 3 * ((n - filled_upto(g, line, n)) - (
        bombs_upto(h, line, n) - bombs_upto(g, line, n))),
    decreases n,
{
    if n > 0 {
        lemma_line_of_completion(g, h, line, n - 1);
        let i = n - 1;
        let j = if line < 5 {
            5 * line + i
        } else {
            5 * i + (line - 5)
        };
        let a = line_cell(g, line, i);
        let b = line_cell(h, line, i);
        assert(j / 5 == if line < 5 {
            line
        } else {
            i
        });
        assert(j % 5 == if line < 5 {
            i
        } else {
            line - 5
        });
        assert(grid_at(g, j) == a);
        assert(grid_at(h, j) == b);
        assert(h[j / 5][j % 5] <= 3);
        assert(b <= 3);
        assert(a <= 3 ==> b == a);
        lemma_line_step(g, line, n);
        lemma_line_step(h, line, n);
    }
}

proof fn lemma_line_step(g: [[usize; 5]; 5], line: int, n: int)
    requires
        n > 0,
    ensures
        points_upto(g, line, n) == points_upto(g, line, n - 1) + if 1 <= line_cell(g, line, n - 1)
            <= 3 {
            line_cell(g, line, n - 1) as int
        } else {
            0
        },
        bombs_upto(g, line, n) == bombs_upto(g, line, n - 1) + if line_cell(g, line, n - 1) == 0 {
            1int
        } else {
            0
        },
        filled_upto(g, line, n) == filled_upto(g, line, n - 1) + if line_cell(g, line, n - 1) <= 3 {
            1int
        } else {
            0
        },
{
}

/// A grid that has a completion meeting the margins is feasible.
pub proof fn lemma_feasible_of_completion(
    g: [[usize; 5]; 5],
    h: [[usize; 5]; 5],
    sr: [usize; 5],
    sc: [usize; 5],
    br: [usize; 5],
    bc: [usize; 5],
)
    requires
        extends(g, h),
        margins_hold(h, sr, sc, br, bc),
    ensures
        feasible(g, sr, sc, br, bc),
{
    assert forall|line: int| 0 <= line < 10 implies #[trigger] line_ok(g, line, sr, sc, br, bc) by {
        lemma_line_of_completion(g, h, line, 5);
        lemma_line_stats_bound(g, line, 5);
        assert(line_exact(h, line, sr, sc, br, bc));
    }
}

/// On a full grid, to be feasible is to meet the margins.
pub proof fn lemma_feasible_when_full(
    g: [[usize; 5]; 5],
    sr: [usize; 5],
    sc: [usize; 5],
    br: [usize; 5],
    bc: [usize; 5],
)
    requires
        is_symbol_grid(g),
    ensures
        feasible(g, sr, sc, br, bc) == margins_hold(g, sr, sc, br, bc),
{
    assert forall|line: int| 0 <= line < 10 implies (#[trigger] line_ok(g, line, sr, sc, br, bc))
        == line_exact(g, line, sr, sc, br, bc) by {
        lemma_line_of_completion(g, g, line, 5);
    }
    if feasible(g, sr, sc, br, bc) {
        assert forall|line: int| 0 <= line < 10 implies #[trigger] line_exact(
            g,
            line,
            sr,
            sc,
            br,
            bc,
        ) by {
            assert(line_ok(g, line, sr, sc, br, bc));
        }
    }
    if margins_hold(g, sr, sc, br, bc) {
        assert forall|line: int| 0 <= line < 10 implies #[trigger] line_ok(
            g,
            line,
            sr,
            sc,
            br,
            bc,
        ) by {
            assert(line_exact(g, line, sr, sc, br, bc));
        }
    }
}

fn line_feasible_so_far(ass: usize, sum: usize, bombs: usize, s: usize, b: usize) -> (ok: bool)
    requires
        ass <= 5,
        bombs <= ass,
        sum <= 15,
        b <= 5,
    ensures
        ok == line_feasible(ass as int, sum as int, bombs as int, s as int, b as int),
{
    if ass == 5 {
        if sum != s || bombs != b {
            return false;
        }
    } else {
        if sum > s || bombs > b {
            return false;
        }
        let bn = b - bombs;
        if 5 < ass + bn {
            return false;
        }
        let fs = 5 - ass - bn;
        let sn = s - sum;
        if sn < fs {
            return false;
        }
        if sn > fs * 3 {
            return false;
        }
    }
    true
}

/// Feasible so far: whether every row and column can still reach its
/// margins; on a full grid, whether it meets them.
pub fn fsf(
    a: &[[usize; 5]; 5],
    sr: &[usize; 5],
    sc: &[usize; 5],
    br: &[usize; 5],
    bc: &[usize; 5],
) -> (ok: bool)
    requires
        valid_margins(*sr, *sc, *br, *bc),
    ensures
        ok == feasible(*a, *sr, *sc, *br, *bc),
{
    for row in 0..5usize
        invariant
            valid_margins(*sr, *sc, *br, *bc),
            forall|line: int| 0 <= line < row ==> #[trigger] line_ok(*a, line, *sr, *sc, *br, *bc),
    {
        let mut sum: usize = 0;
        let mut bombs: usize = 0;
        let mut ass: usize = 0;
        for col in 0..5usize
            invariant
                row < 5,
                sum == points_upto(*a, row as int, col as int),
                bombs == bombs_upto(*a, row as int, col as int),
                ass == filled_upto(*a, row as int, col as int),
        {
            proof {
                lemma_line_stats_bound(*a, row as int, col as int);
            }
            let v = a[row][col];
            if v == 1 || v == 2 || v == 3 {
                sum += v;
                ass += 1;
            } else if v == 0 {
                bombs += 1;
                ass += 1;
            }
        }
        proof {
            lemma_line_stats_bound(*a, row as int, 5);
        }
        if !line_feasible_so_far(ass, sum, bombs, sr[row], br[row]) {
            assert(!line_ok(*a, row as int, *sr, *sc, *br, *bc));
            return false;
        }
    }
    for col in 0..5usize
        invariant
            valid_margins(*sr, *sc, *br, *bc),
            forall|line: int| 0 <= line < 5 ==> #[trigger] line_ok(*a, line, *sr, *sc, *br, *bc),
            forall|line: int|
                5 <= line < 5 + col ==> #[trigger] line_ok(*a, line, *sr, *sc, *br, *bc),
    {
        let mut sum: usize = 0;
        let mut bombs: usize = 0;
        let mut ass: usize = 0;
        for row in 0..5usize
            invariant
                col < 5,
                sum == points_upto(*a, 5 + col, row as int),
                bombs == bombs_upto(*a, 5 + col, row as int),
                ass == filled_upto(*a, 5 + col, row as int),
        {
            proof {
                lemma_line_stats_bound(*a, 5 + col, row as int);
            }
            let v = a[row][col];
            if v == 1 || v == 2 || v == 3 {
                sum += v;
                ass += 1;
            } else if v == 0 {
                bombs += 1;
                ass += 1;
            }
        }
        proof {
            lemma_line_stats_bound(*a, 5 + col, 5);
        }
        if !line_feasible_so_far(ass, sum, bombs, sc[col], bc[col]) {
            assert(!line_ok(*a, 5 + col, *sr, *sc, *br, *bc));
            return false;
        }
    }
    true
}

/// What a full assignment contributes: the packed board with the set of
/// buckets it fits, if it meets the margins and fits a bucket at all.
pub open spec fn leaf(
    g: [[usize; 5]; 5],
    sr: [usize; 5],
    sc: [usize; 5],
    br: [usize; 5],
    bc: [usize; 5],
    level: int,
) -> Seq<(u64, int)> {
    if is_symbol_grid(g) && margins_hold(g, sr, sc, br, bc) && bucket_set(g, level) != 0 {
        seq![(packed_of(g), bucket_set(g, level))]
    } else {
        Seq::empty()
    }
}

/// The admissible boards that agree with `g` on its assigned cells, each
/// with its set of buckets, where the cells from index `idx` on are filled in
/// row-major order and each free cell tries the symbols from 0 to 3 in turn.
pub open spec fn completions(
    g: [[usize; 5]; 5],
    idx: int,
    sr: [usize; 5],
    sc: [usize; 5],
    br: [usize; 5],
    bc: [usize; 5],
    level: int,
) -> Seq<(u64, int)>
    decreases 25 - idx, 5int,
{
    if idx >= 25 {
        leaf(g, sr, sc, br, bc, level)
    } else if grid_at(g, idx) <= 3 {
        completions(g, idx + 1, sr, sc, br, bc, level)
    } else {
        branches(g, idx, 4, sr, sc, br, bc, level)
    }
}

/// The completions of `g` that put one of the first `k` symbols on the free
/// cell `idx`.
pub open spec fn branches(
    g: [[usize; 5]; 5],
    idx: int,
    k: int,
    sr: [usize; 5],
    sc: [usize; 5],
    br: [usize; 5],
    bc: [usize; 5],
    level: int,
) -> Seq<(u64, int)>
    decreases 25 - idx, k,
{
    if k <= 0 || k > 4 || idx >= 25 {
        Seq::empty()
    } else {
        branches(g, idx, k - 1, sr, sc, br, bc, level) + completions(
            grid_with(g, idx, (k - 1) as usize),
            idx + 1,
            sr,
            sc,
            br,
            bc,
            level,
        )
    }
}

/// The first group from `from` on that has the bucket set `set`; the number
/// of groups if there is none.
pub open spec fn find_from(groups: Seq<(Seq<u64>, int)>, set: int, from: int) -> int
    decreases groups.len() - from,
{
    if from < 0 || from >= groups.len() {
        groups.len() as int
    } else if groups[from].1 == set {
        from
    } else {
        find_from(groups, set, from + 1)
    }
}

/// The groups after one more board: it joins the group of its bucket set,
/// or opens a new group behind the others.
pub open spec fn insert_board(groups: Seq<(Seq<u64>, int)>, board: u64, set: int) -> Seq<
    (Seq<u64>, int),
> {
    let i = find_from(groups, set, 0);
    if i < groups.len() {
        groups.update(i, (groups[i].0.push(board), set))
    } else {
        groups.push((seq![board], set))
    }
}

/// The groups after the boards of `found` were inserted one after the other.
pub open spec fn insert_all(groups: Seq<(Seq<u64>, int)>, found: Seq<(u64, int)>) -> Seq<
    (Seq<u64>, int),
>
    decreases found.len(),
{
    if found.len() == 0 {
        groups
    } else {
        let last = found.last();
        insert_board(insert_all(groups, found.drop_last()), last.0, last.1)
    }
}

/// The groups that a list of solutions holds.
pub open spec fn groups_of(v: Vec<(Vec<u64>, u16)>) -> Seq<(Seq<u64>, int)> {
    Seq::new(v.len() as nat, |i: int| (v[i].0@, v[i].1 as int))
}

/// The boards of the first `n` groups, one group after the other.
pub open spec fn flatten(groups: Seq<(Seq<u64>, int)>, n: int) -> Seq<u64>
    decreases n,
{
    if n <= 0 {
        Seq::empty()
    } else {
        flatten(groups, n - 1) + groups[n - 1].0
    }
}

/// The grid of what the first `n` cells of a state reveal.
pub open spec fn start_upto(state: u64, n: int) -> [[usize; 5]; 5]
    decreases n,
{
    if n <= 0 {
        blank_grid()
    } else if cell_at(state, n - 1) != 0 {
        grid_with(start_upto(state, n - 1), n - 1, cell_at(state, n - 1) as usize)
    } else {
        start_upto(state, n - 1)
    }
}

/// The grid of what a state reveals: its revealed cells assigned, the
/// others free.
pub open spec fn start_grid(state: u64) -> [[usize; 5]; 5] {
    start_upto(state, 25)
}

/// Inserting two lists in turn is inserting their concatenation.
pub proof fn lemma_insert_all_concat(
    groups: Seq<(Seq<u64>, int)>,
    a: Seq<(u64, int)>,
    b: Seq<(u64, int)>,
)
    ensures
        insert_all(groups, a + b) == insert_all(insert_all(groups, a), b),
    decreases b.len(),
{
    if b.len() == 0 {
        assert(a + b =~= a);
    } else {
        lemma_insert_all_concat(groups, a, b.drop_last());
        assert((a + b).drop_last() =~= a + b.drop_last());
        assert((a + b).last() == b.last());
    }
}

proof fn lemma_insert_one(groups: Seq<(Seq<u64>, int)>, board: u64, set: int)
    ensures
        insert_all(groups, seq![(board, set)]) == insert_board(groups, board, set),
{
    let one = seq![(board, set)];
    assert(one.drop_last() =~= Seq::empty());
    assert(insert_all(groups, one.drop_last()) == groups);
}

/// Every completion is the packed word of a full grid that agrees with the
/// assigned cells, meets the margins and fits a bucket, together with the
/// set of buckets that it fits.
pub proof fn lemma_completion_member(
    g: [[usize; 5]; 5],
    idx: int,
    sr: [usize; 5],
    sc: [usize; 5],
    br: [usize; 5],
    bc: [usize; 5],
    level: int,
    j: int,
) -> (h: [[usize; 5]; 5])
    requires
        0 <= idx <= 25,
        0 <= j < completions(g, idx, sr, sc, br, bc, level).len(),
    ensures
        extends(g, h),
        margins_hold(h, sr, sc, br, bc),
        bucket_set(h, level) != 0,
        completions(g, idx, sr, sc, br, bc, level)[j] == (packed_of(h), bucket_set(h, level)),
    decreases 25 - idx, 5int,
{
    if idx >= 25 {
        g
    } else if grid_at(g, idx) <= 3 {
        lemma_completion_member(g, idx + 1, sr, sc, br, bc, level, j)
    } else {
        lemma_branch_member(g, idx, 4, sr, sc, br, bc, level, j)
    }
}

proof fn lemma_branch_member(
    g: [[usize; 5]; 5],
    idx: int,
    k: int,
    sr: [usize; 5],
    sc: [usize; 5],
    br: [usize; 5],
    bc: [usize; 5],
    level: int,
    j: int,
) -> (h: [[usize; 5]; 5])
    requires
        0 <= idx < 25,
        grid_at(g, idx) > 3,
        0 <= k <= 4,
        0 <= j < branches(g, idx, k, sr, sc, br, bc, level).len(),
    ensures
        extends(g, h),
        margins_hold(h, sr, sc, br, bc),
        bucket_set(h, level) != 0,
        branches(g, idx, k, sr, sc, br, bc, level)[j] == (packed_of(h), bucket_set(h, level)),
        grid_at(h, idx) < k,
    decreases 25 - idx, k,
{
    let earlier = branches(g, idx, k - 1, sr, sc, br, bc, level);
    if j < earlier.len() {
        lemma_branch_member(g, idx, k - 1, sr, sc, br, bc, level, j)
    } else {
        let child = grid_with(g, idx, (k - 1) as usize);
        let h = lemma_completion_member(child, idx + 1, sr, sc, br, bc, level, j - earlier.len());
        lemma_grid_with(g, idx, (k - 1) as usize);
        assert forall|i: int| 0 <= i < 25 && #[trigger] grid_at(g, i) <= 3 implies grid_at(h, i)
            == grid_at(g, i) by {
            assert(grid_at(child, i) == grid_at(g, i));
        }
        assert(grid_at(child, idx) == k - 1);
        assert(grid_at(h, idx) == grid_at(child, idx));
        h
    }
}

/// A grid that is not feasible has no completions.
pub proof fn lemma_pruned(
    g: [[usize; 5]; 5],
    idx: int,
    sr: [usize; 5],
    sc: [usize; 5],
    br: [usize; 5],
    bc: [usize; 5],
    level: int,
)
    requires
        0 <= idx <= 25,
        !feasible(g, sr, sc, br, bc),
    ensures
        completions(g, idx, sr, sc, br, bc, level) == Seq::<(u64, int)>::empty(),
{
    let found = completions(g, idx, sr, sc, br, bc, level);
    if found.len() > 0 {
        let h = lemma_completion_member(g, idx, sr, sc, br, bc, level, 0);
        lemma_feasible_of_completion(g, h, sr, sc, br, bc);
    }
    assert(found =~= Seq::empty());
}

fn add_solution(solutions: &mut Vec<(Vec<u64>, u16)>, packed_state: u64, set: u16)
    ensures
        groups_of(*final(solutions)) == insert_board(
            groups_of(*old(solutions)),
            packed_state,
            set as int,
        ),
{
    let ghost before = groups_of(*solutions);
    let mut i: usize = 0;
    while i < solutions.len()
        invariant
            i <= solutions.len(),
            before == groups_of(*old(solutions)),
            groups_of(*solutions) == before,
            find_from(before, set as int, 0) == find_from(before, set as int, i as int),
        decreases solutions.len() - i,
    {
        assert(before[i as int].1 == solutions[i as int].1);
        if solutions[i].1 == set {
            assert(find_from(before, set as int, i as int) == i);
            solutions[i].0.push(packed_state);
            assert(groups_of(*solutions) =~= before.update(
                i as int,
                (before[i as int].0.push(packed_state), set as int),
            ));
            return;
        }
        i += 1;
    }
    let mut boards: Vec<u64> = Vec::new();
    boards.push(packed_state);
    solutions.push((boards, set));
    assert(boards@ =~= seq![packed_state]);
    assert(groups_of(*solutions) =~= before.push((seq![packed_state], set as int)));
}

#[verifier::rlimit(40)]
fn sh_constraints(
    state: &mut [[usize; 5]; 5],
    row: usize,
    col: usize,
    sr: &[usize; 5],
    sc: &[usize; 5],
    br: &[usize; 5],
    bc: &[usize; 5],
    level: usize,
    solutions: &mut Vec<(Vec<u64>, u16)>,
)
    requires
        row <= 5,
        col < 5,
        row == 5 ==> col == 0,
        valid_margins(*sr, *sc, *br, *bc),
        1 <= level <= 8,
        is_partial_grid(*old(state)),
        forall|i: int| 0 <= i < 5 * row + col ==> grid_at(*old(state), i) <= 3,
    ensures
        *final(state) == *old(state),
        groups_of(*final(solutions)) == insert_all(
            groups_of(*old(solutions)),
            completions(*old(state), 5 * row + col, *sr, *sc, *br, *bc, level as int),
        ),
    decreases 25 - (5 * row + col),
{
    let ghost g = *state;
    let ghost idx: int = 5 * row + col;
    let ghost before = groups_of(*solutions);
    if !fsf(state, sr, sc, br, bc) {
        proof {
            lemma_pruned(g, idx, *sr, *sc, *br, *bc, level as int);
        }
        return;
    }
    if row == 5 {
        proof {
            assert forall|r: int, c: int| 0 <= r < 5 && 0 <= c < 5 implies (#[trigger] g[r][c])
                <= 3 by {
                let i = 5 * r + c;
                assert(i / 5 == r && i % 5 == c);
                assert(grid_at(g, i) <= 3);
            }
            lemma_feasible_when_full(g, *sr, *sc, *br, *bc);
        }
        let set = get_buckets_of_state(state, level);
        if set > 0 {
            let packed_state = array_to_u64(state);
            add_solution(solutions, packed_state, set);
            proof {
                lemma_insert_one(before, packed_state, set as int);
                assert(completions(g, idx, *sr, *sc, *br, *bc, level as int) =~= seq![
                    (packed_state, set as int),
                ]);
            }
        } else {
            assert(completions(g, idx, *sr, *sc, *br, *bc, level as int) =~= Seq::empty());
        }
        return;
    }
    let next = 5 * row + col + 1;
    proof {
        assert(idx / 5 == row && idx % 5 == col);
        assert(grid_at(g, idx) == state[row as int][col as int]);
        assert(grid_at(g, idx) <= 3 || grid_at(g, idx) == UNASSIGNED);
    }
    if state[row][col] > 3 {
        assert(branches(g, idx, 0, *sr, *sc, *br, *bc, level as int) =~= Seq::empty());
        for k in 0..4usize
            invariant
                row < 5,
                col < 5,
                idx == 5 * row + col,
                next == idx + 1,
                valid_margins(*sr, *sc, *br, *bc),
                1 <= level <= 8,
                *state == g,
                is_partial_grid(g),
                forall|i: int| 0 <= i < idx ==> grid_at(g, i) <= 3,
                grid_at(g, idx) == UNASSIGNED,
                groups_of(*solutions) == insert_all(
                    before,
                    branches(g, idx, k as int, *sr, *sc, *br, *bc, level as int),
                ),
        {
            let ghost so_far = branches(g, idx, k as int, *sr, *sc, *br, *bc, level as int);
            let ghost child = grid_with(g, idx, k);
            state[row][col] = k;
            proof {
                assert(idx / 5 == row && idx % 5 == col);
                lemma_grid_with(g, idx, k);
                assert(*state =~~= child);
                assert forall|i: int| 0 <= i < 25 implies #[trigger] grid_at(child, i) <= 3
                    || grid_at(child, i) == UNASSIGNED by {
                    assert(grid_at(g, i) <= 3 || grid_at(g, i) == UNASSIGNED);
                }
                assert forall|i: int| 0 <= i < next implies grid_at(child, i) <= 3 by {
                    if i < idx {
                        assert(grid_at(g, i) <= 3);
                    }
                }
                assert(5 * (next / 5) + next % 5 == next);
            }
            sh_constraints(state, next / 5, next % 5, sr, sc, br, bc, level, solutions);
            state[row][col] = UNASSIGNED;
            proof {
                lemma_grid_with(child, idx, UNASSIGNED);
                assert(*state =~~= grid_with(child, idx, UNASSIGNED));
                assert forall|r: int, c: int| 0 <= r < 5 && 0 <= c < 5 implies state[r][c]
                    == g[r][c] by {
                    let i = 5 * r + c;
                    assert(i / 5 == r && i % 5 == c);
                    assert(grid_at(grid_with(child, idx, UNASSIGNED), i) == if i == idx {
                        UNASSIGNED as int
                    } else {
                        grid_at(child, i)
                    });
                    assert(grid_at(child, i) == if i == idx {
                        k as int
                    } else {
                        grid_at(g, i)
                    });
                }
                assert forall|r: int| 0 <= r < 5 implies #[trigger] state[r] == g[r] by {
                    assert forall|c: int| 0 <= c < 5 implies state[r][c] == g[r][c] by {}
                    assert(state[r] =~= g[r]);
                }
                assert(*state =~= g);
                lemma_insert_all_concat(
                    before,
                    so_far,
                    completions(child, idx + 1, *sr, *sc, *br, *bc, level as int),
                );
            }
        }
    } else {
        proof {
            assert(idx / 5 == row && idx % 5 == col);
            assert(5 * (next / 5) + next % 5 == next);
            assert forall|i: int| 0 <= i < next implies grid_at(g, i) <= 3 by {}
        }
        sh_constraints(state, next / 5, next % 5, sr, sc, br, bc, level, solutions);
    }
}

/// The groups of all admissible boards for a state, its margins and a level.
pub open spec fn solution_groups(
    state: u64,
    sr: [usize; 5],
    sc: [usize; 5],
    br: [usize; 5],
    bc: [usize; 5],
    level: int,
) -> Seq<(Seq<u64>, int)> {
    insert_all(Seq::empty(), completions(start_grid(state), 0, sr, sc, br, bc, level))
}

/// Cell by cell, the grid of what the first `n` cells of a state reveal.
pub proof fn lemma_start_upto(state: u64, n: int)
    requires
        0 <= n <= 25,
    ensures
        forall|i: int|
            0 <= i < 25 ==> #[trigger] grid_at(start_upto(state, n), i) == if i < n && cell_at(
                state,
                i,
            ) != 0 {
                cell_at(state, i)
            } else {
                UNASSIGNED as int
            },
    decreases n,
{
    broadcast use vstd::array::axiom_spec_array_fill_for_copy_type;

    if n > 0 {
        let before = start_upto(state, n - 1);
        lemma_start_upto(state, n - 1);
        crate::packed::lemma_field_bound(state, 24 - (n - 1));
        if cell_at(state, n - 1) != 0 {
            lemma_grid_with(before, n - 1, cell_at(state, n - 1) as usize);
        }
        assert forall|i: int| 0 <= i < 25 implies #[trigger] grid_at(start_upto(state, n), i)
            == if i < n && cell_at(state, i) != 0 {
            cell_at(state, i)
        } else {
            UNASSIGNED as int
        } by {
            assert(grid_at(before, i) == if i < n - 1 && cell_at(state, i) != 0 {
                cell_at(state, i)
            } else {
                UNASSIGNED as int
            });
        }
    } else {
        let inner = spec_array_fill_for_copy_type::<usize, 5>(UNASSIGNED);
        assert forall|i: int| 0 <= i < 25 implies #[trigger] grid_at(blank_grid(), i)
            == UNASSIGNED as int by {
            assert(blank_grid()@[i / 5] == inner);
            assert(inner@[i % 5] == UNASSIGNED);
        }
    }
}

/// The three lists say what the groups hold: the boards of the groups one
/// group after the other, the size of each group and its bucket set.
pub open spec fn lists_groups(
    boards: Seq<u64>,
    counts: Seq<usize>,
    sets: Seq<u16>,
    groups: Seq<(Seq<u64>, int)>,
) -> bool {
    &&& boards == flatten(groups, groups.len() as int)
    &&& counts.len() == groups.len()
    &&& sets.len() == groups.len()
    &&& forall|g: int|
        0 <= g < groups.len() ==> (#[trigger] counts[g]) == groups[g].0.len() && sets[g]
            == groups[g].1
}

/// All boards that meet the margins, agree with the revealed cells of
/// `org_packed_state` and fit a bucket of `level`. The boards of one bucket
/// set stand together; the second list gives the size of each group and the
/// third its bucket set.
#[verifier::rlimit(40)]
pub fn find_possible_boards(
    org_packed_state: u64,
    sr: &[usize; 5],
    sc: &[usize; 5],
    br: &[usize; 5],
    bc: &[usize; 5],
    level: usize,
) -> (found: (Vec<u64>, Vec<usize>, Vec<u16>))
    requires
        valid_margins(*sr, *sc, *br, *bc),
        1 <= level <= 8,
    ensures
        lists_groups(
            found.0@,
            found.1@,
            found.2@,
            solution_groups(org_packed_state, *sr, *sc, *br, *bc, level as int),
        ),
{
    let mut r: Vec<(Vec<u64>, u16)> = Vec::new();
    let mut state: [[usize; 5]; 5] = [[UNASSIGNED;5];5];
    assert(state =~~= blank_grid()) by {
        broadcast use vstd::array::axiom_spec_array_fill_for_copy_type;

    }
    for row in 0..5usize
        invariant
            state == start_upto(org_packed_state, 5 * row),
    {
        for col in 0..5usize
            invariant
                row < 5,
                state == start_upto(org_packed_state, 5 * row + col),
        {
            let symbol = get_from_packed_state(org_packed_state, row, col);
            if symbol != 0 {
                let ghost before = state;
                state[row][col] = symbol;
                proof {
                    let i: int = 5 * row + col;
                    assert(i / 5 == row && i % 5 == col);
                    lemma_grid_with(before, i, symbol);
                    assert(state =~~= grid_with(before, i, symbol));
                }
            }
        }
    }
    proof {
        lemma_start_upto(org_packed_state, 25);
        assert forall|i: int| 0 <= i < 25 implies #[trigger] grid_at(state, i) <= 3 || grid_at(
            state,
            i,
        ) == UNASSIGNED by {
            crate::packed::lemma_field_bound(org_packed_state, 24 - i);
        }
        assert(groups_of(r) =~= Seq::empty());
    }
    let ghost start = state;
    assert(start == start_grid(org_packed_state));
    assert(groups_of(r) == Seq::<(Seq<u64>, int)>::empty());
    sh_constraints(&mut state, 0, 0, sr, sc, br, bc, level, &mut r);
    let ghost groups = groups_of(r);
    assert(groups == solution_groups(org_packed_state, *sr, *sc, *br, *bc, level as int));
    assert(groups.len() == r.len());
    let mut possible_boards: Vec<u64> = Vec::new();
    let mut counts: Vec<usize> = Vec::new();
    let mut sets: Vec<u16> = Vec::new();
    let mut g: usize = 0;
    while g < r.len()
        invariant
            g <= r.len(),
            groups == groups_of(r),
            groups == solution_groups(org_packed_state, *sr, *sc, *br, *bc, level as int),
            possible_boards@ == flatten(groups, g as int),
            counts.len() == g,
            sets.len() == g,
            forall|i: int|
                0 <= i < g ==> (#[trigger] counts[i]) == groups[i].0.len() && sets[i]
                    == groups[i].1,
        decreases r.len() - g,
    {
        let size = r[g].0.len();
        counts.push(size);
        sets.push(r[g].1);
        let ghost before = possible_boards@;
        for j in 0..size
            invariant
                g < r.len(),
                size == r[g as int].0.len(),
                counts.len() == g + 1,
                sets.len() == g + 1,
                forall|i: int|
                    0 <= i <= g ==> (#[trigger] counts[i]) == groups[i].0.len() && sets[i]
                        == groups[i].1,
                groups == groups_of(r),
                possible_boards@ == before + groups[g as int].0.take(j as int),
        {
            possible_boards.push(r[g].0[j]);
            assert(groups[g as int].0.take(j + 1) =~= groups[g as int].0.take(j as int).push(
                groups[g as int].0[j as int],
            ));
        }
        assert(groups[g as int].0.take(groups[g as int].0.len() as int) =~= groups[g as int].0);
        g += 1;
    }
    assert(g == groups.len());
    assert(possible_boards@ == flatten(groups, groups.len() as int));
    assert(counts.len() == groups.len());
    assert(sets.len() == groups.len());
    assert forall|i: int| 0 <= i < groups.len() implies (#[trigger] counts[i]) == groups[i].0.len()
        && sets[i] == groups[i].1 by {}
    assert(lists_groups(possible_boards@, counts@, sets@, groups));
    (possible_boards, counts, sets)
}

/// Where a board of the groups after an insertion comes from: it was in the
/// same place before, or it is one of the inserted boards, and then the set
/// of its group is its own. The result is the index of the inserted board,
/// or -1.
pub proof fn lemma_insert_all_origin(
    groups: Seq<(Seq<u64>, int)>,
    found: Seq<(u64, int)>,
    g: int,
    j: int,
) -> (t: int)
    requires
        0 <= g < insert_all(groups, found).len(),
        0 <= j < insert_all(groups, found)[g].0.len(),
    ensures
        groups.len() <= insert_all(groups, found).len(),
        -1 <= t < found.len(),
        t == -1 ==> g < groups.len() && j < groups[g].0.len() && groups[g].0[j] == insert_all(
            groups,
            found,
        )[g].0[j],
        t >= 0 ==> found[t] == (insert_all(groups, found)[g].0[j], insert_all(groups, found)[g].1),
        g < groups.len() ==> insert_all(groups, found)[g].1 == groups[g].1,
    decreases found.len(),
{
    lemma_insert_all_grows(groups, found);
    if found.len() == 0 {
        -1
    } else {
        let before = insert_all(groups, found.drop_last());
        let last = found.last();
        let i = find_from(before, last.1, 0);
        lemma_find_from(before, last.1, 0);
        lemma_insert_all_grows(groups, found.drop_last());
        if g < before.len() && j < before[g].0.len() {
            lemma_insert_all_origin(groups, found.drop_last(), g, j)
        } else {
            found.len() - 1
        }
    }
}

/// Insertions keep every group and every board in its place.
pub proof fn lemma_insert_all_grows(groups: Seq<(Seq<u64>, int)>, found: Seq<(u64, int)>)
    ensures
        groups.len() <= insert_all(groups, found).len(),
        forall|g: int|
            0 <= g < groups.len() ==> (#[trigger] insert_all(groups, found)[g]).1 == groups[g].1
                && groups[g].0.len() <= insert_all(groups, found)[g].0.len(),
        forall|g: int, j: int|
            0 <= g < groups.len() && 0 <= j < groups[g].0.len() ==> #[trigger] insert_all(
                groups,
                found,
            )[g].0[j] == groups[g].0[j],
    decreases found.len(),
{
    if found.len() > 0 {
        let before = insert_all(groups, found.drop_last());
        let last = found.last();
        lemma_insert_all_grows(groups, found.drop_last());
        lemma_find_from(before, last.1, 0);
    }
}

/// What `find_from` finds: the first group with the set, if there is one.
pub proof fn lemma_find_from(groups: Seq<(Seq<u64>, int)>, set: int, from: int)
    requires
        0 <= from <= groups.len(),
    ensures
        from <= find_from(groups, set, from) <= groups.len(),
        find_from(groups, set, from) < groups.len() ==> groups[find_from(groups, set, from)].1
            == set,
        forall|i: int| from <= i < find_from(groups, set, from) ==> (#[trigger] groups[i]).1 != set,
    decreases groups.len() - from,
{
    if from < groups.len() && groups[from].1 != set {
        lemma_find_from(groups, set, from + 1);
    }
}

/// No two groups have the same set.
pub open spec fn distinct_sets(groups: Seq<(Seq<u64>, int)>) -> bool {
    forall|a: int, b: int|
        0 <= a < b < groups.len() ==> (#[trigger] groups[a]).1 != (#[trigger] groups[b]).1
}

/// Insertions keep the sets of the groups distinct and leave no group empty.
pub proof fn lemma_insert_all_distinct(groups: Seq<(Seq<u64>, int)>, found: Seq<(u64, int)>)
    requires
        distinct_sets(groups),
        forall|g: int| 0 <= g < groups.len() ==> (#[trigger] groups[g]).0.len() > 0,
    ensures
        distinct_sets(insert_all(groups, found)),
        forall|g: int|
            0 <= g < insert_all(groups, found).len() ==> (#[trigger] insert_all(
                groups,
                found,
            )[g]).0.len() > 0,
    decreases found.len(),
{
    if found.len() > 0 {
        let before = insert_all(groups, found.drop_last());
        let last = found.last();
        lemma_insert_all_distinct(groups, found.drop_last());
        lemma_find_from(before, last.1, 0);
        let after = insert_all(groups, found);
        assert forall|a: int, b: int| 0 <= a < b < after.len() implies (#[trigger] after[a]).1 != (
        #[trigger] after[b]).1 by {
            if b < before.len() {
                assert(before[a].1 != before[b].1);
            } else {
                assert(before[a].1 != last.1);
            }
        }
    }
}

/// Every enumerated board is admissible: it is the packed word of a full
/// grid that agrees with the revealed cells, meets the margins of every row
/// and column and fits at least one bucket of the level; the set of its
/// group is the set of the buckets that it fits, and is not empty.
pub proof fn lemma_enumerated_board_is_admissible(
    state: u64,
    sr: [usize; 5],
    sc: [usize; 5],
    br: [usize; 5],
    bc: [usize; 5],
    level: int,
    g: int,
    j: int,
) -> (h: [[usize; 5]; 5])
    requires
        0 <= g < solution_groups(state, sr, sc, br, bc, level).len(),
        0 <= j < solution_groups(state, sr, sc, br, bc, level)[g].0.len(),
    ensures
        extends(start_grid(state), h),
        margins_hold(h, sr, sc, br, bc),
        solution_groups(state, sr, sc, br, bc, level)[g].0[j] == packed_of(h),
        solution_groups(state, sr, sc, br, bc, level)[g].1 == bucket_set(h, level),
        bucket_set(h, level) != 0,
{
    let found = completions(start_grid(state), 0, sr, sc, br, bc, level);
    let t = lemma_insert_all_origin(Seq::empty(), found, g, j);
    lemma_completion_member(start_grid(state), 0, sr, sc, br, bc, level, t)
}

/// The groups of the enumerated boards have distinct sets and none is empty.
pub proof fn lemma_enumerated_groups_distinct(
    state: u64,
    sr: [usize; 5],
    sc: [usize; 5],
    br: [usize; 5],
    bc: [usize; 5],
    level: int,
)
    ensures
        distinct_sets(solution_groups(state, sr, sc, br, bc, level)),
        forall|g: int|
            0 <= g < solution_groups(state, sr, sc, br, bc, level).len() ==> (
            #[trigger] solution_groups(state, sr, sc, br, bc, level)[g]).0.len() > 0,
{
    lemma_insert_all_distinct(
        Seq::empty(),
        completions(start_grid(state), 0, sr, sc, br, bc, level),
    );
}

/// Two grids with the same 25 cells are equal.
pub proof fn lemma_grids_equal(a: [[usize; 5]; 5], b: [[usize; 5]; 5])
    requires
        forall|i: int| 0 <= i < 25 ==> #[trigger] grid_at(a, i) == grid_at(b, i),
    ensures
        a == b,
{
    assert forall|r: int| 0 <= r < 5 implies #[trigger] a[r] == b[r] by {
        assert forall|c: int| 0 <= c < 5 implies a[r][c] == b[r][c] by {
            let i = 5 * r + c;
            assert(i / 5 == r && i % 5 == c);
            assert(grid_at(a, i) == grid_at(b, i));
        }
        assert(a[r] =~= b[r]);
    }
    assert(a =~= b);
}

/// The completions that put the symbol `k` on the free cell `idx` stand in
/// the branches behind those of the smaller symbols.
proof fn lemma_branch_position(
    g: [[usize; 5]; 5],
    idx: int,
    n: int,
    k: int,
    t: int,
    sr: [usize; 5],
    sc: [usize; 5],
    br: [usize; 5],
    bc: [usize; 5],
    level: int,
)
    requires
        0 <= idx < 25,
        0 <= k < n <= 4,
        0 <= t < completions(grid_with(g, idx, k as usize), idx + 1, sr, sc, br, bc, level).len(),
    ensures
        branches(g, idx, k, sr, sc, br, bc, level).len() + t < branches(
            g,
            idx,
            n,
            sr,
            sc,
            br,
            bc,
            level,
        ).len(),
        branches(g, idx, n, sr, sc, br, bc, level)[branches(
            g,
            idx,
            k,
            sr,
            sc,
            br,
            bc,
            level,
        ).len() + t] == completions(grid_with(g, idx, k as usize), idx + 1, sr, sc, br, bc, level)[t],
    decreases n,
{
    if n - 1 > k {
        lemma_branch_position(g, idx, n - 1, k, t, sr, sc, br, bc, level);
    }
}

/// Every admissible board that agrees with the assigned cells of `g` is
/// among the completions of `g`. The result is its place.
pub proof fn lemma_completions_contain(
    g: [[usize; 5]; 5],
    idx: int,
    h: [[usize; 5]; 5],
    sr: [usize; 5],
    sc: [usize; 5],
    br: [usize; 5],
    bc: [usize; 5],
    level: int,
) -> (t: int)
    requires
        0 <= idx <= 25,
        forall|i: int| 0 <= i < idx ==> grid_at(g, i) <= 3,
        extends(g, h),
        margins_hold(h, sr, sc, br, bc),
        bucket_set(h, level) != 0,
    ensures
        0 <= t < completions(g, idx, sr, sc, br, bc, level).len(),
        completions(g, idx, sr, sc, br, bc, level)[t] == (packed_of(h), bucket_set(h, level)),
    decreases 25 - idx,
{
    if idx >= 25 {
        assert forall|i: int| 0 <= i < 25 implies #[trigger] grid_at(g, i) == grid_at(h, i) by {
            assert(grid_at(g, i) <= 3);
        }
        lemma_grids_equal(g, h);
        0
    } else if grid_at(g, idx) <= 3 {
        lemma_completions_contain(g, idx + 1, h, sr, sc, br, bc, level)
    } else {
        let k = grid_at(h, idx);
        assert(h[idx / 5][idx % 5] <= 3);
        let child = grid_with(g, idx, k as usize);
        lemma_grid_with(g, idx, k as usize);
        assert forall|i: int| 0 <= i < 25 && #[trigger] grid_at(child, i) <= 3 implies grid_at(
            h,
            i,
        ) == grid_at(child, i) by {
            if i != idx {
                assert(grid_at(g, i) == grid_at(child, i));
            }
        }
        assert forall|i: int| 0 <= i < idx + 1 implies grid_at(child, i) <= 3 by {
            if i < idx {
                assert(grid_at(g, i) <= 3);
            }
        }
        let t = lemma_completions_contain(child, idx + 1, h, sr, sc, br, bc, level);
        lemma_branch_position(g, idx, 4, k, t, sr, sc, br, bc, level);
        branches(g, idx, k, sr, sc, br, bc, level).len() + t
    }
}

/// Every inserted board stands in a group of its own set.
pub proof fn lemma_insert_all_keeps(
    groups: Seq<(Seq<u64>, int)>,
    found: Seq<(u64, int)>,
    t: int,
) -> (place: (int, int))
    requires
        0 <= t < found.len(),
    ensures
        0 <= place.0 < insert_all(groups, found).len(),
        0 <= place.1 < insert_all(groups, found)[place.0].0.len(),
        insert_all(groups, found)[place.0].0[place.1] == found[t].0,
        insert_all(groups, found)[place.0].1 == found[t].1,
    decreases found.len(),
{
    let before = insert_all(groups, found.drop_last());
    let last = found.last();
    let i = find_from(before, last.1, 0);
    lemma_find_from(before, last.1, 0);
    if t == found.len() - 1 {
        if i < before.len() {
            (i, before[i].0.len() as int)
        } else {
            (before.len() as int, 0)
        }
    } else {
        lemma_insert_all_keeps(groups, found.drop_last(), t)
    }
}

/// The enumeration is complete: every full grid that agrees with the
/// revealed cells, meets the margins and fits a bucket of the level is
/// enumerated, in the group of its bucket set. The result is its group and
/// its place in the group.
pub proof fn lemma_admissible_board_is_enumerated(
    state: u64,
    h: [[usize; 5]; 5],
    sr: [usize; 5],
    sc: [usize; 5],
    br: [usize; 5],
    bc: [usize; 5],
    level: int,
) -> (place: (int, int))
    requires
        extends(start_grid(state), h),
        margins_hold(h, sr, sc, br, bc),
        bucket_set(h, level) != 0,
    ensures
        0 <= place.0 < solution_groups(state, sr, sc, br, bc, level).len(),
        0 <= place.1 < solution_groups(state, sr, sc, br, bc, level)[place.0].0.len(),
        solution_groups(state, sr, sc, br, bc, level)[place.0].0[place.1] == packed_of(h),
        solution_groups(state, sr, sc, br, bc, level)[place.0].1 == bucket_set(h, level),
{
    let t = lemma_completions_contain(start_grid(state), 0, h, sr, sc, br, bc, level);
    lemma_insert_all_keeps(
        Seq::empty(),
        completions(start_grid(state), 0, sr, sc, br, bc, level),
        t,
    )
}

/// Two full grids that differ in a cell pack to different words.
pub proof fn lemma_packed_differs(a: [[usize; 5]; 5], b: [[usize; 5]; 5], i: int)
    requires
        is_symbol_grid(a),
        is_symbol_grid(b),
        0 <= i < 25,
        grid_at(a, i) != grid_at(b, i),
    ensures
        packed_of(a) != packed_of(b),
{
    crate::packed::lemma_packed_upto(a, 25);
    crate::packed::lemma_packed_upto(b, 25);
    assert(cell_at(packed_of(a), i) == grid_at(a, i));
    assert(cell_at(packed_of(b), i) == grid_at(b, i));
}

/// No board stands twice among the completions of a grid.
pub proof fn lemma_completions_distinct(
    g: [[usize; 5]; 5],
    idx: int,
    sr: [usize; 5],
    sc: [usize; 5],
    br: [usize; 5],
    bc: [usize; 5],
    level: int,
    t1: int,
    t2: int,
)
    requires
        0 <= idx <= 25,
        0 <= t1 < t2 < completions(g, idx, sr, sc, br, bc, level).len(),
    ensures
        completions(g, idx, sr, sc, br, bc, level)[t1].0 != completions(
            g,
            idx,
            sr,
            sc,
            br,
            bc,
            level,
        )[t2].0,
    decreases 25 - idx, 5int,
{
    if idx < 25 {
        if grid_at(g, idx) <= 3 {
            lemma_completions_distinct(g, idx + 1, sr, sc, br, bc, level, t1, t2);
        } else {
            lemma_branches_distinct(g, idx, 4, sr, sc, br, bc, level, t1, t2);
        }
    }
}

proof fn lemma_branches_distinct(
    g: [[usize; 5]; 5],
    idx: int,
    k: int,
    sr: [usize; 5],
    sc: [usize; 5],
    br: [usize; 5],
    bc: [usize; 5],
    level: int,
    t1: int,
    t2: int,
)
    requires
        0 <= idx < 25,
        grid_at(g, idx) > 3,
        0 <= k <= 4,
        0 <= t1 < t2 < branches(g, idx, k, sr, sc, br, bc, level).len(),
    ensures
        branches(g, idx, k, sr, sc, br, bc, level)[t1].0 != branches(
            g,
            idx,
            k,
            sr,
            sc,
            br,
            bc,
            level,
        )[t2].0,
    decreases 25 - idx, k,
{
    let earlier = branches(g, idx, k - 1, sr, sc, br, bc, level);
    let child = grid_with(g, idx, (k - 1) as usize);
    if t2 < earlier.len() {
        lemma_branches_distinct(g, idx, k - 1, sr, sc, br, bc, level, t1, t2);
    } else if t1 >= earlier.len() {
        lemma_completions_distinct(
            child,
            idx + 1,
            sr,
            sc,
            br,
            bc,
            level,
            t1 - earlier.len(),
            t2 - earlier.len(),
        );
    } else {
        let h1 = lemma_branch_member(g, idx, k - 1, sr, sc, br, bc, level, t1);
        let h2 = lemma_completion_member(child, idx + 1, sr, sc, br, bc, level, t2 - earlier.len());
        lemma_grid_with(g, idx, (k - 1) as usize);
        assert(grid_at(child, idx) == k - 1);
        assert(grid_at(h2, idx) == grid_at(child, idx));
        lemma_packed_differs(h1, h2, idx);
    }
}

/// No board stands twice in the groups.
pub open spec fn no_board_twice(groups: Seq<(Seq<u64>, int)>) -> bool {
    forall|g1: int, j1: int, g2: int, j2: int|
        0 <= g1 < groups.len() && 0 <= j1 < groups[g1].0.len() && 0 <= g2 < groups.len() && 0 <= j2
            < groups[g2].0.len() && (g1 != g2 || j1 != j2) ==> #[trigger] groups[g1].0[j1]
            != #[trigger] groups[g2].0[j2]
}

/// Where no board is inserted twice, no board stands twice in the groups.
#[verifier::rlimit(40)]
pub proof fn lemma_insert_all_no_board_twice(found: Seq<(u64, int)>)
    requires
        forall|t1: int, t2: int|
            0 <= t1 < t2 < found.len() ==> (#[trigger] found[t1]).0 != (#[trigger] found[t2]).0,
    ensures
        no_board_twice(insert_all(Seq::empty(), found)),
    decreases found.len(),
{
    if found.len() > 0 {
        let shorter = found.drop_last();
        let before = insert_all(Seq::empty(), shorter);
        let last = found.last();
        let after = insert_all(Seq::empty(), found);
        assert forall|t1: int, t2: int| 0 <= t1 < t2 < shorter.len() implies (
        #[trigger] shorter[t1]).0 != (#[trigger] shorter[t2]).0 by {
            assert(found[t1].0 != found[t2].0);
        }
        lemma_insert_all_no_board_twice(shorter);
        let i = find_from(before, last.1, 0);
        lemma_find_from(before, last.1, 0);
        // the place of the new board
        let g0 = if i < before.len() {
            i
        } else {
            before.len() as int
        };
        let j0 = if i < before.len() {
            before[i].0.len() as int
        } else {
            0
        };
        assert forall|g1: int, j1: int, g2: int, j2: int|
            0 <= g1 < after.len() && 0 <= j1 < after[g1].0.len() && 0 <= g2 < after.len() && 0
                <= j2 < after[g2].0.len() && (g1 != g2 || j1 != j2) implies #[trigger] after[g1].0[j1]
            != #[trigger] after[g2].0[j2] by {
            let new1 = g1 == g0 && j1 == j0;
            let new2 = g2 == g0 && j2 == j0;
            if !new1 {
                assert(g1 < before.len() && j1 < before[g1].0.len());
                assert(after[g1].0[j1] == before[g1].0[j1]);
                let t = lemma_insert_all_origin(Seq::empty(), shorter, g1, j1);
                assert(shorter[t] == found[t]);
                assert(found[t].0 != found[found.len() - 1].0);
            }
            if !new2 {
                assert(g2 < before.len() && j2 < before[g2].0.len());
                assert(after[g2].0[j2] == before[g2].0[j2]);
                let t = lemma_insert_all_origin(Seq::empty(), shorter, g2, j2);
                assert(shorter[t] == found[t]);
                assert(found[t].0 != found[found.len() - 1].0);
            }
            if new1 {
                assert(after[g1].0[j1] == last.0);
            }
            if new2 {
                assert(after[g2].0[j2] == last.0);
            }
            if !new1 && !new2 {
                assert(before[g1].0[j1] != before[g2].0[j2]);
            }
        }
    }
}

/// No board is enumerated twice.
pub proof fn lemma_enumerated_boards_distinct(
    state: u64,
    sr: [usize; 5],
    sc: [usize; 5],
    br: [usize; 5],
    bc: [usize; 5],
    level: int,
)
    ensures
        no_board_twice(solution_groups(state, sr, sc, br, bc, level)),
{
    let found = completions(start_grid(state), 0, sr, sc, br, bc, level);
    assert forall|t1: int, t2: int| 0 <= t1 < t2 < found.len() implies (#[trigger] found[t1]).0 != (
    #[trigger] found[t2]).0 by {
        lemma_completions_distinct(start_grid(state), 0, sr, sc, br, bc, level, t1, t2);
    }
    lemma_insert_all_no_board_twice(found);
}

} // verus!
