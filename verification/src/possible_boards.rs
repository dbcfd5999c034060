//! The store of possible boards: one flat list of packed boards, and a list
//! of indices that cuts it into slices by search depth and weight group.
//!
//! With `w` weight groups, the boards of depth `d` and group `g` are those
//! from `indices[d * w + g]` up to `indices[d * w + g + 1]`.

use vstd::prelude::*;
use crate::packed::{
    cell, compatible, get_from_packed_state, is_possible_board_of_state, lemma_field_bound,
};

verus! {

/// The slices of one depth, which start at `indices[start]`, lie in the
/// store one behind the other.
pub open spec fn slices_ok(boards: Seq<u64>, indices: Seq<usize>, start: int, groups: int) -> bool {
    &&& 0 <= start
    &&& 0 <= groups
    &&& start + groups < indices.len()
    &&& forall|g: int| 0 <= g < groups ==> indices[start + g] <= #[trigger] indices[start + g + 1]
    &&& indices[start + groups] <= boards.len()
}

/// The boards among the first `n` of `s` that are compatible with `state`,
/// in their order.
pub open spec fn kept(s: Seq<u64>, state: u64, n: int) -> Seq<u64>
    decreases n,
{
    if n <= 0 {
        Seq::empty()
    } else if compatible(s[n - 1], state) {
        kept(s, state, n - 1).push(s[n - 1])
    } else {
        kept(s, state, n - 1)
    }
}

/// The compatible boards of `s`, in their order.
pub open spec fn compatible_boards(s: Seq<u64>, state: u64) -> Seq<u64> {
    kept(s, state, s.len() as int)
}

/// Every board that is kept was there before and is compatible.
pub proof fn lemma_kept_member(s: Seq<u64>, state: u64, n: int, j: int) -> (i: int)
    requires
        0 <= n <= s.len(),
        0 <= j < kept(s, state, n).len(),
    ensures
        0 <= i < n,
        kept(s, state, n)[j] == s[i],
        compatible(s[i], state),
    decreases n,
{
    if compatible(s[n - 1], state) {
        if j == kept(s, state, n - 1).len() {
            n - 1
        } else {
            lemma_kept_member(s, state, n - 1, j)
        }
    } else {
        lemma_kept_member(s, state, n - 1, j)
    }
}

/// Every compatible board is kept.
pub proof fn lemma_kept_complete(s: Seq<u64>, state: u64, n: int, i: int) -> (j: int)
    requires
        0 <= i < n <= s.len(),
        compatible(s[i], state),
    ensures
        0 <= j < kept(s, state, n).len(),
        kept(s, state, n)[j] == s[i],
    decreases n,
{
    if i == n - 1 {
        kept(s, state, n - 1).len() as int
    } else {
        lemma_kept_complete(s, state, n - 1, i)
    }
}

/// Where every board is compatible, every board is kept.
pub proof fn lemma_kept_all(s: Seq<u64>, state: u64, n: int)
    requires
        0 <= n <= s.len(),
        forall|i: int| 0 <= i < n ==> compatible(#[trigger] s[i], state),
    ensures
        kept(s, state, n) == s.take(n),
    decreases n,
{
    if n > 0 {
        lemma_kept_all(s, state, n - 1);
        assert(s.take(n) =~= s.take(n - 1).push(s[n - 1]));
    } else {
        assert(s.take(0) =~= Seq::<u64>::empty());
    }
}

/// Filtering by a state and then by a tighter state is filtering by the
/// tighter state.
pub proof fn lemma_kept_twice(s: Seq<u64>, loose: u64, tight: u64, n: int)
    requires
        0 <= n <= s.len(),
        forall|b: u64| compatible(b, tight) ==> #[trigger] compatible(b, loose),
    ensures
        compatible_boards(kept(s, loose, n), tight) == kept(s, tight, n),
    decreases n,
{
    if n > 0 {
        lemma_kept_twice(s, loose, tight, n - 1);
        let before = kept(s, loose, n - 1);
        let b = s[n - 1];
        if compatible(b, loose) {
            let now = before.push(b);
            assert(now.drop_last() =~= before);
            assert(kept(now, tight, now.len() as int) == if compatible(b, tight) {
                kept(now, tight, now.len() - 1).push(b)
            } else {
                kept(now, tight, now.len() - 1)
            });
            lemma_kept_prefix(now, before, tight, before.len() as int);
        } else {
            assert(!compatible(b, tight));
        }
    }
}

/// What is kept of the first `n` boards does not depend on the boards
/// behind them.
pub proof fn lemma_kept_prefix(a: Seq<u64>, b: Seq<u64>, state: u64, n: int)
    requires
        0 <= n <= a.len(),
        n <= b.len(),
        forall|i: int| 0 <= i < n ==> a[i] == b[i],
    ensures
        kept(a, state, n) == kept(b, state, n),
    decreases n,
{
    if n > 0 {
        lemma_kept_prefix(a, b, state, n - 1);
    }
}

/// Fills the slices of the next depth: for each weight group, the boards of
/// the current depth that are compatible with `packed_state`. What lies
/// behind the current depth is overwritten.
#[verifier::rlimit(40)]
pub fn filter_possible_boards_of_next_depth(
    packed_state: u64,
    possible_boards: &mut Vec<u64>,
    indices: &mut Vec<usize>,
    index_start: usize,
    weight_groups: usize,
)
    requires
        slices_ok(old(possible_boards)@, old(indices)@, index_start as int, weight_groups as int),
        index_start + 2 * weight_groups < old(indices).len(),
    ensures
        final(indices).len() == old(indices).len(),
        forall|k: int|
            0 <= k < old(indices).len() && !(index_start + weight_groups < k <= index_start + 2
                * weight_groups) ==> #[trigger] final(indices)[k] == old(indices)[k],
        slices_ok(
            final(possible_boards)@,
            final(indices)@,
            index_start + weight_groups,
            weight_groups as int,
        ),
        final(possible_boards).len() == final(indices)[index_start + 2 * weight_groups],
        final(possible_boards)@.take(old(indices)[index_start + weight_groups] as int) == old(
            possible_boards,
        )@.take(old(indices)[index_start + weight_groups] as int),
        forall|g: int|
            0 <= g < weight_groups ==> #[trigger] final(possible_boards)@.subrange(
                final(indices)[index_start + weight_groups + g] as int,
                final(indices)[index_start + weight_groups + g + 1] as int,
            ) == compatible_boards(
                old(possible_boards)@.subrange(
                    old(indices)[index_start + g] as int,
                    old(indices)[index_start + g + 1] as int,
                ),
                packed_state,
            ),
{
    let ghost boards0 = possible_boards@;
    let ghost indices0 = indices@;
    let end = indices[index_start + weight_groups];
    possible_boards.truncate(end);
    let ghost base = possible_boards@;
    assert(base =~= boards0.take(end as int));
    proof {
        lemma_slices_bounded(boards0, indices0, index_start as int, weight_groups as int);
    }
    for index_weight in 0..weight_groups
        invariant
            slices_ok(boards0, indices0, index_start as int, weight_groups as int),
            index_start + 2 * weight_groups < indices0.len(),
            indices.len() == indices0.len(),
            end == indices0[index_start + weight_groups],
            base == boards0.take(end as int),
            forall|g: int| 0 <= g <= weight_groups ==> #[trigger] indices0[index_start + g] <= end,
            possible_boards@.take(end as int) == base,
            end <= possible_boards.len(),
            forall|k: int|
                0 <= k < indices0.len() && !(index_start + weight_groups < k <= index_start
                    + weight_groups + index_weight) ==> #[trigger] indices[k] == indices0[k],
            possible_boards.len() == indices[index_start + weight_groups + index_weight],
            forall|g: int|
                0 <= g <= index_weight ==> #[trigger] indices[index_start + weight_groups + g]
                    <= possible_boards.len(),
            forall|g: int|
                0 <= g < index_weight ==> indices[index_start + weight_groups + g]
                    <= #[trigger] indices[index_start + weight_groups + g + 1],
            forall|g: int|
                0 <= g < index_weight ==> #[trigger] possible_boards@.subrange(
                    indices[index_start + weight_groups + g] as int,
                    indices[index_start + weight_groups + g + 1] as int,
                ) == compatible_boards(
                    boards0.subrange(
                        indices0[index_start + g] as int,
                        indices0[index_start + g + 1] as int,
                    ),
                    packed_state,
                ),
    {
        let lo = indices[index_start + index_weight];
        let hi = indices[index_start + index_weight + 1];
        let ghost first = possible_boards.len();
        let ghost group = boards0.subrange(lo as int, hi as int);
        let ghost stored = possible_boards@;
        proof {
            assert(indices0[index_start + index_weight] <= indices0[index_start + index_weight
                + 1]);
            assert(indices0[index_start + (index_weight + 1)] <= end);
        }
        for i in lo..hi
            invariant
                lo <= hi <= end,
                end <= first,
                end <= boards0.len(),
                group == boards0.subrange(lo as int, hi as int),
                base == boards0.take(end as int),
                possible_boards@.take(end as int) == base,
                possible_boards@ == stored + kept(group, packed_state, i - lo),
                stored.len() == first,
        {
            let packed_board = possible_boards[i];
            assert(packed_board == base[i as int]);
            assert(packed_board == group[i - lo]);
            if is_possible_board_of_state(packed_board, packed_state) {
                possible_boards.push(packed_board);
            }
            assert(possible_boards@.take(end as int) =~= base);
        }
        let ghost before = indices@;
        indices[index_start + weight_groups + index_weight + 1] = possible_boards.len();
        proof {
            let found = compatible_boards(group, packed_state);
            assert(group.len() == hi - lo);
            assert(possible_boards@.subrange(first as int, possible_boards.len() as int) =~= found);
            assert forall|g: int| 0 <= g < index_weight + 1 implies #[trigger] possible_boards@.subrange(
                indices[index_start + weight_groups + g] as int,
                indices[index_start + weight_groups + g + 1] as int,
            ) == compatible_boards(
                boards0.subrange(
                    indices0[index_start + g] as int,
                    indices0[index_start + g + 1] as int,
                ),
                packed_state,
            ) by {
                if g < index_weight {
                    let a = before[index_start + weight_groups + g] as int;
                    let b = before[index_start + weight_groups + g + 1] as int;
                    assert(before[index_start + weight_groups + (g + 1)] <= first);
                    assert(before[index_start + weight_groups + g] <= before[index_start
                        + weight_groups + g + 1]);
                    assert(possible_boards@.subrange(a, b) =~= stored.subrange(a, b));
                }
            }
        }
    }
}

/// No slice of a depth begins behind the end of the depth.
pub proof fn lemma_slices_bounded(boards: Seq<u64>, indices: Seq<usize>, start: int, groups: int)
    requires
        slices_ok(boards, indices, start, groups),
    ensures
        forall|g: int| 0 <= g <= groups ==> #[trigger] indices[start + g] <= indices[start + groups],
{
    assert forall|g: int| 0 <= g <= groups implies #[trigger] indices[start + g] <= indices[start
        + groups] by {
        lemma_slice_bounded(boards, indices, start, groups, g);
    }
}

/// Slice `g` of a depth does not begin behind the end of the depth.
pub proof fn lemma_slice_bounded(boards: Seq<u64>, indices: Seq<usize>, start: int, groups: int, g: int)
    requires
        slices_ok(boards, indices, start, groups),
        0 <= g <= groups,
    ensures
        indices[start + g] <= indices[start + groups],
    decreases groups - g,
{
    if g < groups {
        lemma_slice_bounded(boards, indices, start, groups, g + 1);
        assert(indices[start + g] <= indices[start + g + 1]);
    }
}

/// The number of boards from `lo` up to `hi` that hold `symbol` at cell
/// `(row, col)`.
pub open spec fn symbol_count(
    boards: Seq<u64>,
    lo: int,
    hi: int,
    row: int,
    col: int,
    symbol: int,
) -> int
    decreases hi - lo,
{
    if hi <= lo {
        0
    } else {
        symbol_count(boards, lo, hi - 1, row, col, symbol) + if cell(boards[hi - 1], row, col)
            == symbol {
            1int
        } else {
            0int
        }
    }
}

/// On every cell the counts of the four symbols add up to the number of
/// boards: normalised by it, the symbol frequencies of a cell add up to 1,
/// and those of the whole grid to 25.
pub proof fn lemma_symbol_counts_sum(boards: Seq<u64>, lo: int, hi: int, row: int, col: int)
    requires
        0 <= lo <= hi <= boards.len(),
        0 <= row < 5,
        0 <= col < 5,
    ensures
        symbol_count(boards, lo, hi, row, col, 0) + symbol_count(boards, lo, hi, row, col, 1)
            + symbol_count(boards, lo, hi, row, col, 2) + symbol_count(boards, lo, hi, row, col, 3)
            == hi - lo,
        forall|s: int| 0 <= #[trigger] symbol_count(boards, lo, hi, row, col, s) <= hi - lo,
    decreases hi - lo,
{
    if lo < hi {
        lemma_symbol_counts_sum(boards, lo, hi - 1, row, col);
        lemma_field_bound(boards[hi - 1], 24 - (5 * row + col));
        assert forall|s: int| 0 <= #[trigger] symbol_count(boards, lo, hi, row, col, s) <= hi
            - lo by {
            assert(0 <= symbol_count(boards, lo, hi - 1, row, col, s) <= hi - 1 - lo);
        }
    } else {
        assert forall|s: int| 0 <= #[trigger] symbol_count(boards, lo, hi, row, col, s) <= hi
            - lo by {}
    }
}

/// The sum over the first `n` weight groups of the weight of the group
/// times the number of its boards that hold `symbol` at cell `(row, col)`.
pub open spec fn weighted_count(
    boards: Seq<u64>,
    indices: Seq<usize>,
    start: int,
    weights: Seq<int>,
    n: int,
    row: int,
    col: int,
    symbol: int,
) -> int
    decreases n,
{
    if n <= 0 {
        0
    } else {
        weighted_count(boards, indices, start, weights, n - 1, row, col, symbol) + weights[n - 1]
            * symbol_count(
            boards,
            indices[start + n - 1] as int,
            indices[start + n] as int,
            row,
            col,
            symbol,
        )
    }
}

/// The sum over the first `n` weight groups of the weight of the group times
/// the number of its boards.
pub open spec fn weighted_total(
    indices: Seq<usize>,
    start: int,
    weights: Seq<int>,
    n: int,
) -> int
    decreases n,
{
    if n <= 0 {
        0
    } else {
        weighted_total(indices, start, weights, n - 1) + weights[n - 1] * (indices[start + n]
            - indices[start + n - 1])
    }
}

/// Whatever the weights of the groups, on every cell the weighted counts of
/// the four symbols add up to the weighted number of boards. Divided by that
/// number, the four shares of a cell add up to 1, and the shares of the 25
/// cells to 25.
pub proof fn lemma_weighted_counts_sum(
    boards: Seq<u64>,
    indices: Seq<usize>,
    start: int,
    weights: Seq<int>,
    n: int,
    row: int,
    col: int,
)
    requires
        slices_ok(boards, indices, start, weights.len() as int),
        0 <= n <= weights.len(),
        0 <= row < 5,
        0 <= col < 5,
    ensures
        weighted_count(boards, indices, start, weights, n, row, col, 0) + weighted_count(
            boards,
            indices,
            start,
            weights,
            n,
            row,
            col,
            1,
        ) + weighted_count(boards, indices, start, weights, n, row, col, 2) + weighted_count(
            boards,
            indices,
            start,
            weights,
            n,
            row,
            col,
            3,
        ) == weighted_total(indices, start, weights, n),
    decreases n,
{
    if n > 0 {
        lemma_weighted_counts_sum(boards, indices, start, weights, n - 1, row, col);
        let lo = indices[start + n - 1] as int;
        let hi = indices[start + n] as int;
        lemma_slices_bounded(boards, indices, start, weights.len() as int);
        assert(indices[start + (n - 1)] <= indices[start + (n - 1) + 1]);
        assert(indices[start + n] <= indices[start + weights.len()]);
        lemma_symbol_counts_sum(boards, lo, hi, row, col);
        let w = weights[n - 1];
        let a0 = symbol_count(boards, lo, hi, row, col, 0);
        let a1 = symbol_count(boards, lo, hi, row, col, 1);
        let a2 = symbol_count(boards, lo, hi, row, col, 2);
        let a3 = symbol_count(boards, lo, hi, row, col, 3);
        assert(w * a0 + w * a1 + w * a2 + w * a3 == w * (hi - lo)) by (nonlinear_arith)
            requires
                a0 + a1 + a2 + a3 == hi - lo,
        ;
    }
}

fn count_board(acc: &mut [[[usize; 4]; 5]; 5], packed_board: u64, Ghost(limit): Ghost<int>)
    requires
        limit < usize::MAX,
        forall|r: int, c: int, s: int|
            0 <= r < 5 && 0 <= c < 5 && 0 <= s < 4 ==> (#[trigger] old(acc)[r][c][s]) <= limit,
    ensures
        forall|r: int, c: int, s: int|
            0 <= r < 5 && 0 <= c < 5 && 0 <= s < 4 ==> (#[trigger] final(acc)[r][c][s]) == old(
                acc,
            )[r][c][s] + if cell(packed_board, r, c) == s {
                1int
            } else {
                0int
            },
{
    let ghost start = *acc;
    for r in 0..5usize
        invariant
            limit < usize::MAX,
            forall|a: int, b: int, s: int|
                0 <= a < 5 && 0 <= b < 5 && 0 <= s < 4 ==> (#[trigger] start[a][b][s]) <= limit,
            forall|a: int, b: int, s: int|
                0 <= a < 5 && 0 <= b < 5 && 0 <= s < 4 ==> (#[trigger] acc[a][b][s]) == start[a][b][s]
                    + if a < r && cell(packed_board, a, b) == s {
                    1int
                } else {
                    0int
                },
    {
        for c in 0..5usize
            invariant
                r < 5,
                limit < usize::MAX,
                forall|a: int, b: int, s: int|
                    0 <= a < 5 && 0 <= b < 5 && 0 <= s < 4 ==> (#[trigger] start[a][b][s]) <= limit,
                forall|a: int, b: int, s: int|
                    0 <= a < 5 && 0 <= b < 5 && 0 <= s < 4 ==> (#[trigger] acc[a][b][s])
                        == start[a][b][s] + if (a < r || (a == r && b < c)) && cell(
                        packed_board,
                        a,
                        b,
                    ) == s {
                        1int
                    } else {
                        0int
                    },
        {
            let symbol = get_from_packed_state(packed_board, r, c);
            assert(start[r as int][c as int][symbol as int] <= limit);
            acc[r][c][symbol] += 1;
        }
    }
}

/// For each weight group of the depth that starts at `indices[index_start]`,
/// how many of its boards hold each symbol on each cell:
/// `acc[g][row][col][symbol]`. Weighted by the weights of the groups and
/// divided by the weighted number of boards, these are the symbol
/// probabilities of the cells.
#[verifier::rlimit(40)]
pub fn accumulate_symbol_counts(
    possible_boards: &Vec<u64>,
    indices: &Vec<usize>,
    index_start: usize,
    weight_groups: usize,
) -> (acc: Vec<[[[usize; 4]; 5]; 5]>)
    requires
        slices_ok(possible_boards@, indices@, index_start as int, weight_groups as int),
    ensures
        acc.len() == weight_groups,
        forall|g: int, r: int, c: int, s: int|
            0 <= g < weight_groups && 0 <= r < 5 && 0 <= c < 5 && 0 <= s < 4 ==> (
            #[trigger] acc[g][r][c][s]) == symbol_count(
                possible_boards@,
                indices[index_start + g] as int,
                indices[index_start + g + 1] as int,
                r,
                c,
                s,
            ),
        forall|g: int, r: int, c: int|
            0 <= g < weight_groups && 0 <= r < 5 && 0 <= c < 5 ==> (#[trigger] acc[g][r][c])[0]
                + acc[g][r][c][1] + acc[g][r][c][2] + acc[g][r][c][3] == indices[index_start + g
                + 1] - indices[index_start + g],
{
    let mut acc: Vec<[[[usize; 4]; 5]; 5]> = Vec::new();
    proof {
        lemma_slices_bounded(possible_boards@, indices@, index_start as int, weight_groups as int);
    }
    for index_weight in 0..weight_groups
        invariant
            slices_ok(possible_boards@, indices@, index_start as int, weight_groups as int),
            index_start + weight_groups < indices.len(),
            forall|g: int|
                0 <= g <= weight_groups ==> #[trigger] indices[index_start + g]
                    <= indices[index_start + weight_groups],
            acc.len() == index_weight,
            forall|g: int, r: int, c: int, s: int|
                0 <= g < index_weight && 0 <= r < 5 && 0 <= c < 5 && 0 <= s < 4 ==> (
                #[trigger] acc[g][r][c][s]) == symbol_count(
                    possible_boards@,
                    indices[index_start + g] as int,
                    indices[index_start + g + 1] as int,
                    r,
                    c,
                    s,
                ),
    {
        let lo = indices[index_start + index_weight];
        let hi = indices[index_start + index_weight + 1];
        let mut one: [[[usize; 4]; 5]; 5] = [[[0usize;4];5];5];
        proof {
            assert(indices[index_start + index_weight] <= indices[index_start + index_weight + 1]);
            assert(indices[index_start + (index_weight + 1)] <= indices[index_start
                + weight_groups]);
        }
        for i in lo..hi
            invariant
                lo <= hi <= possible_boards.len(),
                forall|r: int, c: int, s: int|
                    0 <= r < 5 && 0 <= c < 5 && 0 <= s < 4 ==> (#[trigger] one[r][c][s])
                        == symbol_count(possible_boards@, lo as int, i as int, r, c, s),
        {
            proof {
                assert forall|r: int, c: int, s: int|
                    0 <= r < 5 && 0 <= c < 5 && 0 <= s < 4 implies (#[trigger] one[r][c][s]) <= i
                    - lo by {
                    lemma_symbol_counts_sum(possible_boards@, lo as int, i as int, r, c);
                }
            }
            count_board(&mut one, possible_boards[i], Ghost(i - lo));
        }
        acc.push(one);
    }
    proof {
        assert forall|g: int, r: int, c: int|
            0 <= g < weight_groups && 0 <= r < 5 && 0 <= c < 5 implies (#[trigger] acc[g][r][c])[0]
            + acc[g][r][c][1] + acc[g][r][c][2] + acc[g][r][c][3] == indices[index_start + g + 1]
            - indices[index_start + g] by {
            assert(indices[index_start + g] <= indices[index_start + g + 1]);
            assert(indices[index_start + (g + 1)] <= indices[index_start + weight_groups]);
            lemma_symbol_counts_sum(
                possible_boards@,
                indices[index_start + g] as int,
                indices[index_start + g + 1] as int,
                r,
                c,
            );
            assert(acc[g][r][c][0] == symbol_count(
                possible_boards@,
                indices[index_start + g] as int,
                indices[index_start + g + 1] as int,
                r,
                c,
                0,
            ));
            assert(acc[g][r][c][1] == symbol_count(
                possible_boards@,
                indices[index_start + g] as int,
                indices[index_start + g + 1] as int,
                r,
                c,
                1,
            ));
            assert(acc[g][r][c][2] == symbol_count(
                possible_boards@,
                indices[index_start + g] as int,
                indices[index_start + g + 1] as int,
                r,
                c,
                2,
            ));
            assert(acc[g][r][c][3] == symbol_count(
                possible_boards@,
                indices[index_start + g] as int,
                indices[index_start + g + 1] as int,
                r,
                c,
                3,
            ));
        }
    }
    acc
}

} // verus!
