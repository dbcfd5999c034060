//! The level catalogue: for each level the ten buckets of admissible boards
//! and the number of boards in each bucket.

use vstd::prelude::*;
use crate::math::{
    count_special, count_symbols, count_where, special_line_max, special_square_at, symbol_is,
};
use crate::packed::is_symbol_grid;

verus! {

/// `BUCKETS[level - 1][index]` is the bucket `index` of `level`: how many
/// bombs, ones, twos and threes its boards hold, then how many special
/// squares they may hold in total and on one row or column.
pub const BUCKETS: [[[usize; 6]; 10]; 8] = [
    [
        [6, 15, 3, 1, 2, 2],
        [6, 16, 0, 3, 1, 1],
        [6, 14, 5, 0, 3, 2],
        [6, 15, 2, 2, 2, 2],
        [6, 14, 4, 1, 3, 2],
        [6, 15, 3, 1, 2, 2],
        [6, 16, 0, 3, 1, 1],
        [6, 14, 5, 0, 3, 2],
        [6, 15, 2, 2, 2, 2],
        [6, 14, 4, 1, 3, 2],
    ],
    [
        [7, 14, 1, 3, 2, 1],
        [7, 12, 6, 0, 3, 2],
        [7, 13, 3, 2, 2, 1],
        [7, 14, 0, 4, 2, 1],
        [7, 12, 5, 1, 3, 2],
        [7, 14, 1, 3, 1, 1],
        [7, 12, 6, 0, 2, 2],
        [7, 13, 3, 2, 1, 1],
        [7, 14, 0, 4, 1, 1],
        [7, 12, 5, 1, 2, 2],
    ],
    [
        [8, 12, 2, 3, 2, 1],
        [8, 10, 7, 0, 3, 2],
        [8, 11, 4, 2, 3, 2],
        [8, 12, 1, 4, 2, 1],
        [8, 10, 6, 1, 2, 3],
        [8, 12, 2, 3, 1, 1],
        [8, 10, 7, 0, 2, 2],
        [8, 11, 4, 2, 2, 2],
        [8, 12, 1, 4, 1, 1],
        [8, 10, 6, 1, 2, 2],
    ],
    [
        [8, 11, 3, 3, 2, 3],
        [8, 12, 0, 5, 2, 1],
        [10, 7, 8, 0, 4, 3],
        [10, 8, 5, 2, 3, 2],
        [10, 9, 2, 4, 3, 2],
        [8, 11, 3, 3, 2, 2],
        [8, 12, 0, 5, 1, 1],
        [10, 7, 8, 0, 3, 3],
        [10, 8, 5, 2, 2, 2],
        [10, 9, 2, 4, 2, 2],
    ],
    [
        [10, 7, 7, 1, 4, 3],
        [10, 8, 4, 3, 3, 2],
        [10, 9, 1, 5, 3, 2],
        [10, 6, 9, 0, 4, 3],
        [10, 7, 6, 2, 4, 3],
        [10, 7, 7, 1, 3, 3],
        [10, 8, 4, 3, 2, 2],
        [10, 9, 1, 5, 2, 2],
        [10, 6, 9, 0, 3, 3],
        [10, 7, 6, 2, 3, 3],
    ],
    [
        [10, 8, 3, 4, 3, 2],
        [10, 9, 0, 6, 3, 2],
        [10, 6, 8, 1, 4, 3],
        [10, 7, 5, 3, 4, 3],
        [10, 8, 2, 5, 3, 2],
        [10, 8, 3, 4, 2, 2],
        [10, 9, 0, 6, 2, 2],
        [10, 6, 8, 1, 3, 3],
        [10, 7, 5, 3, 3, 3],
        [10, 8, 2, 5, 2, 2],
    ],
    [
        [10, 6, 7, 2, 4, 3],
        [10, 7, 4, 4, 4, 3],
        [13, 5, 1, 6, 3, 2],
        [13, 2, 9, 1, 5, 4],
        [10, 6, 6, 3, 4, 3],
        [10, 6, 7, 2, 3, 3],
        [10, 7, 4, 4, 3, 3],
        [13, 5, 1, 6, 2, 2],
        [13, 2, 9, 1, 4, 4],
        [10, 6, 6, 3, 3, 3],
    ],
    [
        [10, 8, 0, 7, 3, 2],
        [10, 5, 8, 2, 5, 4],
        [10, 6, 5, 4, 4, 3],
        [10, 7, 2, 6, 4, 3],
        [10, 5, 7, 3, 5, 4],
        [10, 8, 0, 7, 2, 2],
        [10, 5, 8, 2, 4, 4],
        [10, 6, 5, 4, 3, 3],
        [10, 7, 2, 6, 3, 3],
        [10, 5, 7, 3, 4, 4],
    ],
];

/// `COUNTS[level][index]` is the number of boards in bucket `index` of
/// `level`. There is no level 0.
pub const COUNTS: [[u64; 10]; 9] = [
    [0, 0, 0, 0, 0, 0, 0, 0, 0, 0],
    [
        1732660000, 81056200, 1407876600, 2598990000, 7039383000, 1732660000, 81056200, 1407876600,
        2598990000, 7039383000,
    ],
    [
        3245678400, 5722702400, 17146024000, 811419600, 34336214400, 2684683200, 4495352000,
        14348488000, 671170800, 26972112000,
    ],
    [
        34839212000, 12979316000, 145577634000, 17419606000, 81740052800, 32177972000, 11677150400,
        128566014000, 16088986000, 81740052800,
    ],
    [
        171421352000, 3483921200, 18355191900, 335965442400, 204113718000, 171421352000,
        3217797200, 17976411900, 331634822400, 199722318000,
    ],
    [
        146841535200, 559942404000, 81645487200, 13300405700, 513945373200, 143811295200,
        552724704000, 79888927200, 13159573700, 503339533200,
    ],
    [
        559942404000, 13607581200, 119703651300, 1027890746400, 335965442400, 552724704000,
        13314821200, 118436163300, 1006679066400, 331634822400,
    ],
    [
        478814605200, 1284863433000, 25901458800, 3265542000, 1117234078800, 473744653200,
        1258348833000, 25901458800, 3265542000, 1105404190800,
    ],
    [
        15998354400, 400990788900, 1675851118200, 513945373200, 1069308770400, 15792134400,
        394129278900, 1658106286200, 503339533200, 1051011410400,
    ],
];

/// Whether a grid holds exactly the symbols of a bucket and keeps to its
/// limits on special squares.
pub open spec fn fits(g: [[usize; 5]; 5], symbols: Seq<usize>, in_total: int, per_line: int) -> bool {
    &&& forall|s: int| 0 <= s < 4 ==> count_where(symbol_is(g, s), 25) == #[trigger] symbols[s]
    &&& count_where(special_square_at(g), 25) <= in_total
    &&& special_line_max(g, 5) <= per_line
}

/// Whether a grid fits bucket `index` of `level`.
pub open spec fn fits_bucket(g: [[usize; 5]; 5], level: int, index: int) -> bool {
    let b = BUCKETS[level - 1][index];
    fits(g, b@.take(4), b[4] as int, b[5] as int)
}

/// 2 to the power of `n`.
pub open spec fn two_to(n: int) -> int
    decreases n,
{
    if n <= 0 {
        1
    } else {
        2 * two_to(n - 1)
    }
}

/// The set of the first `n` buckets of `level` that a grid fits, as a sum of
/// powers of two: `2^index` for each bucket that fits.
pub open spec fn bucket_set_upto(g: [[usize; 5]; 5], level: int, n: int) -> int
    decreases n,
{
    if n <= 0 {
        0
    } else {
        bucket_set_upto(g, level, n - 1) + if fits_bucket(g, level, n - 1) {
            two_to(n - 1)
        } else {
            0
        }
    }
}

/// The set of buckets of `level` that a grid fits.
pub open spec fn bucket_set(g: [[usize; 5]; 5], level: int) -> int {
    bucket_set_upto(g, level, 10)
}

/// A power of 2 is at least 1.
pub proof fn lemma_two_to_positive(n: int)
    ensures
        two_to(n) >= 1,
    decreases n,
{
    if n > 0 {
        lemma_two_to_positive(n - 1);
    }
}

/// A set of buckets is 0 exactly if the grid fits none of them, and stays
/// below `2^n`.
pub proof fn lemma_bucket_set_upto(g: [[usize; 5]; 5], level: int, n: int)
    requires
        0 <= n,
    ensures
        0 <= bucket_set_upto(g, level, n) < two_to(n),
        bucket_set_upto(g, level, n) == 0 <==> forall|i: int|
            0 <= i < n ==> !#[trigger] fits_bucket(g, level, i),
    decreases n,
{
    if n > 0 {
        lemma_bucket_set_upto(g, level, n - 1);
        lemma_two_to_positive(n - 1);
    }
}

/// The bucket `index` of `level`: its symbol counts, the limit on special
/// squares in total and the limit on one row or column.
pub fn get_constraint(level: usize, index: usize) -> (cons: ([usize; 4], usize, usize))
    requires
        1 <= level <= 8,
        index < 10,
    ensures
        cons.0@ == BUCKETS[level - 1][index as int]@.take(4),
        cons.1 == BUCKETS[level - 1][index as int][4],
        cons.2 == BUCKETS[level - 1][index as int][5],
{
    let b: [usize; 6] = BUCKETS[level - 1][index];
    let symbols: [usize; 4] = [b[0], b[1], b[2], b[3]];
    assert(symbols@ =~= b@.take(4));
    (symbols, b[4], b[5])
}

/// The table of the number of boards in each bucket, by level and index.
pub fn get_counts_array() -> (counts: [[u64; 10]; 9])
    ensures
        counts == COUNTS,
{
    COUNTS
}

/// Whether a grid fits the bucket `cons`.
pub fn state_fits_cons(state: &[[usize; 5]; 5], cons: &([usize; 4], usize, usize)) -> (ok: bool)
    requires
        is_symbol_grid(*state),
    ensures
        ok == fits(*state, cons.0@, cons.1 as int, cons.2 as int),
{
    let (count_total, count_line) = count_special(state);
    let nr_symbols = count_symbols(state);
    for symbol in 0..4usize
        invariant
            forall|s: int|
                0 <= s < 4 ==> #[trigger] nr_symbols[s] == count_where(symbol_is(*state, s), 25),
            forall|s: int|
                0 <= s < symbol ==> count_where(symbol_is(*state, s), 25) == #[trigger] cons.0[s],
    {
        if nr_symbols[symbol] != cons.0[symbol] {
            assert(count_where(symbol_is(*state, symbol as int), 25) != cons.0@[symbol as int]);
            return false;
        }
    }
    if count_total > cons.1 || count_line > cons.2 {
        return false;
    }
    true
}

/// The set of buckets of `level` that a full grid fits: `2^index` is part of
/// the sum for each bucket that fits. The weight of a board is the sum of
/// the inverse counts of these buckets.
pub fn get_buckets_of_state(state: &[[usize; 5]; 5], level: usize) -> (set: u16)
    requires
        is_symbol_grid(*state),
        1 <= level <= 8,
    ensures
        set == bucket_set(*state, level as int),
        set < 1024,
{
    let mut set: u16 = 0;
    let mut bit: u16 = 1;
    proof {
        reveal_with_fuel(two_to, 11);
        assert(two_to(10) == 1024);
    }
    for index in 0..10usize
        invariant
            is_symbol_grid(*state),
            1 <= level <= 8,
            bit == two_to(index as int),
            set == bucket_set_upto(*state, level as int, index as int),
            two_to(10) == 1024,
            index <= 10,
    {
        proof {
            lemma_bucket_set_upto(*state, level as int, index as int);
            lemma_two_to_monotone(index as int, 9);
            assert(two_to(10) == 2 * two_to(9));
            let b = BUCKETS[level - 1][index as int];
            assert(fits_bucket(*state, level as int, index as int) == fits(
                *state,
                b@.take(4),
                b[4] as int,
                b[5] as int,
            ));
        }
        let cons = get_constraint(level, index);
        if state_fits_cons(state, &cons) {
            set = set + bit;
        }
        bit = bit * 2;
    }
    proof {
        lemma_bucket_set_upto(*state, level as int, 10);
    }
    set
}

proof fn lemma_two_to_monotone(a: int, b: int)
    requires
        0 <= a <= b,
    ensures
        two_to(a) <= two_to(b),
    decreases b,
{
    if a < b {
        lemma_two_to_monotone(a, b - 1);
        lemma_two_to_positive(b - 1);
    }
}

} // verus!
