//! Combinatorics and counting on 5x5 grids: binomials, multinomials,
//! enumeration of k-subsets and multiset splits, special squares, transposes.

use vstd::prelude::*;
use vstd::array::{spec_array_fill_for_copy_type, spec_array_update};
use crate::packed::{
    assigned_upto, cell, cell_at, field, get_from_packed_state, lemma_field_bound,
    set_in_packed_state, PACKED_LIMIT,
};

verus! {

/// The binomial coefficient, by Pascal's rule; 0 for `k > n`.
pub open spec fn binomial(n: nat, k: nat) -> nat
    decreases n,
{
    if k == 0 {
        1
    } else if n == 0 {
        0
    } else {
        binomial((n - 1) as nat, (k - 1) as nat) + binomial((n - 1) as nat, k)
    }
}

/// The smaller of `k` and `n - k`.
pub open spec fn short_side(n: nat, k: nat) -> nat {
    if k <= n - k {
        k
    } else {
        (n - k) as nat
    }
}

/// There is no way to choose more than there is: `C(n, k) == 0` for `k > n`.
pub proof fn lemma_binomial_zero_above(n: nat, k: nat)
    requires
        k > n,
    ensures
        binomial(n, k) == 0,
    decreases n,
{
    if n > 0 {
        lemma_binomial_zero_above((n - 1) as nat, (k - 1) as nat);
        lemma_binomial_zero_above((n - 1) as nat, k);
    }
}

/// There is one way to choose everything: `C(n, n) == 1`.
pub proof fn lemma_binomial_full(n: nat)
    ensures
        binomial(n, n) == 1,
    decreases n,
{
    if n > 0 {
        lemma_binomial_full((n - 1) as nat);
        lemma_binomial_zero_above((n - 1) as nat, n);
    }
}

/// `j * C(n, j) == (n - j + 1) * C(n, j - 1)`.
pub proof fn lemma_binomial_step(n: nat, j: nat)
    requires
        j >= 1,
    ensures
        j * binomial(n, j) == (n - j + 1) * binomial(n, (j - 1) as nat),
    decreases n,
{
    if n == 0 {
        assert(binomial(0, j) == 0);
        if j > 1 {
            lemma_binomial_zero_above(0, (j - 1) as nat);
        }
        assert(j * binomial(n, j) == 0 && (n - j + 1) * binomial(n, (j - 1) as nat) == 0)
            by (nonlinear_arith)
            requires
                binomial(n, j) == 0,
                j == 1 || binomial(n, (j - 1) as nat) == 0,
                n == 0,
        ;
    } else {
        let m = (n - 1) as nat;
        if j == 1 {
            lemma_binomial_step(m, 1);
            assert(binomial(m, 0) == 1 && binomial(n, 0) == 1);
            assert(binomial(m, 1) == m) by (nonlinear_arith)
                requires
                    1 * binomial(m, 1) == (m - 1 + 1) * binomial(m, 0),
                    binomial(m, 0) == 1,
            ;
            assert(binomial(n, 1) == binomial(m, 0) + binomial(m, 1));
            assert(1 * binomial(n, 1) == (n - 1 + 1) * binomial(n, 0)) by (nonlinear_arith)
                requires
                    binomial(n, 1) == n,
                    binomial(n, 0) == 1,
            ;
        } else {
            let a = binomial(m, (j - 2) as nat) as int;
            let b = binomial(m, (j - 1) as nat) as int;
            let c = binomial(m, j) as int;
            lemma_binomial_step(m, j);
            lemma_binomial_step(m, (j - 1) as nat);
            assert(j * (b + c) == (n - j + 1) * (a + b)) by (nonlinear_arith)
                requires
                    j * c == (m - j + 1) * b,
                    (j - 1) * b == (m - (j - 1) + 1) * a,
                    m == n - 1,
            ;
        }
    }
}

/// To choose `k` is to leave `n - k`: `C(n, k) == C(n, n - k)`.
pub proof fn lemma_binomial_symmetric(n: nat, k: nat)
    requires
        k <= n,
    ensures
        binomial(n, k) == binomial(n, (n - k) as nat),
    decreases n,
{
    if k == 0 || k == n {
        lemma_binomial_full(n);
    } else {
        lemma_binomial_symmetric((n - 1) as nat, (k - 1) as nat);
        lemma_binomial_symmetric((n - 1) as nat, k);
    }
}

/// There is a way to choose `k` of `n` whenever `k <= n`.
pub proof fn lemma_binomial_positive(n: nat, k: nat)
    requires
        k <= n,
    ensures
        binomial(n, k) >= 1,
    decreases n,
{
    if k > 0 && n > 0 {
        lemma_binomial_positive((n - 1) as nat, (k - 1) as nat);
    }
}

/// Up to the middle the coefficients of a row do not decrease.
pub proof fn lemma_binomial_monotone(n: nat, i: nat, j: nat)
    requires
        i <= j,
        2 * j <= n,
    ensures
        binomial(n, i) <= binomial(n, j),
    decreases j - i,
{
    if i < j {
        lemma_binomial_monotone(n, i, (j - 1) as nat);
        lemma_binomial_step(n, j);
        let a = binomial(n, j) as int;
        let b = binomial(n, (j - 1) as nat) as int;
        assert(a >= b) by (nonlinear_arith)
            requires
                j * a == (n - j + 1) * b,
                n - j + 1 >= j,
                j >= 1,
                a >= 0,
                b >= 0,
        ;
    }
}

/// `base` to the power of `n`.
pub open spec fn power(base: nat, n: nat) -> nat
    decreases n,
{
    if n == 0 {
        1
    } else {
        base * power(base, (n - 1) as nat)
    }
}

/// A power of a base that is at least 1 is at least 1.
pub proof fn lemma_power_positive(base: nat, n: nat)
    requires
        base >= 1,
    ensures
        power(base, n) >= 1,
    decreases n,
{
    if n > 0 {
        lemma_power_positive(base, (n - 1) as nat);
        assert(base * power(base, (n - 1) as nat) >= 1) by (nonlinear_arith)
            requires
                base >= 1,
                power(base, (n - 1) as nat) >= 1,
        ;
    }
}

/// `base^(a + b) == base^a * base^b`.
pub proof fn lemma_power_add(base: nat, a: nat, b: nat)
    ensures
        power(base, a + b) == power(base, a) * power(base, b),
    decreases a,
{
    if a > 0 {
        lemma_power_add(base, (a - 1) as nat, b);
        let x = power(base, (a - 1) as nat);
        let y = power(base, b);
        assert(base * (x * y) == (base * x) * y) by (nonlinear_arith);
        assert(power(base, a + b) == base * power(base, (a + b - 1) as nat));
    } else {
        assert(power(base, 0) * power(base, b) == power(base, b)) by (nonlinear_arith)
            requires
                power(base, 0) == 1,
        ;
    }
}

/// The powers of a base that is at least 1 do not decrease.
pub proof fn lemma_power_monotone(base: nat, a: nat, b: nat)
    requires
        base >= 1,
        a <= b,
    ensures
        power(base, a) <= power(base, b),
    decreases b,
{
    if a < b {
        lemma_power_monotone(base, a, (b - 1) as nat);
        lemma_power_positive(base, (b - 1) as nat);
        assert(power(base, (b - 1) as nat) <= base * power(base, (b - 1) as nat))
            by (nonlinear_arith)
            requires
                base >= 1,
                power(base, (b - 1) as nat) >= 1,
        ;
    }
}

/// `C(n, k) * q^(n - k) <= (q + 1)^n`: with `q` colours for the places that
/// are not chosen there are at most as many colourings as with `q + 1`
/// colours for all places.
pub proof fn lemma_binomial_weighted(n: nat, k: nat, q: nat)
    requires
        k <= n,
        q >= 1,
    ensures
        binomial(n, k) * power(q, (n - k) as nat) <= power(q + 1, n),
    decreases n,
{
    lemma_power_positive(q + 1, n);
    if k == n {
        lemma_binomial_full(n);
        assert(binomial(n, k) * power(q, 0) == 1) by (nonlinear_arith)
            requires
                binomial(n, k) == 1,
                power(q, 0) == 1,
        ;
    } else {
        let m = (n - 1) as nat;
        let top = power(q + 1, m) as int;
        let low = power(q, (m - k) as nat) as int;
        lemma_binomial_weighted(m, k, q);
        let b = binomial(m, k) as int;
        assert(power(q, (n - k) as nat) == q * low);
        assert(power(q + 1, n) == (q + 1) * top);
        if k == 0 {
            assert(binomial(n, 0) == 1 && binomial(m, 0) == 1);
            assert(1 * (q * low) <= (q + 1) * top) by (nonlinear_arith)
                requires
                    1 * low <= top,
                    q >= 1,
                    low >= 0,
            ;
        } else {
            let a = binomial(m, (k - 1) as nat) as int;
            lemma_binomial_weighted(m, (k - 1) as nat, q);
            assert(power(q, (m - (k - 1)) as nat) == q * low);
            assert((a + b) * (q * low) <= (q + 1) * top) by (nonlinear_arith)
                requires
                    a * (q * low) <= top,
                    b * low <= top,
                    q >= 1,
                    a >= 0,
                    b >= 0,
                    low >= 0,
            ;
        }
    }
}

/// Every power of 1 is 1.
pub proof fn lemma_power_of_one(n: nat)
    ensures
        power(1, n) == 1,
    decreases n,
{
    if n > 0 {
        lemma_power_of_one((n - 1) as nat);
    }
}

/// `1 <= C(n, k) <= 2^n`.
pub proof fn lemma_binomial_below_power(n: nat, k: nat)
    requires
        k <= n,
    ensures
        1 <= binomial(n, k) <= power(2, n),
{
    lemma_binomial_weighted(n, k, 1);
    lemma_power_of_one((n - k) as nat);
    lemma_binomial_positive(n, k);
    assert(binomial(n, k) * 1 == binomial(n, k));
}

/// Two powers of one base multiplied, for known values.
proof fn lemma_power_product(base: nat, a: nat, b: nat, x: int, y: int)
    requires
        power(base, a) == x,
        power(base, b) == y,
    ensures
        power(base, a + b) == x * y,
{
    lemma_power_add(base, a, b);
}

/// The 25th powers of 2, 3 and 4.
pub proof fn lemma_power_values()
    ensures
        power(2, 25) == 33554432,
        power(3, 25) == 847288609443,
        power(4, 25) == 1125899906842624,
{
    assert(power(2, 5) == 32 && power(3, 5) == 243 && power(4, 5) == 1024) by {
        reveal_with_fuel(power, 6);
    }
    lemma_power_product(2, 5, 5, 32, 32);
    lemma_power_product(2, 10, 10, 1024, 1024);
    lemma_power_product(2, 20, 5, 1048576, 32);
    lemma_power_product(3, 5, 5, 243, 243);
    lemma_power_product(3, 10, 10, 59049, 59049);
    lemma_power_product(3, 20, 5, 3486784401, 243);
    lemma_power_product(4, 5, 5, 1024, 1024);
    lemma_power_product(4, 10, 10, 1048576, 1048576);
    lemma_power_product(4, 20, 5, 1099511627776, 1024);
}

/// For the places of a grid, `nk` fits every machine word.
pub proof fn lemma_nk_fits_for_a_grid(n: nat, k: nat)
    requires
        k <= n <= 25,
    ensures
        binomial(n, k) * short_side(n, k) <= 0xffff_ffff,
{
    lemma_binomial_below_power(n, k);
    lemma_power_monotone(2, n, 25);
    lemma_power_values();
    assert(binomial(n, k) * short_side(n, k) <= 33554432 * 12) by (nonlinear_arith)
        requires
            0 <= binomial(n, k) <= 33554432,
            0 <= short_side(n, k) <= 12,
    ;
}

/// `n` choose `k` by the multiplication formula; 0 for `k > n`.
pub fn nk(n: usize, k: usize) -> (ways: usize)
    requires
        k <= n ==> binomial(n as nat, k as nat) * short_side(n as nat, k as nat) <= usize::MAX,
    ensures
        ways == binomial(n as nat, k as nat),
{
    if k > n {
        proof {
            lemma_binomial_zero_above(n as nat, k as nat);
        }
        return 0;
    }
    let mut ans: usize = 1;
    let mut m: usize = n;
    let kk: usize = if k <= n - k {
        k
    } else {
        n - k
    };
    proof {
        lemma_binomial_symmetric(n as nat, k as nat);
    }
    for j in 1..kk + 1
        invariant
            2 * kk <= n,
            m == n - (j - 1),
            ans == binomial(n as nat, (j - 1) as nat),
            binomial(n as nat, kk as nat) * kk <= usize::MAX,
            binomial(n as nat, kk as nat) == binomial(n as nat, k as nat),
    {
        let ghost target = binomial(n as nat, j as nat) as int;
        proof {
            lemma_binomial_step(n as nat, j as nat);
            lemma_binomial_monotone(n as nat, j as nat, kk as nat);
            let top = binomial(n as nat, kk as nat) as int;
            assert(target * j <= top * kk) by (nonlinear_arith)
                requires
                    0 <= target <= top,
                    0 <= j <= kk,
            ;
            assert(j * target == m * ans);
            assert(target <= target * j) by (nonlinear_arith)
                requires
                    target >= 0,
                    j >= 1,
            ;
        }
        if m % j == 0 {
            let q = m / j;
            assert(m == j * q) by (nonlinear_arith)
                requires
                    m % j == 0,
                    q == m / j,
                    j >= 1,
            ;
            assert(ans * q == target) by (nonlinear_arith)
                requires
                    j * target == m * ans,
                    m == j * q,
                    j >= 1,
            ;
            ans = ans * q;
        } else if ans % j == 0 {
            let q = ans / j;
            assert(ans == j * q) by (nonlinear_arith)
                requires
                    ans % j == 0,
                    q == ans / j,
                    j >= 1,
            ;
            assert(q * m == target) by (nonlinear_arith)
                requires
                    j * target == m * ans,
                    ans == j * q,
                    j >= 1,
            ;
            ans = q * m;
        } else {
            assert(ans * m == target * j) by (nonlinear_arith)
                requires
                    j * target == m * ans,
            ;
            assert((target * j) / (j as int) == target) by (nonlinear_arith)
                requires
                    j >= 1,
            ;
            ans = (ans * m) / j;
        }
        m -= 1;
    }
    ans
}

/// The sum of the entries of `s` from index `i` on.
pub open spec fn sum_from(s: Seq<usize>, i: int) -> nat
    decreases s.len() - i,
{
    if i < 0 || i >= s.len() {
        0
    } else {
        s[i] as nat + sum_from(s, i + 1)
    }
}

/// The number of ways to hand out the places that the entries from `i` on
/// count, each entry getting as many places as it says.
pub open spec fn multinomial_from(s: Seq<usize>, i: int) -> nat
    decreases s.len() - i,
{
    if i < 0 || i >= s.len() {
        1
    } else {
        binomial(sum_from(s, i), s[i] as nat) * multinomial_from(s, i + 1)
    }
}

/// The multinomial coefficient of the counts in `s`.
pub open spec fn multinomial(s: Seq<usize>) -> nat {
    multinomial_from(s, 0)
}

/// There is always a way to hand out the places: a multinomial is at least 1.
pub proof fn lemma_multinomial_positive(s: Seq<usize>, i: int)
    requires
        0 <= i,
    ensures
        multinomial_from(s, i) >= 1,
    decreases s.len() - i,
{
    if i < s.len() {
        lemma_multinomial_positive(s, i + 1);
        lemma_binomial_positive(sum_from(s, i), s[i] as nat);
        assert(multinomial_from(s, i) == binomial(sum_from(s, i), s[i] as nat) * multinomial_from(
            s,
            i + 1,
        ));
        assert(binomial(sum_from(s, i), s[i] as nat) * multinomial_from(s, i + 1) >= 1)
            by (nonlinear_arith)
            requires
                binomial(sum_from(s, i), s[i] as nat) >= 1,
                multinomial_from(s, i + 1) >= 1,
        ;
    }
}

proof fn lemma_multinomial_of_nothing(s: Seq<usize>, i: int)
    requires
        0 <= i,
        sum_from(s, i) == 0,
    ensures
        multinomial_from(s, i) == 1,
    decreases s.len() - i,
{
    if i < s.len() {
        lemma_multinomial_of_nothing(s, i + 1);
        assert(binomial(0, 0) == 1);
        assert(multinomial_from(s, i) == binomial(sum_from(s, i), s[i] as nat) * multinomial_from(
            s,
            i + 1,
        ));
    }
}

/// Number of ways to colour `sum(numbers)` places so that colour `i` is used
/// exactly `numbers[i]` times.
pub fn multinomial_coefficient(numbers: &[usize]) -> (ways: usize)
    requires
        multinomial(numbers@) * sum_from(numbers@, 0) <= usize::MAX,
    ensures
        ways == multinomial(numbers@),
{
    let ghost s = numbers@;
    let ghost total = multinomial(s) as int;
    let ghost all = sum_from(s, 0) as int;
    proof {
        lemma_multinomial_positive(s, 0);
        assert(all <= total * all) by (nonlinear_arith)
            requires
                total >= 1,
                all >= 0,
        ;
        if all == 0 {
            lemma_multinomial_of_nothing(s, 0);
        } else {
            assert(total <= total * all) by (nonlinear_arith)
                requires
                    total >= 1,
                    all >= 1,
            ;
        }
    }
    let mut left: usize = 0;
    for i in 0..numbers.len()
        invariant
            s == numbers@,
            all == sum_from(s, 0),
            all <= usize::MAX,
            left + sum_from(s, i as int) == all,
    {
        assert(sum_from(s, i as int) == s[i as int] + sum_from(s, i + 1));
        left += numbers[i];
    }
    let mut r: usize = 1;
    for i in 0..numbers.len()
        invariant
            s == numbers@,
            total == multinomial(s),
            all == sum_from(s, 0),
            total * all <= usize::MAX,
            total <= usize::MAX,
            left == sum_from(s, i as int),
            left <= all,
            r >= 1,
            r * multinomial_from(s, i as int) == total,
    {
        let num = numbers[i];
        let ghost c = binomial(left as nat, num as nat) as int;
        let ghost rest = multinomial_from(s, i + 1) as int;
        proof {
            assert(sum_from(s, i as int) == s[i as int] + sum_from(s, i + 1));
            lemma_multinomial_positive(s, i + 1);
            lemma_binomial_positive(left as nat, num as nat);
            assert(multinomial_from(s, i as int) == c * rest);
            assert((r * c) * rest == total && 1 <= r * c <= total && c <= total)
                by (nonlinear_arith)
                requires
                    r * (c * rest) == total,
                    r >= 1,
                    c >= 1,
                    rest >= 1,
            ;
            let side = short_side(left as nat, num as nat) as int;
            assert(c * side <= total * all) by (nonlinear_arith)
                requires
                    0 <= c <= total,
                    0 <= side <= left,
                    left <= all,
            ;
        }
        r = r * nk(left, num);
        left -= num;
    }
    assert(r * 1 == total);
    r
}

/// Number of indices below `n` at which `f` holds.
pub open spec fn count_where(f: spec_fn(int) -> bool, n: int) -> int
    decreases n,
{
    if n <= 0 {
        0
    } else {
        count_where(f, n - 1) + if f(n - 1) {
            1int
        } else {
            0int
        }
    }
}

/// Among `n` indices, between 0 and `n` are counted.
pub proof fn lemma_count_bound(f: spec_fn(int) -> bool, n: int)
    requires
        0 <= n,
    ensures
        0 <= count_where(f, n) <= n,
    decreases n,
{
    if n > 0 {
        lemma_count_bound(f, n - 1);
    }
}

/// Row `row` of the grid holds a bomb.
pub open spec fn row_has_bomb(g: [[usize; 5]; 5], row: int) -> bool {
    exists|c: int| 0 <= c < 5 && #[trigger] g[row][c] == 0
}

/// Column `col` of the grid holds a bomb.
pub open spec fn col_has_bomb(g: [[usize; 5]; 5], col: int) -> bool {
    exists|r: int| 0 <= r < 5 && #[trigger] g[r][col] == 0
}

/// A special location: its row or its column holds no bomb.
pub open spec fn special_location(g: [[usize; 5]; 5], row: int, col: int) -> bool {
    !row_has_bomb(g, row) || !col_has_bomb(g, col)
}

/// A special square: a 2 or 3 on a special location.
pub open spec fn special_square(g: [[usize; 5]; 5], row: int, col: int) -> bool {
    (g[row][col] == 2 || g[row][col] == 3) && special_location(g, row, col)
}

/// Whether the cell with a row-major index is a special square.
pub open spec fn special_square_at(g: [[usize; 5]; 5]) -> spec_fn(int) -> bool {
    |i: int| special_square(g, i / 5, i % 5)
}

/// Whether the cell of `row` in a column is a special square.
pub open spec fn special_in_row(g: [[usize; 5]; 5], row: int) -> spec_fn(int) -> bool {
    |c: int| special_square(g, row, c)
}

/// Whether the cell of `col` in a row is a special square.
pub open spec fn special_in_col(g: [[usize; 5]; 5], col: int) -> spec_fn(int) -> bool {
    |r: int| special_square(g, r, col)
}

/// The largest number of special squares on one of the first `n` rows or
/// one of the first `n` columns.
pub open spec fn special_line_max(g: [[usize; 5]; 5], n: int) -> int
    decreases n,
{
    if n <= 0 {
        0
    } else {
        let before = special_line_max(g, n - 1);
        let row = count_where(special_in_row(g, n - 1), 5);
        let col = count_where(special_in_col(g, n - 1), 5);
        if before >= row && before >= col {
            before
        } else if row >= col {
            row
        } else {
            col
        }
    }
}

/// Whether the cell with a row-major index holds `symbol`.
pub open spec fn symbol_is(g: [[usize; 5]; 5], symbol: int) -> spec_fn(int) -> bool {
    |i: int| g[i / 5][i % 5] == symbol
}

/// Whether the cell with a row-major index holds something else than 0.
pub open spec fn nonzero_at(g: [[usize; 5]; 5]) -> spec_fn(int) -> bool {
    |i: int| g[i / 5][i % 5] != 0
}

/// Whether the flag with a row-major index is set.
pub open spec fn true_at(a: [[bool; 5]; 5]) -> spec_fn(int) -> bool {
    |i: int| a[i / 5][i % 5]
}

/// Whether the flag of `row` in a column is set.
pub open spec fn true_in_row(a: [[bool; 5]; 5], row: int) -> spec_fn(int) -> bool {
    |c: int| a[row][c]
}

/// Whether the flag of `col` in a row is set.
pub open spec fn true_in_col(a: [[bool; 5]; 5], col: int) -> spec_fn(int) -> bool {
    |r: int| a[r][col]
}

/// Some row or column of `a` holds at least `k` true entries.
pub open spec fn has_line_of(a: [[bool; 5]; 5], k: int) -> bool {
    exists|line: int|
        0 <= line < 5 && (#[trigger] count_where(true_in_row(a, line), 5) >= k || count_where(
            true_in_col(a, line),
            5,
        ) >= k)
}

/// With `a` marking the bombs: the row or the column of the location is
/// free of bombs.
pub open spec fn bomb_free_line(a: [[bool; 5]; 5], row: int, col: int) -> bool {
    (forall|c: int| 0 <= c < 5 ==> !#[trigger] a[row][c]) || (forall|r: int|
        0 <= r < 5 ==> !#[trigger] a[r][col])
}

/// Whether the cell with a row-major index is a special location.
pub open spec fn bomb_free_line_at(a: [[bool; 5]; 5]) -> spec_fn(int) -> bool {
    |i: int| bomb_free_line(a, i / 5, i % 5)
}

/// The flag of a grid at row-major index `i`.
pub open spec fn flag_at(b: [[bool; 5]; 5], i: int) -> bool {
    b[i / 5][i % 5]
}

/// The grid of flags `b` with the flag of row-major index `i` set to `v`.
pub open spec fn flags_with(b: [[bool; 5]; 5], i: int, v: bool) -> [[bool; 5]; 5] {
    spec_array_update(b, i / 5, spec_array_update(b[i / 5], i % 5, v))
}

/// The grid with no flag set.
pub open spec fn no_flags() -> [[bool; 5]; 5] {
    spec_array_fill_for_copy_type::<[bool; 5], 5>(spec_array_fill_for_copy_type::<bool, 5>(false))
}

/// The flags of a grid after one flag was set.
pub proof fn lemma_flags_with(b: [[bool; 5]; 5], i: int, v: bool)
    requires
        0 <= i < 25,
    ensures
        forall|j: int|
            0 <= j < 25 ==> #[trigger] flag_at(flags_with(b, i, v), j) == if j == i {
                v
            } else {
                flag_at(b, j)
            },
{
    broadcast use vstd::array::axiom_spec_array_update;

    assert forall|j: int| 0 <= j < 25 implies #[trigger] flag_at(flags_with(b, i, v), j) == if j
        == i {
        v
    } else {
        flag_at(b, j)
    } by {
        let inner = spec_array_update(b[i / 5], i % 5, v);
        assert(inner@ == b[i / 5]@.update(i % 5, v));
        assert(flags_with(b, i, v)@ == b@.update(i / 5, inner));
    }
}

/// The grid with no flag set has no flag set.
pub proof fn lemma_no_flags()
    ensures
        forall|j: int| 0 <= j < 25 ==> !#[trigger] flag_at(no_flags(), j),
{
    broadcast use vstd::array::axiom_spec_array_fill_for_copy_type;

    let inner = spec_array_fill_for_copy_type::<bool, 5>(false);
    assert forall|j: int| 0 <= j < 25 implies !#[trigger] flag_at(no_flags(), j) by {
        assert(no_flags()@[j / 5] == inner);
        assert(inner@[j % 5] == false);
    }
}

/// The first `n` entries of `v`, row by row, on a grid of flags.
pub open spec fn board_upto(v: Seq<bool>, n: int) -> [[bool; 5]; 5]
    decreases n,
{
    if n <= 0 {
        no_flags()
    } else {
        flags_with(board_upto(v, n - 1), n - 1, v[n - 1])
    }
}

/// The first 25 entries of `v`, row by row, as a grid of flags.
pub open spec fn board_of(v: Seq<bool>) -> [[bool; 5]; 5] {
    board_upto(v, 25)
}

/// Flag by flag, the grid of the first `n` entries of a vector.
pub proof fn lemma_board_upto(v: Seq<bool>, n: int)
    requires
        0 <= n <= 25,
    ensures
        forall|j: int|
            0 <= j < 25 ==> #[trigger] flag_at(board_upto(v, n), j) == (j < n && v[j]),
    decreases n,
{
    if n > 0 {
        let before = board_upto(v, n - 1);
        lemma_board_upto(v, n - 1);
        lemma_flags_with(before, n - 1, v[n - 1]);
        assert forall|j: int| 0 <= j < 25 implies #[trigger] flag_at(board_upto(v, n), j) == (j
            < n && v[j]) by {
            assert(flag_at(before, j) == (j < n - 1 && v[j]));
        }
    } else {
        lemma_no_flags();
    }
}

/// Two grids of flags with the same 25 flags are equal.
pub proof fn lemma_flags_equal(a: [[bool; 5]; 5], b: [[bool; 5]; 5])
    requires
        forall|j: int| 0 <= j < 25 ==> #[trigger] flag_at(a, j) == flag_at(b, j),
    ensures
        a == b,
{
    assert forall|r: int| 0 <= r < 5 implies #[trigger] a[r] == b[r] by {
        assert forall|c: int| 0 <= c < 5 implies a[r][c] == b[r][c] by {
            let j = 5 * r + c;
            assert(j / 5 == r && j % 5 == c);
            assert(flag_at(a, j) == flag_at(b, j));
        }
        assert(a[r] =~= b[r]);
    }
    assert(a =~= b);
}

/// The first 25 entries of `v`, row by row, as a grid.
pub fn vec_to_board(v: &Vec<bool>) -> (a: [[bool; 5]; 5])
    requires
        v.len() >= 25,
    ensures
        a == board_of(v@),
        forall|i: int| 0 <= i < 25 ==> a[i / 5][i % 5] == #[trigger] v[i],
{
    let mut a: [[bool; 5]; 5] = [[false;5];5];
    for i in 0..25usize
        invariant
            v.len() >= 25,
            forall|j: int| 0 <= j < i ==> a[j / 5][j % 5] == #[trigger] v[j],
    {
        let ghost before = a;
        a[i / 5][i % 5] = v[i];
        assert forall|j: int| 0 <= j < i + 1 implies a[j / 5][j % 5] == #[trigger] v[j] by {
            if j < i {
                assert(before[j / 5][j % 5] == v[j]);
                assert(j / 5 != i / 5 || j % 5 != i % 5);
            }
        }
    }
    proof {
        lemma_board_upto(v@, 25);
        assert forall|j: int| 0 <= j < 25 implies #[trigger] flag_at(a, j) == flag_at(
            board_of(v@),
            j,
        ) by {
            assert(a[j / 5][j % 5] == v[j]);
        }
        lemma_flags_equal(a, board_of(v@));
    }
    a
}

/// Whether the row or the column of a location holds no bomb.
pub fn is_special_location(state: &[[usize; 5]; 5], row: usize, col: usize) -> (special: bool)
    requires
        row < 5,
        col < 5,
    ensures
        special == special_location(*state, row as int, col as int),
{
    let mut bombs_on_row = false;
    let mut bombs_on_col = false;
    for i in 0..5usize
        invariant
            row < 5,
            col < 5,
            bombs_on_row == (exists|c: int| 0 <= c < i && #[trigger] state[row as int][c] == 0),
            bombs_on_col == (exists|r: int| 0 <= r < i && #[trigger] state[r][col as int] == 0),
    {
        if state[row][i] == 0 {
            bombs_on_row = true;
        }
        if state[i][col] == 0 {
            bombs_on_col = true;
        }
    }
    (!bombs_on_row) || (!bombs_on_col)
}

fn is_square_special(state: &[[usize; 5]; 5], row: usize, col: usize) -> (special: bool)
    requires
        row < 5,
        col < 5,
    ensures
        special == special_square(*state, row as int, col as int),
{
    (state[row][col] == 2 || state[row][col] == 3) && is_special_location(state, row, col)
}

/// With `a` marking the bombs, whether the row or the column of a location
/// holds no bomb.
pub fn is_special_location_bomb_bitset(a: &[[bool; 5]; 5], row: usize, col: usize) -> (special:
    bool)
    requires
        row < 5,
        col < 5,
    ensures
        special == bomb_free_line(*a, row as int, col as int),
{
    let mut bombs_on_row = false;
    let mut bombs_on_col = false;
    for i in 0..5usize
        invariant
            row < 5,
            col < 5,
            bombs_on_row == (exists|c: int| 0 <= c < i && #[trigger] a[row as int][c]),
            bombs_on_col == (exists|r: int| 0 <= r < i && #[trigger] a[r][col as int]),
    {
        if a[row][i] {
            bombs_on_row = true;
        }
        if a[i][col] {
            bombs_on_col = true;
        }
    }
    (!bombs_on_row) || (!bombs_on_col)
}

/// The number of special squares of a grid, and the largest number of them
/// on one row or column.
#[verifier::rlimit(40)]
pub fn count_special(state: &[[usize; 5]; 5]) -> (counts: (usize, usize))
    ensures
        counts.0 == count_where(special_square_at(*state), 25),
        counts.1 == special_line_max(*state, 5),
{
    let mut count_total: usize = 0;
    let mut rows_special: [usize; 5] = [0usize;5];
    let mut cols_special: [usize; 5] = [0usize;5];
    let ghost g = *state;
    for r in 0..5usize
        invariant
            g == *state,
            count_total == count_where(special_square_at(g), 5 * r),
            forall|i: int|
                0 <= i < 5 ==> #[trigger] rows_special[i] == if i < r {
                    count_where(special_in_row(g, i), 5)
                } else {
                    0
                },
            forall|j: int|
                0 <= j < 5 ==> #[trigger] cols_special[j] == count_where(
                    special_in_col(g, j),
                    r as int,
                ),
    {
        for c in 0..5usize
            invariant
                r < 5,
                g == *state,
                count_total == count_where(special_square_at(g), 5 * r + c),
                forall|i: int|
                    0 <= i < 5 ==> #[trigger] rows_special[i] == if i < r {
                        count_where(special_in_row(g, i), 5)
                    } else if i == r {
                        count_where(special_in_row(g, i), c as int)
                    } else {
                        0
                    },
                forall|j: int|
                    0 <= j < 5 ==> #[trigger] cols_special[j] == count_where(
                        special_in_col(g, j),
                        if j < c {
                            r + 1
                        } else {
                            r as int
                        },
                    ),
        {
            proof {
                let n: int = 5 * r + c;
                assert(n / 5 == r && n % 5 == c);
                lemma_count_bound(special_square_at(g), n);
                lemma_count_bound(special_in_row(g, r as int), c as int);
                lemma_count_bound(special_in_col(g, c as int), r as int);
                assert(special_square_at(g)(n) == special_square(g, r as int, c as int));
                assert(special_in_row(g, r as int)(c as int) == special_square(
                    g,
                    r as int,
                    c as int,
                ));
                assert(special_in_col(g, c as int)(r as int) == special_square(
                    g,
                    r as int,
                    c as int,
                ));
            }
            if is_square_special(state, r, c) {
                count_total += 1;
                rows_special[r] += 1;
                cols_special[c] += 1;
            }
        }
    }
    let mut count_line: usize = 0;
    for i in 0..5usize
        invariant
            forall|j: int|
                0 <= j < 5 ==> #[trigger] rows_special[j] == count_where(special_in_row(g, j), 5),
            forall|j: int|
                0 <= j < 5 ==> #[trigger] cols_special[j] == count_where(special_in_col(g, j), 5),
            count_line == special_line_max(g, i as int),
    {
        if rows_special[i] > count_line {
            count_line = rows_special[i];
        }
        if cols_special[i] > count_line {
            count_line = cols_special[i];
        }
    }
    (count_total, count_line)
}

/// How often each symbol occurs in a grid.
pub fn count_symbols(state: &[[usize; 5]; 5]) -> (count: [usize; 4])
    requires
        crate::packed::is_symbol_grid(*state),
    ensures
        forall|s: int| 0 <= s < 4 ==> #[trigger] count[s] == count_where(symbol_is(*state, s), 25),
{
    let mut count: [usize; 4] = [0usize;4];
    let ghost g = *state;
    for r in 0..5usize
        invariant
            g == *state,
            crate::packed::is_symbol_grid(g),
            forall|s: int|
                0 <= s < 4 ==> #[trigger] count[s] == count_where(symbol_is(g, s), 5 * r),
    {
        for c in 0..5usize
            invariant
                r < 5,
                g == *state,
                crate::packed::is_symbol_grid(g),
                forall|s: int|
                    0 <= s < 4 ==> #[trigger] count[s] == count_where(symbol_is(g, s), 5 * r + c),
        {
            let symbol = state[r][c];
            proof {
                let n: int = 5 * r + c;
                assert(n / 5 == r && n % 5 == c);
                assert(g[r as int][c as int] <= 3);
                assert forall|s: int| 0 <= s < 4 implies symbol_is(g, s)(n) == (symbol == s) by {}
                lemma_count_bound(symbol_is(g, symbol as int), n);
            }
            count[symbol] += 1;
        }
    }
    count
}

/// The number of nonzero entries of a grid.
pub fn count_assigned(state: &[[usize; 5]; 5]) -> (count: usize)
    ensures
        count == count_where(nonzero_at(*state), 25),
{
    let mut count: usize = 0;
    for r in 0..5usize
        invariant
            count == count_where(nonzero_at(*state), 5 * r),
    {
        for c in 0..5usize
            invariant
                r < 5,
                count == count_where(nonzero_at(*state), 5 * r + c),
        {
            proof {
                let n: int = 5 * r + c;
                assert(n / 5 == r && n % 5 == c);
                lemma_count_bound(nonzero_at(*state), n);
                assert(nonzero_at(*state)(n) == (state[r as int][c as int] != 0));
            }
            if state[r][c] != 0 {
                count += 1;
            }
        }
    }
    count
}

/// The number of revealed cells of a packed state.
pub fn count_assigned_packed(packed_state: u64) -> (count: usize)
    ensures
        count == crate::packed::assigned_count(packed_state),
{
    let mut count: usize = 0;
    for r in 0..5usize
        invariant
            count == assigned_upto(packed_state, 5 * r),
    {
        for c in 0..5usize
            invariant
                r < 5,
                count == assigned_upto(packed_state, 5 * r + c),
        {
            proof {
                crate::packed::lemma_product_bound(packed_state, 5 * r + c);
            }
            if get_from_packed_state(packed_state, r, c) != 0 {
                count += 1;
            }
        }
    }
    count
}

/// Whether some row or column holds at least `k` true entries.
pub fn contains_line(a: &[[bool; 5]; 5], k: usize) -> (found: bool)
    ensures
        found == has_line_of(*a, k as int),
{
    for line in 0..5usize
        invariant
            forall|l: int|
                0 <= l < line ==> #[trigger] count_where(true_in_row(*a, l), 5) < k && count_where(
                    true_in_col(*a, l),
                    5,
                ) < k,
    {
        let mut rc: usize = 0;
        let mut cc: usize = 0;
        for i in 0..5usize
            invariant
                line < 5,
                rc == count_where(true_in_row(*a, line as int), i as int),
                cc == count_where(true_in_col(*a, line as int), i as int),
        {
            proof {
                lemma_count_bound(true_in_row(*a, line as int), i as int);
                lemma_count_bound(true_in_col(*a, line as int), i as int);
                assert(true_in_row(*a, line as int)(i as int) == a[line as int][i as int]);
                assert(true_in_col(*a, line as int)(i as int) == a[i as int][line as int]);
            }
            if a[line][i] {
                rc += 1;
            }
            if a[i][line] {
                cc += 1;
            }
        }
        if rc >= k || cc >= k {
            return true;
        }
    }
    false
}

/// With `a` marking the bombs, the number of special locations.
pub fn count_special_locations_bomb_bitset(a: &[[bool; 5]; 5]) -> (count: usize)
    ensures
        count == count_where(bomb_free_line_at(*a), 25),
{
    let mut count: usize = 0;
    for row in 0..5usize
        invariant
            count == count_where(bomb_free_line_at(*a), 5 * row),
    {
        for col in 0..5usize
            invariant
                row < 5,
                count == count_where(bomb_free_line_at(*a), 5 * row + col),
        {
            proof {
                let n: int = 5 * row + col;
                assert(n / 5 == row && n % 5 == col);
                lemma_count_bound(bomb_free_line_at(*a), n);
                assert(bomb_free_line_at(*a)(n) == bomb_free_line(*a, row as int, col as int));
            }
            if is_special_location_bomb_bitset(a, row, col) {
                count += 1;
            }
        }
    }
    count
}

/// The number of true entries of a grid.
pub fn count_set_squares(a: &[[bool; 5]; 5]) -> (count: usize)
    ensures
        count == count_where(true_at(*a), 25),
{
    let mut count: usize = 0;
    for r in 0..5usize
        invariant
            count == count_where(true_at(*a), 5 * r),
    {
        for c in 0..5usize
            invariant
                r < 5,
                count == count_where(true_at(*a), 5 * r + c),
        {
            proof {
                let n: int = 5 * r + c;
                assert(n / 5 == r && n % 5 == c);
                lemma_count_bound(true_at(*a), n);
                assert(true_at(*a)(n) == a[r as int][c as int]);
            }
            if a[r][c] {
                count += 1;
            }
        }
    }
    count
}

/// Swaps rows and columns: afterwards entry `(i, j)` is what `(j, i)` was.
pub fn transpose_in_place(a: &mut [[usize; 5]; 5])
    ensures
        forall|i: int, j: int|
            0 <= i < 5 && 0 <= j < 5 ==> #[trigger] final(a)[i][j] == old(a)[j][i],
{
    let ghost start = *a;
    for row in 0..5usize
        invariant
            forall|i: int, j: int|
                0 <= i < 5 && 0 <= j < 5 ==> #[trigger] a[i][j] == if i < row || j < row {
                    start[j][i]
                } else {
                    start[i][j]
                },
    {
        for col in row + 1..5usize
            invariant
                row < 5,
                forall|i: int, j: int|
                    0 <= i < 5 && 0 <= j < 5 ==> #[trigger] a[i][j] == if i < row || j < row || (i
                        == row && j < col) || (j == row && i < col) {
                        start[j][i]
                    } else {
                        start[i][j]
                    },
        {
            let tmp = a[row][col];
            a[row][col] = a[col][row];
            a[col][row] = tmp;
        }
    }
}

/// The transpose of the first `n` cells of `x` in row-major order, on an
/// otherwise empty grid.
pub open spec fn transposed_upto(x: u64, n: int) -> u64
    decreases n,
{
    if n <= 0 {
        0
    } else {
        crate::packed::with_cell(
            transposed_upto(x, n - 1),
            (n - 1) % 5,
            (n - 1) / 5,
            cell_at(x, n - 1),
        )
    }
}

/// The packed word with rows and columns swapped.
pub open spec fn transposed(x: u64) -> u64 {
    transposed_upto(x, 25)
}

/// Cell by cell, what the transpose of the first `n` cells holds.
pub proof fn lemma_transposed_upto(x: u64, n: int)
    requires
        0 <= n <= 25,
    ensures
        transposed_upto(x, n) < PACKED_LIMIT,
        forall|r: int, c: int|
            0 <= r < 5 && 0 <= c < 5 ==> #[trigger] cell(transposed_upto(x, n), c, r) == if 5 * r
                + c < n {
                cell(x, r, c)
            } else {
                0
            },
    decreases n,
{
    if n == 0 {
        assert forall|r: int, c: int| 0 <= r < 5 && 0 <= c < 5 implies #[trigger] cell(
            0,
            c,
            r,
        ) == 0 by {
            crate::packed::lemma_packed_high_fields(0, 25);
            let t = (2 * (24 - (5 * c + r))) as u64;
            assert((0u64 >> t) & 3 == 0) by (bit_vector);
        }
    } else {
        let before = transposed_upto(x, n - 1);
        let i = n - 1;
        lemma_transposed_upto(x, i);
        lemma_field_bound(x, 24 - i);
        crate::packed::lemma_with_cell(before, i % 5, i / 5, cell_at(x, i));
        assert forall|r: int, c: int| 0 <= r < 5 && 0 <= c < 5 implies #[trigger] cell(
            transposed_upto(x, n),
            c,
            r,
        ) == if 5 * r + c < n {
            cell(x, r, c)
        } else {
            0
        } by {
            assert(cell(before, c, r) == if 5 * r + c < i {
                cell(x, r, c)
            } else {
                0
            });
            assert(field(transposed_upto(x, n), 24 - (5 * c + r)) == if 24 - (5 * c + r) == 24 - (5
                * (i % 5) + i / 5) {
                cell_at(x, i) as u64
            } else {
                field(before, 24 - (5 * c + r))
            });
        }
    }
}

/// Transposing swaps the roles of rows and columns and keeps to the grid bits.
pub proof fn lemma_transposed_cells(x: u64)
    ensures
        transposed(x) < PACKED_LIMIT,
        forall|r: int, c: int|
            0 <= r < 5 && 0 <= c < 5 ==> #[trigger] cell(transposed(x), r, c) == cell(x, c, r),
{
    lemma_transposed_upto(x, 25);
    assert forall|r: int, c: int| 0 <= r < 5 && 0 <= c < 5 implies #[trigger] cell(
        transposed(x),
        r,
        c,
    ) == cell(x, c, r) by {
        assert(cell(transposed_upto(x, 25), r, c) == if 5 * c + r < 25 {
            cell(x, c, r)
        } else {
            0
        });
    }
}

/// Transposing twice gives back every word that uses the grid bits only.
pub proof fn lemma_transpose_twice(x: u64)
    requires
        x < PACKED_LIMIT,
    ensures
        transposed(transposed(x)) == x,
{
    lemma_transposed_cells(x);
    lemma_transposed_cells(transposed(x));
    assert forall|r: int, c: int| 0 <= r < 5 && 0 <= c < 5 implies cell(
        transposed(transposed(x)),
        r,
        c,
    ) == cell(x, r, c) by {
        assert(cell(transposed(transposed(x)), r, c) == cell(transposed(x), c, r));
        assert(cell(transposed(x), c, r) == cell(x, r, c));
    }
    crate::packed::lemma_cells_equal(transposed(transposed(x)), x);
}

/// The packed word with rows and columns swapped; bits above the grid are
/// dropped.
pub fn transpose_packed(packed_state: u64) -> (result: u64)
    ensures
        result == transposed(packed_state),
        result < PACKED_LIMIT,
        forall|r: int, c: int|
            0 <= r < 5 && 0 <= c < 5 ==> #[trigger] cell(result, r, c) == cell(packed_state, c, r),
{
    let mut t: u64 = 0;
    for row in 0..5usize
        invariant
            t == transposed_upto(packed_state, 5 * row),
    {
        for col in 0..5usize
            invariant
                row < 5,
                t == transposed_upto(packed_state, 5 * row + col),
        {
            let value = get_from_packed_state(packed_state, row, col);
            proof {
                let n: int = 5 * row + col;
                assert(n / 5 == row && n % 5 == col);
            }
            t = set_in_packed_state(t, col, row, value);
        }
    }
    proof {
        lemma_transposed_cells(packed_state);
    }
    t
}

/// `n` times `false`.
pub open spec fn all_false(n: nat) -> Seq<bool> {
    Seq::new(n, |i: int| false)
}

/// All ways to extend `prefix`, which holds `assigned` true entries, to `n`
/// entries of which exactly `k` are true: in lexicographic order with false
/// before true. An extension is cut off at the first point where `k` true
/// entries are reached.
pub open spec fn picks(prefix: Seq<bool>, n: nat, k: nat, assigned: nat) -> Seq<Seq<bool>>
    decreases n - prefix.len(),
{
    if assigned == k {
        seq![prefix + all_false((n - prefix.len()) as nat)]
    } else if prefix.len() < n {
        picks(prefix.push(false), n, k, assigned) + picks(prefix.push(true), n, k, assigned + 1)
    } else {
        Seq::empty()
    }
}

/// The bit vectors of a list.
pub open spec fn bit_rows(v: Vec<Vec<bool>>) -> Seq<Seq<bool>> {
    Seq::new(v.len() as nat, |i: int| v[i]@)
}

/// There are `C(n - len, k - assigned)` ways to extend a prefix.
pub proof fn lemma_picks_len(prefix: Seq<bool>, n: nat, k: nat, assigned: nat)
    requires
        prefix.len() <= n,
        assigned <= k,
    ensures
        picks(prefix, n, k, assigned).len() == binomial(
            (n - prefix.len()) as nat,
            (k - assigned) as nat,
        ),
    decreases n - prefix.len(),
{
    if assigned != k && prefix.len() < n {
        lemma_picks_len(prefix.push(false), n, k, assigned);
        lemma_picks_len(prefix.push(true), n, k, assigned + 1);
    }
}

/// Every extension has `n` entries, begins with the prefix, and holds
/// exactly `k - assigned` true entries behind it.
pub proof fn lemma_picks_member(prefix: Seq<bool>, n: nat, k: nat, assigned: nat, j: int)
    requires
        prefix.len() <= n,
        assigned <= k,
        0 <= j < picks(prefix, n, k, assigned).len(),
    ensures
        picks(prefix, n, k, assigned)[j].len() == n,
        picks(prefix, n, k, assigned)[j].take(prefix.len() as int) == prefix,
        count_where(|i: int| picks(prefix, n, k, assigned)[j][i], n as int) - count_where(
            |i: int| picks(prefix, n, k, assigned)[j][i],
            prefix.len() as int,
        ) == k - assigned,
    decreases n - prefix.len(),
{
    let all = picks(prefix, n, k, assigned);
    let e = all[j];
    let f = |i: int| picks(prefix, n, k, assigned)[j][i];
    if assigned == k {
        assert(e.take(prefix.len() as int) =~= prefix);
        lemma_count_of_false_tail(f, prefix.len() as int, n as int);
    } else {
        let with_false = picks(prefix.push(false), n, k, assigned);
        let with_true = picks(prefix.push(true), n, k, assigned + 1);
        let m = prefix.len() as int;
        if j < with_false.len() {
            lemma_picks_member(prefix.push(false), n, k, assigned, j);
            let g = |i: int| picks(prefix.push(false), n, k, assigned)[j][i];
            assert(e == with_false[j]);
            assert(e.take(m) =~= e.take(m + 1).take(m));
            assert(e.take(m + 1)[m] == false);
            lemma_count_same(f, g, n as int);
            lemma_count_same(f, g, m + 1);
            assert(count_where(f, m + 1) == count_where(f, m));
        } else {
            let j2 = j - with_false.len();
            lemma_picks_member(prefix.push(true), n, k, assigned + 1, j2);
            let g = |i: int| picks(prefix.push(true), n, k, assigned + 1)[j2][i];
            assert(e == with_true[j2]);
            assert(e.take(m) =~= e.take(m + 1).take(m));
            assert(e.take(m + 1)[m] == true);
            lemma_count_same(f, g, n as int);
            lemma_count_same(f, g, m + 1);
            assert(count_where(f, m + 1) == count_where(f, m) + 1);
        }
    }
}

proof fn lemma_count_same(f: spec_fn(int) -> bool, g: spec_fn(int) -> bool, n: int)
    requires
        forall|i: int| 0 <= i < n ==> #[trigger] f(i) == g(i),
    ensures
        count_where(f, n) == count_where(g, n),
    decreases n,
{
    if n > 0 {
        lemma_count_same(f, g, n - 1);
    }
}

proof fn lemma_count_of_false_tail(f: spec_fn(int) -> bool, from: int, to: int)
    requires
        0 <= from <= to,
        forall|i: int| from <= i < to ==> !#[trigger] f(i),
    ensures
        count_where(f, to) == count_where(f, from),
    decreases to - from,
{
    if from < to {
        lemma_count_of_false_tail(f, from, to - 1);
    }
}

/// All ways to choose `k` of `n` places, each as a vector of `n` flags.
pub fn nk_list(n: usize, k: usize) -> (list: Vec<Vec<bool>>)
    ensures
        bit_rows(list) == picks(Seq::empty(), n as nat, k as nat, 0),
{
    let mut r: Vec<Vec<bool>> = Vec::new();
    let mut current: Vec<bool> = vec![false; n];
    assert(current@ =~= all_false(n as nat));
    assert(bit_rows(r) =~= Seq::empty());
    assert(current@.take(0) =~= Seq::empty());
    _nk_list_helper(n, k, &mut current, 0, 0, &mut r);
    r
}

fn _nk_list_helper(
    n: usize,
    k: usize,
    current: &mut Vec<bool>,
    assigned: usize,
    index: usize,
    v: &mut Vec<Vec<bool>>,
)
    requires
        old(current).len() == n,
        index <= n,
        assigned <= index,
        forall|i: int| index <= i < n ==> !old(current)[i],
    ensures
        final(current)@ == old(current)@,
        bit_rows(*final(v)) == bit_rows(*old(v)) + picks(
            old(current)@.take(index as int),
            n as nat,
            k as nat,
            assigned as nat,
        ),
    decreases n - index,
{
    let ghost prefix = current@.take(index as int);
    let ghost start = current@;
    let ghost rows = bit_rows(*v);
    if assigned == k {
        let rex = current.clone();
        assert(rex@ =~= current@);
        v.push(rex);
        assert(current@ =~= prefix + all_false((n - index) as nat));
        assert(bit_rows(*v) =~= rows + seq![current@]);
    } else if index < current.len() {
        current[index] = false;
        assert(current@ =~= start);
        assert(current@.take(index + 1) =~= prefix.push(false));
        _nk_list_helper(n, k, current, assigned, index + 1, v);
        let ghost middle = bit_rows(*v);
        current[index] = true;
        assert(current@.take(index + 1) =~= prefix.push(true));
        _nk_list_helper(n, k, current, assigned + 1, index + 1, v);
        current[index] = false;
        assert(current@ =~= start);
        assert(bit_rows(*v) =~= rows + (picks(prefix.push(false), n as nat, k as nat, assigned as nat)
            + picks(prefix.push(true), n as nat, k as nat, (assigned + 1) as nat)));
    } else {
        assert(bit_rows(*v) =~= rows + Seq::<Seq<bool>>::empty());
    }
}

/// What is left of `available` when `taken` is taken away, symbol by symbol.
pub open spec fn left_over(available: Seq<usize>, taken: Seq<usize>) -> Seq<usize> {
    Seq::new(4, |i: int| (available[i] - taken[i]) as usize)
}

/// May `c` pieces of the symbol behind `prefix` be taken when `size` pieces
/// are taken already?
pub open spec fn may_take(
    prefix: Seq<usize>,
    size: nat,
    c: nat,
    only: Seq<bool>,
    size_fms: nat,
) -> bool {
    size + c <= size_fms && (c == 0 || only[prefix.len() as int])
}

/// All splits that begin with `prefix` (of total `size`): pairs of what is
/// taken and what is left, in lexicographic order of what is taken.
pub open spec fn splits(
    prefix: Seq<usize>,
    size: nat,
    only: Seq<bool>,
    available: Seq<usize>,
    size_fms: nat,
) -> Seq<(Seq<usize>, Seq<usize>)>
    decreases 4 - prefix.len(), usize::MAX + 2,
{
    if prefix.len() >= 4 {
        if size == size_fms {
            seq![(prefix, left_over(available, prefix))]
        } else {
            Seq::empty()
        }
    } else {
        splits_from(prefix, size, 0, only, available, size_fms)
    }
}

/// The splits that begin with `prefix` and take at least `c` pieces of the
/// next symbol.
pub open spec fn splits_from(
    prefix: Seq<usize>,
    size: nat,
    c: nat,
    only: Seq<bool>,
    available: Seq<usize>,
    size_fms: nat,
) -> Seq<(Seq<usize>, Seq<usize>)>
    decreases 4 - prefix.len(), usize::MAX + 1 - c,
{
    if prefix.len() >= 4 || c > available[prefix.len() as int] {
        Seq::empty()
    } else {
        (if may_take(prefix, size, c, only, size_fms) {
            splits(prefix.push(c as usize), size + c, only, available, size_fms)
        } else {
            Seq::empty()
        }) + splits_from(prefix, size, c + 1, only, available, size_fms)
    }
}

/// The pairs of a list of splits.
pub open spec fn split_pairs(v: Vec<[[usize; 4]; 2]>) -> Seq<(Seq<usize>, Seq<usize>)> {
    Seq::new(v.len() as nat, |i: int| (v[i][0]@, v[i][1]@))
}

/// In every split, what is taken and what is left add up to what is
/// available; `size_fms` pieces are taken, none of a symbol that `only`
/// excludes.
pub proof fn lemma_splits_member(
    prefix: Seq<usize>,
    size: nat,
    only: Seq<bool>,
    available: Seq<usize>,
    size_fms: nat,
    j: int,
)
    requires
        prefix.len() <= 4,
        only.len() == 4,
        available.len() == 4,
        size == sum_from(prefix, 0),
        forall|i: int| 0 <= i < prefix.len() ==> prefix[i] <= available[i],
        0 <= j < splits(prefix, size, only, available, size_fms).len(),
    ensures
        ({
            let (taken, left) = splits(prefix, size, only, available, size_fms)[j];
            &&& taken.len() == 4
            &&& left.len() == 4
            &&& taken.take(prefix.len() as int) == prefix
            &&& sum_from(taken, 0) == size_fms
            &&& forall|i: int| 0 <= i < 4 ==> taken[i] + left[i] == available[i]
            &&& forall|i: int| prefix.len() <= i < 4 && taken[i] > 0 ==> only[i]
        }),
    decreases 4 - prefix.len(), usize::MAX + 2,
{
    if prefix.len() >= 4 {
        assert(prefix.take(4) =~= prefix);
    } else {
        lemma_splits_from_member(prefix, size, 0, only, available, size_fms, j);
    }
}

proof fn lemma_splits_from_member(
    prefix: Seq<usize>,
    size: nat,
    c: nat,
    only: Seq<bool>,
    available: Seq<usize>,
    size_fms: nat,
    j: int,
)
    requires
        prefix.len() < 4,
        only.len() == 4,
        available.len() == 4,
        size == sum_from(prefix, 0),
        forall|i: int| 0 <= i < prefix.len() ==> prefix[i] <= available[i],
        0 <= j < splits_from(prefix, size, c, only, available, size_fms).len(),
    ensures
        ({
            let (taken, left) = splits_from(prefix, size, c, only, available, size_fms)[j];
            &&& taken.len() == 4
            &&& left.len() == 4
            &&& taken.take(prefix.len() as int) == prefix
            &&& sum_from(taken, 0) == size_fms
            &&& forall|i: int| 0 <= i < 4 ==> taken[i] + left[i] == available[i]
            &&& forall|i: int| prefix.len() <= i < 4 && taken[i] > 0 ==> only[i]
        }),
    decreases 4 - prefix.len(), usize::MAX + 1 - c,
{
    let m = prefix.len() as int;
    let first = if may_take(prefix, size, c, only, size_fms) {
        splits(prefix.push(c as usize), size + c, only, available, size_fms)
    } else {
        Seq::empty()
    };
    if j < first.len() {
        let longer = prefix.push(c as usize);
        lemma_sum_of_push(prefix, c as usize);
        lemma_splits_member(longer, size + c, only, available, size_fms, j);
        let (taken, left) = first[j];
        assert(taken.take(m) =~= taken.take(m + 1).take(m));
        assert(taken.take(m + 1)[m] == c);
    } else {
        lemma_splits_from_member(prefix, size, c + 1, only, available, size_fms, j - first.len());
    }
}

/// The sum of a sequence with one more entry.
pub proof fn lemma_sum_of_push(s: Seq<usize>, x: usize)
    ensures
        sum_from(s.push(x), 0) == sum_from(s, 0) + x,
{
    lemma_sum_of_push_from(s, x, 0);
}

proof fn lemma_sum_of_push_from(s: Seq<usize>, x: usize, i: int)
    requires
        0 <= i <= s.len(),
    ensures
        sum_from(s.push(x), i) == sum_from(s, i) + x,
    decreases s.len() - i,
{
    if i < s.len() {
        lemma_sum_of_push_from(s, x, i + 1);
    } else {
        assert(sum_from(s.push(x), i + 1) == 0);
    }
}

/// All ways to split the available symbols in two so that the first part
/// holds `size_fms` pieces and takes only symbols that `only` allows.
pub fn split_multiset(available_symbols: &[usize; 4], size_fms: usize, only: [bool; 4]) -> (list:
    Vec<[[usize; 4]; 2]>)
    requires
        forall|i: int| 0 <= i < 4 ==> available_symbols[i] + size_fms < usize::MAX,
    ensures
        split_pairs(list) == splits(Seq::empty(), 0, only@, available_symbols@, size_fms as nat),
{
    let mut v: Vec<[[usize; 4]; 2]> = Vec::new();
    let mut current: [usize; 4] = [0usize;4];
    assert(split_pairs(v) =~= Seq::empty());
    assert(current@.take(0) =~= Seq::empty());
    split_multiset_helper(&mut current, 0, 0, &only, available_symbols, size_fms, &mut v);
    v
}

#[verifier::rlimit(40)]
fn split_multiset_helper(
    current: &mut [usize; 4],
    size: usize,
    index: usize,
    only: &[bool; 4],
    available_symbols: &[usize; 4],
    size_fms: usize,
    v: &mut Vec<[[usize; 4]; 2]>,
)
    requires
        index <= 4,
        size <= size_fms,
        forall|i: int| 0 <= i < 4 ==> available_symbols[i] + size_fms < usize::MAX,
        forall|i: int| 0 <= i < index ==> old(current)[i] <= available_symbols[i],
    ensures
        final(current)@.take(index as int) == old(current)@.take(index as int),
        split_pairs(*final(v)) == split_pairs(*old(v)) + splits(
            old(current)@.take(index as int),
            size as nat,
            only@,
            available_symbols@,
            size_fms as nat,
        ),
    decreases 4 - index, usize::MAX + 2,
{
    let ghost prefix = current@.take(index as int);
    let ghost pairs = split_pairs(*v);
    if index == 4 && size == size_fms {
        let mut opposite: [usize; 4] = *available_symbols;
        for symbol in 0..4usize
            invariant
                forall|i: int| 0 <= i < 4 ==> current[i] <= available_symbols[i],
                forall|i: int|
                    0 <= i < 4 ==> #[trigger] opposite[i] == if i < symbol {
                        (available_symbols[i] - current[i]) as usize
                    } else {
                        available_symbols[i]
                    },
        {
            opposite[symbol] -= current[symbol];
        }
        let ta: [[usize; 4]; 2] = [*current, opposite];
        v.push(ta);
        assert(current@ =~= prefix);
        assert(opposite@ =~= left_over(available_symbols@, prefix));
        assert(split_pairs(*v) =~= pairs + seq![(prefix, left_over(available_symbols@, prefix))]);
    } else if index < 4 {
        let limit = available_symbols[index] + 1;
        for c in 0..limit
            invariant
                index < 4,
                size <= size_fms,
                limit == available_symbols[index as int] + 1,
                forall|i: int| 0 <= i < 4 ==> available_symbols[i] + size_fms < usize::MAX,
                current@.take(index as int) == prefix,
                prefix.len() == index,
                forall|i: int| 0 <= i < index ==> prefix[i] <= available_symbols[i],
                split_pairs(*v) + splits_from(
                    prefix,
                    size as nat,
                    c as nat,
                    only@,
                    available_symbols@,
                    size_fms as nat,
                ) == pairs + splits_from(
                    prefix,
                    size as nat,
                    0,
                    only@,
                    available_symbols@,
                    size_fms as nat,
                ),
        {
            let ghost before = split_pairs(*v);
            let ghost rest = splits_from(
                prefix,
                size as nat,
                (c + 1) as nat,
                only@,
                available_symbols@,
                size_fms as nat,
            );
            if size + c <= size_fms && (c == 0 || only[index]) {
                current[index] = c;
                assert(current@.take(index + 1) =~= prefix.push(c));
                assert forall|i: int| 0 <= i < index + 1 implies current[i]
                    <= available_symbols[i] by {
                    if i < index {
                        assert(current[i] == prefix[i]);
                    }
                }
                split_multiset_helper(
                    current,
                    size + c,
                    index + 1,
                    only,
                    available_symbols,
                    size_fms,
                    v,
                );
                assert(current@.take(index as int) =~= current@.take(index + 1).take(
                    index as int,
                ));
                assert(current@.take(index as int) =~= prefix);
                let ghost found = splits(
                    prefix.push(c),
                    (size + c) as nat,
                    only@,
                    available_symbols@,
                    size_fms as nat,
                );
                assert(split_pairs(*v) + rest =~= before + (found + rest));
            } else {
                assert(split_pairs(*v) + rest =~= before + (Seq::empty() + rest));
            }
        }
        assert(splits_from(
            prefix,
            size as nat,
            limit as nat,
            only@,
            available_symbols@,
            size_fms as nat,
        ) =~= Seq::empty());
        assert(split_pairs(*v) =~= split_pairs(*v) + Seq::<(Seq<usize>, Seq<usize>)>::empty());
    } else {
        assert(split_pairs(*v) =~= pairs + Seq::<(Seq<usize>, Seq<usize>)>::empty());
    }
}

} // verus!
