//! Puzzles as text: 25 digits from 0 to 3, row by row, which may be set
//! apart by `-` or blanks, and behind them the digit of the level.

use vstd::prelude::*;
use crate::csp_constraints::{
    bombs_upto, grid_with, lemma_grid_with, line_cell, line_exact, margins_hold, points_upto,
};
use crate::packed::{array_to_u64, grid_at, is_symbol_grid, packed_of};

verus! {

/// A puzzle: its number, the margins `sr`, `sc`, `br`, `bc`, the level and
/// the packed grid.
pub type Puzzle = (usize, [usize; 5], [usize; 5], [usize; 5], [usize; 5], usize, u64);

/// The characters that a puzzle string may hold between its digits.
pub open spec fn is_separator(c: char) -> bool {
    c == '-' || c == ' ' || c == '\r'
}

/// The first `n` characters of `s` without the separators.
pub open spec fn cleaned_upto(s: Seq<char>, n: int) -> Seq<char>
    decreases n,
{
    if n <= 0 {
        Seq::empty()
    } else if is_separator(s[n - 1]) {
        cleaned_upto(s, n - 1)
    } else {
        cleaned_upto(s, n - 1).push(s[n - 1])
    }
}

/// `s` without the separators.
pub open spec fn cleaned(s: Seq<char>) -> Seq<char> {
    cleaned_upto(s, s.len() as int)
}

/// The value of a decimal digit.
pub open spec fn digit_value(c: char) -> int {
    c as u32 - '0' as u32
}

/// A well-formed puzzle: without the separators, at least 25 characters, of
/// which the first 25 are digits from 0 to 3 and the last is a digit.
pub open spec fn well_formed(chars: Seq<char>) -> bool {
    &&& chars.len() >= 25
    &&& forall|i: int| 0 <= i < 25 ==> '0' <= #[trigger] chars[i] <= '3'
    &&& '0' <= chars.last() <= '9'
}

/// The grid of the first `n` digits of a puzzle, on a grid of zeros.
pub open spec fn grid_upto(chars: Seq<char>, start: [[usize; 5]; 5], n: int) -> [[usize; 5]; 5]
    decreases n,
{
    if n <= 0 {
        start
    } else {
        grid_with(grid_upto(chars, start, n - 1), n - 1, digit_value(chars[n - 1]) as usize)
    }
}

/// `puzzle` is what the cleaned characters `chars` say: the level is the
/// last digit, the packed grid holds the first 25 digits row by row, and the
/// margins are the sums and the numbers of zeros of its rows and columns.
pub open spec fn puzzle_of(chars: Seq<char>, puzzle: Puzzle) -> bool {
    &&& puzzle.5 == digit_value(chars.last())
    &&& exists|g: [[usize; 5]; 5]|
        {
            &&& is_symbol_grid(g)
            &&& forall|i: int| 0 <= i < 25 ==> #[trigger] grid_at(g, i) == digit_value(chars[i])
            &&& puzzle.6 == packed_of(g)
            &&& margins_hold(g, puzzle.1, puzzle.2, puzzle.3, puzzle.4)
        }
}

/// The characters of a puzzle string without the separators.
pub fn puzzle_chars(s: &str) -> (chars: Vec<char>)
    ensures
        chars@ == cleaned(s@),
{
    let mut chars: Vec<char> = Vec::new();
    for c in it: s.chars()
        invariant
            it.seq() == s@,
            chars@ == cleaned_upto(s@, it.index() as int),
    {
        if c != '-' && c != ' ' && c != '\r' {
            chars.push(c);
        }
    }
    chars
}

/// Whether the characters are a well-formed puzzle.
pub fn is_well_formed(chars: &Vec<char>) -> (ok: bool)
    ensures
        ok == well_formed(chars@),
{
    if chars.len() < 25 {
        return false;
    }
    for i in 0..25usize
        invariant
            chars.len() >= 25,
            forall|k: int| 0 <= k < i ==> '0' <= #[trigger] chars[k] <= '3',
    {
        let c = chars[i];
        if c < '0' || c > '3' {
            return false;
        }
    }
    let last = chars[chars.len() - 1];
    '0' <= last && last <= '9'
}

/// Whether a string is a well-formed puzzle.
pub fn is_puzzle_string(s: &str) -> (ok: bool)
    ensures
        ok == well_formed(cleaned(s@)),
{
    let chars = puzzle_chars(s);
    is_well_formed(&chars)
}

fn digit(c: char) -> (d: usize)
    requires
        '0' <= c <= '9',
    ensures
        d == digit_value(c),
        d <= 9,
{
    (c as u32 - '0' as u32) as usize
}

/// The puzzle that well-formed characters say, with the number 0.
#[verifier::rlimit(40)]
pub fn parse_puzzle(chars: &Vec<char>) -> (puzzle: Puzzle)
    requires
        well_formed(chars@),
    ensures
        puzzle.0 == 0,
        puzzle_of(chars@, puzzle),
{
    let mut state: [[usize; 5]; 5] = [[0usize;5];5];
    let ghost start = state;
    for i in 0..5usize
        invariant
            well_formed(chars@),
            state == grid_upto(chars@, start, 5 * i),
    {
        for j in 0..5usize
            invariant
                i < 5,
                well_formed(chars@),
                state == grid_upto(chars@, start, 5 * i + j),
        {
            let ghost before = state;
            let c = chars[i * 5 + j];
            state[i][j] = digit(c);
            proof {
                let n: int = 5 * i + j;
                assert(n / 5 == i && n % 5 == j);
                lemma_grid_with(before, n, digit_value(c) as usize);
                assert(state =~~= grid_with(before, n, digit_value(c) as usize));
            }
        }
    }
    proof {
        lemma_grid_upto(chars@, start, 25);
        assert forall|r: int, c: int| 0 <= r < 5 && 0 <= c < 5 implies (#[trigger] state[r][c])
            <= 3 by {
            let i = 5 * r + c;
            assert(i / 5 == r && i % 5 == c);
            assert(grid_at(state, i) == digit_value(chars@[i]));
            assert('0' <= chars@[i] <= '3');
        }
    }
    let level = digit(chars[chars.len() - 1]);
    let mut sr: [usize; 5] = [0usize;5];
    let mut sc: [usize; 5] = [0usize;5];
    let mut br: [usize; 5] = [0usize;5];
    let mut bc: [usize; 5] = [0usize;5];
    for i in 0..5usize
        invariant
            is_symbol_grid(state),
            forall|r: int|
                0 <= r < 5 ==> (#[trigger] sr[r]) == if r < i {
                    points_upto(state, r, 5)
                } else {
                    0
                },
            forall|r: int|
                0 <= r < 5 ==> (#[trigger] br[r]) == if r < i {
                    bombs_upto(state, r, 5)
                } else {
                    0
                },
            forall|c: int| 0 <= c < 5 ==> (#[trigger] sc[c]) == points_upto(state, 5 + c, i as int),
            forall|c: int| 0 <= c < 5 ==> (#[trigger] bc[c]) == bombs_upto(state, 5 + c, i as int),
    {
        for j in 0..5usize
            invariant
                i < 5,
                is_symbol_grid(state),
                forall|r: int|
                    0 <= r < 5 ==> (#[trigger] sr[r]) == if r < i {
                        points_upto(state, r, 5)
                    } else if r == i {
                        points_upto(state, r, j as int)
                    } else {
                        0
                    },
                forall|r: int|
                    0 <= r < 5 ==> (#[trigger] br[r]) == if r < i {
                        bombs_upto(state, r, 5)
                    } else if r == i {
                        bombs_upto(state, r, j as int)
                    } else {
                        0
                    },
                forall|c: int|
                    0 <= c < 5 ==> (#[trigger] sc[c]) == points_upto(
                        state,
                        5 + c,
                        if c < j {
                            i + 1
                        } else {
                            i as int
                        },
                    ),
                forall|c: int|
                    0 <= c < 5 ==> (#[trigger] bc[c]) == bombs_upto(
                        state,
                        5 + c,
                        if c < j {
                            i + 1
                        } else {
                            i as int
                        },
                    ),
        {
            proof {
                assert(state[i as int][j as int] <= 3);
                assert(line_cell(state, i as int, j as int) == state[i as int][j as int]);
                assert(line_cell(state, 5 + j, i as int) == state[i as int][j as int]);
                lemma_line_bounds(state, i as int, j as int);
                lemma_line_bounds(state, 5 + j, i as int);
            }
            let n = state[i][j];
            if n == 0 {
                br[i] += 1;
                bc[j] += 1;
            } else {
                sr[i] += n;
                sc[j] += n;
            }
        }
    }
    let packed = array_to_u64(&state);
    proof {
        assert forall|line: int| 0 <= line < 10 implies #[trigger] line_exact(
            state,
            line,
            sr,
            sc,
            br,
            bc,
        ) by {
            if line < 5 {
                assert(sr[line] == points_upto(state, line, 5));
                assert(br[line] == bombs_upto(state, line, 5));
            } else {
                assert(sc[line - 5] == points_upto(state, 5 + (line - 5), 5));
                assert(bc[line - 5] == bombs_upto(state, 5 + (line - 5), 5));
            }
        }
    }
    (0, sr, sc, br, bc, level, packed)
}

proof fn lemma_line_bounds(g: [[usize; 5]; 5], line: int, n: int)
    requires
        0 <= n,
    ensures
        0 <= points_upto(g, line, n) <= 3 * n,
        0 <= bombs_upto(g, line, n) <= n,
    decreases n,
{
    if n > 0 {
        lemma_line_bounds(g, line, n - 1);
    }
}

proof fn lemma_grid_upto(chars: Seq<char>, start: [[usize; 5]; 5], n: int)
    requires
        0 <= n <= 25,
    ensures
        forall|i: int|
            0 <= i < 25 ==> #[trigger] grid_at(grid_upto(chars, start, n), i) == if i < n {
                digit_value(chars[i]) as usize as int
            } else {
                grid_at(start, i)
            },
    decreases n,
{
    if n > 0 {
        let before = grid_upto(chars, start, n - 1);
        lemma_grid_upto(chars, start, n - 1);
        lemma_grid_with(before, n - 1, digit_value(chars[n - 1]) as usize);
        assert forall|i: int| 0 <= i < 25 implies #[trigger] grid_at(
            grid_upto(chars, start, n),
            i,
        ) == if i < n {
            digit_value(chars[i]) as usize as int
        } else {
            grid_at(start, i)
        } by {
            assert(grid_at(before, i) == if i < n - 1 {
                digit_value(chars[i]) as usize as int
            } else {
                grid_at(start, i)
            });
        }
    }
}

/// The puzzle that a string says: the margins of the grid, the level and
/// the packed grid, with the number 0.
pub fn string_to_level_and_constraints(s: &str) -> (puzzle: Puzzle)
    requires
        well_formed(cleaned(s@)),
    ensures
        puzzle.0 == 0,
        puzzle_of(cleaned(s@), puzzle),
{
    let chars = puzzle_chars(s);
    parse_puzzle(&chars)
}

/// The lines of the first `n` characters of `s`, each without its
/// separators; the last one is the line that is not yet ended.
pub open spec fn lines_upto(s: Seq<char>, n: int) -> Seq<Seq<char>>
    decreases n,
{
    if n <= 0 {
        seq![Seq::empty()]
    } else {
        let before = lines_upto(s, n - 1);
        let c = s[n - 1];
        if c == '\n' {
            before.push(Seq::empty())
        } else if is_separator(c) {
            before
        } else {
            before.update(before.len() - 1, before.last().push(c))
        }
    }
}

/// The lines of `s`, each without its separators.
pub open spec fn cleaned_lines(s: Seq<char>) -> Seq<Seq<char>> {
    lines_upto(s, s.len() as int)
}

proof fn lemma_lines_upto(s: Seq<char>, n: int)
    requires
        0 <= n,
    ensures
        1 <= lines_upto(s, n).len() <= n + 1,
    decreases n,
{
    if n > 0 {
        lemma_lines_upto(s, n - 1);
    }
}

/// The puzzles of a text, one per line, numbered from 1.
#[verifier::rlimit(40)]
pub fn string_to_puzzles(s: &str) -> (puzzles: Vec<Puzzle>)
    requires
        s@.len() < usize::MAX,
        forall|k: int|
            0 <= k < cleaned_lines(s@).len() ==> well_formed(#[trigger] cleaned_lines(s@)[k]),
    ensures
        puzzles.len() == cleaned_lines(s@).len(),
        forall|k: int|
            0 <= k < puzzles.len() ==> (#[trigger] puzzles[k]).0 == k + 1 && puzzle_of(
                cleaned_lines(s@)[k],
                puzzles[k],
            ),
{
    let mut puzzles: Vec<Puzzle> = Vec::new();
    let mut line: Vec<char> = Vec::new();
    let ghost mut seen: int = 0;
    proof {
        lemma_lines_upto(s@, s@.len() as int);
    }
    for c in it: s.chars()
        invariant
            it.seq() == s@,
            seen == it.index(),
            0 <= seen <= s@.len(),
            s@.len() < usize::MAX,
            forall|k: int|
                0 <= k < cleaned_lines(s@).len() ==> well_formed(#[trigger] cleaned_lines(s@)[k]),
            lines_upto(s@, seen).len() == puzzles.len() + 1,
            lines_upto(s@, seen).last() == line@,
            puzzles.len() < cleaned_lines(s@).len(),
            forall|k: int|
                0 <= k < puzzles.len() ==> (#[trigger] puzzles[k]).0 == k + 1 && puzzle_of(
                    cleaned_lines(s@)[k],
                    puzzles[k],
                ),
    {
        proof {
            lemma_lines_upto(s@, seen);
            assert(s@[seen] == c);
            lemma_lines_grow(s@, seen + 1);
        }
        if c == '\n' {
            proof {
                assert(lines_upto(s@, seen + 1) == lines_upto(s@, seen).push(Seq::empty()));
                lemma_line_is_final(s@, seen + 1, puzzles.len() as int);
                assert(cleaned_lines(s@)[puzzles.len() as int] == line@);
            }
            let (_, sr, sc, br, bc, level, state) = parse_puzzle(&line);
            puzzles.push((puzzles.len() + 1, sr, sc, br, bc, level, state));
            line = Vec::new();
        } else if c != '-' && c != ' ' && c != '\r' {
            line.push(c);
        }
        proof {
            seen = seen + 1;
        }
    }
    proof {
        lemma_lines_upto(s@, s@.len() as int);
        assert(seen == s@.len());
        assert(cleaned_lines(s@)[puzzles.len() as int] == line@);
    }
    let (_, sr, sc, br, bc, level, state) = parse_puzzle(&line);
    puzzles.push((puzzles.len() + 1, sr, sc, br, bc, level, state));
    puzzles
}

/// The text as a whole has at least the lines of its beginning.
proof fn lemma_lines_grow(s: Seq<char>, n: int)
    requires
        0 <= n <= s.len(),
    ensures
        cleaned_lines(s).len() >= lines_upto(s, n).len(),
    decreases s.len() - n,
{
    if n < s.len() {
        lemma_lines_grow(s, n + 1);
    }
}

/// A line that is ended stays as it is.
proof fn lemma_line_is_final(s: Seq<char>, n: int, k: int)
    requires
        0 <= n <= s.len(),
        0 <= k < lines_upto(s, n).len() - 1,
    ensures
        k < cleaned_lines(s).len(),
        cleaned_lines(s)[k] == lines_upto(s, n)[k],
    decreases s.len() - n,
{
    if n < s.len() {
        lemma_lines_upto(s, n);
        lemma_line_is_final(s, n + 1, k);
    }
}

} // verus!
