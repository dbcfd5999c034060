//! The store of a search: the possible boards of the root, by weight group,
//! and for each reveal on the way down those that are still possible.

use vstd::prelude::*;
use crate::packed::{
    assigned_count, cell, compatible, get_from_packed_state, is_possible_board_of_state,
    lemma_assigned_of_reveal, lemma_product_bound, lemma_reveal_tightens, set_in_packed_state,
    with_cell,
};
use crate::control::SearchMode;
use crate::csp_constraints::{
    extends, flatten, lemma_enumerated_board_is_admissible, lemma_start_upto, lists_groups,
    solution_groups, start_grid,
};
use crate::packed::{
    cell_at, field, grid_at, is_symbol_grid, lemma_packed_high_fields, lemma_packed_upto,
    packed_of, packed_upto, PACKED_LIMIT,
};
use crate::packed::{coins, coins_of_state, hides_two_or_three};
use crate::possible_boards::{
    accumulate_symbol_counts, compatible_boards, filter_possible_boards_of_next_depth, kept,
    lemma_kept_all, lemma_kept_twice, lemma_slice_bounded, slices_ok, symbol_count,
};
use crate::search::{all_found, root_rule, root_verdict, settled, terminal_value, RootVerdict};

verus! {

/// The largest number of reveals on the way down, and one.
pub const DEPTHS: usize = 26;

/// The boards of a search and the states on the way from the root to the
/// node that the search is at.
#[derive(Debug)]
pub struct BoardStore {
    possible_boards: Vec<u64>,
    indices: Vec<usize>,
    groups: usize,
    states: Vec<u64>,
    start: usize,
}

/// The sum of the first `n` counts.
pub open spec fn offset(counts: Seq<usize>, n: int) -> int
    decreases n,
{
    if n <= 0 {
        0
    } else {
        offset(counts, n - 1) + counts[n - 1]
    }
}

/// The boards cut into groups of the sizes that `counts` gives.
pub open spec fn grouped(boards: Seq<u64>, counts: Seq<usize>) -> Seq<Seq<u64>> {
    Seq::new(counts.len(), |g: int| boards.subrange(offset(counts, g), offset(counts, g + 1)))
}

/// The counts add up to the number of boards, and every board is compatible
/// with the state.
pub open spec fn fits_a_root(boards: Seq<u64>, counts: Seq<usize>, state: u64) -> bool {
    &&& offset(counts, counts.len() as int) == boards.len()
    &&& forall|i: int| 0 <= i < boards.len() ==> compatible(#[trigger] boards[i], state)
}

/// Boards and counts make a root: the counts add up to the number of
/// boards, every board is compatible with the state, and the index list of
/// 26 depths fits a machine word.
pub open spec fn makes_a_root(boards: Seq<u64>, counts: Seq<usize>, state: u64) -> bool {
    fits_a_root(boards, counts, state) && 26 * counts.len() + 1 <= usize::MAX
}

/// The slice number `g` of the depth whose slices begin at `from`.
pub open spec fn part(boards: Seq<u64>, indices: Seq<usize>, from: int, g: int) -> Seq<u64> {
    boards.subrange(indices[from + g] as int, indices[from + g + 1] as int)
}

impl BoardStore {

    #[verifier::type_invariant]
    spec fn inv(self) -> bool {
        &&& 1 <= self.states.len() <= 26
        &&& self.indices.len() == 26 * self.groups + 1
        &&& self.start == (self.states.len() - 1) * self.groups
        &&& forall|k: int|
            0 <= k < self.start + self.groups ==> self.indices[k] <= #[trigger] self.indices[k + 1]
        &&& self.indices[self.start + self.groups] <= self.possible_boards.len()
        &&& forall|d: int|
            0 <= d < self.states.len() ==> d <= assigned_count(#[trigger] self.states[d])
        &&& forall|d: int, g: int|
            0 <= d < self.states.len() && 0 <= g < self.groups ==> #[trigger] part(
                self.possible_boards@,
                self.indices@,
                d * self.groups,
                g,
            ) == compatible_boards(
                part(self.possible_boards@, self.indices@, 0, g),
                self.states[d],
            )
    }

    /// The states from the root to the node that the search is at.
    pub closed spec fn states(self) -> Seq<u64> {
        self.states@
    }

    /// The possible boards of the root, by weight group.
    pub closed spec fn root(self) -> Seq<Seq<u64>> {
        Seq::new(self.groups as nat, |g: int| part(self.possible_boards@, self.indices@, 0, g))
    }

    /// The state of the node that the search is at.
    pub open spec fn state(self) -> u64 {
        self.states().last()
    }

    /// The number of reveals since the root.
    pub open spec fn depth(self) -> int {
        self.states().len() - 1
    }

    /// The boards of weight group `g` that are possible at the node that the
    /// search is at: those of the root that are compatible with its state.
    pub open spec fn group(self, g: int) -> Seq<u64> {
        compatible_boards(self.root()[g], self.state())
    }

    /// The store of a root, if the boards and counts make one.
    #[verifier::rlimit(40)]
    pub fn new(boards: Vec<u64>, counts: &Vec<usize>, state: u64) -> (made: Option<BoardStore>)
        ensures
            made.is_some() == makes_a_root(boards@, counts@, state),
            made.is_some() ==> made.unwrap().states() == seq![state] && made.unwrap().root()
                == grouped(boards@, counts@),
    {
        let groups = counts.len();
        if groups > (usize::MAX - 1) / 26 {
            return None;
        }
        let mut indices: Vec<usize> = vec![0usize; 26 * groups + 1];
        let mut index: usize = 0;
        let mut j: usize = 0;
        while j < groups
            invariant
                j <= groups,
                groups == counts.len(),
                indices.len() == 26 * groups + 1,
                index == offset(counts@, j as int),
                index <= boards.len(),
                forall|k: int| 0 <= k <= j ==> #[trigger] indices[k] == offset(counts@, k),
            decreases groups - j,
        {
            if counts[j] > boards.len() - index {
                proof {
                    lemma_offset_grows(counts@, j + 1, counts.len() as int);
                }
                return None;
            }
            index += counts[j];
            indices[j + 1] = index;
            j += 1;
        }
        if index != boards.len() {
            return None;
        }
        for i in 0..boards.len()
            invariant
                forall|k: int| 0 <= k < i ==> compatible(#[trigger] boards[k], state),
        {
            if !is_possible_board_of_state(boards[i], state) {
                return None;
            }
        }
        let mut states: Vec<u64> = Vec::new();
        states.push(state);
        let ghost all = boards@;
        let ghost offsets = indices@;
        proof {
            lemma_product_bound(state, 25);
            assert forall|k: int| 0 <= k < groups implies offsets[k] <= #[trigger] offsets[k
                + 1] by {
                assert(offsets[k] == offset(counts@, k));
                assert(offsets[k + 1] == offset(counts@, k + 1));
            }
            assert forall|g: int| 0 <= g < groups implies #[trigger] part(all, offsets, 0, g)
                == compatible_boards(part(all, offsets, 0, g), state) by {
                assert(offsets[g] <= offsets[g + 1]);
                lemma_offset_grows(counts@, g + 1, counts.len() as int);
                let part = all.subrange(offsets[g] as int, offsets[g + 1] as int);
                lemma_kept_all(part, state, part.len() as int);
                assert(part.take(part.len() as int) =~= part);
            }
        }
        proof {
            assert(offsets[groups as int] == offset(counts@, groups as int));
            assert(states@ =~= seq![state]);
            assert(0 * groups == 0) by (nonlinear_arith);
            assert forall|d: int, g: int| 0 <= d < 1 && 0 <= g < groups implies #[trigger] part(
                all,
                offsets,
                d * groups,
                g,
            ) == compatible_boards(part(all, offsets, 0, g), states@[d]) by {
                assert(d * groups == 0) by (nonlinear_arith)
                    requires
                        d == 0,
                ;
                assert(part(all, offsets, 0, g) == compatible_boards(
                    part(all, offsets, 0, g),
                    state,
                ));
            }
        }
        let made = BoardStore { possible_boards: boards, indices, groups, states, start: 0 };
        proof {
            assert(made.states() =~= seq![state]);
            assert forall|g: int| 0 <= g < groups implies #[trigger] made.root()[g] == grouped(
                all,
                counts@,
            )[g] by {
                assert(offsets[g] == offset(counts@, g));
                assert(offsets[g + 1] == offset(counts@, g + 1));
            }
            assert(made.root() =~= grouped(all, counts@));
        }
        Some(made)
    }

    /// Goes down by one reveal: the symbol from 1 to 3 on an unrevealed
    /// cell. The slices of the new depth hold the boards that are still
    /// possible. Anything else changes nothing and is answered with `false`.
    #[verifier::rlimit(40)]
    pub fn descend(self, row: usize, col: usize, symbol: usize) -> (down: (BoardStore, bool))
        ensures
            down.1 == (row < 5 && col < 5 && 1 <= symbol <= 3 && cell(
                self.state(),
                row as int,
                col as int,
            ) == 0),
            down.0.root() == self.root(),
            down.0.states() == if down.1 {
                self.states().push(with_cell(self.state(), row as int, col as int, symbol as int))
            } else {
                self.states()
            },
    {
        proof {
            use_type_invariant(&self);
        }
        let state = self.states[self.states.len() - 1];
        if row >= 5 || col >= 5 || symbol < 1 || symbol > 3 {
            return (self, false);
        }
        if get_from_packed_state(state, row, col) != 0 {
            return (self, false);
        }
        let next = set_in_packed_state(state, row, col, symbol);
        let ghost before = self;
        let BoardStore { mut possible_boards, mut indices, groups, mut states, start } = self;
        let ghost boards0 = possible_boards@;
        let ghost indices0 = indices@;
        let ghost states0 = states@;
        proof {
            lemma_assigned_of_reveal(state, row as int, col as int, symbol as int);
            assert(states0.len() - 1 <= assigned_count(states0[states0.len() - 1]));
            assert(states0.len() <= 25);
            assert(start + 2 * groups <= 26 * groups) by (nonlinear_arith)
                requires
                    start == (states0.len() - 1) * groups,
                    states0.len() <= 25,
                    groups >= 0,
            ;
            assert forall|g: int| 0 <= g < groups implies indices0[start + g]
                <= #[trigger] indices0[start + g + 1] by {
                assert(indices0[start + g] <= indices0[(start + g) + 1]);
            }
            assert forall|b: u64| compatible(b, next) implies #[trigger] compatible(b, state) by {
                lemma_reveal_tightens(b, state, row as int, col as int, symbol as int);
            }
        }
        filter_possible_boards_of_next_depth(next, &mut possible_boards, &mut indices, start, groups);
        states.push(next);
        proof {
            lemma_one_depth_more(
                boards0,
                indices0,
                possible_boards@,
                indices@,
                groups as int,
                states0,
                start as int,
                next,
            );
            assert(states@ == states0.push(next));
            assert forall|d: int| 0 <= d < states@.len() implies d <= assigned_count(
                #[trigger] states@[d],
            ) by {
                if d < states0.len() {
                    assert(d <= assigned_count(states0[d]));
                }
            }
        }
        let down = BoardStore { possible_boards, indices, groups, states, start: start + groups };
        proof {
            assert(down.root() =~= before.root());
        }
        (down, true)
    }

    /// Goes back up by one reveal; at the root nothing changes.
    pub fn ascend(self) -> (up: BoardStore)
        ensures
            up.root() == self.root(),
            up.states() == if self.depth() > 0 {
                self.states().drop_last()
            } else {
                self.states()
            },
    {
        proof {
            use_type_invariant(&self);
        }
        if self.states.len() <= 1 {
            return self;
        }
        let ghost before = self;
        let BoardStore { possible_boards, indices, groups, mut states, start } = self;
        let ghost states0 = states@;
        let ghost l = states0.len() as int;
        proof {
            assert(start - groups == (l - 2) * groups) by (nonlinear_arith)
                requires
                    start == (l - 1) * groups,
            ;
            assert(groups <= start) by (nonlinear_arith)
                requires
                    start == (l - 1) * groups,
                    l >= 2,
                    groups >= 0,
            ;
            assert(start + groups <= 26 * groups) by (nonlinear_arith)
                requires
                    start == (l - 1) * groups,
                    l <= 26,
                    groups >= 0,
            ;
            lemma_indices_bounded(indices@, start + groups, start as int);
        }
        states.pop();
        proof {
            assert(states@ == states0.drop_last());
            assert forall|d: int| 0 <= d < states@.len() implies d <= assigned_count(
                #[trigger] states@[d],
            ) by {
                assert(d <= assigned_count(states0[d]));
            }
            assert forall|d: int, g: int|
                0 <= d < states@.len() && 0 <= g < groups implies #[trigger] part(
                possible_boards@,
                indices@,
                d * groups,
                g,
            ) == compatible_boards(part(possible_boards@, indices@, 0, g), states@[d]) by {
                assert(states@[d] == states0[d]);
                assert(part(possible_boards@, indices@, d * groups, g) == compatible_boards(
                    part(possible_boards@, indices@, 0, g),
                    states0[d],
                ));
            }
        }
        let up = BoardStore { possible_boards, indices, groups, states, start: start - groups };
        proof {
            assert(up.root() =~= before.root());
        }
        up
    }

    /// The number of boards of the first `n` weight groups that are possible
    /// at the node that the search is at.
    pub open spec fn count_upto(self, n: int) -> int
        decreases n,
    {
        if n <= 0 {
            0
        } else {
            self.count_upto(n - 1) + self.group(n - 1).len()
        }
    }

    /// No board that is possible at the node hides a 2 or 3 from its state.
    pub open spec fn won(self) -> bool {
        forall|g: int, i: int|
            0 <= g < self.root().len() && 0 <= i < self.group(g).len() ==> !hides_two_or_three(
                #[trigger] self.group(g)[i],
                self.state(),
            )
    }

    /// The number of boards that are possible at the node that the search is
    /// at.
    pub fn len(&self) -> (count: usize)
        ensures
            count == self.count_upto(self.root().len() as int),
    {
        proof {
            use_type_invariant(self);
            self.lemma_current_slices();
            lemma_indices_bounded(
                self.indices@,
                self.start + self.groups,
                self.start as int,
            );
            self.lemma_count_upto(self.groups as int);
        }
        self.indices[self.start + self.groups] - self.indices[self.start]
    }

    /// Whether every 2 and 3 of every possible board is revealed.
    pub fn is_won(&self) -> (won: bool)
        ensures
            won == self.won(),
    {
        proof {
            use_type_invariant(self);
            self.lemma_current_slices();
            self.lemma_won();
        }
        let state = self.states[self.states.len() - 1];
        crate::search::is_won_state(
            state,
            &self.possible_boards,
            &self.indices,
            self.start,
            self.start + self.groups,
        )
    }

    /// The value of the node if the game ends there, by the rule of the
    /// mode; `None` if the search has to go on.
    pub fn terminal_value(&self, mode: SearchMode, level: usize) -> (value: Option<u64>)
        ensures
            value.is_some() == settled(mode, self.state(), level as int, self.won()).is_some(),
            value.is_some() ==> value.unwrap() == settled(
                mode,
                self.state(),
                level as int,
                self.won(),
            ).unwrap(),
    {
        proof {
            use_type_invariant(self);
            self.lemma_current_slices();
            self.lemma_won();
        }
        let state = self.states[self.states.len() - 1];
        terminal_value(
            mode,
            state,
            level,
            &self.possible_boards,
            &self.indices,
            self.start,
            self.start + self.groups,
        )
    }

    /// The verdict on the node as the root of a search.
    pub fn root_verdict(&self, mode: SearchMode, level: usize) -> (verdict: RootVerdict)
        ensures
            verdict == root_rule(mode, self.state(), level as int, self.won()),
    {
        proof {
            use_type_invariant(self);
            self.lemma_current_slices();
            self.lemma_won();
        }
        let state = self.states[self.states.len() - 1];
        root_verdict(
            mode,
            state,
            level,
            &self.possible_boards,
            &self.indices,
            self.start,
            self.start + self.groups,
        )
    }

    /// For each weight group, how many of its possible boards hold each
    /// symbol on each cell: `counts[g][row][col][symbol]`. On every cell the
    /// four counts of a group add up to the number of its possible boards.
    pub fn symbol_counts(&self) -> (counts: Vec<[[[usize; 4]; 5]; 5]>)
        ensures
            counts.len() == self.root().len(),
            forall|g: int, r: int, c: int, s: int|
                0 <= g < counts.len() && 0 <= r < 5 && 0 <= c < 5 && 0 <= s < 4 ==> (
                #[trigger] counts[g][r][c][s]) == symbol_count(
                    self.group(g),
                    0,
                    self.group(g).len() as int,
                    r,
                    c,
                    s,
                ),
            forall|g: int, r: int, c: int|
                0 <= g < counts.len() && 0 <= r < 5 && 0 <= c < 5 ==> (#[trigger] counts[g][r][c])[0]
                    + counts[g][r][c][1] + counts[g][r][c][2] + counts[g][r][c][3] == self.group(
                    g,
                ).len(),
    {
        proof {
            use_type_invariant(self);
            self.lemma_current_slices();
        }
        let counts = accumulate_symbol_counts(
            &self.possible_boards,
            &self.indices,
            self.start,
            self.groups,
        );
        proof {
            assert forall|g: int, r: int, c: int, s: int|
                0 <= g < counts.len() && 0 <= r < 5 && 0 <= c < 5 && 0 <= s < 4 implies (
            #[trigger] counts[g][r][c][s]) == symbol_count(
                self.group(g),
                0,
                self.group(g).len() as int,
                r,
                c,
                s,
            ) by {
                let lo = self.indices[self.start + g] as int;
                let hi = self.indices[self.start + g + 1] as int;
                self.lemma_slice_ends(g);
                lemma_count_of_slice(self.possible_boards@, lo, hi, hi, r, c, s);
            }
            assert forall|g: int, r: int, c: int|
                0 <= g < counts.len() && 0 <= r < 5 && 0 <= c < 5 implies (
            #[trigger] counts[g][r][c])[0] + counts[g][r][c][1] + counts[g][r][c][2]
                + counts[g][r][c][3] == self.group(g).len() by {
                self.lemma_slice_ends(g);
            }
        }
        counts
    }

    /// The most coins that a possible board is worth; `None` if no board is
    /// possible.
    #[verifier::rlimit(40)]
    pub fn most_coins(&self) -> (most: Option<u64>)
        ensures
            most.is_none() == (self.count_upto(self.root().len() as int) == 0),
            most.is_some() ==> (forall|g: int, i: int|
                0 <= g < self.root().len() && 0 <= i < self.group(g).len() ==> coins(
                    #[trigger] self.group(g)[i],
                ) <= most.unwrap()) && (exists|g: int, i: int|
                0 <= g < self.root().len() && 0 <= i < self.group(g).len() && coins(
                    #[trigger] self.group(g)[i],
                ) == most.unwrap()),
    {
        proof {
            use_type_invariant(self);
            self.lemma_current_slices();
            lemma_indices_bounded(
                self.indices@,
                self.start + self.groups,
                self.start as int,
            );
            self.lemma_count_upto(self.groups as int);
        }
        let lo = self.indices[self.start];
        let hi = self.indices[self.start + self.groups];
        if lo >= hi {
            return None;
        }
        let mut most: u64 = coins_of_state(self.possible_boards[lo]);
        let ghost mut at: int = lo as int;
        for i in lo + 1..hi
            invariant
                lo < hi <= self.possible_boards.len(),
                lo <= at < i,
                most == coins(self.possible_boards@[at]),
                forall|k: int| lo <= k < i ==> coins(#[trigger] self.possible_boards@[k]) <= most,
        {
            let worth = coins_of_state(self.possible_boards[i]);
            if worth > most {
                most = worth;
                proof {
                    at = i as int;
                }
            }
        }
        proof {
            let (g, j) = lemma_locate(
                self.indices@,
                self.start as int,
                self.groups as int,
                self.groups as int,
                at,
            );
            self.lemma_slice_ends(g);
            assert(self.group(g)[j] == self.possible_boards@[at]);
            assert forall|g: int, i: int|
                0 <= g < self.root().len() && 0 <= i < self.group(g).len() implies coins(
                #[trigger] self.group(g)[i],
            ) <= most by {
                self.lemma_slice_ends(g);
                let k = self.indices[self.start + g] + i;
                assert(self.group(g)[i] == self.possible_boards@[k]);
            }
        }
        Some(most)
    }

    /// The slices of the depth that the search is at hold the groups of the
    /// node.
    proof fn lemma_current_slices(self)
        requires
            self.inv(),
        ensures
            self.root().len() == self.groups,
            self.state() == self.states[self.states.len() - 1],
            self.start + self.groups < self.indices.len(),
            slices_ok(
                self.possible_boards@,
                self.indices@,
                self.start as int,
                self.groups as int,
            ),
            forall|k: int|
                0 <= k < self.start + self.groups ==> self.indices[k] <= #[trigger] self.indices[k
                    + 1],
            forall|g: int|
                0 <= g < self.groups ==> #[trigger] self.group(g) == part(
                    self.possible_boards@,
                    self.indices@,
                    self.start as int,
                    g,
                ),
    {
        let l = self.states.len() as int;
        let w = self.groups as int;
        assert(self.start + w <= 26 * w) by (nonlinear_arith)
            requires
                self.start == (l - 1) * w,
                l <= 26,
                w >= 0,
        ;
        assert forall|g: int| 0 <= g < w implies self.indices[self.start + g]
            <= #[trigger] self.indices[self.start + g + 1] by {
            assert(self.indices[self.start + g] <= self.indices[(self.start + g) + 1]);
        }
        assert forall|g: int| 0 <= g < w implies #[trigger] self.group(g) == part(
            self.possible_boards@,
            self.indices@,
            self.start as int,
            g,
        ) by {
            assert(part(self.possible_boards@, self.indices@, (l - 1) * w, g) == compatible_boards(
                part(self.possible_boards@, self.indices@, 0, g),
                self.states[l - 1],
            ));
        }
    }

    /// Where slice `g` of the depth lies in the store.
    proof fn lemma_slice_ends(self, g: int)
        requires
            self.inv(),
            0 <= g < self.groups,
        ensures
            self.start + self.groups < self.indices.len(),
            self.indices[self.start as int] <= self.indices[self.start + g],
            self.indices[self.start + g] <= self.indices[self.start + g + 1],
            self.indices[self.start + g + 1] <= self.indices[self.start + self.groups],
            self.indices[self.start + self.groups] <= self.possible_boards.len(),
            self.group(g) == self.possible_boards@.subrange(
                self.indices[self.start + g] as int,
                self.indices[self.start + g + 1] as int,
            ),
    {
        self.lemma_current_slices();
        assert(self.indices[self.start + g] <= self.indices[(self.start + g) + 1]);
        lemma_indices_bounded(self.indices@, self.start + self.groups, self.start + g + 1);
        lemma_indices_bounded(self.indices@, self.start + g, self.start as int);
        assert(self.group(g) == part(
            self.possible_boards@,
            self.indices@,
            self.start as int,
            g,
        ));
    }

    /// The boards of the first `n` groups fill the store from the first
    /// slice of the depth to the end of slice `n`.
    proof fn lemma_count_upto(self, n: int)
        requires
            self.inv(),
            0 <= n <= self.groups,
        ensures
            self.count_upto(n) == self.indices[self.start + n] - self.indices[self.start as int],
        decreases n,
    {
        self.lemma_current_slices();
        if n > 0 {
            self.lemma_count_upto(n - 1);
            self.lemma_slice_ends(n - 1);
        }
    }

    /// To be won is that no board of the slices of the depth hides a 2 or 3.
    proof fn lemma_won(self)
        requires
            self.inv(),
        ensures
            self.won() == all_found(
                self.possible_boards@,
                self.indices[self.start as int] as int,
                self.indices[self.start + self.groups] as int,
                self.state(),
            ),
    {
        self.lemma_current_slices();
        let boards = self.possible_boards@;
        let lo = self.indices[self.start as int] as int;
        let hi = self.indices[self.start + self.groups] as int;
        if self.won() {
            assert forall|k: int| lo <= k < hi implies !hides_two_or_three(
                #[trigger] boards[k],
                self.state(),
            ) by {
                let (g, j) = lemma_locate(
                    self.indices@,
                    self.start as int,
                    self.groups as int,
                    self.groups as int,
                    k,
                );
                self.lemma_slice_ends(g);
                assert(self.group(g)[j] == boards[k]);
            }
        }
        if all_found(boards, lo, hi, self.state()) {
            assert forall|g: int, i: int|
                0 <= g < self.root().len() && 0 <= i < self.group(g).len() implies !hides_two_or_three(
                #[trigger] self.group(g)[i],
                self.state(),
            ) by {
                self.lemma_slice_ends(g);
                let k = self.indices[self.start + g] + i;
                assert(self.group(g)[i] == boards[k]);
            }
        }
    }

    /// The number of weight groups.
    pub fn groups(&self) -> (groups: usize)
        ensures
            groups == self.root().len(),
    {
        self.groups
    }

    /// The state of the node that the search is at.
    pub fn current_state(&self) -> (state: u64)
        ensures
            state == self.state(),
    {
        proof {
            use_type_invariant(self);
        }
        self.states[self.states.len() - 1]
    }

    /// The number of reveals since the root.
    pub fn current_depth(&self) -> (depth: usize)
        ensures
            depth == self.depth(),
            depth <= assigned_count(self.state()),
            depth <= 25,
    {
        proof {
            use_type_invariant(self);
            lemma_product_bound(self.state(), 25);
        }
        self.states.len() - 1
    }
}

/// Indices that do not decrease up to `n` stay below the index at `n`.
proof fn lemma_indices_bounded(indices: Seq<usize>, n: int, k: int)
    requires
        0 <= k <= n < indices.len(),
        forall|i: int| 0 <= i < n ==> indices[i] <= #[trigger] indices[i + 1],
    ensures
        indices[k] <= indices[n],
    decreases n - k,
{
    if k < n {
        lemma_indices_bounded(indices, n, k + 1);
        assert(indices[k] <= indices[k + 1]);
    }
}

/// What the filter leaves of the store when it fills the slices of one more
/// depth: the slices above stay as they are, and the new slices hold the
/// boards of the root that are compatible with the new state.
#[verifier::rlimit(40)]
proof fn lemma_one_depth_more(
    boards0: Seq<u64>,
    indices0: Seq<usize>,
    boards1: Seq<u64>,
    indices1: Seq<usize>,
    groups: int,
    states: Seq<u64>,
    start: int,
    next: u64,
)
    requires
        0 <= groups,
        1 <= states.len() <= 25,
        indices0.len() == 26 * groups + 1,
        start == (states.len() - 1) * groups,
        forall|k: int| 0 <= k < start + groups ==> indices0[k] <= #[trigger] indices0[k + 1],
        indices0[start + groups] <= boards0.len(),
        forall|d: int, g: int|
            0 <= d < states.len() && 0 <= g < groups ==> #[trigger] part(
                boards0,
                indices0,
                d * groups,
                g,
            ) == compatible_boards(part(boards0, indices0, 0, g), states[d]),
        indices1.len() == indices0.len(),
        forall|k: int|
            0 <= k < indices0.len() && !(start + groups < k <= start + 2 * groups)
                ==> #[trigger] indices1[k] == indices0[k],
        slices_ok(boards1, indices1, start + groups, groups),
        boards1.take(indices0[start + groups] as int) == boards0.take(
            indices0[start + groups] as int,
        ),
        forall|g: int|
            0 <= g < groups ==> #[trigger] boards1.subrange(
                indices1[start + groups + g] as int,
                indices1[start + groups + g + 1] as int,
            ) == compatible_boards(
                boards0.subrange(indices0[start + g] as int, indices0[start + g + 1] as int),
                next,
            ),
        forall|b: u64| compatible(b, next) ==> #[trigger] compatible(b, states.last()),
    ensures
        start + groups == states.len() * groups,
        start + 2 * groups < indices1.len(),
        forall|k: int| 0 <= k < start + 2 * groups ==> indices1[k] <= #[trigger] indices1[k + 1],
        indices1[start + 2 * groups] <= boards1.len(),
        forall|g: int|
            0 <= g < groups ==> #[trigger] part(boards1, indices1, 0, g) == part(
                boards0,
                indices0,
                0,
                g,
            ),
        forall|d: int, g: int|
            0 <= d < states.len() + 1 && 0 <= g < groups ==> #[trigger] part(
                boards1,
                indices1,
                d * groups,
                g,
            ) == compatible_boards(part(boards1, indices1, 0, g), states.push(next)[d]),
{
    let l = states.len() as int;
    let end = indices0[start + groups] as int;
    assert(start + groups == l * groups) by (nonlinear_arith)
        requires
            start == (l - 1) * groups,
    ;
    assert(start + 2 * groups <= 26 * groups) by (nonlinear_arith)
        requires
            start == (l - 1) * groups,
            l <= 25,
            groups >= 0,
    ;
    assert forall|k: int| 0 <= k < start + 2 * groups implies indices1[k] <= #[trigger] indices1[k
        + 1] by {
        if k < start + groups {
            assert(indices0[k] <= indices0[k + 1]);
        } else {
            let g = k - (start + groups);
            assert(indices1[start + groups + g] <= indices1[start + groups + g + 1]);
        }
    }
    // the slices that were there before lie in the part of the store that stays
    assert forall|d: int, g: int| 0 <= d < l && 0 <= g < groups implies #[trigger] part(
        boards1,
        indices1,
        d * groups,
        g,
    ) == part(boards0, indices0, d * groups, g) by {
        assert(0 <= d * groups <= start) by (nonlinear_arith)
            requires
                start == (l - 1) * groups,
                0 <= d <= l - 1,
                groups >= 0,
        ;
        let k = d * groups + g;
        lemma_indices_bounded(indices0, start + groups, k);
        lemma_indices_bounded(indices0, start + groups, k + 1);
        assert(indices0[k] <= indices0[k + 1]);
        let lo = indices0[k] as int;
        let hi = indices0[k + 1] as int;
        assert(indices1[start + groups] == indices0[start + groups]);
        crate::possible_boards::lemma_slice_bounded(
            boards1,
            indices1,
            start + groups,
            groups,
            0,
        );
        assert(end <= boards1.len() && end <= boards0.len());
        assert(hi <= end);
        assert forall|i: int| lo <= i < hi implies boards1[i] == boards0[i] by {
            assert(boards1.take(end)[i] == boards1[i]);
            assert(boards0.take(end)[i] == boards0[i]);
        }
        assert(indices1[k] == indices0[k] && indices1[k + 1] == indices0[k + 1]);
        assert(boards1.subrange(lo, hi) =~= boards0.subrange(lo, hi));
    }
    assert forall|g: int| 0 <= g < groups implies #[trigger] part(boards1, indices1, 0, g) == part(
        boards0,
        indices0,
        0,
        g,
    ) by {
        assert(0 * groups == 0) by (nonlinear_arith);
        assert(part(boards1, indices1, 0 * groups, g) == part(boards0, indices0, 0 * groups, g));
    }
    assert forall|d: int, g: int| 0 <= d < l + 1 && 0 <= g < groups implies #[trigger] part(
        boards1,
        indices1,
        d * groups,
        g,
    ) == compatible_boards(part(boards1, indices1, 0, g), states.push(next)[d]) by {
        let root = part(boards0, indices0, 0, g);
        assert(part(boards1, indices1, 0, g) == root);
        if d < l {
            assert(part(boards1, indices1, d * groups, g) == part(boards0, indices0, d * groups, g));
            assert(part(boards0, indices0, d * groups, g) == compatible_boards(root, states[d]));
        } else {
            assert(d * groups == start + groups);
            let above = part(boards0, indices0, (l - 1) * groups, g);
            assert(above == compatible_boards(root, states[l - 1]));
            assert(above == boards0.subrange(
                indices0[start + g] as int,
                indices0[start + g + 1] as int,
            ));
            lemma_kept_twice(root, states.last(), next, root.len() as int);
        }
    }
}

/// The slice that holds the place `k` of the store, and the place in the
/// slice.
proof fn lemma_locate(indices: Seq<usize>, start: int, groups: int, n: int, k: int) -> (place: (
    int,
    int,
))
    requires
        0 <= start,
        0 <= n <= groups,
        start + groups < indices.len(),
        forall|i: int| 0 <= i < start + groups ==> indices[i] <= #[trigger] indices[i + 1],
        indices[start] <= k < indices[start + n],
    ensures
        0 <= place.0 < n,
        indices[start + place.0] <= k < indices[start + place.0 + 1],
        place.1 == k - indices[start + place.0],
    decreases n,
{
    if k >= indices[start + n - 1] {
        (n - 1, k - indices[start + n - 1])
    } else {
        lemma_locate(indices, start, groups, n - 1, k)
    }
}

/// Counting in a slice is counting in the store between the ends of the
/// slice.
proof fn lemma_count_of_slice(
    boards: Seq<u64>,
    lo: int,
    hi: int,
    end: int,
    row: int,
    col: int,
    symbol: int,
)
    requires
        0 <= lo <= hi <= end <= boards.len(),
    ensures
        symbol_count(boards, lo, hi, row, col, symbol) == symbol_count(
            boards.subrange(lo, end),
            0,
            hi - lo,
            row,
            col,
            symbol,
        ),
    decreases hi - lo,
{
    if lo < hi {
        lemma_count_of_slice(boards, lo, hi - 1, end, row, col, symbol);
        assert(boards.subrange(lo, end)[hi - lo - 1] == boards[hi - 1]);
    }
}

impl Clone for BoardStore {
    /// A store of its own for another worker, at the same node.
    fn clone(&self) -> (copy: Self)
        ensures
            copy.states() == self.states(),
            copy.root() == self.root(),
    {
        proof {
            use_type_invariant(self);
        }
        let possible_boards = self.possible_boards.clone();
        let indices = self.indices.clone();
        let states = self.states.clone();
        proof {
            assert(possible_boards@ =~= self.possible_boards@);
            assert(indices@ =~= self.indices@);
            assert(states@ =~= self.states@);
        }
        let copy = BoardStore {
            possible_boards,
            indices,
            groups: self.groups,
            states,
            start: self.start,
        };
        proof {
            assert(copy.root() =~= self.root());
        }
        copy
    }
}

/// The sums of the counts do not decrease.
pub proof fn lemma_offset_grows(counts: Seq<usize>, a: int, b: int)
    requires
        0 <= a <= b,
    ensures
        0 <= offset(counts, a) <= offset(counts, b),
    decreases b,
{
    if a < b {
        lemma_offset_grows(counts, a, b - 1);
    } else if a > 0 {
        lemma_offset_grows(counts, a - 1, a - 1);
    }
}

/// The boards of the first `n` groups are as many as their sizes say.
proof fn lemma_flatten_len(groups: Seq<(Seq<u64>, int)>, counts: Seq<usize>, n: int)
    requires
        0 <= n <= groups.len(),
        counts.len() == groups.len(),
        forall|g: int| 0 <= g < groups.len() ==> (#[trigger] counts[g]) == groups[g].0.len(),
    ensures
        flatten(groups, n).len() == offset(counts, n),
    decreases n,
{
    if n > 0 {
        lemma_flatten_len(groups, counts, n - 1);
        assert(counts[n - 1] == groups[n - 1].0.len());
    }
}

/// The boards of the first `n` groups stand at the beginning of the boards
/// of the first `m`.
proof fn lemma_flatten_prefix(groups: Seq<(Seq<u64>, int)>, n: int, m: int)
    requires
        0 <= n <= m,
    ensures
        flatten(groups, n).len() <= flatten(groups, m).len(),
        flatten(groups, m).take(flatten(groups, n).len() as int) == flatten(groups, n),
    decreases m,
{
    if n < m {
        lemma_flatten_prefix(groups, n, m - 1);
        let shorter = flatten(groups, m - 1);
        let longer = flatten(groups, m);
        let k = flatten(groups, n).len() as int;
        assert(longer.take(k) =~= shorter.take(k));
    } else {
        assert(flatten(groups, m).take(flatten(groups, m).len() as int) =~= flatten(groups, m));
    }
}

/// The group and the place in the group of a board of the first `n` groups.
proof fn lemma_flatten_place(groups: Seq<(Seq<u64>, int)>, n: int, i: int) -> (place: (int, int))
    requires
        0 <= n <= groups.len(),
        0 <= i < flatten(groups, n).len(),
    ensures
        0 <= place.0 < n,
        0 <= place.1 < groups[place.0].0.len(),
        flatten(groups, n)[i] == groups[place.0].0[place.1],
    decreases n,
{
    let before = flatten(groups, n - 1);
    if i < before.len() {
        lemma_flatten_place(groups, n - 1, i)
    } else {
        (n - 1, i - before.len())
    }
}

/// A full grid that agrees with what a state reveals packs to a board that
/// is compatible with the state.
pub proof fn lemma_completion_is_compatible(state: u64, h: [[usize; 5]; 5])
    requires
        state < PACKED_LIMIT,
        extends(start_grid(state), h),
    ensures
        compatible(packed_of(h), state),
{
    lemma_start_upto(state, 25);
    lemma_packed_upto(h, 25);
    let board = packed_of(h);
    assert forall|k: int| 0 <= k < 32 && #[trigger] field(state, k) != 0 implies field(board, k)
        == field(state, k) by {
        if k >= 25 {
            lemma_packed_high_fields(state, k);
        } else {
            let i = 24 - k;
            crate::packed::lemma_field_bound(state, k);
            assert(cell_at(state, i) == field(state, k));
            assert(grid_at(start_grid(state), i) == cell_at(state, i));
            assert(grid_at(h, i) == grid_at(start_grid(state), i));
            assert(cell_at(packed_upto(h, 25), i) == grid_at(h, i));
            crate::packed::lemma_field_bound(board, k);
        }
    }
}

/// What the enumerator finds for a state goes with the store of that state:
/// the counts add up to the number of boards, every board is compatible with
/// the state, and the groups of the store are the groups of the enumerator.
pub proof fn lemma_enumeration_fits_a_root(
    state: u64,
    sr: [usize; 5],
    sc: [usize; 5],
    br: [usize; 5],
    bc: [usize; 5],
    level: int,
    boards: Seq<u64>,
    counts: Seq<usize>,
    sets: Seq<u16>,
)
    requires
        state < PACKED_LIMIT,
        lists_groups(boards, counts, sets, solution_groups(state, sr, sc, br, bc, level)),
    ensures
        fits_a_root(boards, counts, state),
        grouped(boards, counts).len() == solution_groups(state, sr, sc, br, bc, level).len(),
        forall|g: int|
            0 <= g < counts.len() ==> #[trigger] grouped(boards, counts)[g] == solution_groups(
                state,
                sr,
                sc,
                br,
                bc,
                level,
            )[g].0,
{
    let groups = solution_groups(state, sr, sc, br, bc, level);
    let n = groups.len() as int;
    lemma_flatten_len(groups, counts, n);
    assert forall|i: int| 0 <= i < boards.len() implies compatible(#[trigger] boards[i], state) by {
        let (g, j) = lemma_flatten_place(groups, n, i);
        let h = lemma_enumerated_board_is_admissible(state, sr, sc, br, bc, level, g, j);
        lemma_completion_is_compatible(state, h);
    }
    assert forall|g: int| 0 <= g < counts.len() implies #[trigger] grouped(boards, counts)[g]
        == groups[g].0 by {
        lemma_flatten_len(groups, counts, g);
        lemma_flatten_len(groups, counts, g + 1);
        lemma_flatten_prefix(groups, g + 1, n);
        let upto = flatten(groups, g + 1);
        assert(boards.take(upto.len() as int) == upto);
        assert(boards.subrange(offset(counts, g), offset(counts, g + 1)) =~= groups[g].0) by {
            assert forall|j: int| 0 <= j < groups[g].0.len() implies boards[offset(counts, g) + j]
                == groups[g].0[j] by {
                assert(boards.take(upto.len() as int)[offset(counts, g) + j] == upto[offset(
                    counts,
                    g,
                ) + j]);
            }
        }
    }
}

} // verus!
