//! Full-grid generation and riddle carving.
use vstd::prelude::*;

use rand::Rng;
use rand::seq::SliceRandom;

use crate::board::SudokuBoard;
use crate::board::board_full;
use crate::board::board_valid;
use crate::board::board_wf;
use crate::board::block_base;
use crate::board::block_ok;
use crate::board::cell;
use crate::board::col_ok;
use crate::board::empty_board;
use crate::board::extends;
use crate::board::in_block;
use crate::board::in_col;
use crate::board::in_row;
use crate::board::is_completion;
use crate::board::lemma_clear_cell;
use crate::board::lemma_flat_injective;
use crate::board::lemma_full_cell_blocked;
use crate::board::lemma_set_cells_full;
use crate::board::lemma_set_cells_update;
use crate::board::riddle_ok;
use crate::board::row_ok;
use crate::board::set_count_spec;
use crate::board::unique_completion;
use crate::board::value_free;
use crate::solver::Solver;

verus! {

/// The four difficulty tiers, each a number of cells to carve out of the
/// full grid.
#[allow(non_camel_case_types)]
pub enum Difficulty {
    EASY,
    MEDIUM,
    HARD,
    EXPERT,
}

/// How many cells each difficulty tier removes.
pub open spec fn removal_quota(d: Difficulty) -> u8 {
    match d {
        Difficulty::EASY => 35,
        Difficulty::MEDIUM => 45,
        Difficulty::HARD => 50,
        Difficulty::EXPERT => 55,
    }
}

impl Difficulty {
    /// The number of cells this tier removes from a full grid.
    pub fn cells_to_remove(&self) -> (r: u8)
        ensures
            r == removal_quota(*self),
    {
        match self {
            Difficulty::EASY => 35,
            Difficulty::MEDIUM => 45,
            Difficulty::HARD => 50,
            Difficulty::EXPERT => 55,
        }
    }
}

/// The outcome of one branch of the full-grid search.
#[derive(Debug, Clone, PartialEq, Eq, Structural)]
pub enum BacktrackingResult {
    /// A result was found, abort.
    FOUND,
    /// No result found, continue the search.
    CONTINUE,
    /// The board holds a contradiction that cannot be solved.
    CONTRADICTION,
}

/// Builds full grids and carves riddles out of them.
pub struct Creator {
    pub riddle: SudokuBoard,
}

impl Creator {
    pub fn new() -> (r: Self)
        ensures
            r.riddle@ == empty_board(),
    {
        Creator { riddle: SudokuBoard::new() }
    }

    /// Fills the 3x3 block whose upper-left cell is (`row`, `col`) with a
    /// random permutation of the digits 1..=9; every other cell keeps its
    /// value.
    pub fn fill_block(&mut self, row: usize, col: usize)
        requires
            row < 9,
            col < 9,
            row % 3 == 0,
            col % 3 == 0,
            board_wf(old(self).riddle@),
        ensures
            board_wf(final(self).riddle@),
            forall|r2: int, c2: int|
                row <= r2 < row + 3 && col <= c2 < col + 3 ==> 1 <= #[trigger] cell(
                    final(self).riddle@,
                    r2,
                    c2,
                ) <= 9,
            forall|r1: int, c1: int, r2: int, c2: int|
                row <= r1 < row + 3 && col <= c1 < col + 3 && row <= r2 < row + 3 && col <= c2
                    < col + 3 && (r1, c1) != (r2, c2) ==> #[trigger] cell(
                    final(self).riddle@,
                    r1,
                    c1,
                ) != #[trigger] cell(final(self).riddle@, r2, c2),
            forall|r2: int, c2: int|
                0 <= r2 < 9 && 0 <= c2 < 9 && !(row <= r2 < row + 3 && col <= c2 < col + 3)
                    ==> #[trigger] cell(final(self).riddle@, r2, c2) == cell(
                    old(self).riddle@,
                    r2,
                    c2,
                ),
    {
        let numbers = self.random_numbers();
        let ghost start = self.riddle@;
        let mut i: usize = 0;
        while i < 3
            invariant
                row < 9,
                col < 9,
                row % 3 == 0,
                col % 3 == 0,
                i <= 3,
                numbers@.len() == 9,
                forall|a: int| 0 <= a < 9 ==> 1 <= #[trigger] numbers@[a] <= 9,
                forall|a: int, b: int| 0 <= a < b < 9 ==> numbers@[a] != numbers@[b],
                board_wf(self.riddle@),
                forall|r2: int, c2: int|
                    row <= r2 < row + 3 && col <= c2 < col + 3 && 3 * (r2 - row) + (c2 - col) < 3
                        * i ==> #[trigger] cell(self.riddle@, r2, c2) == numbers@[3 * (r2 - row) + (
                    c2 - col)],
                forall|r2: int, c2: int|
                    0 <= r2 < 9 && 0 <= c2 < 9 && !(row <= r2 < row + 3 && col <= c2 < col + 3 && 3
                        * (r2 - row) + (c2 - col) < 3 * i) ==> #[trigger] cell(
                        self.riddle@,
                        r2,
                        c2,
                    ) == cell(start, r2, c2),
            decreases 3 - i,
        {
            let mut j: usize = 0;
            while j < 3
                invariant
                    row < 9,
                    col < 9,
                    row % 3 == 0,
                    col % 3 == 0,
                    i < 3,
                    j <= 3,
                    numbers@.len() == 9,
                    forall|a: int| 0 <= a < 9 ==> 1 <= #[trigger] numbers@[a] <= 9,
                    forall|a: int, b: int| 0 <= a < b < 9 ==> numbers@[a] != numbers@[b],
                    board_wf(self.riddle@),
                    forall|r2: int, c2: int|
                        row <= r2 < row + 3 && col <= c2 < col + 3 && 3 * (r2 - row) + (c2 - col)
                            < 3 * i + j ==> #[trigger] cell(self.riddle@, r2, c2) == numbers@[3 * (
                        r2 - row) + (c2 - col)],
                    forall|r2: int, c2: int|
                        0 <= r2 < 9 && 0 <= c2 < 9 && !(row <= r2 < row + 3 && col <= c2 < col + 3
                            && 3 * (r2 - row) + (c2 - col) < 3 * i + j) ==> #[trigger] cell(
                            self.riddle@,
                            r2,
                            c2,
                        ) == cell(start, r2, c2),
                decreases 3 - j,
            {
                let v = numbers[3 * i + j];
                let ghost before = self.riddle@;
                self.riddle.set(row + i, col + j, v);
                proof {
                    assert forall|r2: int, c2: int| 0 <= r2 < 9 && 0 <= c2 < 9 implies #[trigger] cell(
                        self.riddle@,
                        r2,
                        c2,
                    ) == if r2 == row + i && c2 == col + j {
                        v
                    } else {
                        cell(before, r2, c2)
                    } by {
                        lemma_flat_injective(row + i, col + j, r2, c2);
                    }
                }
                j += 1;
            }
            i += 1;
        }
        proof {
            assert forall|r1: int, c1: int, r2: int, c2: int|
                row <= r1 < row + 3 && col <= c1 < col + 3 && row <= r2 < row + 3 && col <= c2 < col
                    + 3 && (r1, c1) != (r2, c2) implies #[trigger] cell(self.riddle@, r1, c1)
                != #[trigger] cell(self.riddle@, r2, c2) by {
                let m1 = 3 * (r1 - row) + (c1 - col);
                let m2 = 3 * (r2 - row) + (c2 - col);
                assert(0 <= m1 < 9 && 0 <= m2 < 9 && m1 != m2);
                if m1 < m2 {
                    assert(numbers@[m1] != numbers@[m2]);
                } else {
                    assert(numbers@[m2] != numbers@[m1]);
                }
            }
        }
    }

    /// The digits 1..=9 in a random order.
    fn random_numbers(&mut self) -> (r: Vec<u8>)
        ensures
            final(self).riddle@ == old(self).riddle@,
            r@.len() == 9,
            forall|a: int| 0 <= a < 9 ==> 1 <= #[trigger] r@[a] <= 9,
            forall|a: int, b: int| 0 <= a < b < 9 ==> r@[a] != r@[b],
    {
        let mut vals: Vec<u8> = Vec::new();
        let mut d: u8 = 1;
        while d <= 9
            invariant
                1 <= d <= 10,
                vals@.len() == d - 1,
                forall|a: int| 0 <= a < d - 1 ==> #[trigger] vals@[a] == a + 1,
            decreases 10 - d,
        {
            vals.push(d);
            d += 1;
        }
        let ghost base = vals@;
        shuffle_values(&mut vals);
        proof {
            broadcast use vstd::seq_lib::group_to_multiset_ensures;

            assert(base.no_duplicates());
            assert(vals@.len() == 9) by {
                assert(vals@.to_multiset().len() == base.to_multiset().len());
            }
            assert forall|a: int| 0 <= a < 9 implies 1 <= #[trigger] vals@[a] <= 9 by {
                assert(vals@.contains(vals@[a]));
                assert(vals@.to_multiset().count(vals@[a]) > 0);
                assert(base.to_multiset().count(vals@[a]) > 0);
                assert(base.contains(vals@[a]));
                let k = choose|k: int| 0 <= k < 9 && base[k] == vals@[a];
            }
            base.lemma_multiset_has_no_duplicates();
            assert forall|x: u8| vals@.to_multiset().contains(x) implies vals@.to_multiset().count(
                x,
            ) == 1 by {
                assert(base.to_multiset().contains(x));
            }
            vals@.lemma_multiset_has_no_duplicates_conv();
        }
        vals
    }

    /// One branch of the full-grid search: places each free value of the
    /// least constrained empty cell in turn and recurses with one empty
    /// cell fewer. A found grid is full, valid and kept in place; any
    /// other outcome leaves the board as it was.
    fn backtrack(&mut self, remaining: u8) -> (res: BacktrackingResult)
        requires
            riddle_ok(old(self).riddle@),
            remaining as int == 81 - set_count_spec(old(self).riddle@),
        ensures
            riddle_ok(final(self).riddle@),
            res == BacktrackingResult::FOUND ==> board_valid(final(self).riddle@) && extends(
                old(self).riddle@,
                final(self).riddle@,
            ),
            res != BacktrackingResult::FOUND ==> final(self).riddle@ == old(self).riddle@,
        decreases remaining,
    {
        if remaining == 0 {
            proof {
                lemma_set_cells_full(self.riddle@, 81);
            }
            return BacktrackingResult::FOUND;
        }
        let least = self.riddle.find_least_free_cell();
        if least.0 == -1 {
            return BacktrackingResult::CONTRADICTION;
        }
        let row = least.0 as usize;
        let col = least.1 as usize;
        let free_nums = self.riddle.free_values(row, col);
        let ghost snapshot = self.riddle@;
        let ghost pos = row * 9 + col;
        proof {
            assert forall|a: int| 0 <= a < free_nums@.len() implies value_free(
                snapshot,
                row as int,
                col as int,
                #[trigger] free_nums@[a],
            ) by {
                assert(free_nums@.contains(free_nums@[a]));
            }
            assert(self.riddle@.update(pos as int, 0u8) =~= snapshot);
        }
        let mut idx: usize = 0;
        while idx < free_nums.len()
            invariant
                idx <= free_nums@.len(),
                row < 9,
                col < 9,
                pos == row * 9 + col,
                cell(snapshot, row as int, col as int) == 0,
                forall|a: int|
                    0 <= a < free_nums@.len() ==> value_free(
                        snapshot,
                        row as int,
                        col as int,
                        #[trigger] free_nums@[a],
                    ),
                riddle_ok(snapshot),
                snapshot == old(self).riddle@,
                remaining as int == 81 - set_count_spec(snapshot),
                remaining > 0,
                self.riddle@.len() == 81,
                self.riddle@.update(pos as int, 0u8) == snapshot,
            decreases free_nums@.len() - idx,
        {
            let v = free_nums[idx];
            proof {
                crate::board::lemma_place_free_value(snapshot, row as int, col as int, v);
                crate::board::lemma_set_cells_update(snapshot, pos as int, v, 81);
                assert(self.riddle@.update(pos as int, v) =~= snapshot.update(pos as int, v));
            }
            self.riddle.set(row, col, v);
            let sub_result = self.backtrack(remaining - 1);
            if sub_result == BacktrackingResult::FOUND {
                proof {
                    assert(extends(snapshot, snapshot.update(pos as int, v)));
                }
                return sub_result;
            }
            proof {
                assert(self.riddle@.update(pos as int, 0u8) =~= snapshot);
            }
            idx += 1;
        }
        self.riddle.set(row, col, 0);
        proof {
            assert(self.riddle@ =~= snapshot);
        }
        BacktrackingResult::CONTINUE
    }

    /// Generates a full, rule-valid grid: seeds the three diagonal blocks
    /// with independent random permutations (they can never collide) and
    /// completes the remaining cells by backtracking, retrying with fresh
    /// seeds until a grid is found or the retry budget is spent. `None`
    /// comes back only when every retry dead-ended; the board is then
    /// left cleared.
    pub fn create_full(&mut self) -> (r: Option<SudokuBoard>)
        ensures
            match r {
                Some(b) => board_valid(b@) && final(self).riddle@ == b@,
                None => final(self).riddle@ == empty_board(),
            },
    {
        let mut attempt: u32 = 0;
        while attempt < 1000
            invariant
                attempt <= 1000,
            decreases 1000 - attempt,
        {
            self.riddle.clear();
            let mut bi: usize = 0;
            while bi < 3
                invariant
                    bi <= 3,
                    board_wf(self.riddle@),
                    forall|r2: int, c2: int|
                        0 <= r2 < 9 && 0 <= c2 < 9 && !(r2 / 3 == c2 / 3 && r2 / 3 < bi)
                            ==> #[trigger] cell(self.riddle@, r2, c2) == 0,
                    forall|r1: int, c1: int, r2: int, c2: int|
                        0 <= r1 < 9 && 0 <= c1 < 9 && 0 <= r2 < 9 && 0 <= c2 < 9 && r1 / 3 == c1
                            / 3 && r2 / 3 == c2 / 3 && r1 / 3 == r2 / 3 && (r1, c1) != (r2, c2)
                            && #[trigger] cell(self.riddle@, r1, c1) != 0 ==> cell(
                            self.riddle@,
                            r1,
                            c1,
                        ) != #[trigger] cell(self.riddle@, r2, c2),
                decreases 3 - bi,
            {
                let ghost before = self.riddle@;
                self.fill_block(3 * bi, 3 * bi);
                proof {
                    assert forall|r2: int, c2: int|
                        0 <= r2 < 9 && 0 <= c2 < 9 && !(r2 / 3 == c2 / 3 && r2 / 3 < bi + 1) implies #[trigger] cell(
                        self.riddle@,
                        r2,
                        c2,
                    ) == 0 by {
                        assert(!(3 * bi <= r2 < 3 * bi + 3 && 3 * bi <= c2 < 3 * bi + 3));
                        assert(cell(self.riddle@, r2, c2) == cell(before, r2, c2));
                    }
                }
                bi += 1;
            }
            proof {
                lemma_seeded_ok(self.riddle@);
            }
            let n = self.riddle.free_count();
            let result = self.backtrack(n);
            if result == BacktrackingResult::FOUND {
                let b = self.riddle.clone();
                return Some(b);
            }
            attempt += 1;
        }
        self.riddle.clear();
        None
    }

    /// Whether the digit at (`row`, `col`) may be removed without making
    /// the riddle ambiguous: trivially yes when the cell has no free value
    /// even now, otherwise the external oracle must find exactly one
    /// completion of the board with that cell emptied. The board is handed
    /// back exactly as it came, whatever the outcome.
    pub fn can_clear(&self, riddle: &mut SudokuBoard, row: usize, col: usize) -> (r: bool)
        requires
            row < 9,
            col < 9,
            riddle_ok(old(riddle)@),
        ensures
            final(riddle)@ == old(riddle)@,
            r == ((forall|v: u8| !(#[trigger] value_free(old(riddle)@, row as int, col as int, v))) || (
            exists|g: Seq<u8>|
                #[trigger] unique_completion(old(riddle)@.update(row * 9 + col, 0u8), g))),
    {
        let free_nums = riddle.free_values(row, col);
        if free_nums.len() == 0 {
            proof {
                assert forall|v: u8| !value_free(old(riddle)@, row as int, col as int, v) by {
                    if value_free(old(riddle)@, row as int, col as int, v) {
                        assert(free_nums@.contains(v));
                    }
                }
            }
            return true;
        }
        let old_val = riddle.get(row, col);
        riddle.set(row, col, 0);
        proof {
            lemma_clear_cell(old(riddle)@, row as int, col as int);
        }
        let mut solver = Solver::new(riddle.clone());
        let solutions = solver.alt_solve();
        let result = solutions.len() == 1;
        riddle.set(row, col, old_val);
        proof {
            assert(final(riddle)@ =~= old(riddle)@);
            assert(free_nums@.contains(free_nums@[0]));
        }
        result
    }

    /// Carves a riddle out of a full grid: removes up to the difficulty's
    /// quota of cells — and always at least one, since the first probed
    /// cell of a full grid is trivially clearable — first at randomly
    /// drawn positions under a patience bound, then in a row-major sweep,
    /// clearing a cell only where the riddle keeps exactly one completion.
    /// The carved riddle has one and only one solution: the very grid it
    /// was carved from.
    pub fn create_riddle(&mut self, full: SudokuBoard, difficulty: Difficulty) -> (r: SudokuBoard)
        requires
            board_valid(full@),
        ensures
            final(self).riddle@ == old(self).riddle@,
            extends(r@, full@),
            unique_completion(r@, full@),
            set_count_spec(r@) >= 81 - removal_quota(difficulty),
            set_count_spec(r@) < 81,
    {
        let mut to_remove = difficulty.cells_to_remove();
        let mut riddle = SudokuBoard::new();
        let vals = full.get_all();
        proof {
            assert forall|i: int, j: int| 0 <= i < 9 && 0 <= j < 9 implies vals@[i]@[j] <= 9 by {
                assert(vals@[i]@[j] == cell(full@, i, j));
                assert(0 <= i * 9 + j < 81);
            }
        }
        riddle.set_all(vals);
        proof {
            assert forall|k: int| 0 <= k < 81 implies riddle@[k] == full@[k] by {
                let i = k / 9;
                let j = k % 9;
                assert(0 <= i < 9 && 0 <= j < 9 && k == i * 9 + j);
                assert(cell(riddle@, i, j) == vals@[i]@[j]);
                assert(vals@[i]@[j] == cell(full@, i, j));
            }
            assert(riddle@ =~= full@);
            lemma_self_unique(full@);
            lemma_set_cells_full(riddle@, 81);
        }
        let mut random_clear_count: u8 = 0;
        let mut attempts: u32 = 0;
        while attempts < 1000 && random_clear_count < 16 && to_remove > 0
            invariant
                riddle_ok(riddle@),
                extends(riddle@, full@),
                unique_completion(riddle@, full@),
                board_valid(full@),
                to_remove <= removal_quota(difficulty),
                set_count_spec(riddle@) == 81 - removal_quota(difficulty) + to_remove,
                to_remove == removal_quota(difficulty) ==> board_full(riddle@),
                attempts != 0 ==> to_remove < removal_quota(difficulty),
                random_clear_count as int <= attempts as int,
            decreases 1000 - attempts,
        {
            attempts += 1;
            let col = random_index(9);
            let row = random_index(9);
            if riddle.get(row, col) != 0 {
                let ghost before = riddle@;
                if self.can_clear(&mut riddle, row, col) {
                    proof {
                        lemma_carve_step(before, full@, row as int, col as int);
                        lemma_clear_cell(before, row as int, col as int);
                        lemma_set_cells_update(before, row * 9 + col, 0u8, 81);
                    }
                    riddle.set(row, col, 0);
                    to_remove -= 1;
                } else {
                    proof {
                        if to_remove == removal_quota(difficulty) {
                            lemma_full_cell_blocked(before, row as int, col as int);
                        }
                    }
                    random_clear_count += 1;
                }
            } else {
                proof {
                    if to_remove == removal_quota(difficulty) {
                        assert(riddle@[row * 9 + col] != 0);
                    }
                }
            }
        }
        proof {
            assert(removal_quota(difficulty) >= 35);
        }
        let mut row: usize = 0;
        while row < 9
            invariant
                row <= 9,
                riddle_ok(riddle@),
                extends(riddle@, full@),
                unique_completion(riddle@, full@),
                board_valid(full@),
                to_remove < removal_quota(difficulty),
                set_count_spec(riddle@) == 81 - removal_quota(difficulty) + to_remove,
            decreases 9 - row,
        {
            let mut col: usize = 0;
            while col < 9
                invariant
                    row < 9,
                    col <= 9,
                    riddle_ok(riddle@),
                    extends(riddle@, full@),
                    unique_completion(riddle@, full@),
                    board_valid(full@),
                    to_remove < removal_quota(difficulty),
                    set_count_spec(riddle@) == 81 - removal_quota(difficulty) + to_remove,
                decreases 9 - col,
            {
                if to_remove > 0 && riddle.get(row, col) != 0 {
                    let ghost before = riddle@;
                    if self.can_clear(&mut riddle, row, col) {
                        proof {
                            lemma_carve_step(before, full@, row as int, col as int);
                            lemma_clear_cell(before, row as int, col as int);
                            lemma_set_cells_update(before, row * 9 + col, 0u8, 81);
                        }
                        riddle.set(row, col, 0);
                        to_remove -= 1;
                    }
                }
                col += 1;
            }
            row += 1;
        }
        riddle
    }
}

/// Relies on rand::Rng::gen_range, which returns a value inside the given
/// (non-empty) range, drawn from the thread-local generator.
#[verifier::external_body]
fn random_index(bound: usize) -> (r: usize)
    requires
        bound > 0,
    ensures
        r < bound,
{
    rand::thread_rng().gen_range(0..bound)
}

/// Relies on rand::seq::SliceRandom::shuffle, which reorders the elements
/// in place and neither adds nor removes any.
#[verifier::external_body]
fn shuffle_values(values: &mut Vec<u8>)
    ensures
        final(values)@.to_multiset() == old(values)@.to_multiset(),
{
    values.shuffle(&mut rand::thread_rng());
}

/// A board whose only digits stand in the three diagonal blocks, each
/// block free of duplicates, breaks no rule: cells of different diagonal
/// blocks never share a row, a column or a block.
proof fn lemma_seeded_ok(s: Seq<u8>)
    requires
        board_wf(s),
        forall|r2: int, c2: int|
            0 <= r2 < 9 && 0 <= c2 < 9 && r2 / 3 != c2 / 3 ==> #[trigger] cell(s, r2, c2) == 0,
        forall|r1: int, c1: int, r2: int, c2: int|
            0 <= r1 < 9 && 0 <= c1 < 9 && 0 <= r2 < 9 && 0 <= c2 < 9 && r1 / 3 == c1 / 3 && r2 / 3
                == c2 / 3 && r1 / 3 == r2 / 3 && (r1, c1) != (r2, c2) && #[trigger] cell(s, r1, c1)
                != 0 ==> cell(s, r1, c1) != #[trigger] cell(s, r2, c2),
    ensures
        riddle_ok(s),
{
    assert forall|r: int| 0 <= r < 9 implies row_ok(s, r) by {
        assert forall|c1: int, c2: int|
            0 <= c1 < 9 && 0 <= c2 < 9 && c1 != c2 && #[trigger] cell(s, r, c1) != 0 implies cell(
            s,
            r,
            c1,
        ) != #[trigger] cell(s, r, c2) by {
            assert(r / 3 == c1 / 3);
            if cell(s, r, c2) != 0 {
                assert(r / 3 == c2 / 3);
            }
        }
    }
    assert forall|c: int| 0 <= c < 9 implies col_ok(s, c) by {
        assert forall|r1: int, r2: int|
            0 <= r1 < 9 && 0 <= r2 < 9 && r1 != r2 && #[trigger] cell(s, r1, c) != 0 implies cell(
            s,
            r1,
            c,
        ) != #[trigger] cell(s, r2, c) by {
            assert(r1 / 3 == c / 3);
            if cell(s, r2, c) != 0 {
                assert(r2 / 3 == c / 3);
            }
        }
    }
    assert forall|br: int, bc: int| 0 <= br < 3 && 0 <= bc < 3 implies block_ok(s, br, bc) by {
        assert forall|r1: int, c1: int, r2: int, c2: int|
            0 <= r1 < 9 && 0 <= c1 < 9 && 0 <= r2 < 9 && 0 <= c2 < 9 && r1 / 3 == br && c1 / 3
                == bc && r2 / 3 == br && c2 / 3 == bc && (r1, c1) != (r2, c2) && #[trigger] cell(
            s,
            r1,
            c1,
        ) != 0 implies cell(s, r1, c1) != #[trigger] cell(s, r2, c2) by {
            assert(r1 / 3 == c1 / 3);
        }
    }
}

/// A full, valid grid is the one and only completion of itself.
proof fn lemma_self_unique(full: Seq<u8>)
    requires
        board_valid(full),
    ensures
        unique_completion(full, full),
{
    assert forall|g: Seq<u8>| is_completion(full, g) implies g == full by {
        assert forall|i: int| 0 <= i < 81 implies g[i] == full[i] by {
            assert(full[i] != 0);
        }
        assert(g =~= full);
    }
}

/// One carving step keeps the full grid the only completion: a cell may
/// be emptied when the oracle still finds exactly one completion, or when
/// the cell has no free value at all, so that only its own digit could
/// ever stand there again.
proof fn lemma_carve_step(riddle: Seq<u8>, full: Seq<u8>, row: int, col: int)
    requires
        riddle_ok(riddle),
        unique_completion(riddle, full),
        0 <= row < 9,
        0 <= col < 9,
        cell(riddle, row, col) != 0,
        (forall|v: u8| !(#[trigger] value_free(riddle, row, col, v))) || (exists|g: Seq<u8>|
            #[trigger] unique_completion(riddle.update(row * 9 + col, 0u8), g)),
    ensures
        unique_completion(riddle.update(row * 9 + col, 0u8), full),
{
    let pos = row * 9 + col;
    let cleared = riddle.update(pos, 0u8);
    let v0 = cell(riddle, row, col);
    assert(is_completion(cleared, full)) by {
        assert forall|i: int| 0 <= i < 81 && cleared[i] != 0 implies full[i] == cleared[i] by {
            assert(riddle[i] == cleared[i]);
        }
    }
    if exists|g: Seq<u8>| unique_completion(cleared, g) {
        let g = choose|g: Seq<u8>| unique_completion(cleared, g);
        assert(full == g);
    } else {
        assert(forall|v: u8| !value_free(riddle, row, col, v));
        assert forall|h: Seq<u8>| is_completion(cleared, h) implies h == full by {
            let w = cell(h, row, col);
            assert(w == h[pos]);
            assert(w != 0 && w <= 9);
            if w != v0 {
                assert(!value_free(riddle, row, col, w));
                assert(1 <= w <= 9);
                if in_row(riddle, row, w) {
                    let c2 = choose|c2: int|
                        0 <= c2 < 9 && #[trigger] cell(riddle, row, c2) == w;
                    assert(c2 != col);
                    lemma_flat_injective(row, col, row, c2);
                    assert(cleared[row * 9 + c2] == w);
                    assert(cell(h, row, c2) == w);
                    assert(row_ok(h, row));
                    assert(false);
                } else if in_col(riddle, col, w) {
                    let r2 = choose|r2: int|
                        0 <= r2 < 9 && #[trigger] cell(riddle, r2, col) == w;
                    assert(r2 != row);
                    lemma_flat_injective(row, col, r2, col);
                    assert(cleared[r2 * 9 + col] == w);
                    assert(cell(h, r2, col) == w);
                    assert(col_ok(h, col));
                    assert(false);
                } else {
                    assert(in_block(riddle, row, col, w));
                    let (r2, c2) = choose|r2: int, c2: int|
                        0 <= r2 < 9 && 0 <= c2 < 9 && block_base(r2) == block_base(row)
                            && block_base(c2) == block_base(col) && #[trigger] cell(riddle, r2, c2)
                            == w;
                    assert((r2, c2) != (row, col));
                    lemma_flat_injective(row, col, r2, c2);
                    assert(cleared[r2 * 9 + c2] == w);
                    assert(cell(h, r2, c2) == w);
                    assert(r2 / 3 == row / 3 && c2 / 3 == col / 3);
                    assert(block_ok(h, row / 3, col / 3));
                    assert(false);
                }
            }
            assert(w == v0);
            assert forall|i: int| 0 <= i < 81 && riddle[i] != 0 implies h[i] == riddle[i] by {
                if i != pos {
                    assert(cleared[i] == riddle[i]);
                }
            }
            assert(is_completion(riddle, h));
        }
    }
}

} // verus!
