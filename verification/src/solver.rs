//! Backtracking search over a board, and the external uniqueness oracle.
use vstd::prelude::*;

use crate::board::SudokuBoard;
use crate::board::board_full;
use crate::board::board_wf;
use crate::board::cell;
use crate::board::cell_byte_ok;
use crate::board::cell_char_ok;
use crate::board::decode_cells;
use crate::board::decode_chars;
use crate::board::dead_cell_exists;
use crate::board::extends;
use crate::board::is_completion;
use crate::board::lemma_completion_value_free;
use crate::board::lemma_encode_decode;
use crate::board::lemma_place_free_value;
use crate::board::lemma_set_cells_full;
use crate::board::lemma_set_cells_update;
use crate::board::riddle_ok;
use crate::board::set_count_spec;
use crate::board::unique_completion;
use crate::board::value_free;

verus! {

/// A depth-first solver: it fills the empty cells of its riddle and
/// records the full boards it reaches.
pub struct Solver {
    riddle: SudokuBoard,
    solutions: Vec<SudokuBoard>,
}

impl Solver {
    /// The board under search.
    pub closed spec fn riddle_spec(&self) -> Seq<u8> {
        self.riddle@
    }

    /// The boards recorded as solutions so far.
    pub closed spec fn solutions_spec(&self) -> Seq<Seq<u8>> {
        Seq::new(self.solutions@.len() as nat, |i: int| self.solutions@[i]@)
    }

    pub fn new(riddle: SudokuBoard) -> (r: Self)
        ensures
            r.riddle_spec() == riddle@,
            r.solutions_spec().len() == 0,
    {
        Solver { riddle, solutions: Vec::new() }
    }

    /// Depth-first backtracking over the least-constrained empty cell.
    /// Clears earlier results first. Every board handed back is a
    /// completion of the riddle, the riddle itself is left untouched, and
    /// a board that is already full is handed back as its own single
    /// solution.
    pub fn solve(&mut self) -> (sols: Vec<SudokuBoard>)
        requires
            riddle_ok(old(self).riddle_spec()),
        ensures
            final(self).riddle_spec() == old(self).riddle_spec(),
            forall|k: int|
                0 <= k < sols@.len() ==> is_completion(
                    old(self).riddle_spec(),
                    #[trigger] sols@[k]@,
                ),
            sols@.len() <= 1,
            board_full(old(self).riddle_spec()) ==> sols@.len() == 1 && sols@[0]@ == old(self).riddle_spec(),
            (exists|g: Seq<u8>| is_completion(old(self).riddle_spec(), g)) ==> sols@.len() >= 1,
    {
        self.solutions.clear();
        let n = self.riddle.free_count();
        proof {
            lemma_set_cells_full(self.riddle_spec(), 81);
        }
        self.backtrack(n, Ghost(self.riddle_spec()));
        let sols = self.solutions.clone();
        proof {
            assert forall|k: int| 0 <= k < sols@.len() implies #[trigger] sols@[k]@
                == self.solutions_spec()[k] by {
                assert(vstd::pervasive::cloned::<SudokuBoard>(self.solutions@[k], sols@[k]));
            }
        }
        sols
    }

    /// One branch of the search: tries every free value of the least
    /// constrained cell, recursing with one empty cell fewer, and undoes
    /// its placement before returning. Solutions already recorded stop the
    /// search at once, so at most one board is ever appended; every
    /// recorded board completes `orig`.
    fn backtrack(&mut self, free_cnt: u8, Ghost(orig): Ghost<Seq<u8>>) -> (found: bool)
        requires
            riddle_ok(old(self).riddle_spec()),
            board_wf(orig),
            extends(orig, old(self).riddle_spec()),
            free_cnt as int == 81 - set_count_spec(old(self).riddle_spec()),
            forall|k: int|
                0 <= k < old(self).solutions_spec().len() ==> is_completion(
                    orig,
                    #[trigger] old(self).solutions_spec()[k],
                ),
        ensures
            final(self).riddle_spec() == old(self).riddle_spec(),
            old(self).solutions_spec().len() <= final(self).solutions_spec().len(),
            forall|k: int|
                0 <= k < old(self).solutions_spec().len() ==> #[trigger] final(self).solutions_spec()[k]
                    == old(self).solutions_spec()[k],
            forall|k: int|
                0 <= k < final(self).solutions_spec().len() ==> is_completion(
                    orig,
                    #[trigger] final(self).solutions_spec()[k],
                ),
            old(self).solutions_spec().len() == 0 && free_cnt == 0 ==> final(self).solutions_spec().len()
                == 1 && final(self).solutions_spec()[0] == old(self).riddle_spec(),
            (old(self).solutions_spec().len() > 0 || exists|g: Seq<u8>|
                is_completion(old(self).riddle_spec(), g)) ==> final(self).solutions_spec().len()
                > 0,
            old(self).solutions_spec().len() > 0 ==> final(self).solutions_spec() == old(
                self,
            ).solutions_spec(),
            final(self).solutions_spec().len() <= old(self).solutions_spec().len() + 1,
            found == (final(self).solutions_spec().len() > 0),
        decreases free_cnt,
    {
        if self.solutions.len() > 0 {
            return true;
        }
        if free_cnt == 0 {
            proof {
                lemma_set_cells_full(self.riddle_spec(), 81);
            }
            let copy = self.riddle.clone();
            self.solutions.push(copy);
            return true;
        }
        let least = self.riddle.find_least_free_cell();
        if least.0 == -1 {
            proof {
                lemma_set_cells_full(self.riddle_spec(), 81);
                assert(dead_cell_exists(self.riddle_spec()));
                let (rr, cc) = choose|rr: int, cc: int|
                    0 <= rr < 9 && 0 <= cc < 9 && #[trigger] cell(self.riddle_spec(), rr, cc)
                        == 0 && (forall|v: u8| !value_free(self.riddle_spec(), rr, cc, v));
                assert forall|g: Seq<u8>| !is_completion(self.riddle_spec(), g) by {
                    if is_completion(self.riddle_spec(), g) {
                        lemma_completion_value_free(self.riddle_spec(), rr, cc, g);
                    }
                }
            }
            return false;
        }
        let row = least.0 as usize;
        let col = least.1 as usize;
        let free_nums = self.riddle.free_values(row, col);
        let ghost snapshot = self.riddle_spec();
        let ghost pos = row * 9 + col;
        proof {
            assert forall|a: int| 0 <= a < free_nums@.len() implies value_free(
                snapshot,
                row as int,
                col as int,
                #[trigger] free_nums@[a],
            ) by {
                assert(free_nums@.contains(free_nums@[a]));
            }
            assert(self.riddle_spec().update(pos as int, 0u8) =~= snapshot);
            assert forall|g: Seq<u8>| #[trigger] is_completion(snapshot, g) implies exists|a: int|
                0 <= a < free_nums@.len() && #[trigger] free_nums@[a] == cell(
                    g,
                    row as int,
                    col as int,
                ) by {
                lemma_completion_value_free(snapshot, row as int, col as int, g);
                assert(free_nums@.contains(cell(g, row as int, col as int)));
            }
        }
        let mut found = false;
        let mut idx: usize = 0;
        while idx < free_nums.len()
            invariant
                idx <= free_nums@.len(),
                row < 9,
                col < 9,
                pos == row * 9 + col,
                cell(snapshot, row as int, col as int) == 0,
                forall|a: int|
                    0 <= a < free_nums@.len() ==> value_free(
                        snapshot,
                        row as int,
                        col as int,
                        #[trigger] free_nums@[a],
                    ),
                riddle_ok(snapshot),
                board_wf(orig),
                extends(orig, snapshot),
                free_cnt as int == 81 - set_count_spec(snapshot),
                free_cnt > 0,
                self.riddle_spec().len() == 81,
                self.riddle_spec().update(pos as int, 0u8) == snapshot,
                old(self).solutions_spec().len() <= self.solutions_spec().len(),
                forall|k: int|
                    0 <= k < old(self).solutions_spec().len() ==> #[trigger] self.solutions_spec()[k]
                        == old(self).solutions_spec()[k],
                forall|k: int|
                    0 <= k < self.solutions_spec().len() ==> is_completion(
                        orig,
                        #[trigger] self.solutions_spec()[k],
                    ),
                self.solutions_spec().len() > 0 || (forall|g: Seq<u8>|
                    #[trigger] is_completion(snapshot, g) ==> exists|a: int|
                        idx <= a < free_nums@.len() && #[trigger] free_nums@[a] == cell(
                            g,
                            row as int,
                            col as int,
                        )),
                old(self).solutions_spec().len() == 0,
                self.solutions_spec().len() <= 1,
                found == (self.solutions_spec().len() > 0),
            decreases free_nums@.len() - idx,
        {
            let v = free_nums[idx];
            proof {
                assert(free_nums@.contains(free_nums@[idx as int]));
                lemma_place_free_value(snapshot, row as int, col as int, v);
                lemma_set_cells_update(snapshot, pos as int, v, 81);
                assert(self.riddle_spec().update(pos as int, v) =~= snapshot.update(
                    pos as int,
                    v,
                ));
            }
            self.riddle.set(row, col, v);
            proof {
                assert(self.riddle_spec() == snapshot.update(pos as int, v));
                assert(extends(orig, self.riddle_spec())) by {
                    assert(orig[pos as int] == 0 || snapshot[pos as int] == orig[pos as int]);
                }
            }
            let ghost before_board = self.riddle_spec();
            let sub_found = self.backtrack(free_cnt - 1, Ghost(orig));
            if sub_found {
                found = true;
            }
            proof {
                assert(self.riddle_spec().update(pos as int, 0u8) =~= snapshot);
                if self.solutions_spec().len() == 0 {
                    assert forall|g: Seq<u8>| #[trigger] is_completion(snapshot, g) implies
                        exists|a: int|
                            idx + 1 <= a < free_nums@.len() && #[trigger] free_nums@[a] == cell(
                                g,
                                row as int,
                                col as int,
                            ) by {
                        let a = choose|a: int|
                            idx <= a < free_nums@.len() && #[trigger] free_nums@[a] == cell(
                                g,
                                row as int,
                                col as int,
                            );
                        if a == idx {
                            assert(is_completion(before_board, g)) by {
                                assert forall|i: int|
                                    0 <= i < 81 && before_board[i] != 0 implies g[i]
                                    == before_board[i] by {
                                    if i != pos {
                                        assert(before_board[i] == snapshot[i]);
                                    } else {
                                        assert(before_board[i] == v);
                                        assert(cell(g, row as int, col as int) == g[pos as int]);
                                    }
                                }
                            }
                            assert(false);
                        }
                    }
                }
            }
            idx += 1;
        }
        self.riddle.set(row, col, 0);
        proof {
            assert(self.riddle_spec() =~= snapshot);
        }
        found
    }

    /// Solves through the line-format codec and the external solver:
    /// encodes the board, asks for its unique solution, and decodes the
    /// answer. Exactly one board comes back when the riddle has one and
    /// only one completion; the solver's own board is then replaced by it.
    pub fn alt_solve(&mut self) -> (sols: Vec<SudokuBoard>)
        requires
            riddle_ok(old(self).riddle_spec()),
        ensures
            sols@.len() <= 1,
            (sols@.len() == 1) <==> exists|g: Seq<u8>|
                unique_completion(old(self).riddle_spec(), g),
            sols@.len() == 1 ==> unique_completion(old(self).riddle_spec(), sols@[0]@)
                && final(self).riddle_spec() == sols@[0]@,
            sols@.len() == 0 ==> final(self).riddle_spec() == old(self).riddle_spec(),
    {
        self.solutions.clear();
        proof {
            lemma_encode_decode(self.riddle_spec());
        }
        let line = self.riddle.to_line_format();
        match oracle_solution(line.as_str()) {
            Some(sol) => {
                match self.riddle.from_line_format(sol.as_slice()) {
                    Ok(()) => {
                        let copy = self.riddle.clone();
                        self.solutions.push(copy);
                    },
                    Err(()) => {
                        proof {
                            assert(false);
                        }
                    },
                }
            },
            None => {},
        }
        let sols = self.solutions.clone();
        proof {
            assert forall|k: int| 0 <= k < sols@.len() implies #[trigger] sols@[k]@
                == self.solutions@[k]@ by {
                assert(vstd::pervasive::cloned::<SudokuBoard>(self.solutions@[k], sols@[k]));
            }
        }
        sols
    }
}

/// Relies on sudoku::Sudoku::from_str_line, which parses an 81-character
/// line of digits, dots and underscores, and on sudoku::Sudoku::solution,
/// which returns the solved grid in the same line format exactly when the
/// puzzle has one and only one completion.
#[verifier::external_body]
fn oracle_solution(line: &str) -> (r: Option<Vec<u8>>)
    requires
        line@.len() == 81,
        forall|i: int| 0 <= i < 81 ==> cell_char_ok(#[trigger] line@[i]),
    ensures
        match r {
            Some(sol) => sol@.len() == 81 && (forall|i: int|
                0 <= i < 81 ==> cell_byte_ok(#[trigger] sol@[i])) && unique_completion(
                decode_chars(line@),
                decode_cells(sol@),
            ),
            None => forall|g: Seq<u8>| !unique_completion(decode_chars(line@), g),
        },
{
    let parsed = sudoku::Sudoku::from_str_line(line).unwrap();
    match parsed.solution() {
        Some(sol) => Some(sol.to_str_line().as_bytes().to_vec()),
        None => None,
    }
}

} // verus!
