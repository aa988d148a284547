//! The 9x9 grid: cell access, rule checks, free-value computation and the
//! line-format codec.
use vstd::prelude::*;

verus! {

/// A cell holds 0 for "empty" or a digit 1..=9.
pub struct SudokuBoard {
    ans: [[u8; 9]; 9],
}

/// The board all cells of which are empty.
pub open spec fn empty_board() -> Seq<u8> {
    Seq::new(81, |i: int| 0u8)
}

/// The cell of `s` in row `r`, column `c`, under the row-major layout.
pub open spec fn cell(s: Seq<u8>, r: int, c: int) -> u8 {
    s[r * 9 + c]
}

/// Every board handed around by this crate: 81 cells, each 0..=9.
pub open spec fn board_wf(s: Seq<u8>) -> bool {
    s.len() == 81 && forall|i: int| 0 <= i < 81 ==> s[i] <= 9
}

/// `v` stands somewhere in row `r`.
pub open spec fn in_row(s: Seq<u8>, r: int, v: u8) -> bool {
    exists|c: int| 0 <= c < 9 && #[trigger] cell(s, r, c) == v
}

/// `v` stands somewhere in column `c`.
pub open spec fn in_col(s: Seq<u8>, c: int, v: u8) -> bool {
    exists|r: int| 0 <= r < 9 && #[trigger] cell(s, r, c) == v
}

/// The first row or column of the 3x3 block that `i` falls in.
pub open spec fn block_base(i: int) -> int {
    i - i % 3
}

/// `v` stands somewhere in the 3x3 block around row `r`, column `c`.
pub open spec fn in_block(s: Seq<u8>, r: int, c: int, v: u8) -> bool {
    exists|r2: int, c2: int|
        0 <= r2 < 9 && 0 <= c2 < 9 && block_base(r2) == block_base(r) && block_base(c2)
            == block_base(c) && #[trigger] cell(s, r2, c2) == v
}

/// The digit `v` may still be placed at row `r`, column `c`: it is a digit
/// and stands nowhere in the cell's row, column or block.
pub open spec fn value_free(s: Seq<u8>, r: int, c: int, v: u8) -> bool {
    1 <= v <= 9 && !in_row(s, r, v) && !in_col(s, c, v) && !in_block(s, r, c, v)
}

/// No digit stands twice in row `r` (empty cells excepted).
pub open spec fn row_ok(s: Seq<u8>, r: int) -> bool {
    forall|c1: int, c2: int|
        0 <= c1 < 9 && 0 <= c2 < 9 && c1 != c2 && #[trigger] cell(s, r, c1) != 0 ==> cell(s, r, c1)
            != #[trigger] cell(s, r, c2)
}

/// No digit stands twice in column `c` (empty cells excepted).
pub open spec fn col_ok(s: Seq<u8>, c: int) -> bool {
    forall|r1: int, r2: int|
        0 <= r1 < 9 && 0 <= r2 < 9 && r1 != r2 && #[trigger] cell(s, r1, c) != 0 ==> cell(s, r1, c)
            != #[trigger] cell(s, r2, c)
}

/// No digit stands twice in the block whose upper-left cell is
/// row `3 * br`, column `3 * bc` (empty cells excepted).
pub open spec fn block_ok(s: Seq<u8>, br: int, bc: int) -> bool {
    forall|r1: int, c1: int, r2: int, c2: int|
        0 <= r1 < 9 && 0 <= c1 < 9 && 0 <= r2 < 9 && 0 <= c2 < 9 && r1 / 3 == br && c1 / 3 == bc
            && r2 / 3 == br && c2 / 3 == bc && (r1, c1) != (r2, c2) && #[trigger] cell(s, r1, c1)
            != 0 ==> cell(s, r1, c1) != #[trigger] cell(s, r2, c2)
}

/// The riddle invariant: among the digits already placed, no row, column or
/// block holds a duplicate. Empty cells are allowed.
pub open spec fn riddle_ok(s: Seq<u8>) -> bool {
    board_wf(s) && (forall|r: int| 0 <= r < 9 ==> row_ok(s, r)) && (forall|c: int|
        0 <= c < 9 ==> col_ok(s, c)) && (forall|br: int, bc: int|
        0 <= br < 3 && 0 <= bc < 3 ==> block_ok(s, br, bc))
}

/// Every cell holds a digit.
pub open spec fn board_full(s: Seq<u8>) -> bool {
    forall|i: int| 0 <= i < 81 ==> s[i] != 0
}

/// A fully populated, rule-valid grid: no empty cell, and no duplicate in
/// any row, column or block.
pub open spec fn board_valid(s: Seq<u8>) -> bool {
    riddle_ok(s) && board_full(s)
}

/// Every cell of `sub` that holds a digit holds the same digit in `sup`.
pub open spec fn extends(sub: Seq<u8>, sup: Seq<u8>) -> bool {
    forall|i: int| 0 <= i < 81 && sub[i] != 0 ==> sup[i] == sub[i]
}

/// `full` is a solution of the riddle `sub`: a valid grid that keeps every
/// digit the riddle already placed.
pub open spec fn is_completion(sub: Seq<u8>, full: Seq<u8>) -> bool {
    board_wf(sub) && full.len() == 81 && board_valid(full) && extends(sub, full)
}

/// `full` is the one and only solution of the riddle `sub`.
pub open spec fn unique_completion(sub: Seq<u8>, full: Seq<u8>) -> bool {
    is_completion(sub, full) && forall|g: Seq<u8>| is_completion(sub, g) ==> g == full
}

/// All entries pairwise distinct (the all-zero entries included).
pub open spec fn unique_elems(s: Seq<u8>) -> bool {
    forall|i: int, j: int| 0 <= i < j < s.len() ==> s[i] != s[j]
}

/// How many of the first `n` cells hold a digit.
pub open spec fn set_cells_up_to(s: Seq<u8>, n: int) -> int
    decreases n,
{
    if n <= 0 {
        0
    } else {
        set_cells_up_to(s, n - 1) + if s[n - 1] != 0 {
            1int
        } else {
            0int
        }
    }
}

/// How many cells of the board hold a digit.
pub open spec fn set_count_spec(s: Seq<u8>) -> int {
    set_cells_up_to(s, 81)
}

impl View for SudokuBoard {
    type V = Seq<u8>;

    closed spec fn view(&self) -> Seq<u8> {
        Seq::new(81, |i: int| self.ans@[i / 9]@[i % 9])
    }
}

impl Clone for SudokuBoard {
    fn clone(&self) -> (r: Self)
        ensures
            r@ == self@,
    {
        SudokuBoard { ans: self.ans }
    }
}

impl PartialEq for SudokuBoard {
    fn eq(&self, other: &Self) -> (r: bool)
    {
        let mut row: usize = 0;
        while row < 9
            invariant
                row <= 9,
                forall|i: int| 0 <= i < row * 9 ==> self@[i] == other@[i],
            decreases 9 - row,
        {
            let mut col: usize = 0;
            while col < 9
                invariant
                    row < 9,
                    col <= 9,
                    forall|i: int| 0 <= i < row * 9 + col ==> self@[i] == other@[i],
                decreases 9 - col,
            {
                if self.get(row, col) != other.get(row, col) {
                    return false;
                }
                col += 1;
            }
            row += 1;
        }
        proof {
            assert(self@ =~= other@);
        }
        true
    }
}

impl vstd::std_specs::cmp::PartialEqSpecImpl for SudokuBoard {
    open spec fn obeys_eq_spec() -> bool {
        true
    }

    open spec fn eq_spec(&self, other: &Self) -> bool {
        self@ == other@
    }
}

impl SudokuBoard {
    /// A board with every cell empty.
    pub fn new() -> (r: Self)
        ensures
            r@ == empty_board(),
    {
        let b = SudokuBoard { ans: [[0u8; 9]; 9] };
        proof {
            assert(b@ =~= empty_board());
        }
        b
    }

    /// Empties every cell.
    pub fn clear(&mut self)
        ensures
            final(self)@ == empty_board(),
    {
        self.ans = [[0u8; 9]; 9];
        proof {
            assert(final(self)@ =~= empty_board());
        }
    }

    /// The value of one cell.
    pub fn get(&self, row: usize, col: usize) -> (r: u8)
        requires
            row < 9,
            col < 9,
        ensures
            r == cell(self@, row as int, col as int),
    {
        proof {
            lemma_row_major(row as int, col as int);
        }
        self.ans[row][col]
    }

    /// Stores `val` into one cell. Callers are trusted to pass coordinates
    /// below 9 and a value of at most 9.
    pub fn set(&mut self, row: usize, col: usize, val: u8)
        requires
            row < 9,
            col < 9,
            val <= 9,
        ensures
            final(self)@ == old(self)@.update(row * 9 + col, val),
    {
        let mut line = self.ans[row];
        line[col] = val;
        self.ans[row] = line;
        proof {
            assert forall|i: int|
                0 <= i < 81 implies final(self)@[i] == old(self)@.update(
                row * 9 + col,
                val,
            )[i] by {
                assert(0 <= i / 9 < 9 && 0 <= i % 9 < 9);
                assert(i == (i / 9) * 9 + (i % 9));
                lemma_row_major(row as int, col as int);
            }
            assert(final(self)@ =~= old(self)@.update(row * 9 + col, val));
        }
    }
    /// One row as an array, left to right.
    pub fn row(&self, row: usize) -> (r: [u8; 9])
        requires
            row < 9,
        ensures
            forall|j: int| 0 <= j < 9 ==> r@[j] == cell(self@, row as int, j),
    {
        let mut line = [0u8; 9];
        let mut i: usize = 0;
        while i < 9
            invariant
                row < 9,
                i <= 9,
                forall|j: int| 0 <= j < i ==> line@[j] == cell(self@, row as int, j),
            decreases 9 - i,
        {
            line[i] = self.get(row, i);
            i += 1;
        }
        line
    }

    /// One column as an array, top to bottom.
    pub fn col(&self, col: usize) -> (r: [u8; 9])
        requires
            col < 9,
        ensures
            forall|j: int| 0 <= j < 9 ==> r@[j] == cell(self@, j, col as int),
    {
        let mut line = [0u8; 9];
        let mut i: usize = 0;
        while i < 9
            invariant
                col < 9,
                i <= 9,
                forall|j: int| 0 <= j < i ==> line@[j] == cell(self@, j, col as int),
            decreases 9 - i,
        {
            line[i] = self.get(i, col);
            i += 1;
        }
        line
    }

    /// The 3x3 block around row `row`, column `col`, row by row.
    pub fn block(&self, row: usize, col: usize) -> (r: [u8; 9])
        requires
            row < 9,
            col < 9,
        ensures
            forall|m: int|
                0 <= m < 9 ==> r@[m] == cell(
                    self@,
                    block_base(row as int) + m / 3,
                    block_base(col as int) + m % 3,
                ),
    {
        let row0 = self.round_to_block(row);
        let col0 = self.round_to_block(col);
        let mut vals = [0u8; 9];
        let mut i: usize = 0;
        while i < 3
            invariant
                row0 + 2 < 9,
                col0 + 2 < 9,
                row0 == block_base(row as int),
                col0 == block_base(col as int),
                i <= 3,
                forall|m: int| 0 <= m < 3 * i ==> vals@[m] == cell(self@, row0 + m / 3, col0 + m % 3),
            decreases 3 - i,
        {
            let mut j: usize = 0;
            while j < 3
                invariant
                    row0 + 2 < 9,
                    col0 + 2 < 9,
                    row0 == block_base(row as int),
                    col0 == block_base(col as int),
                    i < 3,
                    j <= 3,
                    forall|m: int|
                        0 <= m < 3 * i + j ==> vals@[m] == cell(self@, row0 + m / 3, col0 + m % 3),
                decreases 3 - j,
            {
                vals[3 * i + j] = self.get(row0 + i, col0 + j);
                proof {
                    let m = 3 * (i as int) + j;
                    assert(m / 3 == i && m % 3 == j) by (nonlinear_arith)
                        requires
                            0 <= i < 3,
                            0 <= j < 3,
                            m == 3 * (i as int) + j,
                    ;
                }
                j += 1;
            }
            i += 1;
        }
        vals
    }

    /// Rounds a coordinate down to the first coordinate of its block.
    fn round_to_block(&self, index: usize) -> (r: usize)
        requires
            index < 9,
        ensures
            r == block_base(index as int),
            r + 2 < 9,
            r <= index,
    {
        index - index % 3
    }

    /// Whether the nine entries are pairwise distinct (zeros included).
    pub fn has_unique_elements(&self, list: [u8; 9]) -> (r: bool)
        ensures
            r == unique_elems(list@),
    {
        let mut i: usize = 1;
        while i < 9
            invariant
                1 <= i <= 9,
                forall|a: int, b: int| 0 <= a < i - 1 && a < b < 9 ==> list@[a] != list@[b],
            decreases 9 - i,
        {
            let mut j: usize = i;
            while j < 9
                invariant
                    1 <= i <= j <= 9,
                    forall|b: int| i <= b < j ==> list@[i - 1] != #[trigger] list@[b],
                decreases 9 - j,
            {
                if list[j] == list[i - 1] {
                    assert(!unique_elems(list@));
                    return false;
                }
                j += 1;
            }
            i += 1;
        }
        true
    }

    /// The digits 1..=9 that the nine entries do not hold, in ascending
    /// order.
    fn get_unset(&self, vals: [u8; 9]) -> (r: Vec<u8>)
        ensures
            forall|v: u8| r@.contains(v) <==> (1 <= v <= 9 && !vals@.contains(v)),
            forall|a: int, b: int| 0 <= a < b < r@.len() ==> r@[a] < r@[b],
    {
        let mut unset: Vec<u8> = Vec::new();
        let mut d: u8 = 1;
        while d <= 9
            invariant
                1 <= d <= 10,
                forall|v: u8| unset@.contains(v) <==> (1 <= v < d && !vals@.contains(v)),
                forall|a: int, b: int| 0 <= a < b < unset@.len() ==> unset@[a] < unset@[b],
                forall|a: int| 0 <= a < unset@.len() ==> unset@[a] < d,
            decreases 10 - d,
        {
            if !contains_value(&vals, d) {
                let ghost before = unset@;
                unset.push(d);
                proof {
                    assert forall|v: u8| unset@.contains(v) implies (1 <= v < d + 1
                        && !vals@.contains(v)) by {
                        let k = choose|k: int| 0 <= k < unset@.len() && unset@[k] == v;
                        if k < before.len() {
                            assert(before.contains(v));
                        }
                    }
                    assert forall|v: u8| (1 <= v < d + 1 && !vals@.contains(v)) implies
                        unset@.contains(v) by {
                        if v < d {
                            let k = choose|k: int| 0 <= k < before.len() && before[k] == v;
                            assert(unset@[k] == v);
                        } else {
                            assert(unset@[unset@.len() - 1] == v);
                        }
                    }
                }
            }
            d += 1;
        }
        unset
    }

    /// The digits that row `row` does not yet hold, ascending.
    pub fn row_free(&self, row: usize) -> (r: Vec<u8>)
        requires
            row < 9,
        ensures
            forall|v: u8| r@.contains(v) <==> (1 <= v <= 9 && !in_row(self@, row as int, v)),
            forall|a: int, b: int| 0 <= a < b < r@.len() ==> r@[a] < r@[b],
    {
        let vals = self.row(row);
        let r = self.get_unset(vals);
        proof {
            assert forall|v: u8| vals@.contains(v) == in_row(self@, row as int, v) by {
                if vals@.contains(v) {
                    let j = choose|j: int| 0 <= j < 9 && vals@[j] == v;
                    assert(cell(self@, row as int, j) == v);
                }
                if in_row(self@, row as int, v) {
                    let c = choose|c: int| 0 <= c < 9 && cell(self@, row as int, c) == v;
                    assert(vals@[c] == v);
                }
            }
        }
        r
    }

    /// The digits that column `col` does not yet hold, ascending.
    pub fn col_free(&self, col: usize) -> (r: Vec<u8>)
        requires
            col < 9,
        ensures
            forall|v: u8| r@.contains(v) <==> (1 <= v <= 9 && !in_col(self@, col as int, v)),
            forall|a: int, b: int| 0 <= a < b < r@.len() ==> r@[a] < r@[b],
    {
        let vals = self.col(col);
        let r = self.get_unset(vals);
        proof {
            assert forall|v: u8| vals@.contains(v) == in_col(self@, col as int, v) by {
                if vals@.contains(v) {
                    let j = choose|j: int| 0 <= j < 9 && vals@[j] == v;
                    assert(cell(self@, j, col as int) == v);
                }
                if in_col(self@, col as int, v) {
                    let rr = choose|rr: int| 0 <= rr < 9 && cell(self@, rr, col as int) == v;
                    assert(vals@[rr] == v);
                }
            }
        }
        r
    }

    /// The digits that the block around (`row`, `col`) does not yet hold,
    /// ascending.
    pub fn block_free(&self, row: usize, col: usize) -> (r: Vec<u8>)
        requires
            row < 9,
            col < 9,
        ensures
            forall|v: u8|
                r@.contains(v) <==> (1 <= v <= 9 && !in_block(self@, row as int, col as int, v)),
            forall|a: int, b: int| 0 <= a < b < r@.len() ==> r@[a] < r@[b],
    {
        let vals = self.block(row, col);
        let r = self.get_unset(vals);
        proof {
            let r0 = block_base(row as int);
            let c0 = block_base(col as int);
            assert forall|v: u8| vals@.contains(v) == in_block(
                self@,
                row as int,
                col as int,
                v,
            ) by {
                if vals@.contains(v) {
                    let m = choose|m: int| 0 <= m < 9 && vals@[m] == v;
                    let r2 = r0 + m / 3;
                    let c2 = c0 + m % 3;
                    assert(0 <= r2 < 9 && 0 <= c2 < 9 && block_base(r2) == block_base(
                        row as int,
                    ) && block_base(c2) == block_base(col as int)) by (nonlinear_arith)
                        requires
                            0 <= m < 9,
                            0 <= row < 9,
                            0 <= col < 9,
                            r0 == block_base(row as int),
                            c0 == block_base(col as int),
                            r2 == r0 + m / 3,
                            c2 == c0 + m % 3,
                    ;
                    assert(cell(self@, r2, c2) == v);
                }
                if in_block(self@, row as int, col as int, v) {
                    let (r2, c2) = choose|r2: int, c2: int|
                        0 <= r2 < 9 && 0 <= c2 < 9 && block_base(r2) == block_base(row as int)
                            && block_base(c2) == block_base(col as int) && cell(self@, r2, c2)
                            == v;
                    let m = 3 * (r2 - r0) + (c2 - c0);
                    assert(0 <= m < 9 && m / 3 == r2 - r0 && m % 3 == c2 - c0)
                        by (nonlinear_arith)
                        requires
                            0 <= r2 < 9,
                            0 <= c2 < 9,
                            r0 == block_base(r2),
                            c0 == block_base(c2),
                            m == 3 * (r2 - r0) + (c2 - c0),
                    ;
                    assert(vals@[m] == v);
                }
            }
        }
        r
    }

    /// The digits that may be placed at (`row`, `col`): those free in the
    /// cell's row, column and block at once, in ascending order.
    pub fn free_values(&self, row: usize, col: usize) -> (r: Vec<u8>)
        requires
            row < 9,
            col < 9,
        ensures
            forall|v: u8| r@.contains(v) <==> value_free(self@, row as int, col as int, v),
            forall|a: int, b: int| 0 <= a < b < r@.len() ==> r@[a] < r@[b],
            r@.len() == num_free_values(self@, row as int, col as int),
    {
        let row_free = self.row_free(row);
        let col_free = self.col_free(col);
        let block_free = self.block_free(row, col);
        let mut out: Vec<u8> = Vec::new();
        let mut i: usize = 0;
        while i < row_free.len()
            invariant
                i <= row_free@.len(),
                forall|a: int, b: int| 0 <= a < b < row_free@.len() ==> row_free@[a] < row_free@[b],
                forall|a: int, b: int| 0 <= a < b < out@.len() ==> out@[a] < out@[b],
                forall|a: int|
                    0 <= a < out@.len() ==> exists|k: int|
                        0 <= k < i && #[trigger] row_free@[k] == #[trigger] out@[a],
                forall|v: u8|
                    out@.contains(v) <==> ((exists|k: int| 0 <= k < i && row_free@[k] == v)
                        && col_free@.contains(v) && block_free@.contains(v)),
            decreases row_free@.len() - i,
        {
            let v = row_free[i];
            if contains_digit(&col_free, v) && contains_digit(&block_free, v) {
                let ghost before = out@;
                out.push(v);
                proof {
                    assert forall|a: int, b: int| 0 <= a < b < out@.len() implies out@[a]
                        < out@[b] by {
                        if b == out@.len() - 1 {
                            let k = choose|k: int| 0 <= k < i && row_free@[k] == out@[a];
                            assert(row_free@[k] < row_free@[i as int]);
                        }
                    }
                    assert forall|w: u8| out@.contains(w) implies ((exists|k: int|
                        0 <= k < i + 1 && row_free@[k] == w) && col_free@.contains(w)
                        && block_free@.contains(w)) by {
                        let a = choose|a: int| 0 <= a < out@.len() && out@[a] == w;
                        if a < before.len() {
                            assert(before.contains(w));
                        }
                    }
                    assert forall|w: u8| ((exists|k: int| 0 <= k < i + 1 && row_free@[k] == w)
                        && col_free@.contains(w) && block_free@.contains(w)) implies
                        out@.contains(w) by {
                        let k = choose|k: int| 0 <= k < i + 1 && row_free@[k] == w;
                        if k < i {
                            assert(before.contains(w));
                            let a = choose|a: int| 0 <= a < before.len() && before[a] == w;
                            assert(out@[a] == w);
                        } else {
                            assert(out@[out@.len() - 1] == w);
                        }
                    }
                }
            } else {
                proof {
                    assert forall|w: u8| out@.contains(w) implies ((exists|k: int|
                        0 <= k < i + 1 && row_free@[k] == w) && col_free@.contains(w)
                        && block_free@.contains(w)) by {}
                    assert forall|w: u8| ((exists|k: int| 0 <= k < i + 1 && row_free@[k] == w)
                        && col_free@.contains(w) && block_free@.contains(w)) implies
                        out@.contains(w) by {
                        let k = choose|k: int| 0 <= k < i + 1 && row_free@[k] == w;
                        if k == i {
                            assert(w == row_free@[i as int]);
                            assert(false);
                        }
                    }
                }
            }
            i += 1;
        }
        proof {
            assert forall|v: u8| out@.contains(v) == value_free(
                self@,
                row as int,
                col as int,
                v,
            ) by {
                if exists|k: int| 0 <= k < row_free@.len() && row_free@[k] == v {
                    assert(row_free@.contains(v));
                }
                if row_free@.contains(v) {
                    let k = choose|k: int| 0 <= k < row_free@.len() && row_free@[k] == v;
                    assert(0 <= k < row_free@.len() && row_free@[k] == v);
                }
            }
            assert forall|a: int| 0 <= a < out@.len() implies 1 <= #[trigger] out@[a] <= 9 by {
                assert(out@.contains(out@[a]));
            }
            lemma_free_len_rec(self@, row as int, col as int, out@, 9);
        }
        out
    }

    /// Whether the board is a full, rule-valid grid: every row, column and
    /// block is fully populated and holds nine pairwise-distinct digits.
    /// A board with any empty cell is never valid.
    pub fn is_valid(&self) -> (r: bool)
        requires
            board_wf(self@),
        ensures
            r == board_valid(self@),
    {
        let mut i: usize = 0;
        while i < 9
            invariant
                board_wf(self@),
                i <= 9,
                forall|r2: int| 0 <= r2 < i ==> row_ok(self@, r2),
                forall|r2: int| 0 <= r2 < i ==> !in_row(self@, r2, 0u8),
            decreases 9 - i,
        {
            let vals = self.row(i);
            if !self.has_unique_elements(vals) {
                proof {
                    let (a, b) = choose|a: int, b: int| 0 <= a < b < 9 && vals@[a] == vals@[b];
                    if board_valid(self@) {
                        if vals@[a] == 0 {
                            assert(cell(self@, i as int, a) == 0);
                            assert(self@[i * 9 + a] != 0);
                        } else {
                            assert(row_ok(self@, i as int));
                            assert(cell(self@, i as int, a) != cell(self@, i as int, b));
                        }
                    }
                }
                return false;
            }
            if contains_value(&vals, 0) {
                proof {
                    let a = choose|a: int| 0 <= a < 9 && vals@[a] == 0;
                    if board_valid(self@) {
                        assert(cell(self@, i as int, a) == 0);
                        assert(self@[i * 9 + a] != 0);
                    }
                }
                return false;
            }
            proof {
                assert forall|c1: int, c2: int|
                    0 <= c1 < 9 && 0 <= c2 < 9 && c1 != c2 && #[trigger] cell(self@, i as int, c1)
                        != 0 implies cell(self@, i as int, c1) != #[trigger] cell(
                    self@,
                    i as int,
                    c2,
                ) by {
                    assert(vals@[c1] == cell(self@, i as int, c1));
                    assert(vals@[c2] == cell(self@, i as int, c2));
                }
                assert forall|c1: int| 0 <= c1 < 9 implies #[trigger] cell(self@, i as int, c1)
                    != 0 by {
                    assert(vals@[c1] == cell(self@, i as int, c1));
                }
            }
            i += 1;
        }
        proof {
            assert(forall|r2: int| 0 <= r2 < 9 ==> row_ok(self@, r2));
            assert(forall|r2: int| 0 <= r2 < 9 ==> !in_row(self@, r2, 0u8));
        }
        let mut j: usize = 0;
        while j < 9
            invariant
                board_wf(self@),
                j <= 9,
                forall|r2: int| 0 <= r2 < 9 ==> row_ok(self@, r2),
                forall|r2: int| 0 <= r2 < 9 ==> !in_row(self@, r2, 0u8),
                forall|c2: int| 0 <= c2 < j ==> col_ok(self@, c2),
            decreases 9 - j,
        {
            let vals = self.col(j);
            if !self.has_unique_elements(vals) {
                proof {
                    let (a, b) = choose|a: int, b: int| 0 <= a < b < 9 && vals@[a] == vals@[b];
                    if board_valid(self@) {
                        if vals@[a] == 0 {
                            assert(cell(self@, a, j as int) == 0);
                            assert(self@[a * 9 + j] != 0);
                        } else {
                            assert(col_ok(self@, j as int));
                            assert(cell(self@, a, j as int) != cell(self@, b, j as int));
                        }
                    }
                }
                return false;
            }
            if contains_value(&vals, 0) {
                proof {
                    let a = choose|a: int| 0 <= a < 9 && vals@[a] == 0;
                    if board_valid(self@) {
                        assert(cell(self@, a, j as int) == 0);
                        assert(self@[a * 9 + j] != 0);
                    }
                }
                return false;
            }
            proof {
                assert forall|r1: int, r2: int|
                    0 <= r1 < 9 && 0 <= r2 < 9 && r1 != r2 && #[trigger] cell(self@, r1, j as int)
                        != 0 implies cell(self@, r1, j as int) != #[trigger] cell(
                    self@,
                    r2,
                    j as int,
                ) by {
                    assert(vals@[r1] == cell(self@, r1, j as int));
                    assert(vals@[r2] == cell(self@, r2, j as int));
                }
            }
            j += 1;
        }
        let mut br: usize = 0;
        while br < 3
            invariant
                board_wf(self@),
                br <= 3,
                forall|r2: int| 0 <= r2 < 9 ==> row_ok(self@, r2),
                forall|r2: int| 0 <= r2 < 9 ==> !in_row(self@, r2, 0u8),
                forall|c2: int| 0 <= c2 < 9 ==> col_ok(self@, c2),
                forall|b1: int, b2: int| 0 <= b1 < br && 0 <= b2 < 3 ==> block_ok(self@, b1, b2),
            decreases 3 - br,
        {
            let mut bc: usize = 0;
            while bc < 3
                invariant
                    board_wf(self@),
                    br < 3,
                    bc <= 3,
                    forall|r2: int| 0 <= r2 < 9 ==> row_ok(self@, r2),
                forall|r2: int| 0 <= r2 < 9 ==> !in_row(self@, r2, 0u8),
                    forall|c2: int| 0 <= c2 < 9 ==> col_ok(self@, c2),
                    forall|b1: int, b2: int|
                        0 <= b1 < br && 0 <= b2 < 3 ==> block_ok(self@, b1, b2),
                    forall|b2: int| 0 <= b2 < bc ==> block_ok(self@, br as int, b2),
                decreases 3 - bc,
            {
                let vals = self.block(3 * br, 3 * bc);
                proof {
                    lemma_block_corner(br as int, bc as int);
                }
                if !self.has_unique_elements(vals) {
                    proof {
                        let (a, b) = choose|a: int, b: int| 0 <= a < b < 9 && vals@[a] == vals@[b];
                        lemma_block_index(br as int, bc as int, a);
                        lemma_block_index(br as int, bc as int, b);
                        if board_valid(self@) {
                            if vals@[a] == 0 {
                                let r1 = 3 * br + a / 3;
                                let c1 = 3 * bc + a % 3;
                                assert(cell(self@, r1 as int, c1 as int) == 0);
                                assert(self@[r1 * 9 + c1] != 0);
                            } else {
                                assert(block_ok(self@, br as int, bc as int));
                            }
                        }
                    }
                    return false;
                }
                proof {
                    assert forall|r1: int, c1: int, r2: int, c2: int|
                        0 <= r1 < 9 && 0 <= c1 < 9 && 0 <= r2 < 9 && 0 <= c2 < 9 && r1 / 3
                            == br && c1 / 3 == bc && r2 / 3 == br && c2 / 3 == bc && (r1, c1) != (
                        r2,
                        c2,
                    ) && #[trigger] cell(self@, r1, c1) != 0 implies cell(self@, r1, c1)
                        != #[trigger] cell(self@, r2, c2) by {
                        let m1 = lemma_block_coord(br as int, bc as int, r1, c1);
                        let m2 = lemma_block_coord(br as int, bc as int, r2, c2);
                        assert(vals@[m1] == cell(self@, r1, c1));
                        assert(vals@[m2] == cell(self@, r2, c2));
                    }
                }
                bc += 1;
            }
            br += 1;
        }
        proof {
            assert forall|k: int| 0 <= k < 81 implies self@[k] != 0 by {
                assert(0 <= k / 9 < 9 && 0 <= k % 9 < 9 && k == (k / 9) * 9 + k % 9);
                assert(!in_row(self@, k / 9, 0u8));
                assert(cell(self@, k / 9, k % 9) != 0);
            }
            assert forall|b1: int, b2: int| 0 <= b1 < 3 && 0 <= b2 < 3 implies block_ok(
                self@,
                b1,
                b2,
            ) by {}
        }
        true
    }

    /// Copies a whole matrix of cell values into the board. Callers are
    /// trusted to pass values of at most 9.
    pub fn set_all(&mut self, values: [[u8; 9]; 9])
        requires
            forall|i: int, j: int| 0 <= i < 9 && 0 <= j < 9 ==> values@[i]@[j] <= 9,
        ensures
            final(self)@.len() == 81,
            forall|i: int, j: int|
                0 <= i < 9 && 0 <= j < 9 ==> cell(final(self)@, i, j) == values@[i]@[j],
    {
        self.ans = values;
        proof {
            assert forall|i: int, j: int|
                0 <= i < 9 && 0 <= j < 9 implies cell(final(self)@, i, j) == values@[i]@[j] by {
                lemma_row_major(i, j);
            }
        }
    }

    /// The whole grid as a matrix of cell values.
    pub fn get_all(&self) -> (out: [[u8; 9]; 9])
        ensures
            forall|i: int, j: int| 0 <= i < 9 && 0 <= j < 9 ==> out@[i]@[j] == cell(self@, i, j),
    {
        proof {
            assert forall|i: int, j: int|
                0 <= i < 9 && 0 <= j < 9 implies self.ans@[i]@[j] == cell(self@, i, j) by {
                lemma_row_major(i, j);
            }
        }
        self.ans
    }

    /// How many cells hold a digit.
    pub fn set_count(&self) -> (r: u8)
        ensures
            r as int == set_count_spec(self@),
    {
        let mut k: u8 = 0;
        let mut row: usize = 0;
        while row < 9
            invariant
                row <= 9,
                k as int == set_cells_up_to(self@, 9 * row),
                0 <= k <= 9 * row,
            decreases 9 - row,
        {
            let mut col: usize = 0;
            while col < 9
                invariant
                    row < 9,
                    col <= 9,
                    k as int == set_cells_up_to(self@, 9 * row + col),
                    0 <= k <= 9 * row + col,
                decreases 9 - col,
            {
                proof {
                    lemma_row_major(row as int, col as int);
                }
                if self.get(row, col) != 0 {
                    k += 1;
                }
                col += 1;
            }
            row += 1;
        }
        k
    }

    /// How many cells are still empty.
    pub fn free_count(&self) -> (r: u8)
        ensures
            r as int == 81 - set_count_spec(self@),
    {
        proof {
            lemma_set_cells_bound(self@, 81);
        }
        81 - self.set_count()
    }

    /// The empty cell with the fewest free values, under a row-major scan
    /// that takes a cell with a single candidate at once. `(-1, -1)` stands
    /// for "no cell": the board is complete, or some empty cell has no
    /// candidate left (a contradiction).
    pub fn find_least_free_cell(&self) -> (r: (i8, i8))
        requires
            riddle_ok(self@),
        ensures
            (r.0 == -1) == (r.1 == -1),
            r.0 != -1 ==> 0 <= r.0 < 9 && 0 <= r.1 < 9 && cell(self@, r.0 as int, r.1 as int) == 0
                && (exists|v: u8| value_free(self@, r.0 as int, r.1 as int, v)),
            r.0 != -1 ==> (forall|rr: int, cc: int|
                0 <= rr < 9 && 0 <= cc < 9 && #[trigger] cell(self@, rr, cc) == 0
                    ==> num_free_values(self@, rr, cc) == 0 || num_free_values(self@, rr, cc)
                    >= num_free_values(self@, r.0 as int, r.1 as int)),
            r.0 == -1 ==> board_full(self@) || dead_cell_exists(self@),
            board_full(self@) ==> r.0 == -1,
    {
        let mut row_col_result: (i8, i8) = (-1, -1);
        let mut min_free_size: usize = 10;
        let mut row: usize = 0;
        while row < 9
            invariant
                riddle_ok(self@),
                row <= 9,
                (min_free_size == 10) == (row_col_result.0 == -1),
                (row_col_result.0 == -1) == (row_col_result.1 == -1),
                row_col_result.0 != -1 ==> 0 <= row_col_result.0 < 9 && 0 <= row_col_result.1 < 9
                    && cell(self@, row_col_result.0 as int, row_col_result.1 as int) == 0 && (
                exists|v: u8|
                    value_free(self@, row_col_result.0 as int, row_col_result.1 as int, v)),
                row_col_result.0 == -1 ==> dead_cell_exists(self@) || (forall|rr: int, cc: int|
                    0 <= rr < row && 0 <= cc < 9 ==> cell(self@, rr, cc) != 0),
                row_col_result.0 != -1 ==> min_free_size == num_free_values(
                    self@,
                    row_col_result.0 as int,
                    row_col_result.1 as int,
                ),
                forall|rr: int, cc: int|
                    0 <= rr < row && 0 <= cc < 9 && #[trigger] cell(self@, rr, cc) == 0
                        ==> num_free_values(self@, rr, cc) == 0 || num_free_values(self@, rr, cc)
                        >= min_free_size,
            decreases 9 - row,
        {
            let row_free = self.row_free(row);
            if row_free.len() > 0 {
                let mut col: usize = 0;
                while col < 9
                    invariant
                        riddle_ok(self@),
                        row < 9,
                        col <= 9,
                        (min_free_size == 10) == (row_col_result.0 == -1),
                        (row_col_result.0 == -1) == (row_col_result.1 == -1),
                        row_col_result.0 != -1 ==> 0 <= row_col_result.0 < 9 && 0
                            <= row_col_result.1 < 9 && cell(
                            self@,
                            row_col_result.0 as int,
                            row_col_result.1 as int,
                        ) == 0 && (exists|v: u8|
                            value_free(
                                self@,
                                row_col_result.0 as int,
                                row_col_result.1 as int,
                                v,
                            )),
                        row_col_result.0 == -1 ==> dead_cell_exists(self@) || ((forall|
                            rr: int,
                            cc: int,
                        |
                            0 <= rr < row && 0 <= cc < 9 ==> cell(self@, rr, cc) != 0) && (forall|
                            cc: int,
                        |
                            0 <= cc < col ==> cell(self@, row as int, cc) != 0)),
                        row_col_result.0 != -1 ==> min_free_size == num_free_values(
                            self@,
                            row_col_result.0 as int,
                            row_col_result.1 as int,
                        ),
                        forall|rr: int, cc: int|
                            0 <= rr < row && 0 <= cc < 9 && #[trigger] cell(self@, rr, cc) == 0
                                ==> num_free_values(self@, rr, cc) == 0 || num_free_values(
                                self@,
                                rr,
                                cc,
                            ) >= min_free_size,
                        forall|cc: int|
                            0 <= cc < col && #[trigger] cell(self@, row as int, cc) == 0
                                ==> num_free_values(self@, row as int, cc) == 0
                                || num_free_values(self@, row as int, cc) >= min_free_size,
                    decreases 9 - col,
                {
                    if self.get(row, col) == 0 {
                        let free = self.free_values(row, col);
                        if free.len() == 0 {
                            proof {
                                assert forall|v: u8| !value_free(
                                    self@,
                                    row as int,
                                    col as int,
                                    v,
                                ) by {
                                    if value_free(self@, row as int, col as int, v) {
                                        assert(free@.contains(v));
                                    }
                                }
                                assert(dead_cell_exists(self@));
                                assert(!board_full(self@)) by {
                                    assert(cell(self@, row as int, col as int) == 0);
                                }
                            }
                            return (-1, -1);
                        }
                        if free.len() == 1 {
                            proof {
                                assert(free@.contains(free@[0]));
                                assert(value_free(self@, row as int, col as int, free@[0]));
                                assert((row as i8) as int == row as int);
                                assert((col as i8) as int == col as int);
                                assert(exists|v: u8|
                                    #[trigger] value_free(
                                        self@,
                                        (row as i8) as int,
                                        (col as i8) as int,
                                        v,
                                    ));
                                assert(num_free_values(self@, row as int, col as int) == 1);
                                assert forall|rr: int, cc: int|
                                    0 <= rr < 9 && 0 <= cc < 9 && #[trigger] cell(self@, rr, cc)
                                        == 0 implies num_free_values(self@, rr, cc) == 0
                                    || num_free_values(self@, rr, cc) >= 1 by {
                                    lemma_free_count_bound(self@, rr, cc, 9);
                                }
                                assert(!board_full(self@)) by {
                                    assert(self@[row * 9 + col] == cell(
                                        self@,
                                        row as int,
                                        col as int,
                                    ));
                                }
                            }
                            return (row as i8, col as i8);
                        }
                        proof {
                            assert forall|a: int| 0 <= a < free@.len() implies 1 <= #[trigger] free@[a]
                                <= 9 by {
                                assert(free@.contains(free@[a]));
                            }
                            lemma_strict_sorted_few(free@);
                        }
                        if free.len() < min_free_size {
                            row_col_result = (row as i8, col as i8);
                            min_free_size = free.len();
                            proof {
                                assert(free@.contains(free@[0]));
                                assert(value_free(self@, row as int, col as int, free@[0]));
                                assert((row as i8) as int == row as int);
                                assert((col as i8) as int == col as int);
                                assert(exists|v: u8|
                                    #[trigger] value_free(
                                        self@,
                                        (row as i8) as int,
                                        (col as i8) as int,
                                        v,
                                    ));
                                assert(min_free_size == num_free_values(
                                    self@,
                                    row as int,
                                    col as int,
                                ));
                            }
                        }
                    }
                    col += 1;
                }
            } else {
                proof {
                    if exists|cc: int| 0 <= cc < 9 && #[trigger] cell(self@, row as int, cc)
                        == 0 {
                        let cc = choose|cc: int|
                            0 <= cc < 9 && #[trigger] cell(self@, row as int, cc) == 0;
                        assert forall|v: u8| !value_free(self@, row as int, cc, v) by {
                            if value_free(self@, row as int, cc, v) {
                                assert(row_free@.contains(v));
                            }
                        }
                        assert(dead_cell_exists(self@));
                    }
                    assert forall|cc: int|
                        0 <= cc < 9 && #[trigger] cell(self@, row as int, cc) == 0 implies
                        num_free_values(self@, row as int, cc) == 0 by {
                        assert forall|v: u8| !(#[trigger] value_free(
                            self@,
                            row as int,
                            cc,
                            v,
                        )) by {
                            if value_free(self@, row as int, cc, v) {
                                assert(row_free@.contains(v));
                            }
                        }
                        lemma_no_free_values(self@, row as int, cc, 9);
                    }
                }
            }
            row += 1;
        }
        proof {
            if row_col_result.0 == -1 && !dead_cell_exists(self@) {
                assert forall|k: int| 0 <= k < 81 implies self@[k] != 0 by {
                    assert(0 <= k / 9 < 9 && 0 <= k % 9 < 9 && k == (k / 9) * 9 + k % 9);
                    assert(cell(self@, k / 9, k % 9) != 0);
                }
            }
            if row_col_result.0 != -1 {
                assert(!board_full(self@)) by {
                    assert(self@[row_col_result.0 as int * 9 + row_col_result.1 as int] == cell(
                        self@,
                        row_col_result.0 as int,
                        row_col_result.1 as int,
                    ));
                }
            }
        }
        row_col_result
    }

    /// Writes the board as its 81-character line: digits for set cells and
    /// a dot for each empty cell, row by row.
    pub fn to_line_format(&self) -> (r: String)
        requires
            board_wf(self@),
        ensures
            r@ == encode_line(self@),
    {
        let mut bytes: Vec<u8> = Vec::new();
        let mut row: usize = 0;
        while row < 9
            invariant
                board_wf(self@),
                row <= 9,
                bytes@.len() == 9 * row,
                forall|k: int|
                    0 <= k < bytes@.len() ==> #[trigger] bytes@[k] == line_byte(self@[k]),
            decreases 9 - row,
        {
            let mut col: usize = 0;
            while col < 9
                invariant
                    board_wf(self@),
                    row < 9,
                    col <= 9,
                    bytes@.len() == 9 * row + col,
                    forall|k: int|
                        0 <= k < bytes@.len() ==> #[trigger] bytes@[k] == line_byte(self@[k]),
                decreases 9 - col,
            {
                let v = self.get(row, col);
                proof {
                    assert(self@[row * 9 + col] <= 9);
                }
                let b: u8 = if v != 0 {
                    48 + v
                } else {
                    46
                };
                bytes.push(b);
                col += 1;
            }
            row += 1;
        }
        proof {
            assert forall|k: int| 0 <= k < 81 implies #[trigger] bytes@[k] < 128 by {}
        }
        let line = ascii_bytes_to_string(bytes);
        proof {
            assert(line@ =~= encode_line(self@));
        }
        line
    }

    /// Reads a board from at least 81 line-format bytes: digits for set
    /// cells, a dot or an underscore for empty ones. Any other byte among
    /// the first 81, or a shorter input, is a format error, and the board
    /// is left cleared.
    pub fn from_line_format(&mut self, chars: &[u8]) -> (r: Result<(), ()>)
        ensures
            r is Ok <==> (chars@.len() >= 81 && forall|k: int|
                0 <= k < 81 ==> cell_byte_ok(#[trigger] chars@[k])),
            r is Ok ==> final(self)@ == decode_cells(chars@),
            r is Err ==> final(self)@ == empty_board(),
    {
        self.clear();
        if chars.len() < 81 {
            return Err(());
        }
        let mut k: usize = 0;
        while k < 81
            invariant
                chars@.len() >= 81,
                k <= 81,
                self@ == empty_board(),
                forall|j: int| 0 <= j < k ==> cell_byte_ok(#[trigger] chars@[j]),
            decreases 81 - k,
        {
            let b = chars[k];
            if !(b == 46 || b == 95 || (48 <= b && b <= 57)) {
                return Err(());
            }
            k += 1;
        }
        let mut row: usize = 0;
        while row < 9
            invariant
                chars@.len() >= 81,
                forall|j: int| 0 <= j < 81 ==> cell_byte_ok(#[trigger] chars@[j]),
                row <= 9,
                self@.len() == 81,
                forall|j: int| 0 <= j < 9 * row ==> self@[j] == byte_cell(#[trigger] chars@[j]),
                forall|j: int| 9 * row <= j < 81 ==> #[trigger] self@[j] == 0,
            decreases 9 - row,
        {
            let mut col: usize = 0;
            while col < 9
                invariant
                    chars@.len() >= 81,
                    forall|j: int| 0 <= j < 81 ==> cell_byte_ok(#[trigger] chars@[j]),
                    row < 9,
                    col <= 9,
                    self@.len() == 81,
                    forall|j: int|
                        0 <= j < 9 * row + col ==> self@[j] == byte_cell(#[trigger] chars@[j]),
                    forall|j: int| 9 * row + col <= j < 81 ==> #[trigger] self@[j] == 0,
                decreases 9 - col,
            {
                let b = chars[row * 9 + col];
                proof {
                    assert(cell_byte_ok(chars@[row * 9 + col]));
                }
                let val: u8 = if b == 46 || b == 95 {
                    0
                } else {
                    b - 48
                };
                self.set(row, col, val);
                col += 1;
            }
            row += 1;
        }
        proof {
            assert(self@ =~= decode_cells(chars@));
        }
        Ok(())
    }

    /// Whether `val` may be placed at (`row`, `col`): exactly membership in
    /// the cell's free-value set.
    pub fn can_set(&self, row: usize, col: usize, val: u8) -> (r: bool)
        requires
            row < 9,
            col < 9,
        ensures
            r == value_free(self@, row as int, col as int, val),
    {
        let free = self.free_values(row, col);
        contains_digit(&free, val)
    }
}

/// One cell's line-format character: its digit, or a dot when empty.
pub fn to_line_char(val: u8) -> (r: char)
    requires
        val <= 9,
    ensures
        r == line_byte(val) as char,
{
    let b: u8 = if val != 0 {
        48 + val
    } else {
        46
    };
    b as char
}

/// Relies on String::from_utf8: a sequence of ASCII bytes decodes to the
/// string of the characters with the same code points.
#[verifier::external_body]
fn ascii_bytes_to_string(bytes: Vec<u8>) -> (r: String)
    requires
        forall|i: int| 0 <= i < bytes@.len() ==> bytes@[i] < 128,
    ensures
        r@ == bytes@.map_values(|b: u8| b as char),
{
    match String::from_utf8(bytes) {
        Ok(s) => s,
        Err(_) => String::new(),
    }
}

/// Whether the nine entries hold `val`.
fn contains_value(list: &[u8; 9], val: u8) -> (r: bool)
    ensures
        r == list@.contains(val),
{
    let mut i: usize = 0;
    while i < 9
        invariant
            i <= 9,
            forall|j: int| 0 <= j < i ==> list@[j] != val,
        decreases 9 - i,
    {
        if list[i] == val {
            assert(list@[i as int] == val);
            return true;
        }
        i += 1;
    }
    false
}

/// Whether the vector holds `val`.
fn contains_digit(list: &Vec<u8>, val: u8) -> (r: bool)
    ensures
        r == list@.contains(val),
{
    let mut i: usize = 0;
    while i < list.len()
        invariant
            i <= list@.len(),
            forall|j: int| 0 <= j < i ==> list@[j] != val,
        decreases list@.len() - i,
    {
        if list[i] == val {
            assert(list@[i as int] == val);
            return true;
        }
        i += 1;
    }
    false
}

/// How many of the digits 1..=d may still be placed at row `r`, column `c`.
pub open spec fn free_count_up_to(s: Seq<u8>, r: int, c: int, d: int) -> int
    decreases d,
{
    if d <= 0 {
        0
    } else {
        free_count_up_to(s, r, c, d - 1) + if value_free(s, r, c, d as u8) {
            1int
        } else {
            0int
        }
    }
}

/// The size of the cell's free-value set.
pub open spec fn num_free_values(s: Seq<u8>, r: int, c: int) -> int {
    free_count_up_to(s, r, c, 9)
}

/// A cell's free-value count lies between zero and `d`.
pub proof fn lemma_free_count_bound(s: Seq<u8>, r: int, c: int, d: int)
    requires
        d >= 0,
    ensures
        0 <= free_count_up_to(s, r, c, d) <= d,
    decreases d,
{
    if d > 0 {
        lemma_free_count_bound(s, r, c, d - 1);
    }
}

/// A cell with no free value at all has a free-value count of zero.
pub proof fn lemma_no_free_values(s: Seq<u8>, r: int, c: int, d: int)
    requires
        d >= 0,
        forall|v: u8| !(#[trigger] value_free(s, r, c, v)),
    ensures
        free_count_up_to(s, r, c, d) == 0,
    decreases d,
{
    if d > 0 {
        lemma_no_free_values(s, r, c, d - 1);
    }
}

/// A strictly ascending run that holds exactly the free digits up to `d`
/// is as long as the free-value count up to `d`.
proof fn lemma_free_len_rec(s: Seq<u8>, r: int, c: int, fv: Seq<u8>, d: int)
    requires
        0 <= d <= 9,
        forall|a: int, b: int| 0 <= a < b < fv.len() ==> fv[a] < fv[b],
        forall|a: int| 0 <= a < fv.len() ==> 1 <= #[trigger] fv[a] <= d,
        forall|v: u8| fv.contains(v) <==> (v <= d && value_free(s, r, c, v)),
    ensures
        fv.len() == free_count_up_to(s, r, c, d),
    decreases d,
{
    if d == 0 {
        if fv.len() > 0 {
            assert(1 <= fv[0] <= 0);
        }
    } else if value_free(s, r, c, d as u8) {
        assert(fv.contains(d as u8));
        let a = choose|a: int| 0 <= a < fv.len() && fv[a] == d as u8;
        assert(a == fv.len() - 1) by {
            if a < fv.len() - 1 {
                assert(fv[a] < fv[fv.len() - 1]);
            }
        }
        let rest = fv.drop_last();
        assert forall|v: u8| rest.contains(v) implies (v <= d - 1 && value_free(s, r, c, v)) by {
            let b = choose|b: int| 0 <= b < rest.len() && rest[b] == v;
            assert(fv[b] == v);
            assert(fv.contains(v));
            assert(fv[b] < fv[fv.len() - 1]);
        }
        assert forall|v: u8| (v <= d - 1 && value_free(s, r, c, v)) implies rest.contains(v) by {
            assert(fv.contains(v));
            let b = choose|b: int| 0 <= b < fv.len() && fv[b] == v;
            assert(b < fv.len() - 1);
            assert(rest[b] == v);
        }
        lemma_free_len_rec(s, r, c, rest, d - 1);
    } else {
        assert forall|a: int| 0 <= a < fv.len() implies 1 <= #[trigger] fv[a] <= d - 1 by {
            assert(fv.contains(fv[a]));
            if fv[a] == d {
                assert(value_free(s, r, c, d as u8));
            }
        }
        assert forall|v: u8| fv.contains(v) implies (v <= d - 1 && value_free(s, r, c, v)) by {
            let b = choose|b: int| 0 <= b < fv.len() && fv[b] == v;
        }
        lemma_free_len_rec(s, r, c, fv, d - 1);
    }
}

/// Every digit may be blocked at an occupied cell of a full board: the
/// nine distinct digits of its row already cover 1..=9.
pub proof fn lemma_full_cell_blocked(s: Seq<u8>, r: int, c: int)
    requires
        riddle_ok(s),
        board_full(s),
        0 <= r < 9,
        0 <= c < 9,
    ensures
        forall|v: u8| !(#[trigger] value_free(s, r, c, v)),
{
    assert forall|v: u8| !(#[trigger] value_free(s, r, c, v)) by {
        if value_free(s, r, c, v) {
            let row_vals = Seq::new(9, |j: int| cell(s, r, j) as int);
            assert(row_vals.no_duplicates()) by {
                assert forall|a: int, b: int|
                    0 <= a < 9 && 0 <= b < 9 && a != b implies row_vals[a] != row_vals[b] by {
                    assert(row_ok(s, r));
                    assert(0 <= r * 9 + a < 81 && 0 <= r * 9 + b < 81);
                    assert(cell(s, r, a) != 0);
                }
            }
            row_vals.unique_seq_to_set();
            let holder = vstd::set_lib::set_int_range(1, 10).remove(v as int);
            assert(row_vals.to_set().subset_of(holder)) by {
                assert forall|x: int| row_vals.to_set().contains(x) implies holder.contains(
                    x,
                ) by {
                    let j = choose|j: int| 0 <= j < 9 && row_vals[j] == x;
                    assert(0 <= r * 9 + j < 81);
                    assert(1 <= cell(s, r, j) <= 9);
                    assert(cell(s, r, j) != v) by {
                        if cell(s, r, j) == v {
                            assert(in_row(s, r, v));
                        }
                    }
                }
            }
            vstd::set_lib::lemma_int_range(1, 10);
            assert(vstd::set_lib::set_int_range(1, 10).contains(v as int));
            assert(holder.finite() && holder.len() == 8);
            vstd::set_lib::lemma_len_subset(row_vals.to_set(), holder);
        }
    }
}

/// Some empty cell has no digit left to place: a dead search branch.
pub open spec fn dead_cell_exists(s: Seq<u8>) -> bool {
    exists|rr: int, cc: int|
        0 <= rr < 9 && 0 <= cc < 9 && #[trigger] cell(s, rr, cc) == 0 && (forall|v: u8|
            !value_free(s, rr, cc, v))
}

/// The byte that encodes one cell in the line format: the digit itself, or
/// a dot for an empty cell.
pub open spec fn line_byte(v: u8) -> u8 {
    if v == 0 {
        46u8
    } else {
        (48 + v) as u8
    }
}

/// The 81-character line encoding of a board.
pub open spec fn encode_line(s: Seq<u8>) -> Seq<char> {
    Seq::new(81, |i: int| line_byte(s[i]) as char)
}

/// The bytes the line-format decoder accepts for one cell: a dot, an
/// underscore or an ASCII digit.
pub open spec fn cell_byte_ok(b: u8) -> bool {
    b == 46 || b == 95 || (48 <= b && b <= 57)
}

/// The cell value one accepted byte stands for.
pub open spec fn byte_cell(b: u8) -> u8 {
    if b == 46 || b == 95 {
        0u8
    } else {
        (b - 48) as u8
    }
}

/// The board that the first 81 bytes of a line decode to.
pub open spec fn decode_cells(s: Seq<u8>) -> Seq<u8> {
    Seq::new(81, |i: int| byte_cell(s[i]))
}

/// Whether a character is acceptable as one cell of a line.
pub open spec fn cell_char_ok(c: char) -> bool {
    c as int == 46 || c as int == 95 || (48 <= c as int && c as int <= 57)
}

/// The cell value one accepted character stands for.
pub open spec fn char_cell(c: char) -> u8 {
    if c as int == 46 || c as int == 95 {
        0u8
    } else {
        (c as int - 48) as u8
    }
}

/// The board that the first 81 characters of a line decode to.
pub open spec fn decode_chars(s: Seq<char>) -> Seq<u8> {
    Seq::new(81, |i: int| char_cell(s[i]))
}

/// Decoding is the inverse of encoding: reading back the line written for
/// a board gives that board.
pub proof fn lemma_encode_decode(s: Seq<u8>)
    requires
        board_wf(s),
    ensures
        decode_chars(encode_line(s)) == s,
        encode_line(s).len() == 81,
        forall|i: int| 0 <= i < 81 ==> cell_char_ok(#[trigger] encode_line(s)[i]),
{
    assert forall|i: int| 0 <= i < 81 implies cell_char_ok(#[trigger] encode_line(s)[i])
        && decode_chars(encode_line(s))[i] == s[i] by {
        assert(s[i] <= 9);
        assert(line_byte(s[i]) as char as int == line_byte(s[i]) as int);
    }
    assert(decode_chars(encode_line(s)) =~= s);
}

/// At most `n` of the first `n` cells hold a digit.
pub proof fn lemma_set_cells_bound(s: Seq<u8>, n: int)
    requires
        n >= 0,
    ensures
        0 <= set_cells_up_to(s, n) <= n,
    decreases n,
{
    if n > 0 {
        lemma_set_cells_bound(s, n - 1);
    }
}

/// The first `n` cells all hold digits exactly when `n` of them do.
pub proof fn lemma_set_cells_full(s: Seq<u8>, n: int)
    requires
        n >= 0,
    ensures
        set_cells_up_to(s, n) == n <==> (forall|i: int| 0 <= i < n ==> s[i] != 0),
    decreases n,
{
    if n > 0 {
        lemma_set_cells_full(s, n - 1);
        lemma_set_cells_bound(s, n - 1);
    }
}

/// Updating the cell at `i` changes the count of set cells in the expected
/// way: one more when a digit fills an empty cell, one less when a digit is
/// cleared, not at all otherwise.
pub proof fn lemma_set_cells_update(s: Seq<u8>, i: int, v: u8, n: int)
    requires
        0 <= i < s.len(),
        0 <= n <= s.len(),
    ensures
        i < n && s[i] == 0 && v != 0 ==> set_cells_up_to(s.update(i, v), n) == set_cells_up_to(
            s,
            n,
        ) + 1,
        i < n && s[i] != 0 && v == 0 ==> set_cells_up_to(s.update(i, v), n) == set_cells_up_to(
            s,
            n,
        ) - 1,
        (i >= n || (s[i] == 0) == (v == 0)) ==> set_cells_up_to(s.update(i, v), n)
            == set_cells_up_to(s, n),
    decreases n,
{
    if n > 0 {
        lemma_set_cells_update(s, i, v, n - 1);
    }
}

/// A strictly ascending run of digits 1..=9 has at most nine entries.
proof fn lemma_strict_sorted_few(s: Seq<u8>)
    requires
        forall|a: int, b: int| 0 <= a < b < s.len() ==> s[a] < s[b],
        forall|a: int| 0 <= a < s.len() ==> 1 <= #[trigger] s[a] <= 9,
    ensures
        s.len() <= 9,
{
    if s.len() > 9 {
        lemma_strict_sorted_climb(s, 9);
    }
}

/// In a strictly ascending positive run, the entry at index `a` is at least
/// `a + 1`.
proof fn lemma_strict_sorted_climb(s: Seq<u8>, a: int)
    requires
        forall|a2: int, b2: int| 0 <= a2 < b2 < s.len() ==> s[a2] < s[b2],
        forall|a2: int| 0 <= a2 < s.len() ==> 1 <= #[trigger] s[a2],
        0 <= a < s.len(),
    ensures
        s[a] >= a + 1,
    decreases a,
{
    if a > 0 {
        lemma_strict_sorted_climb(s, a - 1);
    }
}

/// Placing a free digit into an empty cell keeps the riddle invariant: the
/// new digit conflicts with nothing in its row, column or block, and every
/// other cell is unchanged.
pub proof fn lemma_place_free_value(s: Seq<u8>, r: int, c: int, v: u8)
    requires
        riddle_ok(s),
        0 <= r < 9,
        0 <= c < 9,
        cell(s, r, c) == 0,
        value_free(s, r, c, v),
    ensures
        riddle_ok(s.update(r * 9 + c, v)),
{
    let t = s.update(r * 9 + c, v);
    assert forall|r2: int, c2: int|
        0 <= r2 < 9 && 0 <= c2 < 9 implies #[trigger] cell(t, r2, c2) == if r2 == r && c2 == c {
        v
    } else {
        cell(s, r2, c2)
    } by {
        lemma_flat_injective(r, c, r2, c2);
    }
    assert forall|r2: int| 0 <= r2 < 9 implies row_ok(t, r2) by {
        assert forall|c1: int, c2: int|
            0 <= c1 < 9 && 0 <= c2 < 9 && c1 != c2 && #[trigger] cell(t, r2, c1) != 0 implies cell(
            t,
            r2,
            c1,
        ) != #[trigger] cell(t, r2, c2) by {
            assert(row_ok(s, r2));
            if r2 == r && c2 == c && cell(t, r2, c1) == v {
                assert(cell(s, r2, c1) == v);
                assert(in_row(s, r, v));
            }
            if r2 == r && c1 == c && cell(t, r2, c2) == v {
                assert(cell(s, r2, c2) == v);
                assert(in_row(s, r, v));
            }
        }
    }
    assert forall|c2: int| 0 <= c2 < 9 implies col_ok(t, c2) by {
        assert forall|r1: int, r2: int|
            0 <= r1 < 9 && 0 <= r2 < 9 && r1 != r2 && #[trigger] cell(t, r1, c2) != 0 implies cell(
            t,
            r1,
            c2,
        ) != #[trigger] cell(t, r2, c2) by {
            assert(col_ok(s, c2));
            if c2 == c && r2 == r && cell(t, r1, c2) == v {
                assert(cell(s, r1, c2) == v);
                assert(in_col(s, c, v));
            }
            if c2 == c && r1 == r && cell(t, r2, c2) == v {
                assert(cell(s, r2, c2) == v);
                assert(in_col(s, c, v));
            }
        }
    }
    assert forall|br: int, bc: int| 0 <= br < 3 && 0 <= bc < 3 implies block_ok(t, br, bc) by {
        assert forall|r1: int, c1: int, r2: int, c2: int|
            0 <= r1 < 9 && 0 <= c1 < 9 && 0 <= r2 < 9 && 0 <= c2 < 9 && r1 / 3 == br && c1 / 3
                == bc && r2 / 3 == br && c2 / 3 == bc && (r1, c1) != (r2, c2) && #[trigger] cell(
            t,
            r1,
            c1,
        ) != 0 implies cell(t, r1, c1) != #[trigger] cell(t, r2, c2) by {
            assert(block_ok(s, br, bc));
            if r2 == r && c2 == c && (cell(t, r1, c1) == v) {
                assert(block_base(r1) == block_base(r) && block_base(c1) == block_base(c));
                assert(cell(s, r1, c1) == v);
                assert(in_block(s, r, c, v));
            }
            if r1 == r && c1 == c && (cell(t, r2, c2) == v) {
                assert(block_base(r2) == block_base(r) && block_base(c2) == block_base(c));
                assert(cell(s, r2, c2) == v);
                assert(in_block(s, r, c, v));
            }
        }
    }
}

/// In any completion, the digit standing at a cell that the riddle leaves
/// empty is one that the riddle's own rules allow there.
pub proof fn lemma_completion_value_free(s: Seq<u8>, r: int, c: int, g: Seq<u8>)
    requires
        0 <= r < 9,
        0 <= c < 9,
        cell(s, r, c) == 0,
        is_completion(s, g),
    ensures
        value_free(s, r, c, cell(g, r, c)),
{
    let w = cell(g, r, c);
    assert(0 <= r * 9 + c < 81);
    assert(g[r * 9 + c] != 0);
    assert(1 <= w <= 9);
    if in_row(s, r, w) {
        let c2 = choose|c2: int| 0 <= c2 < 9 && #[trigger] cell(s, r, c2) == w;
        assert(c2 != c);
        assert(0 <= r * 9 + c2 < 81 && s[r * 9 + c2] == w);
        assert(cell(g, r, c2) == w);
        assert(row_ok(g, r));
        assert(false);
    }
    if in_col(s, c, w) {
        let r2 = choose|r2: int| 0 <= r2 < 9 && #[trigger] cell(s, r2, c) == w;
        assert(r2 != r);
        assert(0 <= r2 * 9 + c < 81 && s[r2 * 9 + c] == w);
        assert(cell(g, r2, c) == w);
        assert(col_ok(g, c));
        assert(false);
    }
    if in_block(s, r, c, w) {
        let (r2, c2) = choose|r2: int, c2: int|
            0 <= r2 < 9 && 0 <= c2 < 9 && block_base(r2) == block_base(r) && block_base(c2)
                == block_base(c) && #[trigger] cell(s, r2, c2) == w;
        assert((r2, c2) != (r, c));
        assert(0 <= r2 * 9 + c2 < 81 && s[r2 * 9 + c2] == w);
        assert(cell(g, r2, c2) == w);
        assert(r2 / 3 == r / 3 && c2 / 3 == c / 3);
        assert(block_ok(g, r / 3, c / 3));
        assert(false);
    }
}

/// Emptying any one cell keeps the riddle invariant.
pub proof fn lemma_clear_cell(s: Seq<u8>, r: int, c: int)
    requires
        riddle_ok(s),
        0 <= r < 9,
        0 <= c < 9,
    ensures
        riddle_ok(s.update(r * 9 + c, 0)),
{
    let t = s.update(r * 9 + c, 0);
    assert forall|r2: int, c2: int|
        0 <= r2 < 9 && 0 <= c2 < 9 implies #[trigger] cell(t, r2, c2) == if r2 == r && c2 == c {
        0u8
    } else {
        cell(s, r2, c2)
    } by {
        lemma_flat_injective(r, c, r2, c2);
    }
    assert forall|r2: int| 0 <= r2 < 9 implies row_ok(t, r2) by {
        assert forall|c1: int, c2: int|
            0 <= c1 < 9 && 0 <= c2 < 9 && c1 != c2 && #[trigger] cell(t, r2, c1) != 0 implies cell(
            t,
            r2,
            c1,
        ) != #[trigger] cell(t, r2, c2) by {
            assert(row_ok(s, r2));
            if !(r2 == r && c1 == c) {
                assert(cell(t, r2, c1) == cell(s, r2, c1));
                if !(r2 == r && c2 == c) {
                    assert(cell(t, r2, c2) == cell(s, r2, c2));
                }
            }
        }
    }
    assert forall|c2: int| 0 <= c2 < 9 implies col_ok(t, c2) by {
        assert forall|r1: int, r2: int|
            0 <= r1 < 9 && 0 <= r2 < 9 && r1 != r2 && #[trigger] cell(t, r1, c2) != 0 implies cell(
            t,
            r1,
            c2,
        ) != #[trigger] cell(t, r2, c2) by {
            assert(col_ok(s, c2));
            if !(r1 == r && c2 == c) {
                assert(cell(t, r1, c2) == cell(s, r1, c2));
                if !(r2 == r && c2 == c) {
                    assert(cell(t, r2, c2) == cell(s, r2, c2));
                }
            }
        }
    }
    assert forall|br: int, bc: int| 0 <= br < 3 && 0 <= bc < 3 implies block_ok(t, br, bc) by {
        assert forall|r1: int, c1: int, r2: int, c2: int|
            0 <= r1 < 9 && 0 <= c1 < 9 && 0 <= r2 < 9 && 0 <= c2 < 9 && r1 / 3 == br && c1 / 3
                == bc && r2 / 3 == br && c2 / 3 == bc && (r1, c1) != (r2, c2) && #[trigger] cell(
            t,
            r1,
            c1,
        ) != 0 implies cell(t, r1, c1) != #[trigger] cell(t, r2, c2) by {
            assert(block_ok(s, br, bc));
            if !(r1 == r && c1 == c) {
                assert(cell(t, r1, c1) == cell(s, r1, c1));
                if !(r2 == r && c2 == c) {
                    assert(cell(t, r2, c2) == cell(s, r2, c2));
                }
            }
        }
    }
}

/// The corner of block (`br`, `bc`) rounds to itself.
proof fn lemma_block_corner(br: int, bc: int)
    requires
        0 <= br < 3,
        0 <= bc < 3,
    ensures
        block_base(3 * br) == 3 * br,
        block_base(3 * bc) == 3 * bc,
{
    assert((3 * br) % 3 == 0 && (3 * bc) % 3 == 0) by (nonlinear_arith)
        requires
            0 <= br < 3,
            0 <= bc < 3,
    ;
}

/// The cell at offset `m` of block (`br`, `bc`) lies in that block.
proof fn lemma_block_index(br: int, bc: int, m: int)
    requires
        0 <= br < 3,
        0 <= bc < 3,
        0 <= m < 9,
    ensures
        0 <= 3 * br + m / 3 < 9,
        0 <= 3 * bc + m % 3 < 9,
        (3 * br + m / 3) / 3 == br,
        (3 * bc + m % 3) / 3 == bc,
        block_base(3 * br) + m / 3 == 3 * br + m / 3,
        block_base(3 * bc) + m % 3 == 3 * bc + m % 3,
{
    lemma_block_corner(br, bc);
    assert(0 <= 3 * br + m / 3 < 9 && 0 <= 3 * bc + m % 3 < 9 && (3 * br + m / 3) / 3 == br && (3
        * bc + m % 3) / 3 == bc) by (nonlinear_arith)
        requires
            0 <= br < 3,
            0 <= bc < 3,
            0 <= m < 9,
    ;
}

/// A cell of block (`br`, `bc`) stands at one offset of that block's nine.
proof fn lemma_block_coord(br: int, bc: int, r: int, c: int) -> (m: int)
    requires
        0 <= r < 9,
        0 <= c < 9,
        r / 3 == br,
        c / 3 == bc,
    ensures
        0 <= m < 9,
        3 * br + m / 3 == r,
        3 * bc + m % 3 == c,
        block_base(3 * br) + m / 3 == r,
        block_base(3 * bc) + m % 3 == c,
{
    lemma_block_corner(br, bc);
    let m = 3 * (r - 3 * br) + (c - 3 * bc);
    assert(0 <= m < 9 && 3 * br + m / 3 == r && 3 * bc + m % 3 == c) by (nonlinear_arith)
        requires
            0 <= r < 9,
            0 <= c < 9,
            r / 3 == br,
            c / 3 == bc,
            m == 3 * (r - 3 * br) + (c - 3 * bc),
    ;
    m
}

/// Two distinct in-range coordinate pairs have distinct flat indices.
pub proof fn lemma_flat_injective(r1: int, c1: int, r2: int, c2: int)
    requires
        0 <= r1 < 9,
        0 <= c1 < 9,
        0 <= r2 < 9,
        0 <= c2 < 9,
    ensures
        (r1 * 9 + c1 == r2 * 9 + c2) <==> (r1 == r2 && c1 == c2),
{
    lemma_row_major(r1, c1);
    lemma_row_major(r2, c2);
}

/// The flat index of row `r`, column `c` decomposes back into `r` and `c`.
proof fn lemma_row_major(r: int, c: int)
    requires
        0 <= r < 9,
        0 <= c < 9,
    ensures
        (r * 9 + c) / 9 == r,
        (r * 9 + c) % 9 == c,
{
    assert((r * 9 + c) / 9 == r && (r * 9 + c) % 9 == c) by (nonlinear_arith)
        requires
            0 <= r < 9,
            0 <= c < 9,
    ;
}

} // verus!
