//! Game board logic: the 9x9 grid, its well-formedness, and the
//! row/column/box placement constraint.
//!
//! The grid is stored row-major in a flat vector of 81 cells; a cell value of
//! 0 means empty, 1..=9 are the placed numerals.  Throughout, `row`/`y` is the
//! first coordinate and `col`/`x` the second; public cell accessors take
//! `(x, y)` (column, row) as the rest of the crate's callers do.

use vstd::pervasive::VecAdditionalExecFns;
use vstd::prelude::*;

verus! {

/// Edge length of the board.
pub const SIZE: usize = 9;

/// Default number of holes dug when generating a puzzle.
pub const DEFAULT_HOLES: usize = 40;

/// A sequence is a well-formed board: 81 cells, each 0 (empty) or 1..=9.
pub open spec fn is_grid(s: Seq<u8>) -> bool {
    &&& s.len() == 81
    &&& forall|i: int| 0 <= i < 81 ==> #[trigger] s[i] <= 9
}

/// The cell of `s` at (row `r`, column `c`).
pub open spec fn cell(s: Seq<u8>, r: int, c: int) -> u8 {
    s[r * 9 + c]
}

/// (r, c) is a board position.
pub open spec fn in_range(r: int, c: int) -> bool {
    0 <= r < 9 && 0 <= c < 9
}

/// Two distinct positions share a row, a column, or a 3x3 box.
pub open spec fn sees(r1: int, c1: int, r2: int, c2: int) -> bool {
    &&& !(r1 == r2 && c1 == c2)
    &&& (r1 == r2 || c1 == c2 || (r1 / 3 == r2 / 3 && c1 / 3 == c2 / 3))
}

/// Placing `num` at (r, c) would not duplicate `num` elsewhere in its row,
/// column, or box; the cell (r, c) itself is not consulted.
pub open spec fn valid_at(s: Seq<u8>, r: int, c: int, num: u8) -> bool {
    forall|r2: int, c2: int|
        in_range(r2, c2) && sees(r, c, r2, c2) ==> #[trigger] cell(s, r2, c2) != num
}

/// The value written at (r, c) does not clash with any peer cell.
pub open spec fn ok_at(s: Seq<u8>, r: int, c: int) -> bool {
    valid_at(s, r, c, cell(s, r, c))
}

/// No two equal non-empty values share a row, column, or box.
pub open spec fn consistent(s: Seq<u8>) -> bool {
    forall|r: int, c: int|
        in_range(r, c) && cell(s, r, c) != 0 ==> #[trigger] ok_at(s, r, c)
}

/// Every cell is filled.
pub open spec fn full(s: Seq<u8>) -> bool {
    forall|i: int| 0 <= i < 81 ==> #[trigger] s[i] != 0
}

/// A completely filled board in which every row, column, and box is free of
/// duplicates, i.e. holds each of 1..=9 exactly once.
pub open spec fn solved(s: Seq<u8>) -> bool {
    is_grid(s) && full(s) && consistent(s)
}

/// `s` agrees with `base` on every non-empty cell of `base`.
pub open spec fn extends(base: Seq<u8>, s: Seq<u8>) -> bool {
    forall|i: int| 0 <= i < 81 && #[trigger] base[i] != 0 ==> s[i] == base[i]
}

/// `s` is a full well-formed board extending `g` (it need not be free of
/// clashes that `g` itself already contains).
pub open spec fn completion_of(g: Seq<u8>, s: Seq<u8>) -> bool {
    is_grid(s) && full(s) && extends(g, s)
}

/// `s` solves the puzzle `g`: a solved board extending `g`.
pub open spec fn solution_for(g: Seq<u8>, s: Seq<u8>) -> bool {
    solved(s) && extends(g, s)
}

/// Some solution of `g` exists.
pub open spec fn solvable(g: Seq<u8>) -> bool {
    exists|s: Seq<u8>| solution_for(g, s)
}

/// The character displayed for a numeral 1..=9.
pub open spec fn digit_char(v: u8) -> char {
    if v == 1 { '1' } else if v == 2 { '2' } else if v == 3 { '3' }
    else if v == 4 { '4' } else if v == 5 { '5' } else if v == 6 { '6' }
    else if v == 7 { '7' } else if v == 8 { '8' } else { '9' }
}

/// Nine pairwise-distinct values drawn from 1..=9 cover every digit 1..=9.
proof fn lemma_nine_distinct_cover(vals: Seq<int>, d: int)
    requires
        vals.len() == 9,
        forall|i: int| 0 <= i < 9 ==> 1 <= #[trigger] vals[i] <= 9,
        forall|i: int, j: int| 0 <= i < j < 9 ==> vals[i] != vals[j],
        1 <= d <= 9,
    ensures
        vals.contains(d),
{
    broadcast use vstd::set::group_set_axioms;

    if !vals.contains(d) {
        assert(vals.no_duplicates());
        vals.unique_seq_to_set();
        let found = vals.to_set();
        let digits = vstd::set_lib::set_int_range(1, 10);
        vstd::set_lib::lemma_int_range(1, 10);
        let rest = digits.remove(d);
        assert(digits.contains(d));
        assert(rest.len() == 8);
        assert forall|v: int| found.contains(v) implies rest.contains(v) by {
            let i = choose|i: int| 0 <= i < vals.len() && vals[i] == v;
            assert(1 <= v <= 9);
            assert(v != d);
        }
        vstd::set_lib::lemma_len_subset(found, rest);
        assert(found.len() == 9);
        assert(false);
    }
}

/// Row `r` holds digit `d` somewhere.
pub open spec fn row_has(s: Seq<u8>, r: int, d: u8) -> bool {
    exists|c: int| 0 <= c < 9 && #[trigger] cell(s, r, c) == d
}

/// Column `c` holds digit `d` somewhere.
pub open spec fn col_has(s: Seq<u8>, c: int, d: u8) -> bool {
    exists|r: int| 0 <= r < 9 && #[trigger] cell(s, r, c) == d
}

/// The 3x3 box with corner (3*br, 3*bc) holds digit `d` somewhere.
pub open spec fn box_has(s: Seq<u8>, br: int, bc: int, d: u8) -> bool {
    exists|r: int, c: int|
        3 * br <= r < 3 * br + 3 && 3 * bc <= c < 3 * bc + 3 && #[trigger] cell(s, r, c) == d
}

/// A solved board holds each digit 1..=9 in every row, every column, and
/// every 3x3 box; together with the freedom from duplicates that `solved`
/// states, each digit appears there exactly once.
pub proof fn lemma_solved_units_complete(s: Seq<u8>, d: u8)
    requires
        solved(s),
        1 <= d <= 9,
    ensures
        forall|r: int| 0 <= r < 9 ==> #[trigger] row_has(s, r, d),
        forall|c: int| 0 <= c < 9 ==> #[trigger] col_has(s, c, d),
        forall|br: int, bc: int| 0 <= br < 3 && 0 <= bc < 3 ==> #[trigger] box_has(s, br, bc, d),
{
    assert forall|r: int| 0 <= r < 9 implies #[trigger] row_has(s, r, d) by {
        let vals = Seq::new(9, |c: int| cell(s, r, c) as int);
        assert forall|i: int| 0 <= i < 9 implies 1 <= #[trigger] vals[i] <= 9 by {
            assert(s[r * 9 + i] != 0);
            assert(s[r * 9 + i] <= 9);
        }
        assert forall|i: int, j: int| 0 <= i < j < 9 implies vals[i] != vals[j] by {
            assert(s[r * 9 + i] != 0);
            assert(sees(r, i, r, j));
            assert(ok_at(s, r, i));
            assert(cell(s, r, j) != cell(s, r, i));
        }
        lemma_nine_distinct_cover(vals, d as int);
        let c = choose|i: int| 0 <= i < vals.len() && vals[i] == d as int;
        assert(cell(s, r, c) == d);
    }
    assert forall|c: int| 0 <= c < 9 implies #[trigger] col_has(s, c, d) by {
        let vals = Seq::new(9, |r: int| cell(s, r, c) as int);
        assert forall|i: int| 0 <= i < 9 implies 1 <= #[trigger] vals[i] <= 9 by {
            assert(s[i * 9 + c] != 0);
            assert(s[i * 9 + c] <= 9);
        }
        assert forall|i: int, j: int| 0 <= i < j < 9 implies vals[i] != vals[j] by {
            assert(s[i * 9 + c] != 0);
            assert(sees(i, c, j, c));
            assert(ok_at(s, i, c));
            assert(cell(s, j, c) != cell(s, i, c));
        }
        lemma_nine_distinct_cover(vals, d as int);
        let r = choose|i: int| 0 <= i < vals.len() && vals[i] == d as int;
        assert(cell(s, r, c) == d);
    }
    assert forall|br: int, bc: int| 0 <= br < 3 && 0 <= bc < 3
        implies #[trigger] box_has(s, br, bc, d) by {
        let vals = Seq::new(9, |t: int| cell(s, 3 * br + t / 3, 3 * bc + t % 3) as int);
        assert forall|i: int| 0 <= i < 9 implies 1 <= #[trigger] vals[i] <= 9 by {
            let r = 3 * br + i / 3;
            let c = 3 * bc + i % 3;
            assert(in_range(r, c));
            assert(s[r * 9 + c] != 0);
            assert(s[r * 9 + c] <= 9);
            assert(vals[i] == cell(s, r, c) as int);
        }
        assert forall|i: int, j: int| 0 <= i < j < 9 implies vals[i] != vals[j] by {
            let r1 = 3 * br + i / 3;
            let c1 = 3 * bc + i % 3;
            let r2 = 3 * br + j / 3;
            let c2 = 3 * bc + j % 3;
            assert(in_range(r1, c1) && in_range(r2, c2));
            assert(r1 / 3 == br && r2 / 3 == br && c1 / 3 == bc && c2 / 3 == bc);
            assert(!(r1 == r2 && c1 == c2));
            assert(sees(r1, c1, r2, c2));
            assert(s[r1 * 9 + c1] != 0);
            assert(ok_at(s, r1, c1));
            assert(cell(s, r2, c2) != cell(s, r1, c1));
        }
        lemma_nine_distinct_cover(vals, d as int);
        let t = choose|i: int| 0 <= i < vals.len() && vals[i] == d as int;
        let r = 3 * br + t / 3;
        let c = 3 * bc + t % 3;
        assert(cell(s, r, c) == d);
    }
}

/// Store game board information: a flat, row-major 9x9 cell matrix.
#[derive(Clone)]
pub struct Gameboard {
    /// The cells, row-major; `cells[y * 9 + x]` is column `x` of row `y`.
    /// 0 is an empty cell.
    pub cells: Vec<u8>,
}

impl View for Gameboard {
    type V = Seq<u8>;

    open spec fn view(&self) -> Seq<u8> {
        self.cells@
    }
}

impl Gameboard {
    /// The board holds 81 cells, each 0..=9.
    pub open spec fn wf(&self) -> bool {
        is_grid(self@)
    }

    /// Create a new, empty game board.
    pub fn new() -> (r: Gameboard)
        ensures
            r.wf(),
            forall|i: int| 0 <= i < 81 ==> r@[i] == 0,
    {
        let mut cells: Vec<u8> = Vec::new();
        let mut i: usize = 0;
        while i < 81
            invariant
                i <= 81,
                cells@.len() == i,
                forall|j: int| 0 <= j < i ==> cells@[j] == 0,
            decreases 81 - i,
        {
            cells.push(0);
            i += 1;
        }
        Gameboard { cells }
    }

    /// Create a game board from an existing flat, row-major cell vector.
    pub fn from_cells(cells: Vec<u8>) -> (r: Gameboard)
        requires
            is_grid(cells@),
        ensures
            r.wf(),
            r@ == cells@,
    {
        Gameboard { cells }
    }

    /// A fresh board whose cells equal this one's.
    pub fn duplicate(&self) -> (r: Gameboard)
        requires
            self.wf(),
        ensures
            r.wf(),
            r@ == self@,
    {
        let mut cells: Vec<u8> = Vec::new();
        let mut i: usize = 0;
        while i < 81
            invariant
                self.wf(),
                i <= 81,
                cells@.len() == i,
                forall|j: int| 0 <= j < i ==> cells@[j] == self@[j],
            decreases 81 - i,
        {
            cells.push(self.cells[i]);
            i += 1;
        }
        let r = Gameboard { cells };
        proof {
            assert(r@ =~= self@);
        }
        r
    }

    /// Gets the character at cell location (column `x`, row `y`).
    pub fn char(&self, x: usize, y: usize) -> (r: Option<char>)
        requires
            self.wf(),
            x < 9,
            y < 9,
        ensures
            r == (if 1 <= cell(self@, y as int, x as int) <= 9 {
                Some(digit_char(cell(self@, y as int, x as int)))
            } else {
                None::<char>
            }),
    {
        match self.cells[y * 9 + x] {
            1 => Some('1'),
            2 => Some('2'),
            3 => Some('3'),
            4 => Some('4'),
            5 => Some('5'),
            6 => Some('6'),
            7 => Some('7'),
            8 => Some('8'),
            9 => Some('9'),
            _ => None,
        }
    }

    /// Set the cell at (column `x`, row `y`); 0 clears it.  Unconditional
    /// overwrite: callers wanting legality ask `is_valid_move` themselves.
    pub fn set(&mut self, x: usize, y: usize, val: u8)
        requires
            old(self).wf(),
            x < 9,
            y < 9,
            val <= 9,
        ensures
            final(self).wf(),
            final(self)@ == old(self)@.update(y * 9 + x, val),
    {
        self.cells.set(y * 9 + x, val);
    }

    /// True iff `num` does not already appear elsewhere in row `row`, column
    /// `col`, or their 3x3 box; the value at (row, col) itself is ignored.
    pub fn is_valid_move(&self, row: usize, col: usize, num: u8) -> (r: bool)
        requires
            self.wf(),
            row < 9,
            col < 9,
        ensures
            r == valid_at(self@, row as int, col as int, num),
    {
        let mut i: usize = 0;
        while i < 9
            invariant
                self.wf(),
                row < 9,
                col < 9,
                i <= 9,
                forall|j: int| 0 <= j < i && j != col ==> cell(self@, row as int, j) != num,
                forall|j: int| 0 <= j < i && j != row ==> cell(self@, j, col as int) != num,
            decreases 9 - i,
        {
            if i != col && self.cells[row * 9 + i] == num {
                proof {
                    assert(sees(row as int, col as int, row as int, i as int));
                    assert(cell(self@, row as int, i as int) == num);
                }
                return false;
            }
            if i != row && self.cells[i * 9 + col] == num {
                proof {
                    assert(sees(row as int, col as int, i as int, col as int));
                    assert(cell(self@, i as int, col as int) == num);
                }
                return false;
            }
            i += 1;
        }
        let box_row = row / 3 * 3;
        let box_col = col / 3 * 3;
        let mut r = box_row;
        while r < box_row + 3
            invariant
                self.wf(),
                row < 9,
                col < 9,
                box_row == row / 3 * 3,
                box_col == col / 3 * 3,
                box_row <= r <= box_row + 3,
                forall|j: int| 0 <= j < 9 && j != col ==> cell(self@, row as int, j) != num,
                forall|j: int| 0 <= j < 9 && j != row ==> cell(self@, j, col as int) != num,
                forall|r2: int, c2: int|
                    box_row <= r2 < r && box_col <= c2 < box_col + 3
                        && !(r2 == row && c2 == col) ==> #[trigger] cell(self@, r2, c2) != num,
            decreases box_row + 3 - r,
        {
            let mut c = box_col;
            while c < box_col + 3
                invariant
                    self.wf(),
                    row < 9,
                    col < 9,
                    box_row == row / 3 * 3,
                    box_col == col / 3 * 3,
                    box_row <= r < box_row + 3,
                    box_col <= c <= box_col + 3,
                    forall|r2: int, c2: int|
                        box_row <= r2 < r && box_col <= c2 < box_col + 3
                            && !(r2 == row && c2 == col) ==> #[trigger] cell(self@, r2, c2) != num,
                    forall|c2: int|
                        box_col <= c2 < c && !(r == row && c2 == col)
                            ==> #[trigger] cell(self@, r as int, c2) != num,
                decreases box_col + 3 - c,
            {
                if !(r == row && c == col) && self.cells[r * 9 + c] == num {
                    proof {
                        assert(r as int / 3 == row as int / 3);
                        assert(c as int / 3 == col as int / 3);
                        assert(sees(row as int, col as int, r as int, c as int));
                        assert(cell(self@, r as int, c as int) == num);
                    }
                    return false;
                }
                c += 1;
            }
            r += 1;
        }
        proof {
            assert forall|r2: int, c2: int|
                in_range(r2, c2) && sees(row as int, col as int, r2, c2)
                implies cell(self@, r2, c2) != num by {
                if r2 == row {
                    assert(c2 != col);
                } else if c2 == col {
                    assert(r2 != row);
                } else {
                    assert(r2 / 3 == row as int / 3 && c2 / 3 == col as int / 3);
                    assert(box_row <= r2 < box_row + 3) by {
                        assert(r2 == 3 * (r2 / 3) + r2 % 3);
                        assert(row as int == 3 * (row as int / 3) + row as int % 3);
                    }
                    assert(box_col <= c2 < box_col + 3) by {
                        assert(c2 == 3 * (c2 / 3) + c2 % 3);
                        assert(col as int == 3 * (col as int / 3) + col as int % 3);
                    }
                }
            }
        }
        true
    }
}

} // verus!
