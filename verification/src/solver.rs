//! Exhaustive backtracking solver over a `Gameboard`, solving in place.
//!
//! `solve` scans row-major for the first empty cell, tries candidates 1..=9
//! in ascending order, and backtracks.  Its contract carries both soundness
//! (a `true` answer on a clash-free board leaves a solved board that keeps
//! every originally non-empty cell) and completeness (a `false` answer means
//! no solution exists at all, and the board is left exactly as it was).

use vstd::prelude::*;

use crate::gameboard::Gameboard;
use crate::gameboard::cell;
use crate::gameboard::consistent;
use crate::gameboard::extends;
use crate::gameboard::completion_of;
use crate::gameboard::full;
use crate::gameboard::in_range;
use crate::gameboard::is_grid;
use crate::gameboard::ok_at;
use crate::gameboard::sees;
use crate::gameboard::solution_for;
use crate::gameboard::solvable;
use crate::gameboard::solved;
use crate::gameboard::valid_at;

verus! {

/// Number of empty cells of a board, the solver's termination measure.
pub open spec fn empty_count(s: Seq<u8>) -> nat
    decreases s.len(),
{
    if s.len() == 0 {
        0
    } else {
        empty_count(s.drop_last()) + (if s.last() == 0 { 1nat } else { 0nat })
    }
}

/// Writing a numeral into an empty cell lowers the empty count by one.
pub proof fn lemma_empty_count_update(s: Seq<u8>, i: int, v: u8)
    requires
        0 <= i < s.len(),
        s[i] == 0,
        v != 0,
    ensures
        empty_count(s.update(i, v)) + 1 == empty_count(s),
    decreases s.len(),
{
    let t = s.update(i, v);
    if i == s.len() - 1 {
        assert(t.drop_last() =~= s.drop_last());
        assert(t.last() == v);
    } else {
        assert(t.drop_last() =~= s.drop_last().update(i, v));
        assert(t.last() == s.last());
        lemma_empty_count_update(s.drop_last(), i, v);
    }
}

/// In any solution of `g`, the value taken by an empty cell of `g` is a
/// numeral that `g` itself accepts at that cell.
pub proof fn lemma_solution_cell_valid(g: Seq<u8>, s: Seq<u8>, r: int, c: int)
    requires
        is_grid(g),
        solution_for(g, s),
        in_range(r, c),
        cell(g, r, c) == 0,
    ensures
        1 <= cell(s, r, c) <= 9,
        valid_at(g, r, c, cell(s, r, c)),
{
    let v = cell(s, r, c);
    assert(0 <= r * 9 + c < 81);
    assert(s[r * 9 + c] != 0);
    assert(s[r * 9 + c] <= 9);
    assert forall|r2: int, c2: int|
        in_range(r2, c2) && sees(r, c, r2, c2) implies #[trigger] cell(g, r2, c2) != v by {
        if cell(g, r2, c2) == v {
            assert(g[r2 * 9 + c2] != 0);
            assert(cell(s, r2, c2) == v);
            assert(ok_at(s, r, c));
            assert(cell(s, r2, c2) != v);
        }
    }
}

/// A board with a solution is itself free of clashes among its placed values.
pub proof fn lemma_solvable_consistent(g: Seq<u8>)
    requires
        is_grid(g),
        solvable(g),
    ensures
        consistent(g),
{
    let s = choose|s: Seq<u8>| solution_for(g, s);
    assert forall|r: int, c: int|
        in_range(r, c) && cell(g, r, c) != 0 implies #[trigger] ok_at(g, r, c) by {
        let v = cell(g, r, c);
        assert(g[r * 9 + c] != 0);
        assert(cell(s, r, c) == v);
        assert forall|r2: int, c2: int|
            in_range(r2, c2) && sees(r, c, r2, c2) implies #[trigger] cell(g, r2, c2) != v by {
            if cell(g, r2, c2) == v {
                assert(g[r2 * 9 + c2] != 0);
                assert(cell(s, r2, c2) == v);
                assert(ok_at(s, r, c));
            }
        }
    }
}

/// Placing an accepted numeral in an empty cell of a clash-free board leaves
/// the board clash-free.
pub proof fn lemma_place_consistent(g: Seq<u8>, r: int, c: int, num: u8)
    requires
        is_grid(g),
        consistent(g),
        in_range(r, c),
        cell(g, r, c) == 0,
        1 <= num <= 9,
        valid_at(g, r, c, num),
    ensures
        consistent(g.update(r * 9 + c, num)),
{
    let g2 = g.update(r * 9 + c, num);
    assert forall|r2: int, c2: int|
        in_range(r2, c2) && cell(g2, r2, c2) != 0 implies #[trigger] ok_at(g2, r2, c2) by {
        if r2 == r && c2 == c {
            assert(cell(g2, r, c) == num);
            assert forall|r3: int, c3: int|
                in_range(r3, c3) && sees(r2, c2, r3, c3)
                implies #[trigger] cell(g2, r3, c3) != cell(g2, r2, c2) by {
                lemma_index_inj_contra(r, c, r3, c3);
                assert(cell(g2, r3, c3) == cell(g, r3, c3));
                assert(cell(g, r3, c3) != num);
            }
        } else {
            lemma_index_inj_contra(r, c, r2, c2);
            let v = cell(g, r2, c2);
            assert(cell(g2, r2, c2) == v);
            assert(ok_at(g, r2, c2));
            assert forall|r3: int, c3: int|
                in_range(r3, c3) && sees(r2, c2, r3, c3)
                implies #[trigger] cell(g2, r3, c3) != cell(g2, r2, c2) by {
                if r3 == r && c3 == c {
                    assert(sees(r, c, r2, c2));
                    assert(cell(g, r2, c2) != num);
                    assert(cell(g2, r3, c3) == num);
                } else {
                    lemma_index_inj_contra(r, c, r3, c3);
                    assert(cell(g2, r3, c3) == cell(g, r3, c3));
                    assert(cell(g, r3, c3) != v);
                }
            }
        }
    }
}

/// Distinct positions never alias through the flat index.
proof fn lemma_index_inj_contra(r1: int, c1: int, r2: int, c2: int)
    requires
        in_range(r1, c1),
        in_range(r2, c2),
        !(r1 == r2 && c1 == c2),
    ensures
        r1 * 9 + c1 != r2 * 9 + c2,
{
}

/// On a board with exactly one solution, the deterministic ascending search
/// succeeds and leaves exactly that solution on the board.
pub fn solve_pins_unique_solution(b: &mut Gameboard, Ghost(s): Ghost<Seq<u8>>)
    requires
        old(b).wf(),
        solution_for(old(b)@, s),
        forall|t: Seq<u8>| #[trigger] solution_for(old(b)@, t) ==> t == s,
    ensures
        final(b).wf(),
        final(b)@ == s,
{
    let ghost g0 = b@;
    let r = b.solve();
    proof {
        assert(solvable(g0));
        assert(r);
        lemma_solvable_consistent(g0);
        assert(solution_for(g0, b@));
    }
}

impl Gameboard {
    /// First empty cell in row-major scan order, if any.
    pub(crate) fn first_empty(&self) -> (r: Option<usize>)
        requires
            self.wf(),
        ensures
            match r {
                Some(i) => i < 81 && self@[i as int] == 0
                    && forall|j: int| 0 <= j < i ==> self@[j] != 0,
                None => full(self@),
            },
    {
        let mut k: usize = 0;
        while k < 81
            invariant
                self.wf(),
                k <= 81,
                forall|j: int| 0 <= j < k ==> self@[j] != 0,
            decreases 81 - k,
        {
            if self.cells[k] == 0 {
                return Some(k);
            }
            k += 1;
        }
        None
    }

    /// Solve the board in place by backtracking search with ascending digit
    /// order.  On `true`, the board is a full extension of the input, and a
    /// solved one whenever the input was free of clashes.  On `false`, no
    /// solution of the input exists and the board is left unchanged.
    pub fn solve(&mut self) -> (r: bool)
        requires
            old(self).wf(),
        ensures
            final(self).wf(),
            r ==> completion_of(old(self)@, final(self)@),
            r && consistent(old(self)@) ==> solution_for(old(self)@, final(self)@),
            !r ==> final(self)@ == old(self)@,
            !r ==> !solvable(old(self)@),
        decreases empty_count(old(self)@),
    {
        let ghost g0 = self@;
        match self.first_empty() {
            None => {
                proof {
                    assert(extends(g0, g0));
                    if consistent(g0) {
                        assert(solved(g0));
                    }
                }
                true
            },
            Some(idx) => {
                let row = idx / 9;
                let col = idx % 9;
                proof {
                    assert(row * 9 + col == idx);
                }
                let mut num: u8 = 1;
                while num <= 9
                    invariant
                        self.wf(),
                        self@ == g0,
                        g0 == old(self)@,
                        is_grid(g0),
                        idx < 81,
                        row == idx / 9,
                        col == idx % 9,
                        row < 9,
                        col < 9,
                        g0[idx as int] == 0,
                        1 <= num <= 10,
                        forall|s: Seq<u8>|
                            #[trigger] solution_for(g0, s) ==> !(s[idx as int] < num),
                    decreases 10 - num,
                {
                    if self.is_valid_move(row, col, num) {
                        self.set(col, row, num);
                        let ghost g1 = self@;
                        proof {
                            assert(g1 == g0.update(idx as int, num));
                            lemma_empty_count_update(g0, idx as int, num);
                        }
                        if self.solve() {
                            proof {
                                assert(completion_of(g1, self@));
                                assert forall|i: int| 0 <= i < 81 && #[trigger] g0[i] != 0
                                    implies self@[i] == g0[i] by {
                                    assert(g1[i] == g0[i]);
                                }
                                assert(completion_of(g0, self@));
                                if consistent(g0) {
                                    lemma_place_consistent(
                                        g0, row as int, col as int, num,
                                    );
                                    assert(consistent(g1));
                                    assert(solution_for(g1, self@));
                                    assert(solution_for(g0, self@));
                                }
                            }
                            return true;
                        }
                        self.set(col, row, 0);
                        proof {
                            assert(self@ =~= g0);
                            assert forall|s: Seq<u8>| #[trigger] solution_for(g0, s)
                                implies !(s[idx as int] < num + 1) by {
                                if s[idx as int] == num {
                                    assert forall|i: int| 0 <= i < 81 && #[trigger] g1[i] != 0
                                        implies s[i] == g1[i] by {
                                        if i == idx as int {
                                            assert(s[i] == num);
                                        } else {
                                            assert(g0[i] == g1[i]);
                                        }
                                    }
                                    assert(extends(g1, s));
                                    assert(solution_for(g1, s));
                                    assert(solvable(g1));
                                    assert(false);
                                }
                            }
                        }
                    } else {
                        proof {
                            assert forall|s: Seq<u8>| #[trigger] solution_for(g0, s)
                                implies !(s[idx as int] < num + 1) by {
                                if s[idx as int] == num {
                                    lemma_solution_cell_valid(g0, s, row as int, col as int);
                                    assert(cell(s, row as int, col as int) == num);
                                    assert(valid_at(g0, row as int, col as int, num));
                                }
                            }
                        }
                    }
                    num += 1;
                }
                proof {
                    assert forall|s: Seq<u8>| !#[trigger] solution_for(g0, s) by {
                        if solution_for(g0, s) {
                            lemma_solution_cell_valid(g0, s, row as int, col as int);
                            assert(1 <= s[idx as int] <= 9);
                            assert(!(s[idx as int] < 10));
                        }
                    }
                    assert(!solvable(g0));
                }
                false
            },
        }
    }
}

} // verus!
