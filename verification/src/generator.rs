//! Puzzle generation: fill an empty board by backtracking with a randomized
//! candidate order per cell, then dig a requested number of holes at
//! positions drawn by a full shuffle of all 81 cells.
//!
//! Randomness comes from the rand crate behind a single trusted wrapper,
//! `shuffle_vec`, whose contract only says that shuffling permutes the
//! elements; every proof here holds for every permutation it may produce.

use vstd::prelude::*;
use vstd::seq_lib::group_to_multiset_ensures;

use crate::gameboard::Gameboard;
use crate::gameboard::cell;
use crate::gameboard::consistent;
use crate::gameboard::extends;
use crate::gameboard::completion_of;
use crate::gameboard::full;
use crate::gameboard::in_range;
use crate::gameboard::is_grid;
use crate::gameboard::ok_at;
use crate::gameboard::sees;
use crate::gameboard::solution_for;
use crate::gameboard::solvable;
use crate::gameboard::solved;
use crate::gameboard::valid_at;
use crate::solver::empty_count;
use crate::solver::lemma_place_consistent;
use crate::solver::lemma_solution_cell_valid;

verus! {

/// Relies on rand's `SliceRandom::shuffle` (seeded from `rand::thread_rng`):
/// it permutes the slice in place by element swaps, so the multiset of
/// elements is unchanged.  Nothing is assumed about the order produced.
#[verifier::external_body]
fn shuffle_vec<T>(v: &mut Vec<T>)
    ensures
        final(v)@.to_multiset() == old(v)@.to_multiset(),
{
    rand::seq::SliceRandom::shuffle(v.as_mut_slice(), &mut rand::thread_rng());
}

/// The row offset pattern of the reference solved board.
pub open spec fn canon_base(r: int) -> int {
    (r % 3) * 3 + r / 3
}

/// Cell (r, c) of the reference solved board.
pub open spec fn canon_cell(r: int, c: int) -> u8 {
    (((canon_base(r) + c) % 9) + 1) as u8
}

/// A concrete solved board, witnessing that an empty board is solvable.
pub open spec fn canon_grid() -> Seq<u8> {
    Seq::new(81, |i: int| canon_cell(i / 9, i % 9))
}

/// Two numbers at distance less than 9 with distinct values have distinct
/// residues modulo 9.
proof fn lemma_mod9_distinct(a: int, b: int)
    requires
        0 <= a,
        0 <= b,
        a != b,
        -9 < a - b < 9,
    ensures
        a % 9 != b % 9,
{
    assert(a == 9 * (a / 9) + a % 9);
    assert(b == 9 * (b / 9) + b % 9);
}

/// The row offsets of the reference board are pairwise distinct.
proof fn lemma_canon_base_inj(r1: int, r2: int)
    requires
        0 <= r1 < 9,
        0 <= r2 < 9,
        canon_base(r1) == canon_base(r2),
    ensures
        r1 == r2,
{
    assert(r1 == 3 * (r1 / 3) + r1 % 3);
    assert(r2 == 3 * (r2 / 3) + r2 % 3);
}

/// Cells of the reference board that share a row, column, or box differ.
proof fn lemma_canon_distinct(r1: int, c1: int, r2: int, c2: int)
    requires
        in_range(r1, c1),
        in_range(r2, c2),
        sees(r1, c1, r2, c2),
    ensures
        canon_cell(r1, c1) != canon_cell(r2, c2),
{
    let a = canon_base(r1) + c1;
    let b = canon_base(r2) + c2;
    assert(0 <= canon_base(r1) < 9);
    assert(0 <= canon_base(r2) < 9);
    if r1 == r2 {
        assert(a - b == c1 - c2);
        lemma_mod9_distinct(a, b);
    } else if c1 == c2 {
        if canon_base(r1) == canon_base(r2) {
            lemma_canon_base_inj(r1, r2);
        }
        assert(a != b);
        lemma_mod9_distinct(a, b);
    } else {
        assert(r1 / 3 == r2 / 3 && c1 / 3 == c2 / 3);
        assert(r1 == 3 * (r1 / 3) + r1 % 3);
        assert(r2 == 3 * (r2 / 3) + r2 % 3);
        assert(c1 == 3 * (c1 / 3) + c1 % 3);
        assert(c2 == 3 * (c2 / 3) + c2 % 3);
        assert(canon_base(r1) - canon_base(r2) == 3 * (r1 % 3) - 3 * (r2 % 3));
        assert(a - b == 3 * (r1 % 3) - 3 * (r2 % 3) + c1 % 3 - c2 % 3);
        assert(a != b);
        lemma_mod9_distinct(a, b);
    }
}

/// The reference board is solved.
pub proof fn lemma_canon_solved()
    ensures
        solved(canon_grid()),
{
    let g = canon_grid();
    assert forall|i: int| 0 <= i < 81 implies #[trigger] g[i] <= 9 && g[i] != 0 by {
        assert(0 <= i / 9 < 9);
        assert(0 <= i % 9 < 9);
        assert(0 <= canon_base(i / 9) < 9);
        assert(0 <= (canon_base(i / 9) + i % 9) % 9 < 9);
    }
    assert(is_grid(g));
    assert(full(g));
    assert forall|r: int, c: int|
        in_range(r, c) && cell(g, r, c) != 0 implies #[trigger] ok_at(g, r, c) by {
        assert((r * 9 + c) / 9 == r && (r * 9 + c) % 9 == c);
        assert(cell(g, r, c) == canon_cell(r, c));
        assert forall|r2: int, c2: int|
            in_range(r2, c2) && sees(r, c, r2, c2)
            implies #[trigger] cell(g, r2, c2) != cell(g, r, c) by {
            assert((r2 * 9 + c2) / 9 == r2 && (r2 * 9 + c2) % 9 == c2);
            assert(cell(g, r2, c2) == canon_cell(r2, c2));
            lemma_canon_distinct(r, c, r2, c2);
        }
    }
}

/// A board with no empty cell has empty count zero.
pub proof fn lemma_full_empty_count(s: Seq<u8>)
    requires
        forall|i: int| 0 <= i < s.len() ==> #[trigger] s[i] != 0,
    ensures
        empty_count(s) == 0,
    decreases s.len(),
{
    if s.len() > 0 {
        lemma_full_empty_count(s.drop_last());
    }
}

/// Clearing a non-empty cell raises the empty count by one.
proof fn lemma_empty_count_clear(s: Seq<u8>, i: int)
    requires
        0 <= i < s.len(),
        s[i] != 0,
    ensures
        empty_count(s.update(i, 0)) == empty_count(s) + 1,
    decreases s.len(),
{
    let t = s.update(i, 0);
    if i == s.len() - 1 {
        assert(t.drop_last() =~= s.drop_last());
    } else {
        assert(t.drop_last() =~= s.drop_last().update(i, 0));
        assert(t.last() == s.last());
        lemma_empty_count_clear(s.drop_last(), i);
    }
}

/// The board `s` with the first `k` of the positions `ps` cleared.
pub open spec fn dig(s: Seq<u8>, ps: Seq<usize>, k: int) -> Seq<u8>
    decreases k,
{
    if k <= 0 {
        s
    } else {
        dig(s, ps, k - 1).update(ps[k - 1] as int, 0)
    }
}

/// A cell named by none of the first `k` positions keeps its value.
proof fn lemma_dig_untouched(s: Seq<u8>, ps: Seq<usize>, k: int, i: int)
    requires
        0 <= k <= ps.len(),
        0 <= i < s.len(),
        forall|j: int| 0 <= j < k ==> 0 <= #[trigger] ps[j] < s.len(),
        forall|j: int| 0 <= j < k ==> #[trigger] ps[j] != i,
    ensures
        dig(s, ps, k)[i] == s[i],
    decreases k,
{
    if k > 0 {
        lemma_dig_len(s, ps, k - 1);
        lemma_dig_untouched(s, ps, k - 1, i);
    }
}

/// A cell named by one of the first `k` positions is empty.
proof fn lemma_dig_cleared(s: Seq<u8>, ps: Seq<usize>, k: int, j: int)
    requires
        0 <= j < k <= ps.len(),
        0 <= ps[j] < s.len(),
        forall|j2: int| 0 <= j2 < k ==> 0 <= #[trigger] ps[j2] < s.len(),
    ensures
        dig(s, ps, k)[ps[j] as int] == 0,
    decreases k,
{
    lemma_dig_len(s, ps, k - 1);
    if j == k - 1 {
    } else {
        lemma_dig_cleared(s, ps, k - 1, j);
    }
}

/// Digging preserves length.
proof fn lemma_dig_len(s: Seq<u8>, ps: Seq<usize>, k: int)
    requires
        0 <= k <= ps.len(),
        forall|j: int| 0 <= j < k ==> 0 <= #[trigger] ps[j] < s.len(),
    ensures
        dig(s, ps, k).len() == s.len(),
    decreases k,
{
    if k > 0 {
        lemma_dig_len(s, ps, k - 1);
    }
}

/// Digging `k` pairwise-distinct positions out of a fully non-empty board
/// leaves exactly `k` empty cells, and what remains agrees with the board.
proof fn lemma_dig_props(s: Seq<u8>, ps: Seq<usize>, k: int)
    requires
        0 <= k <= ps.len(),
        forall|j: int| 0 <= j < k ==> 0 <= #[trigger] ps[j] < s.len(),
        forall|j1: int, j2: int| 0 <= j1 < j2 < k ==> ps[j1] != ps[j2],
        forall|i: int| 0 <= i < s.len() ==> #[trigger] s[i] != 0,
        s.len() == 81,
    ensures
        empty_count(dig(s, ps, k)) == k,
        extends(dig(s, ps, k), s),
    decreases k,
{
    lemma_dig_len(s, ps, k);
    if k == 0 {
        lemma_full_empty_count(s);
    } else {
        lemma_dig_props(s, ps, k - 1);
        let prev = dig(s, ps, k - 1);
        let p = ps[k - 1] as int;
        assert(prev[p] == s[p]) by {
            lemma_dig_untouched(s, ps, k - 1, p);
        }
        lemma_dig_len(s, ps, k - 1);
        lemma_empty_count_clear(prev, p);
    }
    assert forall|i: int| 0 <= i < 81 && #[trigger] dig(s, ps, k)[i] != 0
        implies s[i] == dig(s, ps, k)[i] by {
        if exists|j: int| 0 <= j < k && ps[j] == i {
            let j = choose|j: int| 0 <= j < k && ps[j] == i;
            lemma_dig_cleared(s, ps, k, j);
        } else {
            lemma_dig_untouched(s, ps, k, i);
        }
    }
}

impl Gameboard {
    /// Fill every empty cell by backtracking, visiting candidate digits in a
    /// randomized order per cell.  The contract matches `solve`: success
    /// yields a full extension (a solved one when the input had no clashes);
    /// failure restores the board and means no solution exists.
    pub fn fill_board(&mut self) -> (r: bool)
        requires
            old(self).wf(),
        ensures
            final(self).wf(),
            r ==> completion_of(old(self)@, final(self)@),
            r && consistent(old(self)@) ==> solution_for(old(self)@, final(self)@),
            !r ==> final(self)@ == old(self)@,
            !r ==> !solvable(old(self)@),
        decreases empty_count(old(self)@),
    {
        let ghost g0 = self@;
        match self.first_empty() {
            None => {
                proof {
                    assert(extends(g0, g0));
                    if consistent(g0) {
                        assert(solved(g0));
                    }
                }
                true
            },
            Some(idx) => {
                let row = idx / 9;
                let col = idx % 9;
                proof {
                    assert(row * 9 + col == idx);
                }
                let mut nums: Vec<u8> = Vec::new();
                let mut d: u8 = 1;
                while d <= 9
                    invariant
                        1 <= d <= 10,
                        nums@.len() == d - 1,
                        forall|j: int| 0 <= j < nums@.len() ==> nums@[j] == j + 1,
                    decreases 10 - d,
                {
                    nums.push(d);
                    d += 1;
                }
                let ghost orig = nums@;
                shuffle_vec(&mut nums);
                proof {
                    broadcast use group_to_multiset_ensures;

                    assert(nums@.len() == orig.len()) by {
                        assert(nums@.to_multiset().len() == nums@.len());
                        assert(orig.to_multiset().len() == orig.len());
                    }
                    assert forall|v: u8| 1 <= v <= 9 implies nums@.contains(v) by {
                        assert(orig[v - 1] == v);
                        assert(orig.contains(v));
                        assert(orig.to_multiset().count(v) > 0);
                        assert(nums@.to_multiset().count(v) > 0);
                    }
                    assert forall|j: int| 0 <= j < nums@.len()
                        implies 1 <= #[trigger] nums@[j] <= 9 by {
                        assert(nums@.contains(nums@[j]));
                        assert(nums@.to_multiset().count(nums@[j]) > 0);
                        assert(orig.to_multiset().count(nums@[j]) > 0);
                        assert(orig.contains(nums@[j]));
                        let j2 = choose|j2: int| 0 <= j2 < orig.len() && orig[j2] == nums@[j];
                        assert(orig[j2] == j2 + 1);
                    }
                }
                let mut t: usize = 0;
                while t < nums.len()
                    invariant
                        self.wf(),
                        self@ == g0,
                        g0 == old(self)@,
                        is_grid(g0),
                        idx < 81,
                        row == idx / 9,
                        col == idx % 9,
                        row < 9,
                        col < 9,
                        g0[idx as int] == 0,
                        t <= nums@.len(),
                        nums@.len() == 9,
                        forall|v: u8| 1 <= v <= 9 ==> nums@.contains(v),
                        forall|j: int| 0 <= j < nums@.len() ==> 1 <= #[trigger] nums@[j] <= 9,
                        forall|s: Seq<u8>| #[trigger] solution_for(g0, s)
                            ==> forall|j: int| 0 <= j < t ==> s[idx as int] != nums@[j],
                    decreases nums@.len() - t,
                {
                    let num = nums[t];
                    if self.is_valid_move(row, col, num) {
                        self.set(col, row, num);
                        let ghost g1 = self@;
                        proof {
                            assert(g1 == g0.update(idx as int, num));
                            crate::solver::lemma_empty_count_update(g0, idx as int, num);
                        }
                        if self.fill_board() {
                            proof {
                                assert(completion_of(g1, self@));
                                assert forall|i: int| 0 <= i < 81 && #[trigger] g0[i] != 0
                                    implies self@[i] == g0[i] by {
                                    assert(g1[i] == g0[i]);
                                }
                                assert(completion_of(g0, self@));
                                if consistent(g0) {
                                    lemma_place_consistent(g0, row as int, col as int, num);
                                    assert(consistent(g1));
                                    assert(solution_for(g1, self@));
                                    assert(solution_for(g0, self@));
                                }
                            }
                            return true;
                        }
                        self.set(col, row, 0);
                        proof {
                            assert(self@ =~= g0);
                            assert forall|s: Seq<u8>| #[trigger] solution_for(g0, s)
                                implies forall|j: int| 0 <= j < t + 1
                                    ==> s[idx as int] != nums@[j] by {
                                assert forall|j: int| 0 <= j < t + 1
                                    implies s[idx as int] != nums@[j] by {
                                    if j == t && s[idx as int] == num {
                                        assert forall|i: int|
                                            0 <= i < 81 && #[trigger] g1[i] != 0
                                            implies s[i] == g1[i] by {
                                            if i == idx as int {
                                                assert(s[i] == num);
                                            } else {
                                                assert(g0[i] == g1[i]);
                                            }
                                        }
                                        assert(extends(g1, s));
                                        assert(solution_for(g1, s));
                                        assert(solvable(g1));
                                        assert(false);
                                    }
                                }
                            }
                        }
                    } else {
                        proof {
                            assert forall|s: Seq<u8>| #[trigger] solution_for(g0, s)
                                implies forall|j: int| 0 <= j < t + 1
                                    ==> s[idx as int] != nums@[j] by {
                                assert forall|j: int| 0 <= j < t + 1
                                    implies s[idx as int] != nums@[j] by {
                                    if j == t && s[idx as int] == num {
                                        lemma_solution_cell_valid(
                                            g0, s, row as int, col as int,
                                        );
                                        assert(cell(s, row as int, col as int) == num);
                                        assert(valid_at(g0, row as int, col as int, num));
                                    }
                                }
                            }
                        }
                    }
                    t += 1;
                }
                proof {
                    assert forall|s: Seq<u8>| !#[trigger] solution_for(g0, s) by {
                        if solution_for(g0, s) {
                            lemma_solution_cell_valid(g0, s, row as int, col as int);
                            let v = s[idx as int];
                            assert(1 <= v <= 9);
                            assert(nums@.contains(v));
                            let j = choose|j: int| 0 <= j < nums@.len() && nums@[j] == v;
                            assert(s[idx as int] != nums@[j]);
                        }
                    }
                    assert(!solvable(g0));
                }
                false
            },
        }
    }

    /// Build a completely filled, fully valid board; repeated calls vary the
    /// outcome through the randomized digit order.
    pub fn generate_full_solution() -> (r: Gameboard)
        ensures
            r.wf(),
            solved(r@),
    {
        let mut board = Gameboard::new();
        let ghost b0 = board@;
        let ok = board.fill_board();
        proof {
            assert(consistent(b0)) by {
                assert forall|r2: int, c2: int|
                    in_range(r2, c2) && cell(b0, r2, c2) != 0
                    implies #[trigger] ok_at(b0, r2, c2) by {
                    assert(b0[r2 * 9 + c2] == 0);
                }
            }
            if !ok {
                lemma_canon_solved();
                assert(extends(b0, canon_grid()));
                assert(solution_for(b0, canon_grid()));
                assert(solvable(b0));
                assert(false);
            }
        }
        board
    }

    /// Generate a puzzle: a full random solution with `holes` distinct cells
    /// cleared (clamped to at most all 81 cells).  The result always extends
    /// to the solved board it was carved from.
    pub fn generate_random(holes: usize) -> (r: Gameboard)
        ensures
            r.wf(),
            empty_count(r@) == (if holes <= 81 { holes as int } else { 81 as int }),
            exists|s: Seq<u8>| #[trigger] solution_for(r@, s),
            holes == 0 ==> solved(r@),
    {
        let mut board = Self::generate_full_solution();
        let ghost sol = board@;
        let mut positions: Vec<usize> = Vec::new();
        let mut i: usize = 0;
        while i < 81
            invariant
                i <= 81,
                positions@.len() == i,
                forall|j: int| 0 <= j < i ==> positions@[j] == j,
            decreases 81 - i,
        {
            positions.push(i);
            i += 1;
        }
        let ghost orig = positions@;
        shuffle_vec(&mut positions);
        proof {
            broadcast use group_to_multiset_ensures;

            assert(orig.no_duplicates());
            orig.lemma_multiset_has_no_duplicates();
            positions@.lemma_multiset_has_no_duplicates_conv();
            assert(positions@.len() == orig.len()) by {
                assert(positions@.to_multiset().len() == positions@.len());
                assert(orig.to_multiset().len() == orig.len());
            }
            assert forall|j: int| 0 <= j < positions@.len()
                implies #[trigger] positions@[j] < 81 by {
                assert(positions@.contains(positions@[j]));
                assert(positions@.to_multiset().count(positions@[j]) > 0);
                assert(orig.to_multiset().count(positions@[j]) > 0);
                assert(orig.contains(positions@[j]));
                let j2 = choose|j2: int| 0 <= j2 < orig.len() && orig[j2] == positions@[j];
                assert(orig[j2] == j2);
            }
        }
        let h = if holes > 81 { 81 } else { holes };
        let mut k: usize = 0;
        while k < h
            invariant
                k <= h,
                h <= 81,
                h == (if holes <= 81 { holes as int } else { 81 as int }),
                solved(sol),
                positions@.len() == 81,
                positions@.no_duplicates(),
                forall|j: int| 0 <= j < 81 ==> #[trigger] positions@[j] < 81,
                board@ == dig(sol, positions@, k as int),
                board@.len() == 81,
                is_grid(board@),
            decreases h - k,
        {
            let p = positions[k];
            self_set_zero(&mut board, p);
            k += 1;
        }
        proof {
            lemma_dig_props(sol, positions@, h as int);
            assert(extends(board@, sol));
            assert(solution_for(board@, sol));
            if holes == 0 {
                assert(board@ == sol);
            }
        }
        board
    }
}

/// Clear one flat cell of a board.
fn self_set_zero(board: &mut Gameboard, p: usize)
    requires
        old(board).wf(),
        p < 81,
    ensures
        final(board).wf(),
        final(board)@ == old(board)@.update(p as int, 0u8),
{
    board.set(p % 9, p / 9, 0);
    proof {
        assert((p / 9) * 9 + p % 9 == p);
    }
}

} // verus!
