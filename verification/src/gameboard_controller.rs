//! The edit-session state machine over a `Gameboard`: selection, digit
//! entry, undo history, a change log, reset, regeneration, hinting, a
//! show-all solution cache, and a one-shot submit/grade step.
//!
//! `invalid_cells` is derived state: outside the submitted state it always
//! equals the scan-ordered list of editable cells whose value clashes with a
//! row/column/box peer, recomputed from scratch after every mutation.  After
//! `submit` it instead lists the editable cells whose entry differs from a
//! solution of the initial puzzle.

use vstd::prelude::*;

use crate::gameboard::Gameboard;
use crate::gameboard::cell;
use crate::gameboard::completion_of;
use crate::gameboard::consistent;
use crate::gameboard::is_grid;
use crate::gameboard::solution_for;
use crate::gameboard::solvable;
use crate::gameboard::solved;
use crate::gameboard::valid_at;
use crate::solver::empty_count;
use crate::solver::lemma_solvable_consistent;

verus! {

/// One recorded single-cell edit: the previous value of cell (x, y).
#[derive(Clone, Copy)]
pub struct Change {
    pub x: usize,
    pub y: usize,
    pub prev: u8,
}

/// A direction in which the selection can move.
#[derive(Clone, Copy)]
pub enum Direction {
    Up,
    Down,
    Left,
    Right,
}

/// Editable cell (x, y) holds a value that clashes with a peer.
pub open spec fn bad_cell(ini: Seq<u8>, g: Seq<u8>, x: int, y: int) -> bool {
    &&& cell(ini, y, x) == 0
    &&& cell(g, y, x) != 0
    &&& !valid_at(g, y, x, cell(g, y, x))
}

/// Editable cell (x, y) holds a value that differs from the solution `sol`.
pub open spec fn wrong_cell(ini: Seq<u8>, g: Seq<u8>, sol: Seq<u8>, x: int, y: int) -> bool {
    &&& cell(ini, y, x) == 0
    &&& cell(g, y, x) != 0
    &&& cell(g, y, x) != cell(sol, y, x)
}

/// The positions among the first `n` of the row-major scan (flat index
/// `y * 9 + x`) that satisfy `p`, in scan order.
pub open spec fn scan_positions(p: spec_fn(int, int) -> bool, n: int) -> Seq<(usize, usize)>
    decreases n,
{
    if n <= 0 {
        Seq::empty()
    } else {
        let prev = scan_positions(p, n - 1);
        let y = (n - 1) / 9;
        let x = (n - 1) % 9;
        if p(x, y) {
            prev.push((x as usize, y as usize))
        } else {
            prev
        }
    }
}

/// Membership in a scan list is exactly satisfaction of its predicate.
pub proof fn lemma_scan_positions_mem(p: spec_fn(int, int) -> bool, n: int, x: usize, y: usize)
    requires
        0 <= n <= 81,
    ensures
        scan_positions(p, n).contains((x, y)) <==> ((y as int) * 9 + (x as int) < n && x < 9
            && y < 9 && p(x as int, y as int)),
    decreases n,
{
    let s = scan_positions(p, n);
    if n > 0 {
        lemma_scan_positions_mem(p, n - 1, x, y);
        let prev = scan_positions(p, n - 1);
        let yy = (n - 1) / 9;
        let xx = (n - 1) % 9;
        if prev.contains((x, y)) {
            let i = choose|i: int| 0 <= i < prev.len() && prev[i] == (x, y);
            assert(s[i] == (x, y));
            assert(s.contains((x, y)));
        }
        if p(xx, yy) {
            assert(s == prev.push((xx as usize, yy as usize)));
            if s.contains((x, y)) && !prev.contains((x, y)) {
                let i = choose|i: int| 0 <= i < s.len() && s[i] == (x, y);
                if i < prev.len() {
                    assert(prev[i] == (x, y));
                } else {
                    assert(s[prev.len() as int] == (xx as usize, yy as usize));
                    assert(x as int == xx && y as int == yy);
                }
            }
            if (y as int) * 9 + (x as int) == n - 1 && x < 9 && y < 9 {
                assert(x as int == xx && y as int == yy);
                assert(s[prev.len() as int] == (x, y));
                assert(s.contains((x, y)));
            }
        } else {
            assert(s == prev);
            if (y as int) * 9 + (x as int) == n - 1 && x < 9 && y < 9 {
                assert(x as int == xx && y as int == yy);
            }
        }
    }
}

/// A scan list over a predicate that holds nowhere is empty.
pub proof fn lemma_scan_positions_none(p: spec_fn(int, int) -> bool, n: int)
    requires
        0 <= n,
        forall|x: int, y: int| !#[trigger] p(x, y),
    ensures
        scan_positions(p, n) == Seq::<(usize, usize)>::empty(),
    decreases n,
{
    if n > 0 {
        lemma_scan_positions_none(p, n - 1);
    }
}

/// The scan-ordered list of editable cells currently violating a constraint.
pub open spec fn invalid_list(ini: Seq<u8>, g: Seq<u8>) -> Seq<(usize, usize)> {
    scan_positions(|x: int, y: int| bad_cell(ini, g, x, y), 81)
}

/// The scan-ordered list of editable cells graded wrong against `sol`.
pub open spec fn mismatch_list(ini: Seq<u8>, g: Seq<u8>, sol: Seq<u8>) -> Seq<(usize, usize)> {
    scan_positions(|x: int, y: int| wrong_cell(ini, g, sol, x, y), 81)
}

/// A position is listed as invalid exactly when it is an editable cell whose
/// value clashes with a row/column/box peer.
pub proof fn lemma_invalid_list_mem(ini: Seq<u8>, g: Seq<u8>, x: usize, y: usize)
    ensures
        invalid_list(ini, g).contains((x, y)) <==> (x < 9 && y < 9
            && bad_cell(ini, g, x as int, y as int)),
{
    lemma_scan_positions_mem(|x2: int, y2: int| bad_cell(ini, g, x2, y2), 81, x, y);
}

/// A position is graded wrong exactly when it is an editable, non-empty cell
/// whose entry differs from the solution; empty editable cells are never
/// listed.
pub proof fn lemma_mismatch_list_mem(ini: Seq<u8>, g: Seq<u8>, sol: Seq<u8>, x: usize, y: usize)
    ensures
        mismatch_list(ini, g, sol).contains((x, y)) <==> (x < 9 && y < 9
            && wrong_cell(ini, g, sol, x as int, y as int)),
{
    lemma_scan_positions_mem(|x2: int, y2: int| wrong_cell(ini, g, sol, x2, y2), 81, x, y);
}

/// Number of digits in 1..=n that the board accepts at (row y, column x).
pub open spec fn cand_count_upto(g: Seq<u8>, y: int, x: int, n: int) -> int
    decreases n,
{
    if n <= 0 {
        0
    } else {
        cand_count_upto(g, y, x, n - 1) + (if valid_at(g, y, x, n as u8) {
            1int
        } else {
            0int
        })
    }
}

/// Number of digits 1..=9 that the board accepts at (row y, column x).
pub open spec fn cand_count(g: Seq<u8>, y: int, x: int) -> int {
    cand_count_upto(g, y, x, 9)
}

/// Flat scan index `k` names an editable, empty cell with at least one
/// acceptable digit: the cells the hint search considers.
pub open spec fn hintable(ini: Seq<u8>, g: Seq<u8>, k: int) -> bool {
    &&& cell(ini, k / 9, k % 9) == 0
    &&& cell(g, k / 9, k % 9) == 0
    &&& cand_count(g, k / 9, k % 9) > 0
}

/// A bounded history stack received a snapshot with contents `snap`: the
/// oldest entry is dropped once the capacity of 100 is reached.
pub open spec fn pushed_history(pre: Seq<Vec<u8>>, post: Seq<Vec<u8>>, snap: Seq<u8>) -> bool {
    if pre.len() < 100 {
        &&& post.len() == pre.len() + 1
        &&& forall|i: int| 0 <= i < pre.len() ==> post[i] == pre[i]
        &&& post[pre.len() as int]@ == snap
    } else {
        &&& post.len() == 100
        &&& forall|i: int| 0 <= i < 99 ==> post[i] == pre[i + 1]
        &&& post[99]@ == snap
    }
}

/// A bounded change log received entry `c`: the oldest entry is dropped once
/// the capacity of 200 is reached.
pub open spec fn pushed_change(pre: Seq<Change>, post: Seq<Change>, c: Change) -> bool {
    if pre.len() < 200 {
        post == pre.push(c)
    } else {
        post == pre.subrange(1, 200).push(c)
    }
}

/// Store the session state: the working grid plus its overlays.
pub struct GameboardController {
    /// The working grid the player edits.
    pub gameboard: Gameboard,
    /// At most one selected cell, as (column, row).
    pub selected_cell: Option<(usize, usize)>,
    /// Immutable snapshot of the puzzle as issued; non-zero cells are fixed.
    pub initial_cells: Gameboard,
    /// Derived list of violating editable cells (see module comment).
    pub invalid_cells: Vec<(usize, usize)>,
    /// Bounded stack of full-grid snapshots, for undo.
    pub history: Vec<Vec<u8>>,
    /// Bounded log of single-cell edits.
    pub changes: Vec<Change>,
    /// A suggested, unwritten value for one cell, as ((x, y), value).
    pub hint: Option<((usize, usize), u8)>,
    /// Whether the full solved board overlay is on.
    pub show_all: bool,
    /// The solved board shown by the overlay, if one was found.
    pub solved_cache: Option<Gameboard>,
    /// Terminal flag: edits, undo, reset, and hints lock once set.
    pub submitted: bool,
}

impl GameboardController {
    /// Session invariant: well-formed grids, bounded stacks, in-range
    /// positions, the derived-list equation outside the submitted state, and
    /// the show-all cache in sync with its flag.
    pub open spec fn inv(self) -> bool {
        &&& self.gameboard.wf()
        &&& self.initial_cells.wf()
        &&& self.history@.len() <= 100
        &&& forall|i: int| 0 <= i < self.history@.len() ==> is_grid(#[trigger] self.history@[i]@)
        &&& self.changes@.len() <= 200
        &&& forall|i: int|
            0 <= i < self.changes@.len() ==> (#[trigger] self.changes@[i]).x < 9
                && self.changes@[i].y < 9 && self.changes@[i].prev <= 9
        &&& match self.selected_cell {
            Some(p) => p.0 < 9 && p.1 < 9,
            None => true,
        }
        &&& match self.hint {
            Some((p, v)) => p.0 < 9 && p.1 < 9 && 1 <= v <= 9,
            None => true,
        }
        &&& forall|i: int|
            0 <= i < self.invalid_cells@.len() ==> (#[trigger] self.invalid_cells@[i]).0 < 9
                && self.invalid_cells@[i].1 < 9
        &&& (!self.submitted ==> self.invalid_cells@ == invalid_list(
            self.initial_cells@,
            self.gameboard@,
        ))
        &&& (!self.show_all ==> self.solved_cache is None)
        &&& match self.solved_cache {
            Some(gb) => gb.wf() && completion_of(self.initial_cells@, gb@) && (consistent(
                self.initial_cells@,
            ) ==> solved(gb@)),
            None => true,
        }
        &&& (self.show_all && solvable(self.initial_cells@) ==> self.solved_cache is Some)
    }

    /// Start a session on the given puzzle; its cells become the fixed
    /// initial snapshot.
    pub fn new(gameboard: Gameboard) -> (r: GameboardController)
        requires
            gameboard.wf(),
        ensures
            r.inv(),
            r.gameboard@ == gameboard@,
            r.initial_cells@ == gameboard@,
            r.selected_cell is None,
            r.invalid_cells@ == Seq::<(usize, usize)>::empty(),
            r.history@ == Seq::<Vec<u8>>::empty(),
            r.changes@ == Seq::<Change>::empty(),
            r.hint is None,
            !r.show_all,
            r.solved_cache is None,
            !r.submitted,
    {
        let initial_cells = gameboard.duplicate();
        let r = GameboardController {
            gameboard,
            selected_cell: None,
            initial_cells,
            invalid_cells: Vec::new(),
            history: Vec::new(),
            changes: Vec::new(),
            hint: None,
            show_all: false,
            solved_cache: None,
            submitted: false,
        };
        proof {
            lemma_same_grid_invalid_empty(r.initial_cells@, r.gameboard@);
        }
        r
    }

    /// Any cell of the working grid differs from the initial puzzle.
    fn has_user_input(&self) -> (r: bool)
        requires
            self.gameboard.wf(),
            self.initial_cells.wf(),
        ensures
            r == (self.gameboard@ != self.initial_cells@),
    {
        let mut k: usize = 0;
        while k < 81
            invariant
                self.gameboard.wf(),
                self.initial_cells.wf(),
                k <= 81,
                forall|j: int| 0 <= j < k ==> self.gameboard@[j] == self.initial_cells@[j],
            decreases 81 - k,
        {
            if self.gameboard.cells[k] != self.initial_cells.cells[k] {
                return true;
            }
            k += 1;
        }
        proof {
            assert(self.gameboard@ =~= self.initial_cells@);
        }
        false
    }

    /// Push a snapshot of the working grid, dropping the oldest entry at the
    /// capacity of 100.
    fn push_history(&mut self)
        requires
            old(self).gameboard.wf(),
            old(self).history@.len() <= 100,
            forall|i: int|
                0 <= i < old(self).history@.len() ==> is_grid(#[trigger] old(self).history@[i]@),
        ensures
            final(self).history@.len() <= 100,
            forall|i: int|
                0 <= i < final(self).history@.len() ==> is_grid(
                    #[trigger] final(self).history@[i]@,
                ),
            pushed_history(old(self).history@, final(self).history@, old(self).gameboard@),
            final(self).gameboard == old(self).gameboard,
            final(self).selected_cell == old(self).selected_cell,
            final(self).initial_cells == old(self).initial_cells,
            final(self).invalid_cells == old(self).invalid_cells,
            final(self).changes == old(self).changes,
            final(self).hint == old(self).hint,
            final(self).show_all == old(self).show_all,
            final(self).solved_cache == old(self).solved_cache,
            final(self).submitted == old(self).submitted,
    {
        if self.history.len() >= 100 {
            self.history.remove(0);
        }
        let snap = self.gameboard.duplicate();
        self.history.push(snap.cells);
    }

    /// Record a single-cell edit, dropping the oldest entry at the capacity
    /// of 200.
    fn push_change(&mut self, x: usize, y: usize, prev: u8)
        requires
            old(self).changes@.len() <= 200,
            x < 9,
            y < 9,
            prev <= 9,
            forall|i: int|
                0 <= i < old(self).changes@.len() ==> (#[trigger] old(self).changes@[i]).x < 9
                    && old(self).changes@[i].y < 9 && old(self).changes@[i].prev <= 9,
        ensures
            final(self).changes@.len() <= 200,
            forall|i: int|
                0 <= i < final(self).changes@.len() ==> (#[trigger] final(self).changes@[i]).x < 9
                    && final(self).changes@[i].y < 9 && final(self).changes@[i].prev <= 9,
            pushed_change(old(self).changes@, final(self).changes@, Change { x, y, prev }),
            final(self).gameboard == old(self).gameboard,
            final(self).selected_cell == old(self).selected_cell,
            final(self).initial_cells == old(self).initial_cells,
            final(self).invalid_cells == old(self).invalid_cells,
            final(self).history == old(self).history,
            final(self).hint == old(self).hint,
            final(self).show_all == old(self).show_all,
            final(self).solved_cache == old(self).solved_cache,
            final(self).submitted == old(self).submitted,
    {
        if self.changes.len() >= 200 {
            self.changes.remove(0);
        }
        self.changes.push(Change { x, y, prev });
    }

    /// Recompute the derived list of violating editable cells from scratch,
    /// in row-major scan order.
    fn recompute_invalid_cells(&mut self)
        requires
            old(self).gameboard.wf(),
            old(self).initial_cells.wf(),
        ensures
            final(self).invalid_cells@ == invalid_list(old(self).initial_cells@, old(self).gameboard@),
            final(self).gameboard == old(self).gameboard,
            final(self).selected_cell == old(self).selected_cell,
            final(self).initial_cells == old(self).initial_cells,
            final(self).history == old(self).history,
            final(self).changes == old(self).changes,
            final(self).hint == old(self).hint,
            final(self).show_all == old(self).show_all,
            final(self).solved_cache == old(self).solved_cache,
            final(self).submitted == old(self).submitted,
            forall|i: int|
                0 <= i < final(self).invalid_cells@.len()
                    ==> (#[trigger] final(self).invalid_cells@[i]).0 < 9
                    && final(self).invalid_cells@[i].1 < 9,
    {
        let ghost ini = self.initial_cells@;
        let ghost g = self.gameboard@;
        let ghost p: spec_fn(int, int) -> bool = |x: int, y: int| bad_cell(ini, g, x, y);
        let mut acc: Vec<(usize, usize)> = Vec::new();
        let mut k: usize = 0;
        while k < 81
            invariant
                self.gameboard.wf(),
                self.initial_cells.wf(),
                ini == self.initial_cells@,
                g == self.gameboard@,
                p == (|x: int, y: int| bad_cell(ini, g, x, y)),
                k <= 81,
                acc@ == scan_positions(p, k as int),
                forall|i: int|
                    0 <= i < acc@.len() ==> (#[trigger] acc@[i]).0 < 9 && acc@[i].1 < 9,
            decreases 81 - k,
        {
            let y = k / 9;
            let x = k % 9;
            let v = self.gameboard.cells[k];
            proof {
                assert(y * 9 + x == k);
                assert(cell(g, y as int, x as int) == g[k as int]);
            }
            if self.initial_cells.cells[k] == 0 && v != 0 && !self.gameboard.is_valid_move(y, x, v)
            {
                acc.push((x, y));
                proof {
                    assert(p(x as int, y as int) == bad_cell(ini, g, x as int, y as int));
                    assert(bad_cell(ini, g, x as int, y as int));
                    assert(acc@ == scan_positions(p, k + 1));
                }
            } else {
                proof {
                    assert(p(x as int, y as int) == bad_cell(ini, g, x as int, y as int));
                    assert(!bad_cell(ini, g, x as int, y as int));
                    assert(acc@ == scan_positions(p, k + 1));
                }
            }
            k += 1;
        }
        self.invalid_cells = acc;
    }

    /// Recompute the show-all cache by solving a copy of the initial puzzle;
    /// the working grid and the player's entries are never consulted.
    fn recompute_solution_cache(&mut self)
        requires
            old(self).initial_cells.wf(),
        ensures
            final(self).gameboard == old(self).gameboard,
            final(self).selected_cell == old(self).selected_cell,
            final(self).initial_cells == old(self).initial_cells,
            final(self).invalid_cells == old(self).invalid_cells,
            final(self).history == old(self).history,
            final(self).changes == old(self).changes,
            final(self).hint == old(self).hint,
            final(self).show_all == old(self).show_all,
            final(self).submitted == old(self).submitted,
            !old(self).show_all ==> final(self).solved_cache is None,
            old(self).show_all ==> match final(self).solved_cache {
                Some(gb) => gb.wf() && completion_of(old(self).initial_cells@, gb@) && (consistent(
                    old(self).initial_cells@,
                ) ==> solved(gb@)),
                None => !solvable(old(self).initial_cells@),
            },
    {
        if !self.show_all {
            self.solved_cache = None;
            return;
        }
        let mut clone = self.initial_cells.duplicate();
        if clone.solve() {
            self.solved_cache = Some(clone);
        } else {
            self.solved_cache = None;
        }
    }

    /// Set the selection, clamping each axis to the board.  Ignored once
    /// submitted.
    pub fn select(&mut self, x: usize, y: usize)
        requires
            old(self).inv(),
        ensures
            final(self).inv(),
            old(self).submitted ==> *final(self) == *old(self),
            !old(self).submitted ==> final(self).selected_cell == Some(
                ((if x < 9 { x } else { 8 }), (if y < 9 { y } else { 8 })),
            ),
            final(self).gameboard == old(self).gameboard,
            final(self).initial_cells == old(self).initial_cells,
            final(self).invalid_cells == old(self).invalid_cells,
            final(self).history == old(self).history,
            final(self).changes == old(self).changes,
            final(self).hint == old(self).hint,
            final(self).show_all == old(self).show_all,
            final(self).solved_cache == old(self).solved_cache,
            final(self).submitted == old(self).submitted,
    {
        if self.submitted {
            return;
        }
        let cx = if x < 9 { x } else { 8 };
        let cy = if y < 9 { y } else { 8 };
        self.selected_cell = Some((cx, cy));
    }

    /// Shift the selection one cell, clamped at the edges; a no-op without a
    /// selection or once submitted.
    pub fn move_selection(&mut self, dir: Direction)
        requires
            old(self).inv(),
        ensures
            final(self).inv(),
            old(self).submitted ==> *final(self) == *old(self),
            old(self).selected_cell is None ==> *final(self) == *old(self),
            !old(self).submitted ==> match old(self).selected_cell {
                None => *final(self) == *old(self),
                Some((x, y)) => final(self).selected_cell == Some(
                    match dir {
                        Direction::Up => (x, (if y > 0 { (y - 1) as usize } else { 0usize })),
                        Direction::Down => (x, (if y < 8 { (y + 1) as usize } else { 8usize })),
                        Direction::Left => ((if x > 0 { (x - 1) as usize } else { 0usize }), y),
                        Direction::Right => ((if x < 8 { (x + 1) as usize } else { 8usize }), y),
                    },
                ),
            },
            final(self).gameboard == old(self).gameboard,
            final(self).initial_cells == old(self).initial_cells,
            final(self).invalid_cells == old(self).invalid_cells,
            final(self).history == old(self).history,
            final(self).changes == old(self).changes,
            final(self).hint == old(self).hint,
            final(self).show_all == old(self).show_all,
            final(self).solved_cache == old(self).solved_cache,
            final(self).submitted == old(self).submitted,
    {
        if self.submitted {
            return;
        }
        if let Some((x, y)) = self.selected_cell {
            let moved = match dir {
                Direction::Up => (x, (if y > 0 { y - 1 } else { 0 })),
                Direction::Down => (x, (if y < 8 { y + 1 } else { 8 })),
                Direction::Left => ((if x > 0 { x - 1 } else { 0 }), y),
                Direction::Right => ((if x < 8 { x + 1 } else { 8 }), y),
            };
            self.selected_cell = Some(moved);
        }
    }
}

impl GameboardController {
    /// Number of digits 1..=9 the working grid accepts at (column x, row y).
    fn count_candidates(&self, x: usize, y: usize) -> (cnt: usize)
        requires
            self.gameboard.wf(),
            x < 9,
            y < 9,
        ensures
            cnt == cand_count(self.gameboard@, y as int, x as int),
            cnt <= 9,
    {
        let mut cnt: usize = 0;
        let mut num: u8 = 1;
        while num <= 9
            invariant
                self.gameboard.wf(),
                x < 9,
                y < 9,
                1 <= num <= 10,
                cnt == cand_count_upto(self.gameboard@, y as int, x as int, num - 1),
                cnt < num,
            decreases 10 - num,
        {
            if self.gameboard.is_valid_move(y, x, num) {
                cnt += 1;
            }
            num += 1;
        }
        cnt
    }

    /// Write `d` into the selected cell.  A no-op once submitted, without a
    /// selection, on a fixed cell, or when the cell already holds `d`.
    /// Otherwise it snapshots history, logs the edit, writes the cell, and
    /// recomputes the derived invalid list (and the show-all cache when on).
    pub fn enter_digit(&mut self, d: u8)
        requires
            old(self).inv(),
            1 <= d <= 9,
        ensures
            final(self).inv(),
            old(self).submitted ==> *final(self) == *old(self),
            !old(self).submitted ==> match old(self).selected_cell {
                None => *final(self) == *old(self),
                Some((x, y)) => {
                    if cell(old(self).initial_cells@, y as int, x as int) != 0 {
                        *final(self) == *old(self)
                    } else if cell(old(self).gameboard@, y as int, x as int) == d {
                        *final(self) == *old(self)
                    } else {
                        &&& final(self).gameboard@ == old(self).gameboard@.update(
                            (y as int) * 9 + x as int,
                            d,
                        )
                        &&& pushed_history(
                            old(self).history@,
                            final(self).history@,
                            old(self).gameboard@,
                        )
                        &&& pushed_change(
                            old(self).changes@,
                            final(self).changes@,
                            (Change { x, y, prev: cell(old(self).gameboard@, y as int, x as int) }),
                        )
                        &&& final(self).invalid_cells@ == invalid_list(
                            old(self).initial_cells@,
                            final(self).gameboard@,
                        )
                        &&& final(self).selected_cell == old(self).selected_cell
                        &&& final(self).initial_cells == old(self).initial_cells
                        &&& final(self).hint == old(self).hint
                        &&& final(self).show_all == old(self).show_all
                        &&& final(self).submitted == old(self).submitted
                        &&& (!old(self).show_all ==> final(self).solved_cache == old(self).solved_cache)
                    }
                },
            },
    {
        if self.submitted {
            return;
        }
        if let Some((x, y)) = self.selected_cell {
            if self.initial_cells.cells[y * 9 + x] != 0 {
                return;
            }
            let cur = self.gameboard.cells[y * 9 + x];
            if cur == d {
                return;
            }
            self.push_history();
            self.push_change(x, y, cur);
            self.gameboard.set(x, y, d);
            if self.show_all {
                self.recompute_solution_cache();
            }
            self.recompute_invalid_cells();
        }
    }

    /// Empty the selected cell.  Guards as `enter_digit`; a no-op when the
    /// cell is already empty.
    pub fn clear_cell(&mut self)
        requires
            old(self).inv(),
        ensures
            final(self).inv(),
            old(self).submitted ==> *final(self) == *old(self),
            !old(self).submitted ==> match old(self).selected_cell {
                None => *final(self) == *old(self),
                Some((x, y)) => {
                    if cell(old(self).initial_cells@, y as int, x as int) != 0 {
                        *final(self) == *old(self)
                    } else if cell(old(self).gameboard@, y as int, x as int) == 0 {
                        *final(self) == *old(self)
                    } else {
                        &&& final(self).gameboard@ == old(self).gameboard@.update(
                            (y as int) * 9 + x as int,
                            0u8,
                        )
                        &&& pushed_history(
                            old(self).history@,
                            final(self).history@,
                            old(self).gameboard@,
                        )
                        &&& pushed_change(
                            old(self).changes@,
                            final(self).changes@,
                            (Change { x, y, prev: cell(old(self).gameboard@, y as int, x as int) }),
                        )
                        &&& final(self).invalid_cells@ == invalid_list(
                            old(self).initial_cells@,
                            final(self).gameboard@,
                        )
                        &&& final(self).selected_cell == old(self).selected_cell
                        &&& final(self).initial_cells == old(self).initial_cells
                        &&& final(self).hint == old(self).hint
                        &&& final(self).show_all == old(self).show_all
                        &&& final(self).submitted == old(self).submitted
                        &&& (!old(self).show_all ==> final(self).solved_cache == old(self).solved_cache)
                    }
                },
            },
    {
        if self.submitted {
            return;
        }
        if let Some((x, y)) = self.selected_cell {
            if self.initial_cells.cells[y * 9 + x] != 0 {
                return;
            }
            let cur = self.gameboard.cells[y * 9 + x];
            if cur == 0 {
                return;
            }
            self.push_history();
            self.push_change(x, y, cur);
            self.gameboard.set(x, y, 0);
            if self.show_all {
                self.recompute_solution_cache();
            }
            self.recompute_invalid_cells();
        }
    }

    /// Pop the most recent snapshot, replace the working grid wholesale, and
    /// recompute the derived invalid list.  A no-op once submitted or with
    /// an empty history.
    pub fn undo(&mut self)
        requires
            old(self).inv(),
        ensures
            final(self).inv(),
            old(self).submitted ==> *final(self) == *old(self),
            !old(self).submitted && old(self).history@.len() == 0 ==> *final(self) == *old(self),
            !old(self).submitted && old(self).history@.len() > 0 ==> {
                &&& final(self).gameboard@ == old(self).history@.last()@
                &&& final(self).history@ == old(self).history@.drop_last()
                &&& final(self).invalid_cells@ == invalid_list(
                    old(self).initial_cells@,
                    old(self).history@.last()@,
                )
                &&& final(self).selected_cell == old(self).selected_cell
                &&& final(self).initial_cells == old(self).initial_cells
                &&& final(self).changes == old(self).changes
                &&& final(self).hint == old(self).hint
                &&& final(self).show_all == old(self).show_all
                &&& final(self).solved_cache == old(self).solved_cache
                &&& final(self).submitted == old(self).submitted
            },
    {
        if self.submitted {
            return;
        }
        if self.history.len() == 0 {
            return;
        }
        match self.history.pop() {
            None => {},
            Some(snap) => {
                proof {
                    assert(is_grid(old(self).history@[old(self).history@.len() - 1]@));
                }
                self.gameboard = Gameboard::from_cells(snap);
                self.recompute_invalid_cells();
            },
        }
    }

    /// Restore the working grid to the initial puzzle and drop overlays.
    /// A no-op once submitted or when nothing was edited.
    pub fn reset(&mut self)
        requires
            old(self).inv(),
        ensures
            final(self).inv(),
            old(self).submitted ==> *final(self) == *old(self),
            !old(self).submitted && old(self).gameboard@ == old(self).initial_cells@
                ==> *final(self) == *old(self),
            !old(self).submitted && old(self).gameboard@ != old(self).initial_cells@ ==> {
                &&& final(self).gameboard@ == old(self).initial_cells@
                &&& pushed_history(
                    old(self).history@,
                    final(self).history@,
                    old(self).gameboard@,
                )
                &&& final(self).invalid_cells@ == Seq::<(usize, usize)>::empty()
                &&& final(self).selected_cell is None
                &&& final(self).initial_cells == old(self).initial_cells
                &&& final(self).changes == old(self).changes
                &&& final(self).hint is None
                &&& !final(self).show_all
                &&& final(self).solved_cache is None
                &&& final(self).submitted == old(self).submitted
            },
    {
        if self.submitted {
            return;
        }
        if !self.has_user_input() {
            return;
        }
        self.push_history();
        let fresh = self.initial_cells.duplicate();
        self.gameboard = fresh;
        self.invalid_cells = Vec::new();
        self.selected_cell = None;
        self.hint = None;
        self.show_all = false;
        self.solved_cache = None;
        proof {
            lemma_same_grid_invalid_empty(self.initial_cells@, self.gameboard@);
        }
    }

    /// Replace the session with a freshly generated puzzle of `holes` empty
    /// cells (clamped to 81).  The only command that leaves the submitted
    /// state.
    pub fn randomize(&mut self, holes: usize)
        requires
            old(self).inv(),
        ensures
            final(self).inv(),
            final(self).gameboard@ == final(self).initial_cells@,
            exists|s: Seq<u8>| #[trigger] solution_for(final(self).gameboard@, s),
            empty_count(final(self).gameboard@) == (if holes <= 81 {
                holes as int
            } else {
                81 as int
            }),
            pushed_history(old(self).history@, final(self).history@, old(self).gameboard@),
            final(self).selected_cell is None,
            final(self).invalid_cells@ == Seq::<(usize, usize)>::empty(),
            final(self).changes == old(self).changes,
            final(self).hint is None,
            !final(self).show_all,
            final(self).solved_cache is None,
            !final(self).submitted,
    {
        self.push_history();
        let board = Gameboard::generate_random(holes);
        self.initial_cells = board.duplicate();
        self.gameboard = board;
        self.invalid_cells = Vec::new();
        self.selected_cell = None;
        self.hint = None;
        self.show_all = false;
        self.solved_cache = None;
        self.submitted = false;
        proof {
            lemma_same_grid_invalid_empty(self.initial_cells@, self.gameboard@);
        }
    }

    /// Flip the show-all overlay; turning it on solves a copy of the initial
    /// puzzle and caches the answer when one exists.  Ignored once submitted.
    pub fn toggle_show_all(&mut self)
        requires
            old(self).inv(),
        ensures
            final(self).inv(),
            old(self).submitted ==> *final(self) == *old(self),
            !old(self).submitted ==> {
                &&& final(self).show_all == !old(self).show_all
                &&& final(self).gameboard == old(self).gameboard
                &&& final(self).selected_cell == old(self).selected_cell
                &&& final(self).initial_cells == old(self).initial_cells
                &&& final(self).invalid_cells == old(self).invalid_cells
                &&& final(self).history == old(self).history
                &&& final(self).changes == old(self).changes
                &&& final(self).hint == old(self).hint
                &&& final(self).submitted == old(self).submitted
                &&& (old(self).show_all ==> final(self).solved_cache is None)
                &&& (!old(self).show_all ==> {
                    &&& (solvable(old(self).initial_cells@) ==> final(self).solved_cache is Some)
                    &&& match final(self).solved_cache {
                        Some(gb) => completion_of(old(self).initial_cells@, gb@) && (consistent(
                            old(self).initial_cells@,
                        ) ==> solution_for(old(self).initial_cells@, gb@)),
                        None => !solvable(old(self).initial_cells@),
                    }
                })
            },
    {
        if self.submitted {
            return;
        }
        if self.show_all {
            self.show_all = false;
            self.solved_cache = None;
        } else {
            self.show_all = true;
            self.recompute_solution_cache();
        }
    }

    /// Toggle-style hint: with one pending, cancel it; otherwise pick the
    /// editable empty cell with the fewest acceptable digits (first in scan
    /// order on a tie), solve a copy of the current working grid, and offer
    /// that cell's solved value.  No hint appears when no such cell exists
    /// or the solve fails.  Ignored once submitted.
    pub fn show_hint(&mut self)
        requires
            old(self).inv(),
        ensures
            final(self).inv(),
            old(self).submitted ==> *final(self) == *old(self),
            !old(self).submitted ==> {
                &&& final(self).gameboard == old(self).gameboard
                &&& final(self).selected_cell == old(self).selected_cell
                &&& final(self).initial_cells == old(self).initial_cells
                &&& final(self).invalid_cells == old(self).invalid_cells
                &&& final(self).history == old(self).history
                &&& final(self).changes == old(self).changes
                &&& final(self).show_all == old(self).show_all
                &&& final(self).solved_cache == old(self).solved_cache
                &&& final(self).submitted == old(self).submitted
            },
            !old(self).submitted && old(self).hint is Some ==> final(self).hint is None,
            !old(self).submitted && old(self).hint is None ==> {
                let ini = old(self).initial_cells@;
                let g = old(self).gameboard@;
                &&& match final(self).hint {
                    Some((pos, v)) => {
                        let k = (pos.1 as int) * 9 + pos.0 as int;
                        &&& pos.0 < 9
                        &&& pos.1 < 9
                        &&& hintable(ini, g, k)
                        &&& forall|j: int|
                            0 <= j < 81 && #[trigger] hintable(ini, g, j) ==> cand_count(
                                g,
                                j / 9,
                                j % 9,
                            ) >= cand_count(g, k / 9, k % 9)
                        &&& forall|j: int|
                            0 <= j < k && #[trigger] hintable(ini, g, j) ==> cand_count(
                                g,
                                j / 9,
                                j % 9,
                            ) > cand_count(g, k / 9, k % 9)
                        &&& exists|s: Seq<u8>|
                            #[trigger] completion_of(g, s) && (consistent(g) ==> solution_for(
                                g,
                                s,
                            )) && s[k] == v
                        &&& 1 <= v <= 9
                    },
                    None => (forall|j: int| 0 <= j < 81 ==> !#[trigger] hintable(ini, g, j))
                        || !solvable(g),
                }
                &&& (solvable(g) && (exists|j: int| 0 <= j < 81 && #[trigger] hintable(ini, g, j))
                    ==> final(self).hint is Some)
            },
    {
        if self.submitted {
            return;
        }
        if self.hint.is_some() {
            self.hint = None;
            return;
        }
        let ghost ini = self.initial_cells@;
        let ghost g = self.gameboard@;
        let mut best: Option<(usize, usize)> = None;
        let mut best_count: usize = 10;
        let ghost mut best_k: int = 81;
        let mut k: usize = 0;
        while k < 81
            invariant_except_break
                self.gameboard.wf(),
                self.initial_cells.wf(),
                ini == self.initial_cells@,
                g == self.gameboard@,
                k <= 81,
                match best {
                    None => best_count == 10 && (forall|j: int|
                        0 <= j < k ==> !#[trigger] hintable(ini, g, j)),
                    Some(p) => {
                        &&& p.0 < 9
                        &&& p.1 < 9
                        &&& best_k == (p.1 as int) * 9 + p.0 as int
                        &&& 0 <= best_k < k
                        &&& hintable(ini, g, best_k)
                        &&& best_count == cand_count(g, best_k / 9, best_k % 9)
                        &&& 1 <= best_count <= 9
                        &&& forall|j: int|
                            0 <= j < k && #[trigger] hintable(ini, g, j) ==> cand_count(
                                g,
                                j / 9,
                                j % 9,
                            ) >= best_count
                        &&& forall|j: int|
                            0 <= j < best_k && #[trigger] hintable(ini, g, j) ==> cand_count(
                                g,
                                j / 9,
                                j % 9,
                            ) > best_count
                    },
                },
            ensures
                match best {
                    None => forall|j: int| 0 <= j < 81 ==> !#[trigger] hintable(ini, g, j),
                    Some(p) => {
                        &&& p.0 < 9
                        &&& p.1 < 9
                        &&& best_k == (p.1 as int) * 9 + p.0 as int
                        &&& 0 <= best_k < 81
                        &&& hintable(ini, g, best_k)
                        &&& forall|j: int|
                            0 <= j < 81 && #[trigger] hintable(ini, g, j) ==> cand_count(
                                g,
                                j / 9,
                                j % 9,
                            ) >= cand_count(g, best_k / 9, best_k % 9)
                        &&& forall|j: int|
                            0 <= j < best_k && #[trigger] hintable(ini, g, j) ==> cand_count(
                                g,
                                j / 9,
                                j % 9,
                            ) > cand_count(g, best_k / 9, best_k % 9)
                    },
                },
            decreases 81 - k,
        {
            let y = k / 9;
            let x = k % 9;
            proof {
                assert(y * 9 + x == k);
            }
            if self.initial_cells.cells[k] == 0 && self.gameboard.cells[k] == 0 {
                let cnt = self.count_candidates(x, y);
                proof {
                    assert(cell(ini, k as int / 9, k as int % 9) == ini[k as int]);
                    assert(cell(g, k as int / 9, k as int % 9) == g[k as int]);
                }
                if cnt > 0 && cnt < best_count {
                    best = Some((x, y));
                    best_count = cnt;
                    proof {
                        best_k = k as int;
                    }
                    if best_count == 1 {
                        break;
                    }
                }
            }
            k += 1;
        }
        match best {
            None => {},
            Some((tx, ty)) => {
                let mut clone = self.gameboard.duplicate();
                if clone.solve() {
                    let val = clone.cells[ty * 9 + tx];
                    proof {
                        assert(clone@[(ty as int) * 9 + tx as int] != 0);
                        assert(clone@[(ty as int) * 9 + tx as int] <= 9);
                    }
                    self.hint = Some(((tx, ty), val));
                }
            },
        }
    }

    /// A click on the pending hint's cell commits the hinted value through
    /// the same path as `enter_digit` and clears the hint; any other click
    /// leaves the session unchanged and reports that it was not consumed.
    pub fn confirm_hint_by_click(&mut self, x: usize, y: usize) -> (consumed: bool)
        requires
            old(self).inv(),
            x < 9,
            y < 9,
        ensures
            final(self).inv(),
            old(self).submitted ==> *final(self) == *old(self) && !consumed,
            !old(self).submitted ==> match old(self).hint {
                None => *final(self) == *old(self) && !consumed,
                Some((pos, v)) => {
                    if pos != (x, y) {
                        *final(self) == *old(self) && !consumed
                    } else if !(cell(old(self).initial_cells@, y as int, x as int) == 0 && cell(
                        old(self).gameboard@,
                        y as int,
                        x as int,
                    ) == 0) {
                        *final(self) == *old(self) && !consumed
                    } else {
                        &&& consumed
                        &&& final(self).gameboard@ == old(self).gameboard@.update(
                            (y as int) * 9 + x as int,
                            v,
                        )
                        &&& pushed_history(
                            old(self).history@,
                            final(self).history@,
                            old(self).gameboard@,
                        )
                        &&& pushed_change(
                            old(self).changes@,
                            final(self).changes@,
                            (Change { x, y, prev: 0u8 }),
                        )
                        &&& final(self).hint is None
                        &&& final(self).invalid_cells@ == invalid_list(
                            old(self).initial_cells@,
                            final(self).gameboard@,
                        )
                        &&& final(self).selected_cell == old(self).selected_cell
                        &&& final(self).initial_cells == old(self).initial_cells
                        &&& final(self).show_all == old(self).show_all
                        &&& final(self).submitted == old(self).submitted
                        &&& (!old(self).show_all ==> final(self).solved_cache == old(self).solved_cache)
                    }
                },
            },
    {
        if self.submitted {
            return false;
        }
        if let Some((pos, v)) = self.hint {
            if pos.0 == x && pos.1 == y {
                if self.initial_cells.cells[y * 9 + x] == 0 && self.gameboard.cells[y * 9 + x]
                    == 0 {
                    self.push_history();
                    self.push_change(x, y, 0);
                    self.gameboard.set(x, y, v);
                    self.hint = None;
                    if self.show_all {
                        self.recompute_solution_cache();
                    }
                    self.recompute_invalid_cells();
                    return true;
                }
            }
        }
        false
    }

    /// Grade the session: solve a copy of the initial puzzle; when that
    /// fails nothing happens, otherwise lock the session and rebuild the
    /// invalid list as exactly the editable, non-empty cells whose entry
    /// differs from the found solution.  Empty cells are never flagged.
    pub fn submit(&mut self)
        requires
            old(self).inv(),
        ensures
            final(self).inv(),
            old(self).submitted ==> *final(self) == *old(self),
            !old(self).submitted ==> ((*final(self) == *old(self) && !final(self).submitted
                && !solvable(old(self).initial_cells@)) || {
                &&& final(self).submitted
                &&& final(self).hint is None
                &&& exists|s: Seq<u8>|
                    #[trigger] completion_of(old(self).initial_cells@, s) && (consistent(
                        old(self).initial_cells@,
                    ) ==> solution_for(old(self).initial_cells@, s)) && final(self).invalid_cells@
                        == mismatch_list(old(self).initial_cells@, old(self).gameboard@, s)
                &&& final(self).gameboard == old(self).gameboard
                &&& final(self).selected_cell == old(self).selected_cell
                &&& final(self).initial_cells == old(self).initial_cells
                &&& final(self).history == old(self).history
                &&& final(self).changes == old(self).changes
                &&& final(self).show_all == old(self).show_all
                &&& final(self).solved_cache == old(self).solved_cache
            }),
            !old(self).submitted && solvable(old(self).initial_cells@) ==> final(self).submitted
                && (exists|s: Seq<u8>|
                #[trigger] solution_for(old(self).initial_cells@, s) && final(self).invalid_cells@ == mismatch_list(old(self).initial_cells@, old(self).gameboard@, s)),
    {
        if self.submitted {
            return;
        }
        let mut solution = self.initial_cells.duplicate();
        if !solution.solve() {
            return;
        }
        self.submitted = true;
        self.hint = None;
        let ghost ini = self.initial_cells@;
        let ghost g = self.gameboard@;
        let ghost sol = solution@;
        let ghost p: spec_fn(int, int) -> bool = |x: int, y: int| wrong_cell(ini, g, sol, x, y);
        let mut acc: Vec<(usize, usize)> = Vec::new();
        let mut k: usize = 0;
        while k < 81
            invariant
                self.gameboard.wf(),
                self.initial_cells.wf(),
                solution.wf(),
                ini == self.initial_cells@,
                g == self.gameboard@,
                sol == solution@,
                p == (|x: int, y: int| wrong_cell(ini, g, sol, x, y)),
                k <= 81,
                acc@ == scan_positions(p, k as int),
                forall|i: int|
                    0 <= i < acc@.len() ==> (#[trigger] acc@[i]).0 < 9 && acc@[i].1 < 9,
            decreases 81 - k,
        {
            let y = k / 9;
            let x = k % 9;
            proof {
                assert(y * 9 + x == k);
                assert(cell(ini, y as int, x as int) == ini[k as int]);
                assert(cell(g, y as int, x as int) == g[k as int]);
                assert(cell(sol, y as int, x as int) == sol[k as int]);
            }
            if self.initial_cells.cells[k] == 0 {
                let pv = self.gameboard.cells[k];
                if pv != 0 && pv != solution.cells[k] {
                    acc.push((x, y));
                }
            }
            proof {
                assert(p(x as int, y as int) == wrong_cell(ini, g, sol, x as int, y as int));
                assert(acc@ == scan_positions(p, k + 1));
            }
            k += 1;
        }
        self.invalid_cells = acc;
        proof {
            if solvable(ini) {
                lemma_solvable_consistent(ini);
            }
        }
    }
}

/// Performing `enter_digit` and then `undo` restores the working grid and
/// the derived invalid list to their exact pre-edit state, whatever edits
/// came before and even with the history stack at its capacity.
pub fn enter_digit_then_undo(ctrl: &mut GameboardController, d: u8)
    requires
        old(ctrl).inv(),
        !old(ctrl).submitted,
        1 <= d <= 9,
        match old(ctrl).selected_cell {
            Some((x, y)) => cell(old(ctrl).initial_cells@, y as int, x as int) == 0 && cell(
                old(ctrl).gameboard@,
                y as int,
                x as int,
            ) != d,
            None => false,
        },
    ensures
        final(ctrl).inv(),
        final(ctrl).gameboard@ == old(ctrl).gameboard@,
        final(ctrl).invalid_cells@ == old(ctrl).invalid_cells@,
{
    ctrl.enter_digit(d);
    ctrl.undo();
}

/// When the working grid equals the initial puzzle, no cell is editable and
/// non-empty, so the derived invalid list is empty.
pub proof fn lemma_same_grid_invalid_empty(ini: Seq<u8>, g: Seq<u8>)
    requires
        ini == g,
    ensures
        invalid_list(ini, g) == Seq::<(usize, usize)>::empty(),
{
    let p = |x: int, y: int| bad_cell(ini, g, x, y);
    assert forall|x: int, y: int| !#[trigger] p(x, y) by {
        assert(p(x, y) == bad_cell(ini, g, x, y));
    }
    lemma_scan_positions_none(p, 81);
}

} // verus!

