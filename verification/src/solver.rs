//! The solve loop: repeated deduce-and-propagate passes to a fixed point,
//! single-candidate collapse with contradiction detection, and recursive
//! backtracking over the candidates of the first unresolved cell.

use vstd::prelude::*;

use crate::board::Sudoku;
use crate::board::determined_preserved;
use crate::board::is_solved_spec;
use crate::board::lemma_determined_preserved_trans;
use crate::board::wf_board;
use crate::board::wf_cell;
use crate::cell::Cell;
use crate::cell::CellModel;
use crate::cell::cand_count;
use crate::cell::first_true_from;
use crate::cell::is_determined;
use crate::cell::lemma_first_true_props;
use crate::cell::super_has;
use crate::deduce::pure_negative_spec;
use crate::deduce::lemma_pure_negative_preserves;
use crate::propagate::propagate_spec;
use crate::propagate::lemma_propagate_preserves;

verus! {

broadcast use crate::board::lemma_view_len;

/// What one collapse pass over the board produced: the new board, whether at
/// least one cell collapsed, and whether an empty candidate set aborted it.
pub struct PassOutcome {
    pub grid: Seq<CellModel>,
    pub collapsed: bool,
    pub aborted: bool,
}

/// Number of undetermined cells among the first `n`.
pub open spec fn count_undet_to(g: Seq<CellModel>, n: int) -> nat
    decreases n,
{
    if n <= 0 {
        0
    } else {
        count_undet_to(g, n - 1) + (if is_determined(g[n - 1]) {
            0nat
        } else {
            1nat
        })
    }
}

/// Number of undetermined cells of the board; the solver's progress measure.
pub open spec fn count_undetermined(g: Seq<CellModel>) -> nat {
    count_undet_to(g, g.len() as int)
}

proof fn lemma_count_to_mono(g1: Seq<CellModel>, g2: Seq<CellModel>, n: int)
    requires
        determined_preserved(g1, g2),
        n <= g1.len(),
    ensures
        count_undet_to(g2, n) <= count_undet_to(g1, n),
    decreases n,
{
    if n > 0 {
        lemma_count_to_mono(g1, g2, n - 1);
    }
}

proof fn lemma_count_to_strict(g1: Seq<CellModel>, g2: Seq<CellModel>, j: int, n: int)
    requires
        determined_preserved(g1, g2),
        0 <= j < n <= g1.len(),
        !is_determined(g1[j]),
        is_determined(g2[j]),
    ensures
        count_undet_to(g2, n) < count_undet_to(g1, n),
    decreases n,
{
    if j == n - 1 {
        lemma_count_to_mono(g1, g2, n - 1);
    } else {
        lemma_count_to_strict(g1, g2, j, n - 1);
    }
}

/// Keeping every determined cell can only shrink the progress measure.
pub proof fn lemma_count_undet_mono(g1: Seq<CellModel>, g2: Seq<CellModel>)
    requires
        determined_preserved(g1, g2),
    ensures
        count_undetermined(g2) <= count_undetermined(g1),
{
    lemma_count_to_mono(g1, g2, g1.len() as int);
}

/// Determining one more cell strictly shrinks the progress measure.
pub proof fn lemma_count_undet_strict(g1: Seq<CellModel>, g2: Seq<CellModel>, j: int)
    requires
        determined_preserved(g1, g2),
        0 <= j < g1.len(),
        !is_determined(g1[j]),
        is_determined(g2[j]),
    ensures
        count_undetermined(g2) < count_undetermined(g1),
{
    lemma_count_to_strict(g1, g2, j, g1.len() as int);
}

/// The board after the first `n` steps of the deduce-and-propagate pass:
/// pure-negative deduction, then propagation, at each index in order.
pub open spec fn pass1_to(g: Seq<CellModel>, n: int) -> Seq<CellModel>
    decreases n,
{
    if n <= 0 {
        g
    } else {
        let h = pass1_to(g, n - 1);
        propagate_spec(pure_negative_spec(h, n - 1), n - 1)
    }
}

/// One full deduce-and-propagate pass over all 81 cells.
pub open spec fn pass1_spec(g: Seq<CellModel>) -> Seq<CellModel> {
    pass1_to(g, 81)
}

pub proof fn lemma_pass1_to_preserves(g: Seq<CellModel>, n: int)
    ensures
        pass1_to(g, n).len() == g.len(),
        determined_preserved(g, pass1_to(g, n)),
        wf_board(g) ==> wf_board(pass1_to(g, n)),
    decreases n,
{
    if n > 0 {
        lemma_pass1_to_preserves(g, n - 1);
        let h = pass1_to(g, n - 1);
        lemma_pure_negative_preserves(h, n - 1);
        lemma_propagate_preserves(pure_negative_spec(h, n - 1), n - 1);
        lemma_determined_preserved_trans(g, h, pure_negative_spec(h, n - 1));
        lemma_determined_preserved_trans(
            g,
            pure_negative_spec(h, n - 1),
            propagate_spec(pure_negative_spec(h, n - 1), n - 1),
        );
    }
}

/// The collapse pass after its first `n` steps. At each index in order: a
/// superposition with exactly one candidate collapses to it, deduction and
/// propagation run for that index at once, and a superposition with no
/// candidate left aborts the whole solve.
pub open spec fn pass2_to(g: Seq<CellModel>, n: int) -> PassOutcome
    decreases n,
{
    if n <= 0 || g.len() != 81 {
        PassOutcome { grid: g, collapsed: false, aborted: false }
    } else {
        let prev = pass2_to(g, n - 1);
        if prev.aborted {
            prev
        } else {
            let idx = n - 1;
            let c = prev.grid[idx];
            if c is Super && cand_count(c->Super_0) == 1 {
                let g2 = propagate_spec(
                    pure_negative_spec(
                        prev.grid.update(idx, CellModel::Collapsed(first_true_from(c->Super_0, 0) + 1)),
                        idx,
                    ),
                    idx,
                );
                PassOutcome {
                    grid: g2,
                    collapsed: true,
                    aborted: g2[idx] is Super && cand_count(g2[idx]->Super_0) == 0,
                }
            } else {
                PassOutcome {
                    grid: prev.grid,
                    collapsed: prev.collapsed,
                    aborted: c is Super && cand_count(c->Super_0) == 0,
                }
            }
        }
    }
}

pub proof fn lemma_pass2_to_preserves(g: Seq<CellModel>, n: int)
    requires
        n <= 81,
    ensures
        pass2_to(g, n).grid.len() == g.len(),
        determined_preserved(g, pass2_to(g, n).grid),
        wf_board(g) ==> wf_board(pass2_to(g, n).grid),
        pass2_to(g, n).collapsed ==> count_undetermined(pass2_to(g, n).grid) < count_undetermined(
            g,
        ),
    decreases n,
{
    if n > 0 && g.len() == 81 {
        lemma_pass2_to_preserves(g, n - 1);
        let prev = pass2_to(g, n - 1);
        if !prev.aborted {
            let idx = n - 1;
            let c = prev.grid[idx];
            if c is Super && cand_count(c->Super_0) == 1 {
                let up = prev.grid.update(
                    idx,
                    CellModel::Collapsed(first_true_from(c->Super_0, 0) + 1),
                );
                lemma_first_true_props(c->Super_0, 0);
                if wf_board(g) {
                    assert(wf_cell(prev.grid[idx]));
                    assert(first_true_from(c->Super_0, 0) < 9) by {
                        if first_true_from(c->Super_0, 0) == 9 {
                            crate::cell::lemma_cand_count_zero(c->Super_0);
                        }
                    };
                    assert forall|j: int| 0 <= j < 81 implies wf_cell(#[trigger] up[j]) by {
                        assert(wf_cell(prev.grid[j]));
                    }
                }
                lemma_pure_negative_preserves(up, idx);
                lemma_propagate_preserves(pure_negative_spec(up, idx), idx);
                let g2 = propagate_spec(pure_negative_spec(up, idx), idx);
                assert(determined_preserved(prev.grid, up));
                lemma_determined_preserved_trans(prev.grid, up, pure_negative_spec(up, idx));
                lemma_determined_preserved_trans(prev.grid, pure_negative_spec(up, idx), g2);
                lemma_determined_preserved_trans(g, prev.grid, g2);
                lemma_count_to_strict(prev.grid, g2, idx, 81);
                lemma_count_to_mono(g, prev.grid, 81);
            }
        }
    }
}

/// Once a collapse pass has aborted, the later steps change nothing.
pub proof fn lemma_pass2_frozen(g: Seq<CellModel>, n: int, m: int)
    requires
        0 <= n <= m,
        pass2_to(g, n).aborted,
    ensures
        pass2_to(g, m) == pass2_to(g, n),
    decreases m - n,
{
    if n < m {
        lemma_pass2_frozen(g, n, m - 1);
    }
}

/// The outer fixed-point loop, from a board and the number of consecutive
/// pass pairs that collapsed nothing: deduce-and-propagate pass, collapse
/// pass, until the board is solved, a contradiction aborts (second component
/// true), or four passes in a row collapse nothing.
pub open spec fn solve_loop_spec(g: Seq<CellModel>, stall: nat) -> (Seq<CellModel>, bool)
    decreases count_undetermined(g), 4 - stall,
{
    if is_solved_spec(g) {
        (g, false)
    } else {
        let g1 = pass1_spec(g);
        let p = pass2_to(g1, 81);
        if p.aborted {
            (p.grid, true)
        } else {
            let stall2: nat = if p.collapsed {
                0
            } else {
                stall + 1
            };
            if stall2 > 3 {
                (p.grid, false)
            } else {
                proof {
                    lemma_pass1_to_preserves(g, 81);
                    lemma_pass2_to_preserves(g1, 81);
                    lemma_determined_preserved_trans(g, g1, p.grid);
                    lemma_count_undet_mono(g, p.grid);
                    if p.collapsed {
                        lemma_count_undet_mono(g, g1);
                    }
                }
                solve_loop_spec(p.grid, stall2)
            }
        }
    }
}

pub proof fn lemma_solve_loop_preserves(g: Seq<CellModel>, stall: nat)
    ensures
        solve_loop_spec(g, stall).0.len() == g.len(),
        determined_preserved(g, solve_loop_spec(g, stall).0),
        wf_board(g) ==> wf_board(solve_loop_spec(g, stall).0),
    decreases count_undetermined(g), 4 - stall,
{
    if !is_solved_spec(g) {
        let g1 = pass1_spec(g);
        let p = pass2_to(g1, 81);
        lemma_pass1_to_preserves(g, 81);
        lemma_pass2_to_preserves(g1, 81);
        lemma_determined_preserved_trans(g, g1, p.grid);
        if !p.aborted {
            let stall2: nat = if p.collapsed {
                0
            } else {
                stall + 1
            };
            if stall2 <= 3 {
                lemma_count_undet_mono(g, p.grid);
                if p.collapsed {
                    lemma_count_undet_mono(g, g1);
                }
                lemma_solve_loop_preserves(p.grid, stall2);
                lemma_determined_preserved_trans(g, p.grid, solve_loop_spec(p.grid, stall2).0);
            }
        }
    }
}

/// Smallest index at or after `i` holding a superposition; the board length
/// if there is none.
pub open spec fn first_super_from(g: Seq<CellModel>, i: int) -> int
    decreases g.len() - i,
{
    if !(0 <= i < g.len()) {
        g.len() as int
    } else if g[i] is Super {
        i
    } else {
        first_super_from(g, i + 1)
    }
}

/// Skipping non-superposition cells does not change the first superposition.
pub proof fn lemma_first_super_skip(g: Seq<CellModel>, a: int, b: int)
    requires
        0 <= a <= b <= g.len(),
        forall|j: int| a <= j < b ==> !(#[trigger] g[j] is Super),
    ensures
        first_super_from(g, a) == first_super_from(g, b),
    decreases b - a,
{
    if a < b {
        lemma_first_super_skip(g, a + 1, b);
    }
}

/// The whole solve of a board: the fixed-point loop; then, if the board is
/// neither solved nor aborted, backtracking over the candidates of its first
/// superposition cell, in ascending order, adopting the first speculative
/// solve that ends solved.
pub open spec fn solve_spec(g: Seq<CellModel>) -> Seq<CellModel>
    decreases count_undetermined(g), 1int, 0int,
{
    let r = solve_loop_spec(g, 0);
    let gl = r.0;
    if r.1 || is_solved_spec(gl) {
        gl
    } else {
        let idx = first_super_from(gl, 0);
        if 0 <= idx < 81 && gl.len() == 81 {
            proof {
                lemma_solve_loop_preserves(g, 0);
                lemma_count_undet_mono(g, gl);
            }
            try_candidates(gl, idx, 0)
        } else {
            gl
        }
    }
}

/// Backtracking over the candidates of the superposition at `idx`, starting
/// at candidate index `v`: speculatively collapse to each remaining
/// candidate in ascending order and solve; the first solved outcome wins,
/// and if none solves, the board is left as it was.
pub open spec fn try_candidates(g: Seq<CellModel>, idx: int, v: int) -> Seq<CellModel>
    decreases count_undetermined(g), 0int, 9 - v,
{
    if !(0 <= v < 9) || !(0 <= idx < g.len()) {
        g
    } else if super_has(g[idx], v) {
        proof {
            let up = g.update(idx, CellModel::Collapsed(v + 1));
            assert(determined_preserved(g, up));
            lemma_count_undet_strict(g, up, idx);
        }
        let attempt = solve_spec(g.update(idx, CellModel::Collapsed(v + 1)));
        if is_solved_spec(attempt) {
            attempt
        } else {
            try_candidates(g, idx, v + 1)
        }
    } else {
        try_candidates(g, idx, v + 1)
    }
}

impl Sudoku {
    /// Solve the board in place: run deduce-and-propagate passes and collapse
    /// passes until the board is solved, a contradiction appears, or four
    /// consecutive passes collapse nothing; then, if still unsolved,
    /// backtrack over the candidates of the first unresolved cell, adopting
    /// the first speculative solve that succeeds. The caller observes success
    /// through `is_solved`; the result is a function of the starting board
    /// alone (`solve_spec`), so solving is deterministic.
    #[verifier::loop_isolation(false)]
    #[verifier::rlimit(100)]
    pub fn solve(&mut self)
        requires
            wf_board(old(self)@),
        ensures
            final(self)@ == solve_spec(old(self)@),
            wf_board(final(self)@),
        decreases count_undetermined(old(self)@),
    {
        let ghost g0 = self@;
        let mut iters_without_collapse: usize = 0;
        while iters_without_collapse <= 3 && !self.is_solved()
            invariant
                wf_board(self@),
                determined_preserved(g0, self@),
                iters_without_collapse <= 4,
                iters_without_collapse <= 3 ==> solve_loop_spec(g0, 0) == solve_loop_spec(
                    self@,
                    iters_without_collapse as nat,
                ),
                iters_without_collapse > 3 ==> solve_loop_spec(g0, 0) == ((self@, false)),
            decreases count_undetermined(self@), 4 - iters_without_collapse,
        {
            let ghost cur0 = self@;
            let ghost stall0 = iters_without_collapse as nat;
            // Deduce-and-propagate pass.
            let mut idx: usize = 0;
            while idx < 81
                invariant
                    idx <= 81,
                    wf_board(self@),
                    self@ == pass1_to(cur0, idx as int),
                decreases 81 - idx,
            {
                self.solve_pure_negative(idx);
                self.propagate(idx);
                idx = idx + 1;
            }
            let ghost gp1 = self@;
            proof {
                assert(gp1 == pass1_spec(cur0));
                lemma_pass1_to_preserves(cur0, 81);
            }
            // Collapse pass, with contradiction detection.
            let mut collapsed = false;
            let mut idx: usize = 0;
            while idx < 81
                invariant
                    idx <= 81,
                    wf_board(self@),
                    pass2_to(gp1, idx as int) == (PassOutcome {
                        grid: self@,
                        collapsed: collapsed,
                        aborted: false,
                    }),
                decreases 81 - idx,
            {
                let ghost prev = self@;
                let c = self.cell(idx);
                if let Some(value) = c.collapse() {
                    proof {
                        lemma_first_true_props(prev[idx as int]->Super_0, 0);
                    }
                    self.set_cell(idx, Cell::Collapsed(value));
                    proof {
                        assert(wf_board(self@)) by {
                            assert forall|j: int| 0 <= j < 81 implies wf_cell(
                                #[trigger] self@[j],
                            ) by {
                                assert(wf_cell(prev[j]));
                            }
                        };
                    }
                    self.solve_pure_negative(idx);
                    self.propagate(idx);
                    collapsed = true;
                    proof {
                        let up = prev.update(
                            idx as int,
                            CellModel::Collapsed(first_true_from(prev[idx as int]->Super_0, 0) + 1),
                        );
                        assert(up == prev.update(
                            idx as int,
                            CellModel::Collapsed(value as int),
                        ));
                        lemma_pure_negative_preserves(up, idx as int);
                        lemma_propagate_preserves(pure_negative_spec(up, idx as int), idx as int);
                        assert(is_determined(self@[idx as int]));
                        assert(pass2_to(gp1, idx as int + 1) == (PassOutcome {
                            grid: self@,
                            collapsed: true,
                            aborted: false,
                        }));
                    }
                }
                let cs = self.cell(idx).count_superstates();
                if let Some(n_left) = cs {
                    proof {
                        crate::cell::lemma_cand_count_le(self@[idx as int]->Super_0);
                    }
                    if n_left == 0 {
                        proof {
                            assert(pass2_to(gp1, idx as int + 1).aborted);
                            lemma_pass2_frozen(gp1, idx as int + 1, 81);
                            assert(solve_loop_spec(cur0, stall0) == ((self@, true)));
                            assert(solve_loop_spec(g0, 0) == ((self@, true)));
                        }
                        return ;
                    }
                }
                proof {
                    assert(pass2_to(gp1, idx as int + 1) == (PassOutcome {
                        grid: self@,
                        collapsed: collapsed,
                        aborted: false,
                    }));
                }
                idx = idx + 1;
            }
            proof {
                lemma_pass2_to_preserves(gp1, 81);
                lemma_determined_preserved_trans(cur0, gp1, self@);
                lemma_determined_preserved_trans(g0, cur0, self@);
                lemma_count_undet_mono(cur0, self@);
                if collapsed {
                    lemma_count_undet_mono(cur0, gp1);
                }
            }
            if collapsed {
                iters_without_collapse = 0;
            } else {
                iters_without_collapse = iters_without_collapse + 1;
            }
            proof {
                let p = pass2_to(gp1, 81);
                assert(p.collapsed == collapsed && p.grid == self@ && !p.aborted);
                if iters_without_collapse <= 3 {
                    assert(solve_loop_spec(cur0, stall0) == solve_loop_spec(
                        self@,
                        iters_without_collapse as nat,
                    ));
                } else {
                    assert(solve_loop_spec(cur0, stall0) == ((self@, false)));
                }
            }
        }
        proof {
            if iters_without_collapse <= 3 {
                assert(solve_loop_spec(self@, iters_without_collapse as nat) == ((self@, false)));
            }
            assert(solve_loop_spec(g0, 0) == ((self@, false)));
        }
        if !self.is_solved() {
            // Backtracking over the first unresolved cell.
            let ghost gl = self@;
            proof {
                assert(exists|j: int| 0 <= j < gl.len() && !is_determined(#[trigger] gl[j]));
            }
            let mut idx: usize = 0;
            while idx < 81 && self.cell(idx).count_superstates().is_none()
                invariant
                    idx <= 81,
                    self@ == gl,
                    forall|j: int| 0 <= j < idx ==> !((#[trigger] gl[j]) is Super),
                decreases 81 - idx,
            {
                idx = idx + 1;
            }
            proof {
                assert(idx < 81) by {
                    if idx == 81 {
                        let w = choose|j: int|
                            0 <= j < gl.len() && !is_determined(#[trigger] gl[j]);
                        assert(wf_cell(gl[w]));
                        assert(false);
                    }
                };
                assert(gl[idx as int] is Super);
                lemma_first_super_skip(gl, 0, idx as int);
                assert(first_super_from(gl, 0) == idx as int);
            }
            if let Cell::Superposition(s) = self.cell(idx) {
                let mut v: usize = 0;
                while v < 9
                    invariant
                        v <= 9,
                        self@ == gl,
                        try_candidates(gl, idx as int, 0) == try_candidates(
                            gl,
                            idx as int,
                            v as int,
                        ),
                    decreases 9 - v,
                {
                    if s[v] {
                        let mut speculative = *self;
                        speculative.set_cell(idx, Cell::Collapsed((v + 1) as u8));
                        proof {
                            let up = gl.update(idx as int, CellModel::Collapsed(v as int + 1));
                            assert(speculative@ == up);
                            assert(determined_preserved(gl, up));
                            lemma_count_undet_strict(gl, up, idx as int);
                            lemma_count_undet_mono(g0, gl);
                            assert(wf_board(up)) by {
                                assert forall|j: int| 0 <= j < 81 implies wf_cell(
                                    #[trigger] up[j],
                                ) by {
                                    assert(wf_cell(gl[j]));
                                }
                            };
                        }
                        speculative.solve();
                        if speculative.is_solved() {
                            *self = speculative;
                            proof {
                                assert(super_has(gl[idx as int], v as int));
                                assert(try_candidates(gl, idx as int, v as int) == self@);
                            }
                            return ;
                        }
                        proof {
                            assert(super_has(gl[idx as int], v as int));
                            assert(try_candidates(gl, idx as int, v as int) == try_candidates(
                                gl,
                                idx as int,
                                v as int + 1,
                            ));
                        }
                    } else {
                        proof {
                            assert(!super_has(gl[idx as int], v as int));
                        }
                    }
                    v = v + 1;
                }
                proof {
                    assert(try_candidates(gl, idx as int, 9) == gl);
                    assert(solve_spec(g0) == self@);
                }
            } else {
                proof {
                    assert(false);
                }
            }
        }
    }
}

} // verus!
