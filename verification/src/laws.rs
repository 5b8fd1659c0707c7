//! Board-level laws of the solver, stated over the spec-level transformers
//! that the executable functions are proved to implement.

use vstd::prelude::*;

use crate::board::determined_preserved;
use crate::board::is_solved_spec;
use crate::board::lemma_determined_preserved_trans;
use crate::board::same_group;
use crate::board::wf_board;
use crate::board::wf_cell;
use crate::cell::CellModel;
use crate::cell::determined_value;
use crate::cell::is_determined;
use crate::cell::super_has;
use crate::deduce::first_forced_from;
use crate::deduce::lemma_first_forced_is_forced;
use crate::deduce::pure_negative_spec;
use crate::propagate::clear_candidate;
use crate::propagate::lemma_clear_twice;
use crate::propagate::lemma_propagate_preserves;
use crate::propagate::propagate_spec;
use crate::solver::count_undetermined;
use crate::solver::first_super_from;
use crate::solver::lemma_count_undet_mono;
use crate::solver::lemma_count_undet_strict;
use crate::solver::lemma_solve_loop_preserves;
use crate::solver::solve_loop_spec;
use crate::solver::solve_spec;
use crate::solver::try_candidates;

verus! {

/// Propagating the same determined cell twice leaves exactly the candidate
/// sets that propagating it once leaves: propagation is idempotent.
pub proof fn lemma_propagate_idempotent(g: Seq<CellModel>, idx: int)
    requires
        wf_board(g),
    ensures
        propagate_spec(propagate_spec(g, idx), idx) == propagate_spec(g, idx),
{
    let g1 = propagate_spec(g, idx);
    lemma_propagate_preserves(g, idx);
    if 0 <= idx < g.len() && is_determined(g[idx]) {
        let k = determined_value(g[idx]) - 1;
        assert(g1[idx] == g[idx]);
        assert forall|j: int| 0 <= j < 81 implies propagate_spec(g1, idx)[j] == g1[j] by {
            assert(wf_cell(g[j]));
            lemma_clear_twice(g[j], k);
        }
        assert(propagate_spec(g1, idx) =~= g1);
    }
}

/// Propagation removes a candidate only with cause: if propagating `idx`
/// clears candidate `w` from the superposition at `j`, then `idx` holds the
/// determined value `w + 1` and shares a row, column, or block with `j`.
/// Every valid total solution respects that constraint, so propagation never
/// discards a digit that such a solution would put at `j`.
pub proof fn lemma_propagate_sound(g: Seq<CellModel>, idx: int, j: int, w: int)
    requires
        wf_board(g),
        0 <= idx < 81,
        0 <= j < 81,
        0 <= w < 9,
        super_has(g[j], w),
        !super_has(propagate_spec(g, idx)[j], w),
    ensures
        is_determined(g[idx]),
        same_group(idx, j),
        determined_value(g[idx]) == w + 1,
{
    if is_determined(g[idx]) {
        let k = determined_value(g[idx]) - 1;
        if same_group(idx, j) {
            assert(propagate_spec(g, idx)[j] == clear_candidate(g[j], k));
        }
    }
}

/// Deduction only collapses a cell to a digit it still held as a candidate:
/// if pure-negative deduction changes the board at `idx`, the cell was a
/// superposition and the digit written is one of its remaining candidates.
pub proof fn lemma_deduction_picks_remaining_candidate(g: Seq<CellModel>, idx: int)
    requires
        pure_negative_spec(g, idx) != g,
    ensures
        0 <= idx < g.len(),
        g[idx] is Super,
        pure_negative_spec(g, idx) == g.update(
            idx,
            CellModel::Collapsed(first_forced_from(g, idx, 0) + 1),
        ),
        super_has(g[idx], first_forced_from(g, idx, 0)),
{
    lemma_first_forced_is_forced(g, idx, 0);
}

/// Solving never rewrites what is already known: every determined cell of
/// the input board, given clue or earlier deduction, keeps its exact value
/// in the solved board.
pub proof fn lemma_solve_preserves_determined(g: Seq<CellModel>)
    ensures
        determined_preserved(g, solve_spec(g)),
    decreases count_undetermined(g), 1int, 0int,
{
    let r = solve_loop_spec(g, 0);
    lemma_solve_loop_preserves(g, 0);
    if !(r.1 || is_solved_spec(r.0)) {
        let idx = first_super_from(r.0, 0);
        if 0 <= idx < 81 && r.0.len() == 81 {
            lemma_count_undet_mono(g, r.0);
            lemma_try_candidates_preserves(r.0, idx, 0);
            lemma_determined_preserved_trans(g, r.0, try_candidates(r.0, idx, 0));
        }
    }
}

proof fn lemma_try_candidates_preserves(g: Seq<CellModel>, idx: int, v: int)
    ensures
        determined_preserved(g, try_candidates(g, idx, v)),
    decreases count_undetermined(g), 0int, 9 - v,
{
    if 0 <= v < 9 && 0 <= idx < g.len() {
        if super_has(g[idx], v) {
            let up = g.update(idx, CellModel::Collapsed(v + 1));
            assert(determined_preserved(g, up));
            lemma_count_undet_strict(g, up, idx);
            lemma_solve_preserves_determined(up);
            let attempt = solve_spec(up);
            if is_solved_spec(attempt) {
                lemma_determined_preserved_trans(g, up, attempt);
            } else {
                lemma_try_candidates_preserves(g, idx, v + 1);
            }
        } else {
            lemma_try_candidates_preserves(g, idx, v + 1);
        }
    }
}

/// Given-preservation: every given clue of the input board holds that exact
/// value in the output of `solve`.
pub proof fn lemma_solve_preserves_givens(g: Seq<CellModel>)
    ensures
        solve_spec(g).len() == g.len(),
        forall|i: int|
            0 <= i < g.len() && (#[trigger] g[i]) is Fixed ==> solve_spec(g)[i] == g[i],
{
    lemma_solve_preserves_determined(g);
}

/// A fully determined board is a fixed point of `solve`: solving it returns
/// at once, with no cell mutated.
pub proof fn lemma_solve_solved_fixpoint(g: Seq<CellModel>)
    requires
        is_solved_spec(g),
    ensures
        solve_spec(g) == g,
{
    assert(solve_loop_spec(g, 0) == ((g, false)));
}

} // verus!
