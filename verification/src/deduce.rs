//! Pure-negative deduction: if no other superposition cell in one of a cell's
//! peer groups can still hold a digit, that cell must hold it and collapses.

use vstd::prelude::*;

use crate::board::Sudoku;
use crate::board::block_cell;
use crate::board::determined_preserved;
use crate::board::same_block;
use crate::board::same_col;
use crate::board::same_row;
use crate::board::wf_board;
use crate::cell::Cell;
use crate::cell::CellModel;
use crate::cell::super_has;
use crate::propagate::lemma_block_enum;

verus! {

broadcast use crate::board::lemma_view_len;

/// Does some other superposition cell in the row of `idx` still admit
/// candidate `v`?
pub open spec fn has_alt_row(g: Seq<CellModel>, idx: int, v: int) -> bool {
    exists|j: int|
        0 <= j < 81 && same_row(idx, j) && j != idx && super_has(#[trigger] g[j], v)
}

/// Does some other superposition cell in the column of `idx` still admit
/// candidate `v`?
pub open spec fn has_alt_col(g: Seq<CellModel>, idx: int, v: int) -> bool {
    exists|j: int|
        0 <= j < 81 && same_col(idx, j) && j != idx && super_has(#[trigger] g[j], v)
}

/// Does some other superposition cell in the 3x3 block of `idx` still admit
/// candidate `v`?
pub open spec fn has_alt_block(g: Seq<CellModel>, idx: int, v: int) -> bool {
    exists|j: int|
        0 <= j < 81 && same_block(idx, j) && j != idx && super_has(#[trigger] g[j], v)
}

/// Candidate `v` of the superposition at `idx` is forced: some peer group has
/// no other superposition cell that could hold it.
pub open spec fn forced_at(g: Seq<CellModel>, idx: int, v: int) -> bool {
    super_has(g[idx], v) && (!has_alt_row(g, idx, v) || !has_alt_col(g, idx, v) || !has_alt_block(
        g,
        idx,
        v,
    ))
}

/// Smallest forced candidate index at or after `from`; 9 if none.
pub open spec fn first_forced_from(g: Seq<CellModel>, idx: int, from: int) -> int
    decreases 9 - from,
{
    if !(0 <= from < 9) {
        9
    } else if forced_at(g, idx, from) {
        from
    } else {
        first_forced_from(g, idx, from + 1)
    }
}

/// The board after pure-negative deduction at `idx`: a superposition with a
/// forced candidate collapses to the smallest such candidate's digit; any
/// other board is unchanged.
pub open spec fn pure_negative_spec(g: Seq<CellModel>, idx: int) -> Seq<CellModel> {
    if 0 <= idx < g.len() && g[idx] is Super && first_forced_from(g, idx, 0) < 9 {
        g.update(idx, CellModel::Collapsed(first_forced_from(g, idx, 0) + 1))
    } else {
        g
    }
}

/// Skipping unforced candidates does not change the first forced one.
pub proof fn lemma_first_forced_skip(g: Seq<CellModel>, idx: int, a: int, b: int)
    requires
        0 <= a <= b <= 9,
        forall|v: int| a <= v < b ==> !forced_at(g, idx, v),
    ensures
        first_forced_from(g, idx, a) == first_forced_from(g, idx, b),
    decreases b - a,
{
    if a < b {
        lemma_first_forced_skip(g, idx, a + 1, b);
    }
}

/// Deduction keeps every determined cell, keeps well-formedness, and keeps
/// the board's length.
pub proof fn lemma_pure_negative_preserves(g: Seq<CellModel>, idx: int)
    ensures
        pure_negative_spec(g, idx).len() == g.len(),
        determined_preserved(g, pure_negative_spec(g, idx)),
        wf_board(g) ==> wf_board(pure_negative_spec(g, idx)),
{
    let r = pure_negative_spec(g, idx);
    if wf_board(g) && 0 <= idx < g.len() && g[idx] is Super && first_forced_from(g, idx, 0) < 9 {
        let ff = first_forced_from(g, idx, 0);
        assert(0 <= ff) by {
            lemma_first_forced_nonneg(g, idx, 0);
        };
        assert forall|j: int| 0 <= j < 81 implies crate::board::wf_cell(#[trigger] r[j]) by {
            assert(crate::board::wf_cell(g[j]));
        }
    }
}

/// A first forced candidate below 9 really is forced.
pub proof fn lemma_first_forced_is_forced(g: Seq<CellModel>, idx: int, from: int)
    requires
        0 <= from <= 9,
        first_forced_from(g, idx, from) < 9,
    ensures
        forced_at(g, idx, first_forced_from(g, idx, from)),
    decreases 9 - from,
{
    if from < 9 && !forced_at(g, idx, from) {
        lemma_first_forced_is_forced(g, idx, from + 1);
    }
}

/// The first forced candidate index is never negative.
proof fn lemma_first_forced_nonneg(g: Seq<CellModel>, idx: int, from: int)
    requires
        0 <= from <= 9,
    ensures
        first_forced_from(g, idx, from) >= from,
    decreases 9 - from,
{
    if 0 <= from < 9 && !forced_at(g, idx, from) {
        lemma_first_forced_nonneg(g, idx, from + 1);
    }
}

impl Sudoku {
    /// Is there another superposition cell in the row of `idx` that still
    /// admits candidate `v`?
    #[verifier::loop_isolation(false)]
    fn row_has_alternative(&self, idx: usize, v: usize) -> (r: bool)
        requires
            idx < 81,
            v < 9,
        ensures
            r == has_alt_row(self@, idx as int, v as int),
    {
        let row_start = Sudoku::row_idx(idx);
        let mut c = row_start;
        while c < row_start + 9
            invariant
                row_start <= c <= row_start + 9,
                forall|j: int|
                    row_start <= j < c ==> !(j != idx && super_has(#[trigger] self@[j], v as int)),
            decreases row_start + 9 - c,
        {
            if let Cell::Superposition(s) = self.cell(c) {
                if c != idx && s[v] {
                    proof {
                        assert(same_row(idx as int, c as int)) by {
                            assert(c as int == 9 * (c as int / 9) + (c as int) % 9);
                            assert(idx as int == 9 * (idx as int / 9) + (idx as int) % 9);
                        };
                    }
                    return true;
                }
            }
            c = c + 1;
        }
        proof {
            if has_alt_row(self@, idx as int, v as int) {
                let j = choose|j: int|
                    0 <= j < 81 && same_row(idx as int, j) && j != idx && super_has(
                        #[trigger] self@[j],
                        v as int,
                    );
                assert(j == 9 * (j / 9) + j % 9 && 0 <= j % 9 < 9);
                assert(row_start <= j < row_start + 9);
                assert(false);
            }
        }
        false
    }

    /// Is there another superposition cell in the column of `idx` that still
    /// admits candidate `v`?
    #[verifier::loop_isolation(false)]
    fn col_has_alternative(&self, idx: usize, v: usize) -> (r: bool)
        requires
            idx < 81,
            v < 9,
        ensures
            r == has_alt_col(self@, idx as int, v as int),
    {
        let col_start = Sudoku::col_idx(idx);
        let mut r = col_start;
        while r < 81
            invariant
                col_start <= r <= col_start + 81,
                r % 9 == col_start,
                forall|j: int|
                    0 <= j < r && j % 9 == col_start ==> !(j != idx && super_has(
                        #[trigger] self@[j],
                        v as int,
                    )),
            decreases 90 - r,
        {
            if let Cell::Superposition(s) = self.cell(r) {
                if r != idx && s[v] {
                    return true;
                }
            }
            r = r + 9;
        }
        proof {
            if has_alt_col(self@, idx as int, v as int) {
                let j = choose|j: int|
                    0 <= j < 81 && same_col(idx as int, j) && j != idx && super_has(
                        #[trigger] self@[j],
                        v as int,
                    );
                assert(j % 9 == col_start);
                assert(false);
            }
        }
        false
    }

    /// Is there another superposition cell in the 3x3 block of `idx` that
    /// still admits candidate `v`?
    #[verifier::loop_isolation(false)]
    fn block_has_alternative(&self, idx: usize, v: usize) -> (r: bool)
        requires
            idx < 81,
            v < 9,
        ensures
            r == has_alt_block(self@, idx as int, v as int),
    {
        let block_start = Sudoku::subsection_idx(idx);
        proof {
            lemma_block_enum(idx as int);
        }
        let mut t: usize = 0;
        while t < 9
            invariant
                t <= 9,
                forall|u: int|
                    0 <= u < t ==> !(block_cell(idx as int, u) != idx && super_has(
                        #[trigger] self@[block_cell(idx as int, u)],
                        v as int,
                    )),
            decreases 9 - t,
        {
            let j = block_start + (t / 3) * 9 + t % 3;
            proof {
                assert(j == block_cell(idx as int, t as int));
            }
            if let Cell::Superposition(s) = self.cell(j) {
                if j != idx && s[v] {
                    proof {
                        assert(same_block(idx as int, j as int));
                    }
                    return true;
                }
            }
            t = t + 1;
        }
        proof {
            if has_alt_block(self@, idx as int, v as int) {
                let j = choose|j: int|
                    0 <= j < 81 && same_block(idx as int, j) && j != idx && super_has(
                        #[trigger] self@[j],
                        v as int,
                    );
                let u = choose|u: int| 0 <= u < 9 && j == #[trigger] block_cell(idx as int, u);
                assert(!(block_cell(idx as int, u) != idx && super_has(
                    self@[block_cell(idx as int, u)],
                    v as int,
                )));
                assert(false);
            }
        }
        false
    }

    /// Pure-negative deduction for the cell at `idx`: among its remaining
    /// candidates, taken in ascending order, collapse to the first one that no
    /// other superposition cell of the row (checked first), column, or block
    /// could hold. A cell that is not a superposition is left alone.
    #[verifier::loop_isolation(false)]
    pub fn solve_pure_negative(&mut self, idx: usize)
        requires
            idx < 81,
        ensures
            final(self)@ == pure_negative_spec(old(self)@, idx as int),
            determined_preserved(old(self)@, final(self)@),
            wf_board(old(self)@) ==> wf_board(final(self)@),
    {
        proof {
            lemma_pure_negative_preserves(old(self)@, idx as int);
        }
        let s = match self.cell(idx) {
            Cell::Superposition(s) => s,
            _ => {
                proof {
                    assert(!(old(self)@[idx as int] is Super));
                }
                return ;
            },
        };
        let ghost g0 = self@;
        let mut v: usize = 0;
        while v < 9
            invariant
                v <= 9,
                self@ == g0,
                forall|w: int| 0 <= w < v ==> !forced_at(g0, idx as int, w),
            decreases 9 - v,
        {
            if s[v] {
                proof {
                    assert(super_has(g0[idx as int], v as int));
                }
                let forced = if !self.row_has_alternative(idx, v) {
                    true
                } else if !self.col_has_alternative(idx, v) {
                    true
                } else {
                    !self.block_has_alternative(idx, v)
                };
                if forced {
                    proof {
                        assert(forced_at(g0, idx as int, v as int));
                        lemma_first_forced_skip(g0, idx as int, 0, v as int);
                        assert(first_forced_from(g0, idx as int, 0) == v as int);
                    }
                    self.set_cell(idx, Cell::Collapsed((v + 1) as u8));
                    return ;
                }
            }
            proof {
                assert(!forced_at(g0, idx as int, v as int));
            }
            v = v + 1;
        }
        proof {
            lemma_first_forced_skip(g0, idx as int, 0, 9);
        }
    }
}

} // verus!
