//! Constraint propagation: once a cell holds a determined value, no peer in
//! its row, column, or 3x3 block may keep that value as a candidate.

use vstd::prelude::*;

use crate::board::Sudoku;
use crate::board::block_cell;
use crate::board::col_of;
use crate::board::determined_preserved;
use crate::board::row_first;
use crate::board::row_of;
use crate::board::same_block;
use crate::board::same_col;
use crate::board::same_group;
use crate::board::same_row;
use crate::board::wf_board;
use crate::board::wf_cell;
use crate::cell::Cell;
use crate::cell::CellModel;
use crate::cell::determined_value;
use crate::cell::is_determined;

verus! {

broadcast use crate::board::lemma_view_len;

/// Drop candidate index `k` from a superposition cell; leave any other cell
/// unchanged.
pub open spec fn clear_candidate(c: CellModel, k: int) -> CellModel {
    match c {
        CellModel::Super(s) => CellModel::Super(s.update(k, false)),
        _ => c,
    }
}

/// The board after propagating the cell at `idx`: if that cell is determined,
/// every superposition sharing its row, column, or block loses the candidate
/// for that value; otherwise the board is unchanged.
pub open spec fn propagate_spec(g: Seq<CellModel>, idx: int) -> Seq<CellModel> {
    if 0 <= idx < g.len() && is_determined(g[idx]) {
        let k = determined_value(g[idx]) - 1;
        Seq::new(
            g.len(),
            |j: int|
                if same_group(idx, j) {
                    clear_candidate(g[j], k)
                } else {
                    g[j]
                },
        )
    } else {
        g
    }
}

/// Clearing the same candidate twice is the same as clearing it once.
pub proof fn lemma_clear_twice(c: CellModel, k: int)
    requires
        c is Super ==> 0 <= k < c->Super_0.len(),
    ensures
        clear_candidate(clear_candidate(c, k), k) == clear_candidate(c, k),
{
    match c {
        CellModel::Super(s) => {
            assert(s.update(k, false).update(k, false) =~= s.update(k, false));
        },
        _ => {},
    }
}

/// Propagation keeps every determined cell, keeps well-formedness, and keeps
/// the board's length.
pub proof fn lemma_propagate_preserves(g: Seq<CellModel>, idx: int)
    ensures
        propagate_spec(g, idx).len() == g.len(),
        determined_preserved(g, propagate_spec(g, idx)),
        wf_board(g) ==> wf_board(propagate_spec(g, idx)),
        forall|j: int|
            0 <= j < g.len() ==> (is_determined(#[trigger] propagate_spec(g, idx)[j])
                <==> is_determined(g[j])),
{
    let r = propagate_spec(g, idx);
    assert forall|j: int| 0 <= j < g.len() implies (is_determined(#[trigger] r[j])
        <==> is_determined(g[j])) && (is_determined(g[j]) ==> r[j] == g[j]) && (wf_board(g)
        ==> wf_cell(r[j])) by {
        if 0 <= idx < g.len() && is_determined(g[idx]) {
            if wf_board(g) {
                assert(wf_cell(g[j]));
            }
        }
    }
}

/// The nine cells of the block of `i`, as `block_cell(i, 0..9)`, are exactly
/// the cells `j` with `same_block(i, j)`.
pub proof fn lemma_block_enum(i: int)
    requires
        0 <= i < 81,
    ensures
        forall|t: int| 0 <= t < 9 ==> 0 <= #[trigger] block_cell(i, t) < 81,
        forall|t: int| 0 <= t < 9 ==> same_block(i, #[trigger] block_cell(i, t)),
        forall|j: int|
            0 <= j < 81 && same_block(i, j) ==> exists|t: int|
                0 <= t < 9 && j == #[trigger] block_cell(i, t),
        forall|t: int, u: int|
            0 <= t < 9 && 0 <= u < 9 && #[trigger] block_cell(i, t) == #[trigger] block_cell(i, u)
                ==> t == u,
{
    let br = 3 * (row_of(i) / 3);
    let bc = 3 * (col_of(i) / 3);
    assert(0 <= br <= 6 && 0 <= bc <= 6);
    assert forall|t: int| 0 <= t < 9 implies {
        &&& 0 <= #[trigger] block_cell(i, t) < 81
        &&& same_block(i, block_cell(i, t))
        &&& row_of(block_cell(i, t)) == br + t / 3
        &&& col_of(block_cell(i, t)) == bc + t % 3
    } by {
        let j = block_cell(i, t);
        assert(j == 9 * (br + t / 3) + (bc + t % 3));
        assert(0 <= bc + t % 3 < 9);
        assert(row_of(j) == br + t / 3 && col_of(j) == bc + t % 3) by {
            assert(j == 9 * row_of(j) + col_of(j) && 0 <= col_of(j) < 9);
        };
    }
    assert forall|j: int| 0 <= j < 81 && same_block(i, j) implies exists|t: int|
        0 <= t < 9 && j == #[trigger] block_cell(i, t) by {
        let dr = row_of(j) - 3 * (row_of(j) / 3);
        let dc = col_of(j) - 3 * (col_of(j) / 3);
        assert(0 <= dr < 3 && 0 <= dc < 3);
        let t = 3 * dr + dc;
        assert(t / 3 == dr && t % 3 == dc);
        assert(3 * (row_of(j) / 3) == br && 3 * (col_of(j) / 3) == bc);
        assert(j == 9 * row_of(j) + col_of(j));
        assert(j == block_cell(i, t));
    }
}

impl Sudoku {
    /// Remove candidate index `k` from the cell at `j`, if it is a
    /// superposition; other cells are unchanged.
    fn clear_peer(&mut self, j: usize, k: usize)
        requires
            j < 81,
            k < 9,
        ensures
            final(self)@ == old(self)@.update(
                j as int,
                clear_candidate(old(self)@[j as int], k as int),
            ),
    {
        let c = self.cell(j);
        match c {
            Cell::Superposition(s) => {
                let mut s2 = s;
                s2[k] = false;
                self.set_cell(j, Cell::Superposition(s2));
            },
            _ => {
                proof {
                    assert(!(c@ is Super));
                    assert(clear_candidate(old(self)@[j as int], k as int) == old(
                        self,
                    )@[j as int]);
                    assert(old(self)@.update(
                        j as int,
                        clear_candidate(old(self)@[j as int], k as int),
                    ) =~= old(self)@);
                }
            },
        }
    }

    /// Propagate the determined value at `idx` (if any): clear its candidate
    /// flag in every superposition cell of the same row, column, and 3x3
    /// block. Determined cells, including `idx` itself, are untouched, so the
    /// operation is idempotent (see `lemma_propagate_idempotent`).
    #[verifier::loop_isolation(false)]
    pub fn propagate(&mut self, idx: usize)
        requires
            idx < 81,
            wf_board(old(self)@),
        ensures
            final(self)@ == propagate_spec(old(self)@, idx as int),
            wf_board(final(self)@),
            determined_preserved(old(self)@, final(self)@),
    {
        let n: u8;
        match self.cell(idx) {
            Cell::Fixed(v) => {
                n = v;
            },
            Cell::Collapsed(v) => {
                n = v;
            },
            _ => {
                proof {
                    assert(!is_determined(old(self)@[idx as int]));
                }
                return ;
            },
        }
        proof {
            assert(wf_cell(old(self)@[idx as int]));
        }
        let k = (n - 1) as usize;
        let ghost g0 = self@;
        let ghost kk = k as int;
        proof {
            assert(kk == determined_value(g0[idx as int]) - 1);
        }
        // Row: nothing horizontally may keep this candidate.
        let row_start = Sudoku::row_idx(idx);
        let mut c = row_start;
        while c < row_start + 9
            invariant
                row_start <= c <= row_start + 9,
                forall|j: int|
                    0 <= j < 81 ==> #[trigger] self@[j] == (if row_start <= j < c {
                        clear_candidate(g0[j], kk)
                    } else {
                        g0[j]
                    }),
            decreases row_start + 9 - c,
        {
            self.clear_peer(c, k);
            c = c + 1;
        }
        let ghost g1 = self@;
        // Column: nothing vertically may keep it.
        let col_start = Sudoku::col_idx(idx);
        let mut r = col_start;
        while r < 81
            invariant
                col_start <= r <= col_start + 81,
                r % 9 == col_start,
                forall|j: int|
                    0 <= j < 81 ==> #[trigger] self@[j] == (if j % 9 == col_start && j < r {
                        clear_candidate(g1[j], kk)
                    } else {
                        g1[j]
                    }),
            decreases 90 - r,
        {
            self.clear_peer(r, k);
            r = r + 9;
        }
        let ghost g2 = self@;
        // Block: nothing in the same 3x3 block may keep it.
        let block_start = Sudoku::subsection_idx(idx);
        proof {
            lemma_block_enum(idx as int);
        }
        let mut t: usize = 0;
        while t < 9
            invariant
                t <= 9,
                forall|j: int|
                    0 <= j < 81 ==> #[trigger] self@[j] == (if exists|u: int|
                        0 <= u < t && j == #[trigger] block_cell(idx as int, u) {
                        clear_candidate(g2[j], kk)
                    } else {
                        g2[j]
                    }),
            decreases 9 - t,
        {
            let j = block_start + (t / 3) * 9 + t % 3;
            proof {
                assert(j == block_cell(idx as int, t as int));
            }
            let ghost prev = self@;
            self.clear_peer(j, k);
            proof {
                assert forall|j2: int| 0 <= j2 < 81 implies #[trigger] self@[j2] == (if exists|
                    u: int,
                |
                    0 <= u < t + 1 && j2 == #[trigger] block_cell(idx as int, u) {
                    clear_candidate(g2[j2], kk)
                } else {
                    g2[j2]
                }) by {
                    if j2 == j as int {
                        if exists|u: int| 0 <= u < t && j2 == #[trigger] block_cell(idx as int, u) {
                            let u = choose|u: int|
                                0 <= u < t && j2 == #[trigger] block_cell(idx as int, u);
                            assert(block_cell(idx as int, u) == block_cell(idx as int, t as int));
                            assert(false);
                        }
                        assert(prev[j2] == g2[j2]);
                        assert(self@[j2] == clear_candidate(g2[j2], kk));
                        assert(0 <= (t as int) < t + 1 && j2 == block_cell(idx as int, t as int));
                    } else {
                        assert(self@[j2] == prev[j2]);
                        if exists|u: int|
                            0 <= u < t + 1 && j2 == #[trigger] block_cell(idx as int, u) {
                            let u = choose|u: int|
                                0 <= u < t + 1 && j2 == #[trigger] block_cell(idx as int, u);
                            assert(u != t as int);
                            assert(0 <= u < t && j2 == block_cell(idx as int, u));
                        }
                    }
                }
            }
            t = t + 1;
        }
        // The three passes together are one pass over the whole peer group.
        proof {
            assert forall|j: int| 0 <= j < 81 implies self@[j] == propagate_spec(
                g0,
                idx as int,
            )[j] by {
                lemma_clear_twice(g0[j], kk);
                lemma_clear_twice(clear_candidate(g0[j], kk), kk);
                assert(same_row(idx as int, j) <==> (row_first(idx as int) <= j < row_first(
                    idx as int,
                ) + 9)) by {
                    assert(j == 9 * (j / 9) + j % 9 && 0 <= j % 9 < 9);
                    assert(idx as int == 9 * (idx as int / 9) + (idx as int) % 9);
                };
                assert(same_col(idx as int, j) <==> j % 9 == col_start);
            }
            assert(self@ =~= propagate_spec(g0, idx as int));
            lemma_propagate_preserves(g0, idx as int);
        }
    }
}

} // verus!
