//! The cell of a Sudoku board: blank, a given clue, a deduced digit, or a
//! superposition of candidate digits, together with its mathematical model.

use vstd::prelude::*;

verus! {

/// Mathematical model of a cell. `Super` carries one flag per digit 1..=9:
/// flag `k` set means digit `k + 1` is still possible.
#[verifier::ext_equal]
pub enum CellModel {
    Empty,
    Fixed(int),
    Collapsed(int),
    Super(Seq<bool>),
}

/// One square of the board.
///
/// * `Empty`: no information yet (only before initialization).
/// * `Fixed(v)`: a given clue, immutable.
/// * `Collapsed(v)`: a digit the solver deduced.
/// * `Superposition(s)`: flag `k` set means digit `k + 1` is still possible.
#[derive(Clone, Copy, Debug, PartialEq)]
pub enum Cell {
    Empty,
    Fixed(u8),
    Collapsed(u8),
    Superposition([bool; 9]),
}

impl View for Cell {
    type V = CellModel;

    open spec fn view(&self) -> CellModel {
        match self {
            Cell::Empty => CellModel::Empty,
            Cell::Fixed(n) => CellModel::Fixed(*n as int),
            Cell::Collapsed(n) => CellModel::Collapsed(*n as int),
            Cell::Superposition(s) => CellModel::Super(s@),
        }
    }
}

/// A determined cell holds a value: a given clue or a deduced digit.
pub open spec fn is_determined(c: CellModel) -> bool {
    c is Fixed || c is Collapsed
}

/// The value of a determined cell (0 for the others).
pub open spec fn determined_value(c: CellModel) -> int {
    match c {
        CellModel::Fixed(v) => v,
        CellModel::Collapsed(v) => v,
        _ => 0,
    }
}

/// Does the cell still admit candidate index `v` (digit `v + 1`)?
pub open spec fn super_has(c: CellModel, v: int) -> bool {
    c is Super && c->Super_0[v]
}

/// Number of set flags among the first `n` entries of a candidate sequence.
pub open spec fn cand_count_to(s: Seq<bool>, n: int) -> nat
    decreases n,
{
    if n <= 0 {
        0
    } else {
        cand_count_to(s, n - 1) + (if s[n - 1] {
            1nat
        } else {
            0nat
        })
    }
}

/// Number of candidates a candidate sequence still admits.
pub open spec fn cand_count(s: Seq<bool>) -> nat {
    cand_count_to(s, s.len() as int)
}

/// Smallest index at or after `from` whose flag is set; `s.len()` if none.
pub open spec fn first_true_from(s: Seq<bool>, from: int) -> int
    decreases s.len() - from,
{
    if !(0 <= from < s.len()) {
        s.len() as int
    } else if s[from] {
        from
    } else {
        first_true_from(s, from + 1)
    }
}

/// A set flag below `n` contributes to the count.
pub proof fn lemma_cand_count_at_least_one(s: Seq<bool>, j: int, n: int)
    requires
        0 <= j < n <= s.len(),
        s[j],
    ensures
        cand_count_to(s, n) >= 1,
    decreases n,
{
    if j < n - 1 {
        lemma_cand_count_at_least_one(s, j, n - 1);
    }
}

/// Two distinct set flags below `n` contribute at least two to the count.
pub proof fn lemma_cand_count_at_least_two(s: Seq<bool>, i: int, j: int, n: int)
    requires
        0 <= i < j < n <= s.len(),
        s[i],
        s[j],
    ensures
        cand_count_to(s, n) >= 2,
    decreases n,
{
    if j == n - 1 {
        lemma_cand_count_at_least_one(s, i, n - 1);
    } else {
        lemma_cand_count_at_least_two(s, i, j, n - 1);
    }
}

/// `first_true_from` returns a set index, skipping only clear flags.
pub proof fn lemma_first_true_props(s: Seq<bool>, from: int)
    requires
        0 <= from <= s.len(),
    ensures
        from <= first_true_from(s, from) <= s.len(),
        first_true_from(s, from) < s.len() ==> s[first_true_from(s, from)],
        forall|k: int| from <= k < first_true_from(s, from) ==> !s[k],
    decreases s.len() - from,
{
    if from < s.len() && !s[from] {
        lemma_first_true_props(s, from + 1);
    }
}

proof fn lemma_cand_count_to_le(s: Seq<bool>, n: int)
    requires
        0 <= n,
    ensures
        cand_count_to(s, n) <= n,
    decreases n,
{
    if n > 0 {
        lemma_cand_count_to_le(s, n - 1);
    }
}

/// A candidate sequence admits no more candidates than it has flags.
pub proof fn lemma_cand_count_le(s: Seq<bool>)
    ensures
        cand_count(s) <= s.len(),
{
    lemma_cand_count_to_le(s, s.len() as int);
}

proof fn lemma_cand_count_zero_to(s: Seq<bool>, n: int)
    requires
        forall|k: int| 0 <= k < n ==> !s[k],
    ensures
        cand_count_to(s, n) == 0,
    decreases n,
{
    if n > 0 {
        lemma_cand_count_zero_to(s, n - 1);
    }
}

/// With every flag clear, the candidate count is zero.
pub proof fn lemma_cand_count_zero(s: Seq<bool>)
    requires
        forall|k: int| 0 <= k < s.len() ==> !s[k],
    ensures
        cand_count(s) == 0,
{
    lemma_cand_count_zero_to(s, s.len() as int);
}

/// With exactly one candidate set, any set index is the first one.
pub proof fn lemma_single_candidate_unique(s: Seq<bool>, j: int)
    requires
        0 <= j < s.len(),
        s[j],
        cand_count(s) == 1,
    ensures
        first_true_from(s, 0) == j,
{
    lemma_first_true_props(s, 0);
    let f = first_true_from(s, 0);
    if f == s.len() {
        lemma_cand_count_at_least_one(s, j, s.len() as int);
        assert(false);
    } else if f != j {
        if f < j {
            lemma_cand_count_at_least_two(s, f, j, s.len() as int);
        } else {
            lemma_cand_count_at_least_two(s, j, f, s.len() as int);
        }
        assert(false);
    }
}

/// How the excluded display layer should draw a cell.
#[derive(Clone, Copy, Debug, PartialEq, Eq)]
pub enum CellDisplay {
    Blank,
    Given(u8),
    Deduced(u8),
    Unresolved,
}

impl Cell {
    /// Number of candidates still possible, for a superposition cell.
    pub fn count_superstates(&self) -> (r: Option<usize>)
        ensures
            match self@ {
                CellModel::Super(s) => r == Some(cand_count(s) as usize),
                _ => r is None,
            },
    {
        match self {
            Cell::Superposition(s) => {
                let mut count: usize = 0;
                let mut i: usize = 0;
                while i < 9
                    invariant
                        i <= 9,
                        count <= i,
                        count == cand_count_to(s@, i as int),
                    decreases 9 - i,
                {
                    if s[i] {
                        count = count + 1;
                    }
                    i = i + 1;
                }
                Some(count)
            },
            _ => None,
        }
    }

    /// If exactly one candidate remains, the digit it denotes (index + 1).
    pub fn collapse(&self) -> (r: Option<u8>)
        ensures
            match self@ {
                CellModel::Super(s) => {
                    if cand_count(s) == 1 {
                        r == Some((first_true_from(s, 0) + 1) as u8)
                    } else {
                        r is None
                    }
                },
                _ => r is None,
            },
            r matches Some(v) ==> 1 <= v <= 9,
    {
        match self {
            Cell::Superposition(s) => {
                let mut count: usize = 0;
                let mut value: usize = 0;
                let mut i: usize = 0;
                while i < 9
                    invariant
                        i <= 9,
                        count <= i,
                        count == cand_count_to(s@, i as int),
                        count >= 1 ==> (1 <= value <= i && s@[value - 1]),
                    decreases 9 - i,
                {
                    if s[i] {
                        count = count + 1;
                        value = i + 1;
                    }
                    i = i + 1;
                }
                if count == 1 {
                    proof {
                        lemma_single_candidate_unique(s@, value - 1);
                    }
                    Some(value as u8)
                } else {
                    None
                }
            },
            _ => None,
        }
    }

    /// The renderable form of the cell, for a display layer to draw.
    pub fn display_value(&self) -> (r: CellDisplay)
        ensures
            match self@ {
                CellModel::Empty => r == CellDisplay::Blank,
                CellModel::Fixed(v) => r == CellDisplay::Given(v as u8),
                CellModel::Collapsed(v) => r == CellDisplay::Deduced(v as u8),
                CellModel::Super(_) => r == CellDisplay::Unresolved,
            },
    {
        match self {
            Cell::Empty => CellDisplay::Blank,
            Cell::Fixed(n) => CellDisplay::Given(*n),
            Cell::Collapsed(n) => CellDisplay::Deduced(*n),
            Cell::Superposition(_) => CellDisplay::Unresolved,
        }
    }
}

} // verus!
