//! Local alignment of a token run against a window of tokens, with an early
//! exit once the window can no longer beat a score already found.

use vstd::prelude::*;
use crate::edit_distance::{
    edit_distance, lemma_edit_distance_bounds, lemma_edit_distance_zero, levenshtein_chars,
};
use crate::text::{chars_of, token_chars, token_views, word_views};

verus! {

/// Score of two equal tokens.
pub const SCORE_EXACT: i32 = 2;

/// Score of two tokens one edit apart.
pub const SCORE_FUZZY: i32 = 1;

/// Score of two tokens further apart.
pub const SCORE_MISMATCH: i32 = -1;

/// Score of skipping a token on either side.
pub const SCORE_GAP: i32 = -1;

/// How a cell of the alignment table got its value.
#[derive(Clone, Copy, Debug)]
pub enum Step {
    /// The cell is zero: no alignment runs through it.
    Stop,
    /// From the cell above and to the left, pairing two tokens.
    Diagonal,
    /// From the cell above, skipping a token of the transcript.
    Up,
    /// From the cell to the left, skipping a token of the window.
    Left,
}

/// The outcome of aligning a transcript with one window.
#[derive(Clone, Copy, Debug)]
pub struct AlignmentResult {
    /// Score of the best local alignment; zero when there is none.
    pub alignment_score: i128,
    /// Index in the window of the first token of the aligned span.
    pub start_index_in_window: usize,
    /// Index in the window of the last token of the aligned span.
    pub end_index_in_window: usize,
}

/// An alignment outcome in mathematical integers.
pub struct Alignment {
    pub score: int,
    pub start: int,
    pub end: int,
}

impl View for AlignmentResult {
    type V = Alignment;

    open spec fn view(&self) -> Alignment {
        Alignment {
            score: self.alignment_score as int,
            start: self.start_index_in_window as int,
            end: self.end_index_in_window as int,
        }
    }
}

/// The outcome that stands for "nothing aligns".
pub open spec fn no_alignment() -> Alignment {
    Alignment { score: 0, start: 0, end: 0 }
}

/// Score of pairing token `a` with token `b`.
pub open spec fn match_score(a: Seq<char>, b: Seq<char>) -> int {
    if a == b {
        SCORE_EXACT as int
    } else if edit_distance(a, b) <= 1 {
        SCORE_FUZZY as int
    } else {
        SCORE_MISMATCH as int
    }
}

/// The value of a cell given its three candidates: the largest of them, but
/// never below zero.
pub open spec fn best_of(diagonal: int, up: int, left: int) -> int {
    let a = if diagonal > 0 {
        diagonal
    } else {
        0
    };
    let b = if up > a {
        up
    } else {
        a
    };
    if left > b {
        left
    } else {
        b
    }
}

/// The step that gave a cell its value. Among equal candidates the diagonal
/// is preferred to the cell above, and that to the cell on the left.
pub open spec fn step_of(diagonal: int, up: int, left: int) -> Step {
    let a = if diagonal > 0 {
        diagonal
    } else {
        0
    };
    let b = if up > a {
        up
    } else {
        a
    };
    if left > b {
        Step::Left
    } else if up > a {
        Step::Up
    } else if diagonal > 0 {
        Step::Diagonal
    } else {
        Step::Stop
    }
}

/// Value of the table at row `i` and column `j`: the best score of a local
/// alignment that ends with transcript token `i - 1` and window token
/// `j - 1`. Row zero and column zero hold zeros.
pub open spec fn cell(q: Seq<Seq<char>>, w: Seq<Seq<char>>, i: int, j: int) -> int
    decreases i + j,
{
    if i <= 0 || j <= 0 {
        0
    } else {
        best_of(
            cell(q, w, i - 1, j - 1) + match_score(q[i - 1], w[j - 1]),
            cell(q, w, i - 1, j) + SCORE_GAP,
            cell(q, w, i, j - 1) + SCORE_GAP,
        )
    }
}

/// The step recorded for the cell at row `i` and column `j`.
pub open spec fn direction(q: Seq<Seq<char>>, w: Seq<Seq<char>>, i: int, j: int) -> Step {
    if i <= 0 || j <= 0 {
        Step::Stop
    } else {
        step_of(
            cell(q, w, i - 1, j - 1) + match_score(q[i - 1], w[j - 1]),
            cell(q, w, i - 1, j) + SCORE_GAP,
            cell(q, w, i, j - 1) + SCORE_GAP,
        )
    }
}

/// The largest value among the first `j` columns of row `i`.
pub open spec fn row_max(q: Seq<Seq<char>>, w: Seq<Seq<char>>, i: int, j: int) -> int
    decreases j,
{
    if j <= 0 {
        0
    } else {
        let rest = row_max(q, w, i, j - 1);
        let v = cell(q, w, i, j);
        if v > rest {
            v
        } else {
            rest
        }
    }
}

/// The best cell met when the table is walked row by row up to row `i`,
/// column `j`: its value, row and column. The first cell with the largest
/// value wins; `(0, 0, 0)` when no cell is positive.
pub open spec fn peak_upto(q: Seq<Seq<char>>, w: Seq<Seq<char>>, i: int, j: int) -> (int, int, int)
    decreases i, j,
{
    if i <= 0 {
        (0, 0, 0)
    } else if j <= 0 {
        peak_upto(q, w, i - 1, w.len() as int)
    } else {
        let before = peak_upto(q, w, i, j - 1);
        let v = cell(q, w, i, j);
        if v > before.0 {
            (v, i, j)
        } else {
            before
        }
    }
}

/// Whether the search gives the window up after row `i`: even if every
/// remaining transcript token matched exactly, the score would stay below
/// `bound`.
pub open spec fn pruned_after(q: Seq<Seq<char>>, w: Seq<Seq<char>>, bound: int, i: int) -> bool {
    row_max(q, w, i, w.len() as int) + (q.len() - i) * SCORE_EXACT < bound
}

/// The last row that is filled when rows `i` and later are still to come.
pub open spec fn last_row_from(q: Seq<Seq<char>>, w: Seq<Seq<char>>, bound: int, i: int) -> int
    decreases q.len() - i,
{
    if i >= q.len() {
        q.len() as int
    } else if pruned_after(q, w, bound, i) {
        i
    } else {
        last_row_from(q, w, bound, i + 1)
    }
}

/// The column where the path that leads to cell `(i, j)` begins.
pub open spec fn trace_start(q: Seq<Seq<char>>, w: Seq<Seq<char>>, i: int, j: int) -> int
    decreases i + j,
{
    if i <= 0 || j <= 0 {
        j
    } else {
        match direction(q, w, i, j) {
            Step::Stop => j,
            Step::Diagonal => trace_start(q, w, i - 1, j - 1),
            Step::Up => trace_start(q, w, i - 1, j),
            Step::Left => trace_start(q, w, i, j - 1),
        }
    }
}

/// The alignment of transcript `q` with window `w`, given that a score of
/// `bound` has been found elsewhere already.
pub open spec fn align_spec(q: Seq<Seq<char>>, w: Seq<Seq<char>>, bound: int) -> Alignment {
    if q.len() == 0 || w.len() == 0 {
        no_alignment()
    } else {
        let peak = peak_upto(q, w, last_row_from(q, w, bound, 1), w.len() as int);
        if peak.0 <= 0 {
            no_alignment()
        } else {
            Alignment { score: peak.0, start: trace_start(q, w, peak.1, peak.2), end: peak.2 - 1 }
        }
    }
}

/// A cell is never negative and never more than twice its row or column.
pub proof fn lemma_cell_bounds(q: Seq<Seq<char>>, w: Seq<Seq<char>>, i: int, j: int)
    ensures
        0 <= cell(q, w, i, j),
        i >= 0 ==> cell(q, w, i, j) <= SCORE_EXACT * i,
        j >= 0 ==> cell(q, w, i, j) <= SCORE_EXACT * j,
    decreases i + j,
{
    if i > 0 && j > 0 {
        lemma_cell_bounds(q, w, i - 1, j - 1);
        lemma_cell_bounds(q, w, i - 1, j);
        lemma_cell_bounds(q, w, i, j - 1);
    }
}

/// Score of pairing two tokens given as characters.
pub fn match_score_chars(a: &Vec<char>, b: &Vec<char>) -> (score: i32)
    ensures
        score == match_score(a@, b@),
{
    proof {
        lemma_edit_distance_bounds(a@, b@);
        lemma_edit_distance_zero(a@, b@);
    }
    if a.len() > b.len() && a.len() - b.len() > 1 {
        return SCORE_MISMATCH;
    }
    if b.len() > a.len() && b.len() - a.len() > 1 {
        return SCORE_MISMATCH;
    }
    let d: usize = levenshtein_chars(a, b);
    if d == 0 {
        SCORE_EXACT
    } else if d <= 1 {
        SCORE_FUZZY
    } else {
        SCORE_MISMATCH
    }
}

/// Score of pairing two tokens: 2 when equal, 1 when one edit apart, else -1.
pub fn word_match_score(a: &str, b: &str) -> (score: i32)
    ensures
        score == match_score(a@, b@),
{
    let ca = chars_of(a);
    let cb = chars_of(b);
    match_score_chars(&ca, &cb)
}

/// Aligns the transcript with one window and returns the best local
/// alignment: its score and the span of the window it covers. Rows of the
/// table are filled one by one; after each row the window is given up if it
/// can no longer reach `best_score_found`.
pub fn smith_waterman_align(
    transcript_tokens: &Vec<String>,
    window_tokens: &Vec<String>,
    best_score_found: i128,
) -> (result: AlignmentResult)
    ensures
        result@ == align_spec(
            token_views(transcript_tokens@),
            token_views(window_tokens@),
            best_score_found as int,
        ),
{
    let m: usize = transcript_tokens.len();
    let n: usize = window_tokens.len();
    if m == 0 || n == 0 {
        return AlignmentResult {
            alignment_score: 0,
            start_index_in_window: 0,
            end_index_in_window: 0,
        };
    }
    let ghost q = token_views(transcript_tokens@);
    let ghost w = token_views(window_tokens@);
    let ghost bound = best_score_found as int;
    let q_chars = token_chars(transcript_tokens);
    let w_chars = token_chars(window_tokens);
    assert(q_chars.len() == m && w_chars.len() == n && q.len() == m && w.len() == n) by {
        assert(word_views(q_chars@).len() == q.len());
        assert(word_views(w_chars@).len() == w.len());
    }

    // Row zero of the table.
    let mut prev: Vec<i128> = Vec::new();
    while prev.len() < n
        invariant
            prev.len() <= n,
            forall|c: int| 0 <= c < prev.len() ==> #[trigger] prev[c] == 0,
        decreases n - prev.len(),
    {
        prev.push(0);
    }

    let mut trace: Vec<Vec<Step>> = Vec::new();
    let mut max_score: i128 = 0;
    let mut max_i: usize = 0;
    let mut max_j: usize = 0;
    let mut pruned: bool = false;
    while !pruned && trace.len() < m
        invariant
            m == q.len(),
            n == w.len(),
            m >= 1,
            n >= 1,
            q_chars.len() == m,
            w_chars.len() == n,
            word_views(q_chars@) == q,
            word_views(w_chars@) == w,
            bound == best_score_found as int,
            trace.len() <= m,
            prev.len() == n,
            forall|c: int|
                0 <= c < n ==> #[trigger] prev[c] == cell(q, w, trace.len() as int, c + 1),
            forall|r: int| 0 <= r < trace.len() ==> (#[trigger] trace[r]).len() == n,
            forall|r: int, c: int|
                0 <= r < trace.len() && 0 <= c < n ==> #[trigger] trace[r][c] == direction(
                    q,
                    w,
                    r + 1,
                    c + 1,
                ),
            (max_score as int, max_i as int, max_j as int) == peak_upto(
                q,
                w,
                trace.len() as int,
                n as int,
            ),
            max_score > 0 ==> 1 <= max_i <= trace.len() && 1 <= max_j <= n,
            0 <= max_score <= SCORE_EXACT * trace.len(),
            pruned ==> trace.len() == last_row_from(q, w, bound, 1),
            !pruned ==> last_row_from(q, w, bound, trace.len() + 1) == last_row_from(
                q,
                w,
                bound,
                1,
            ),
        decreases m - trace.len() + if pruned { 0int } else { 1int },
    {
        let i: usize = trace.len() + 1;
        let mut curr: Vec<i128> = Vec::new();
        let mut trace_row: Vec<Step> = Vec::new();
        let mut best_in_row: i128 = 0;
        while curr.len() < n
            invariant
                m == q.len(),
                n == w.len(),
                n >= 1,
                1 <= i <= m,
                i == trace.len() + 1,
                q_chars.len() == m,
                w_chars.len() == n,
                word_views(q_chars@) == q,
                word_views(w_chars@) == w,
                prev.len() == n,
                forall|c: int| 0 <= c < n ==> #[trigger] prev[c] == cell(q, w, i - 1, c + 1),
                curr.len() <= n,
                trace_row.len() == curr.len(),
                forall|c: int|
                    0 <= c < curr.len() ==> #[trigger] curr[c] == cell(q, w, i as int, c + 1),
                forall|c: int|
                    0 <= c < curr.len() ==> #[trigger] trace_row[c] == direction(
                        q,
                        w,
                        i as int,
                        c + 1,
                    ),
                (max_score as int, max_i as int, max_j as int) == peak_upto(
                    q,
                    w,
                    i as int,
                    curr.len() as int,
                ),
                max_score > 0 ==> 1 <= max_i <= i && 1 <= max_j <= n,
                0 <= max_score <= SCORE_EXACT * i,
                best_in_row == row_max(q, w, i as int, curr.len() as int),
                0 <= best_in_row <= SCORE_EXACT * i,
            decreases n - curr.len(),
        {
            let j: usize = curr.len() + 1;
            proof {
                lemma_cell_bounds(q, w, i - 1, j - 1);
                lemma_cell_bounds(q, w, i - 1, j as int);
                lemma_cell_bounds(q, w, i as int, j - 1);
                lemma_cell_bounds(q, w, i as int, j as int);
                assert(q[i - 1] == q_chars[i - 1]@);
                assert(w[j - 1] == w_chars[j - 1]@);
            }
            let pair: i128 = match_score_chars(&q_chars[i - 1], &w_chars[j - 1]) as i128;
            let corner: i128 = if j == 1 {
                0
            } else {
                prev[j - 2]
            };
            let beside: i128 = if j == 1 {
                0
            } else {
                curr[j - 2]
            };
            let diagonal: i128 = corner + pair;
            let up: i128 = prev[j - 1] - 1;
            let left: i128 = beside - 1;
            let mut best: i128 = 0;
            let mut step = Step::Stop;
            if diagonal > best {
                best = diagonal;
                step = Step::Diagonal;
            }
            if up > best {
                best = up;
                step = Step::Up;
            }
            if left > best {
                best = left;
                step = Step::Left;
            }
            proof {
                assert(corner == cell(q, w, i - 1, j - 1));
                assert(beside == cell(q, w, i as int, j - 1));
                assert(best == cell(q, w, i as int, j as int));
                assert(step == direction(q, w, i as int, j as int));
            }
            curr.push(best);
            trace_row.push(step);
            if best > max_score {
                max_score = best;
                max_i = i;
                max_j = j;
            }
            if best > best_in_row {
                best_in_row = best;
            }
        }
        trace.push(trace_row);
        prev = curr;
        let remaining: i128 = (m - i) as i128;
        if best_in_row + remaining * 2 < best_score_found {
            pruned = true;
        }
    }
    let ghost last = last_row_from(q, w, bound, 1);
    assert(trace.len() == last);

    if max_score <= 0 {
        return AlignmentResult {
            alignment_score: 0,
            start_index_in_window: 0,
            end_index_in_window: 0,
        };
    }
    let mut ti: usize = max_i;
    let mut tj: usize = max_j;
    let mut stopped: bool = false;
    while !stopped && ti > 0 && tj > 0
        invariant
            n == w.len(),
            ti <= max_i <= trace.len(),
            tj <= max_j <= n,
            forall|r: int| 0 <= r < trace.len() ==> (#[trigger] trace[r]).len() == n,
            forall|r: int, c: int|
                0 <= r < trace.len() && 0 <= c < n ==> #[trigger] trace[r][c] == direction(
                    q,
                    w,
                    r + 1,
                    c + 1,
                ),
            trace_start(q, w, ti as int, tj as int) == trace_start(q, w, max_i as int, max_j as int),
            stopped ==> trace_start(q, w, ti as int, tj as int) == tj,
        decreases ti + tj + if stopped { 0int } else { 1int },
    {
        match trace[ti - 1][tj - 1] {
            Step::Stop => {
                stopped = true;
            },
            Step::Diagonal => {
                ti = ti - 1;
                tj = tj - 1;
            },
            Step::Up => {
                ti = ti - 1;
            },
            Step::Left => {
                tj = tj - 1;
            },
        }
    }
    AlignmentResult {
        alignment_score: max_score,
        start_index_in_window: tj,
        end_index_in_window: max_j - 1,
    }
}

} // verus!
