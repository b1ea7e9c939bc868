//! What holds of every alignment: bounds on the scores, where the best cell
//! lies, that giving a window up early loses nothing, and what an exact or
//! nearly exact occurrence of the transcript scores.

use vstd::prelude::*;
use crate::align::{
    align_spec, cell, direction, last_row_from, lemma_cell_bounds, match_score, peak_upto,
    pruned_after, row_max, trace_start, Step,
};

verus! {

/// Whether the walk over the table has passed cell `(r, c)` when it stands at
/// `(i, j)`.
pub open spec fn scanned(w: Seq<Seq<char>>, r: int, c: int, i: int, j: int) -> bool {
    1 <= r && 1 <= c <= w.len() && (r < i || (r == i && c <= j))
}

/// The score of the best alignment that the whole table holds.
pub open spec fn full_score(q: Seq<Seq<char>>, w: Seq<Seq<char>>) -> int {
    peak_upto(q, w, q.len() as int, w.len() as int).0
}

/// The best cell of a walk is a cell that the walk has passed, no passed
/// cell is larger, and every cell passed before it is smaller.
pub proof fn lemma_peak(q: Seq<Seq<char>>, w: Seq<Seq<char>>, i: int, j: int)
    requires
        0 <= j <= w.len(),
    ensures
        peak_upto(q, w, i, j).0 >= 0,
        peak_upto(q, w, i, j).0 > 0 ==> scanned(
            w,
            peak_upto(q, w, i, j).1,
            peak_upto(q, w, i, j).2,
            i,
            j,
        ) && cell(q, w, peak_upto(q, w, i, j).1, peak_upto(q, w, i, j).2) == peak_upto(
            q,
            w,
            i,
            j,
        ).0,
        forall|r: int, c: int|
            scanned(w, r, c, i, j) ==> #[trigger] cell(q, w, r, c) <= peak_upto(q, w, i, j).0,
        forall|r: int, c: int|
            peak_upto(q, w, i, j).0 > 0 && scanned(
                w,
                r,
                c,
                peak_upto(q, w, i, j).1,
                peak_upto(q, w, i, j).2 - 1,
            ) ==> #[trigger] cell(q, w, r, c) < peak_upto(q, w, i, j).0,
    decreases i, j,
{
    if i <= 0 {
    } else if j <= 0 {
        lemma_peak(q, w, i - 1, w.len() as int);
        assert forall|r: int, c: int| scanned(w, r, c, i, j) implies #[trigger] cell(q, w, r, c)
            <= peak_upto(q, w, i, j).0 by {
            assert(scanned(w, r, c, i - 1, w.len() as int));
        }
    } else {
        lemma_peak(q, w, i, j - 1);
        let before = peak_upto(q, w, i, j - 1);
        let v = cell(q, w, i, j);
        let p = peak_upto(q, w, i, j);
        assert forall|r: int, c: int| scanned(w, r, c, i, j) implies #[trigger] cell(q, w, r, c)
            <= p.0 by {
            if !(r == i && c == j) {
                assert(scanned(w, r, c, i, j - 1));
            }
        }
        if v > before.0 {
            assert forall|r: int, c: int| scanned(w, r, c, i, j - 1) implies #[trigger] cell(
                q,
                w,
                r,
                c,
            ) < p.0 by {}
        }
    }
}

/// No cell of a row exceeds the row's maximum, which is never negative.
pub proof fn lemma_row_max(q: Seq<Seq<char>>, w: Seq<Seq<char>>, i: int, j: int)
    ensures
        row_max(q, w, i, j) >= 0,
        forall|c: int| 1 <= c <= j ==> #[trigger] cell(q, w, i, c) <= row_max(q, w, i, j),
    decreases j,
{
    if j > 0 {
        lemma_row_max(q, w, i, j - 1);
    }
}

/// From one row to the next the cells grow by two at most.
pub proof fn lemma_rows_grow(q: Seq<Seq<char>>, w: Seq<Seq<char>>, i: int, later: int, c: int)
    requires
        0 <= i <= later,
        0 <= c <= w.len(),
    ensures
        cell(q, w, later, c) <= row_max(q, w, i, w.len() as int) + 2 * (later - i),
    decreases later - i, c,
{
    lemma_row_max(q, w, i, w.len() as int);
    if later == i || c == 0 {
    } else {
        lemma_rows_grow(q, w, i, later - 1, c - 1);
        lemma_rows_grow(q, w, i, later - 1, c);
        lemma_rows_grow(q, w, i, later, c - 1);
    }
}

/// The last row that is filled lies between the first row to come and the
/// last row of the table; if it is not the last row, the window was given
/// up after it.
pub proof fn lemma_last_row(q: Seq<Seq<char>>, w: Seq<Seq<char>>, bound: int, i: int)
    requires
        1 <= i <= q.len(),
    ensures
        i <= last_row_from(q, w, bound, i) <= q.len(),
        last_row_from(q, w, bound, i) < q.len() ==> pruned_after(
            q,
            w,
            bound,
            last_row_from(q, w, bound, i),
        ),
    decreases q.len() - i,
{
    if i < q.len() && !pruned_after(q, w, bound, i) {
        lemma_last_row(q, w, bound, i + 1);
    }
}

/// The path to a cell begins at a column that is no larger.
pub proof fn lemma_trace_start_bounds(q: Seq<Seq<char>>, w: Seq<Seq<char>>, i: int, j: int)
    requires
        0 <= j,
    ensures
        0 <= trace_start(q, w, i, j) <= j,
    decreases i + j,
{
    if i > 0 && j > 0 {
        match direction(q, w, i, j) {
            Step::Stop => {},
            Step::Diagonal => {
                lemma_trace_start_bounds(q, w, i - 1, j - 1);
            },
            Step::Up => {
                lemma_trace_start_bounds(q, w, i - 1, j);
            },
            Step::Left => {
                lemma_trace_start_bounds(q, w, i, j - 1);
            },
        }
    }
}

/// An alignment never scores below zero nor above twice the number of
/// transcript tokens, and never above the best score of the whole table.
/// With a positive score its span lies inside the window, first token no
/// later than last.
pub proof fn lemma_alignment_shape(q: Seq<Seq<char>>, w: Seq<Seq<char>>, bound: int)
    ensures
        0 <= align_spec(q, w, bound).score <= 2 * q.len(),
        align_spec(q, w, bound).score <= full_score(q, w),
        align_spec(q, w, bound).score > 0 ==> 0 <= align_spec(q, w, bound).start <= align_spec(
            q,
            w,
            bound,
        ).end < w.len(),
{
    let m = q.len() as int;
    let n = w.len() as int;
    lemma_peak(q, w, m, n);
    if m > 0 && n > 0 {
        lemma_last_row(q, w, bound, 1);
        let s = last_row_from(q, w, bound, 1);
        lemma_peak(q, w, s, n);
        let p = peak_upto(q, w, s, n);
        if p.0 > 0 {
            let r = p.1;
            let c = p.2;
            lemma_cell_bounds(q, w, r, c);
            assert(scanned(w, r, c, m, n));
            // The best cell was reached along the diagonal: the cells above
            // and to the left were passed before it, so they are smaller.
            lemma_cell_bounds(q, w, r - 1, c);
            lemma_cell_bounds(q, w, r, c - 1);
            if r - 1 >= 1 {
                assert(scanned(w, r - 1, c, r, c - 1));
                assert(cell(q, w, r - 1, c) < p.0);
            }
            if c - 1 >= 1 {
                assert(scanned(w, r, c - 1, r, c - 1));
                assert(cell(q, w, r, c - 1) < p.0);
            }
            assert(direction(q, w, r, c) == Step::Diagonal);
            lemma_trace_start_bounds(q, w, r - 1, c - 1);
        }
    }
}

/// Giving a window up early loses nothing: the alignment found scores as
/// much as the best of the whole table, unless that best lies below the
/// bound.
pub proof fn lemma_pruning_is_sound(q: Seq<Seq<char>>, w: Seq<Seq<char>>, bound: int)
    ensures
        align_spec(q, w, bound).score == full_score(q, w) || full_score(q, w) < bound,
{
    let m = q.len() as int;
    let n = w.len() as int;
    lemma_alignment_shape(q, w, bound);
    lemma_peak(q, w, m, n);
    let full = peak_upto(q, w, m, n);
    if m > 0 && n > 0 && full.0 > 0 {
        lemma_last_row(q, w, bound, 1);
        let s = last_row_from(q, w, bound, 1);
        lemma_peak(q, w, s, n);
        let r = full.1;
        let c = full.2;
        if r <= s {
            assert(scanned(w, r, c, s, n));
        } else {
            lemma_rows_grow(q, w, s, r, c);
            assert(pruned_after(q, w, bound, s));
        }
    }
}

/// A cell that holds twice its row number ends an exact occurrence of the
/// first tokens of the transcript: the path to it runs along the diagonal
/// and pairs equal tokens only.
pub proof fn lemma_exact_cell(q: Seq<Seq<char>>, w: Seq<Seq<char>>, i: int, j: int)
    requires
        1 <= i <= q.len(),
        0 <= j <= w.len(),
        cell(q, w, i, j) == 2 * i,
    ensures
        i <= j,
        trace_start(q, w, i, j) == j - i,
        forall|t: int| 0 <= t < i ==> q[t] == #[trigger] w[j - i + t],
    decreases i,
{
    lemma_cell_bounds(q, w, i - 1, j - 1);
    lemma_cell_bounds(q, w, i - 1, j);
    lemma_cell_bounds(q, w, i, j - 1);
    assert(j >= 1);
    assert(cell(q, w, i - 1, j - 1) == 2 * (i - 1));
    assert(match_score(q[i - 1], w[j - 1]) == 2);
    assert(q[i - 1] == w[j - 1]);
    assert(direction(q, w, i, j) == Step::Diagonal);
    if i > 1 {
        lemma_exact_cell(q, w, i - 1, j - 1);
        assert forall|t: int| 0 <= t < i implies q[t] == #[trigger] w[j - i + t] by {
            if t < i - 1 {
                assert(q[t] == w[(j - 1) - (i - 1) + t]);
            }
        }
    } else {
        assert forall|t: int| 0 <= t < i implies q[t] == #[trigger] w[j - i + t] by {}
    }
}

/// Where the window holds the first `i` transcript tokens from offset
/// `offset` on, all of them exactly but for the token at `k`, which pairs
/// with a score of one at least, the cell at the end of the run holds twice
/// `i`, less one if `k` lies in the run.
pub proof fn lemma_near_diagonal(
    q: Seq<Seq<char>>,
    w: Seq<Seq<char>>,
    offset: int,
    i: int,
    k: int,
)
    requires
        0 <= offset,
        0 <= i <= q.len(),
        offset + i <= w.len(),
        forall|t: int| 0 <= t < i && t != k ==> q[t] == #[trigger] w[offset + t],
        0 <= k < i ==> match_score(q[k], w[offset + k]) >= 1,
    ensures
        cell(q, w, i, offset + i) >= 2 * i - if 0 <= k < i {
            1int
        } else {
            0int
        },
    decreases i,
{
    if i > 0 {
        lemma_near_diagonal(q, w, offset, i - 1, k);
        if i - 1 != k {
            assert(q[i - 1] == w[offset + (i - 1)]);
        }
    }
}

/// A window that holds the transcript, all tokens exactly but for the one
/// at `k`, which pairs with a score of one at least, has a best score of
/// twice the number of tokens, less one if `k` is the index of a token.
pub proof fn lemma_holder_score(q: Seq<Seq<char>>, w: Seq<Seq<char>>, offset: int, k: int)
    requires
        0 <= offset,
        offset + q.len() <= w.len(),
        forall|t: int| 0 <= t < q.len() && t != k ==> q[t] == #[trigger] w[offset + t],
        0 <= k < q.len() ==> match_score(q[k], w[offset + k]) >= 1,
    ensures
        full_score(q, w) >= 2 * q.len() - if 0 <= k < q.len() {
            1int
        } else {
            0int
        },
{
    let m = q.len() as int;
    lemma_near_diagonal(q, w, offset, m, k);
    lemma_peak(q, w, m, w.len() as int);
    if m > 0 {
        assert(scanned(w, m, offset + m, m, w.len() as int));
    }
}

/// An alignment with the full score of two points a token covers a stretch
/// of the window that holds the tokens of the transcript, one after the
/// other and unchanged.
pub proof fn lemma_full_score_alignment(q: Seq<Seq<char>>, w: Seq<Seq<char>>, bound: int)
    requires
        q.len() > 0,
        align_spec(q, w, bound).score == 2 * q.len(),
    ensures
        0 <= align_spec(q, w, bound).start,
        align_spec(q, w, bound).end < w.len(),
        align_spec(q, w, bound).end + 1 - align_spec(q, w, bound).start == q.len(),
        w.subrange(align_spec(q, w, bound).start, align_spec(q, w, bound).end + 1) == q,
{
    let m = q.len() as int;
    let n = w.len() as int;
    lemma_alignment_shape(q, w, bound);
    lemma_last_row(q, w, bound, 1);
    let s = last_row_from(q, w, bound, 1);
    lemma_peak(q, w, s, n);
    let p = peak_upto(q, w, s, n);
    lemma_cell_bounds(q, w, p.1, p.2);
    assert(p.1 == m);
    lemma_exact_cell(q, w, m, p.2);
    let found = align_spec(q, w, bound);
    assert(found.start == p.2 - m);
    assert(found.end == p.2 - 1);
    assert(w.subrange(found.start, found.end + 1) =~= q) by {
        assert forall|t: int| 0 <= t < m implies w[found.start + t] == q[t] by {
            assert(q[t] == w[p.2 - m + t]);
        }
    }
}

} // verus!
