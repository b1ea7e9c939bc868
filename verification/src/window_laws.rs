//! What holds of the windows over a word sequence and of their index: where
//! the windows begin and end, that they cover the words, and that the index
//! lists a window once for a shingle.

use vstd::prelude::*;
use crate::window::{windows_from, windows_of, windows_with, WindowModel};

verus! {

/// Whether word `j` lies in one of the windows.
pub open spec fn in_some_window(windows: Seq<WindowModel>, j: int) -> bool {
    exists|i: int| 0 <= i < windows.len() && (#[trigger] windows[i]).start <= j <= windows[i].end
}

/// Windows begin a step apart, and every window but the last holds a full
/// `size` words; the last holds the words that are left.
pub proof fn lemma_windows_from_spacing(
    words: Seq<Seq<char>>,
    size: nat,
    step: nat,
    start: nat,
    id: nat,
)
    ensures
        forall|i: int|
            0 <= i < windows_from(words, size, step, start, id).len() ==> {
                let w = #[trigger] windows_from(words, size, step, start, id)[i];
                &&& w.id == id + i
                &&& w.start == start + i * step
                &&& w.start < words.len()
                &&& w.end == if w.start + size < words.len() {
                    w.start + size - 1
                } else {
                    words.len() - 1
                }
                &&& i + 1 < windows_from(words, size, step, start, id).len() ==> w.start + size
                    < words.len()
            },
    decreases
        (if start < words.len() {
            words.len() - start
        } else {
            0
        }),
{
    let all = windows_from(words, size, step, start, id);
    if start >= words.len() || size == 0 || step == 0 {
    } else if start + size < words.len() {
        lemma_windows_from_spacing(words, size, step, start + step, id + 1);
        let rest = windows_from(words, size, step, start + step, id + 1);
        assert forall|i: int| 0 <= i < all.len() implies {
            let w = #[trigger] all[i];
            &&& w.id == id + i
            &&& w.start == start + i * step
            &&& w.start < words.len()
            &&& w.end == if w.start + size < words.len() {
                w.start + size - 1
            } else {
                words.len() - 1
            }
            &&& i + 1 < all.len() ==> w.start + size < words.len()
        } by {
            if i > 0 {
                assert(all[i] == rest[i - 1]);
                assert(start + step + (i - 1) * step == start + i * step) by (nonlinear_arith);
            }
        }
    }
}

/// The windows over a word sequence begin at the multiples of the step and
/// are numbered in order. Every window but the last holds `size` words, so
/// that two consecutive windows share `size - step` words when the step is
/// smaller than the size.
pub proof fn lemma_windows_spacing(words: Seq<Seq<char>>, size: nat, step: nat)
    ensures
        forall|i: int|
            0 <= i < windows_of(words, size, step).len() ==> {
                let w = #[trigger] windows_of(words, size, step)[i];
                &&& w.id == i
                &&& w.start == i * step
                &&& 0 <= w.start <= w.end < words.len()
                &&& w.end - w.start + 1 <= size
                &&& i + 1 < windows_of(words, size, step).len() ==> w.end - w.start + 1 == size
            },
{
    lemma_windows_from_spacing(words, size, step, 0, 0);
    let all = windows_of(words, size, step);
    assert forall|i: int| 0 <= i < all.len() implies {
        let w = #[trigger] all[i];
        &&& w.id == i
        &&& w.start == i * step
        &&& 0 <= w.start <= w.end < words.len()
        &&& w.end - w.start + 1 <= size
        &&& i + 1 < all.len() ==> w.end - w.start + 1 == size
    } by {
        let w = all[i];
        assert(size > 0);
        assert(i * step >= 0) by (nonlinear_arith)
            requires
                i >= 0,
                step >= 0,
        ;
    }
}

/// With a step no larger than the window size, every word from `start` on
/// lies in a window, and the last window ends at the last word.
pub proof fn lemma_windows_from_cover(
    words: Seq<Seq<char>>,
    size: nat,
    step: nat,
    start: nat,
    id: nat,
)
    requires
        1 <= step <= size,
        start < words.len(),
    ensures
        windows_from(words, size, step, start, id).len() > 0,
        windows_from(words, size, step, start, id).last().end == words.len() - 1,
        forall|j: int|
            start <= j < words.len() ==> #[trigger] in_some_window(
                windows_from(words, size, step, start, id),
                j,
            ),
    decreases words.len() - start,
{
    let all = windows_from(words, size, step, start, id);
    if start + size < words.len() {
        lemma_windows_from_cover(words, size, step, start + step, id + 1);
        let rest = windows_from(words, size, step, start + step, id + 1);
        assert(all.last() == rest.last());
        assert forall|j: int| start <= j < words.len() implies #[trigger] in_some_window(
            all,
            j,
        ) by {
            if j < start + size {
                assert(all[0].start <= j <= all[0].end);
            } else {
                assert(in_some_window(rest, j));
                let i = choose|i: int|
                    0 <= i < rest.len() && (#[trigger] rest[i]).start <= j <= rest[i].end;
                assert(all[i + 1] == rest[i]);
            }
        }
    } else {
        assert forall|j: int| start <= j < words.len() implies #[trigger] in_some_window(
            all,
            j,
        ) by {
            assert(all[0].start <= j <= all[0].end);
        }
    }
}

/// With a step no larger than the window size, the windows cover the whole
/// word sequence, and the last window ends at the last word.
pub proof fn lemma_windows_cover(words: Seq<Seq<char>>, size: nat, step: nat)
    requires
        1 <= step <= size,
        words.len() > 0,
    ensures
        windows_of(words, size, step).len() > 0,
        windows_of(words, size, step).last().end == words.len() - 1,
        forall|j: int|
            0 <= j < words.len() ==> #[trigger] in_some_window(windows_of(words, size, step), j),
{
    lemma_windows_from_cover(words, size, step, 0, 0);
}

/// Whether the `len` words from word `j` on lie in one of the windows.
pub open spec fn run_in_some_window(windows: Seq<WindowModel>, j: int, len: int) -> bool {
    exists|i: int|
        0 <= i < windows.len() && (#[trigger] windows[i]).start <= j && j + len - 1
            <= windows[i].end
}

/// With a step no larger than the window size, a run of words that is no
/// longer than two consecutive windows share, and one more, lies in one
/// window.
pub proof fn lemma_run_in_window_from(
    words: Seq<Seq<char>>,
    size: nat,
    step: nat,
    start: nat,
    id: nat,
    j: int,
    len: int,
)
    requires
        1 <= step <= size,
        start <= j,
        1 <= len <= size - step + 1,
        j + len <= words.len(),
    ensures
        run_in_some_window(windows_from(words, size, step, start, id), j, len),
    decreases words.len() - start,
{
    let all = windows_from(words, size, step, start, id);
    if start + size < words.len() && j + len > start + size {
        lemma_run_in_window_from(words, size, step, start + step, id + 1, j, len);
        let rest = windows_from(words, size, step, start + step, id + 1);
        let i = choose|i: int|
            0 <= i < rest.len() && (#[trigger] rest[i]).start <= j && j + len - 1 <= rest[i].end;
        assert(all[i + 1] == rest[i]);
    } else {
        assert(all[0].start <= j && j + len - 1 <= all[0].end);
    }
}

/// A text without words has no windows.
pub proof fn lemma_no_words_no_windows(size: nat, step: nat)
    ensures
        windows_of(Seq::<Seq<char>>::empty(), size, step).len() == 0,
{
}

/// The index lists the windows of a shingle in ascending order, so none of
/// them twice.
pub proof fn lemma_windows_with_ascending(windows: Seq<WindowModel>, key: Seq<char>)
    requires
        windows.len() <= usize::MAX,
    ensures
        forall|p: int, q: int|
            0 <= p < q < windows_with(windows, key).len() ==> windows_with(windows, key)[p]
                < windows_with(windows, key)[q],
        forall|p: int|
            0 <= p < windows_with(windows, key).len() ==> (#[trigger] windows_with(
                windows,
                key,
            )[p]) < windows.len(),
    decreases windows.len(),
{
    if windows.len() > 0 {
        lemma_windows_with_ascending(windows.drop_last(), key);
        let rest = windows_with(windows.drop_last(), key);
        let all = windows_with(windows, key);
        assert forall|p: int| 0 <= p < all.len() implies (#[trigger] all[p]) < windows.len() by {
            if p < rest.len() {
                assert(all[p] == rest[p]);
            }
        }
        assert forall|p: int, q: int| 0 <= p < q < all.len() implies all[p] < all[q] by {
            assert(all[p] == rest[p]);
            if q < rest.len() {
                assert(all[q] == rest[q]);
            }
        }
    }
}

} // verus!
