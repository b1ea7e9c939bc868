//! Overlapping windows over the word sequence, and the index of the shingles
//! they hold.

use vstd::prelude::*;
use crate::shingle_index::{postings, with_id, ShingleIndex};
use crate::text::{join_tokens, join_words, token_views};
use crate::window_laws::lemma_windows_with_ascending;

verus! {

/// Number of tokens in a shingle.
pub const SHINGLE_SIZE: usize = 3;

/// A stretch of the word sequence.
#[derive(Debug)]
pub struct Window {
    /// Position of the window among all windows.
    pub id: usize,
    /// Index of its first word.
    pub start_word_index: usize,
    /// Index of its last word.
    pub end_word_index: usize,
    /// Its words.
    pub tokens: Vec<String>,
}

/// A window as a mathematical value.
pub struct WindowModel {
    pub id: int,
    pub start: int,
    pub end: int,
    pub tokens: Seq<Seq<char>>,
}

impl View for Window {
    type V = WindowModel;

    open spec fn view(&self) -> WindowModel {
        WindowModel {
            id: self.id as int,
            start: self.start_word_index as int,
            end: self.end_word_index as int,
            tokens: token_views(self.tokens@),
        }
    }
}

/// The windows that a vector holds, as mathematical values.
pub open spec fn window_views(windows: Seq<Window>) -> Seq<WindowModel> {
    Seq::new(windows.len(), |i: int| windows[i]@)
}

/// The windows that begin at word `start` or later, the first of them with
/// id `id`: each holds `size` words (the last one as many as are left), and
/// each begins `step` words after the one before. The last window is the
/// first that reaches the end of the words.
pub open spec fn windows_from(
    words: Seq<Seq<char>>,
    size: nat,
    step: nat,
    start: nat,
    id: nat,
) -> Seq<WindowModel>
    decreases
        (if start < words.len() {
            words.len() - start
        } else {
            0
        }),
{
    if start >= words.len() || size == 0 || step == 0 {
        Seq::empty()
    } else {
        let end: int = if start + size < words.len() {
            (start + size) as int
        } else {
            words.len() as int
        };
        let window = WindowModel {
            id: id as int,
            start: start as int,
            end: end - 1,
            tokens: words.subrange(start as int, end),
        };
        if end == words.len() {
            seq![window]
        } else {
            seq![window] + windows_from(words, size, step, start + step, id + 1)
        }
    }
}

/// All windows over `words`.
pub open spec fn windows_of(words: Seq<Seq<char>>, size: nat, step: nat) -> Seq<WindowModel> {
    windows_from(words, size, step, 0, 0)
}

/// Number of shingles in a token sequence.
pub open spec fn shingle_count(tokens: Seq<Seq<char>>) -> int {
    if tokens.len() >= SHINGLE_SIZE {
        tokens.len() - SHINGLE_SIZE + 1
    } else {
        0
    }
}

/// The shingle that begins at token `i`: three tokens joined by spaces.
pub open spec fn shingle_at(tokens: Seq<Seq<char>>, i: int) -> Seq<char> {
    join_words(tokens.subrange(i, i + SHINGLE_SIZE))
}

/// Whether `key` is among the first `upto` shingles of `tokens`.
pub open spec fn has_shingle(tokens: Seq<Seq<char>>, key: Seq<char>, upto: int) -> bool {
    exists|i: int| 0 <= i < upto && #[trigger] shingle_at(tokens, i) == key
}

/// Positions of the windows that contain the shingle `key`, ascending.
pub open spec fn windows_with(windows: Seq<WindowModel>, key: Seq<char>) -> Seq<usize>
    decreases windows.len(),
{
    if windows.len() == 0 {
        Seq::empty()
    } else {
        let rest = windows_with(windows.drop_last(), key);
        let tokens = windows.last().tokens;
        if has_shingle(tokens, key, shingle_count(tokens)) {
            rest.push((windows.len() - 1) as usize)
        } else {
            rest
        }
    }
}

/// The inverted index of `windows`: every shingle that some window holds,
/// with the positions of the windows that hold it.
pub open spec fn index_of(windows: Seq<WindowModel>) -> Map<Seq<char>, Seq<usize>> {
    Map::new(
        |key: Seq<char>| windows_with(windows, key).len() > 0,
        |key: Seq<char>| windows_with(windows, key),
    )
}

/// What is listed under `key` once the first `k` windows and the first `t`
/// shingles of window `k` are indexed.
pub open spec fn partial_ids(windows: Seq<WindowModel>, k: int, t: int, key: Seq<char>) -> Seq<
    usize,
> {
    let before = windows_with(windows.take(k), key);
    if 0 <= k < windows.len() && has_shingle(windows[k].tokens, key, t) {
        before.push(k as usize)
    } else {
        before
    }
}

/// The index once the first `k` windows and the first `t` shingles of
/// window `k` are indexed.
pub open spec fn partial_index(windows: Seq<WindowModel>, k: int, t: int) -> Map<
    Seq<char>,
    Seq<usize>,
> {
    Map::new(
        |key: Seq<char>| partial_ids(windows, k, t, key).len() > 0,
        |key: Seq<char>| partial_ids(windows, k, t, key),
    )
}

/// Copies the tokens `tokens[start..end]`.
pub fn copy_tokens(tokens: &Vec<String>, start: usize, end: usize) -> (out: Vec<String>)
    requires
        start <= end <= tokens.len(),
    ensures
        token_views(out@) == token_views(tokens@).subrange(start as int, end as int),
{
    let mut out: Vec<String> = Vec::new();
    let mut k: usize = start;
    while k < end
        invariant
            start <= k <= end <= tokens.len(),
            out.len() == k - start,
            forall|j: int| 0 <= j < out.len() ==> (#[trigger] out[j])@ == tokens[start + j]@,
        decreases end - k,
    {
        out.push(tokens[k].clone());
        k = k + 1;
    }
    assert(token_views(out@) =~= token_views(tokens@).subrange(start as int, end as int));
    out
}

/// Cuts `words` into windows of `size` words that begin `step` words apart.
pub fn build_windows(words: &Vec<String>, size: usize, step: usize) -> (windows: Vec<Window>)
    requires
        size >= 1,
        step >= 1,
    ensures
        window_views(windows@) == windows_of(token_views(words@), size as nat, step as nat),
{
    let ghost all = token_views(words@);
    let len: usize = words.len();
    let mut windows: Vec<Window> = Vec::new();
    let mut start: usize = 0;
    let mut done: bool = false;
    while !done && start < len
        invariant
            size >= 1,
            step >= 1,
            len == words.len(),
            all == token_views(words@),
            done ==> window_views(windows@) == windows_of(all, size as nat, step as nat),
            !done ==> window_views(windows@) + windows_from(
                all,
                size as nat,
                step as nat,
                start as nat,
                windows.len() as nat,
            ) == windows_of(all, size as nat, step as nat),
        decreases len - start + if done { 0int } else { 1int },
    {
        let end: usize = if size >= len - start {
            len
        } else {
            start + size
        };
        let tokens = copy_tokens(words, start, end);
        let ghost built = window_views(windows@);
        let ghost rest = windows_from(
            all,
            size as nat,
            step as nat,
            start as nat,
            windows.len() as nat,
        );
        let id: usize = windows.len();
        windows.push(Window { id, start_word_index: start, end_word_index: end - 1, tokens });
        let ghost window = windows[id as int]@;
        proof {
            assert(window_views(windows@) =~= built.push(window));
            assert(rest[0] == window);
        }
        if end == len {
            proof {
                assert(rest =~= seq![window]);
                assert(built + rest =~= built.push(window));
            }
            done = true;
        } else if step >= len - start {
            proof {
                let next = windows_from(
                    all,
                    size as nat,
                    step as nat,
                    (start + step) as nat,
                    (id + 1) as nat,
                );
                assert(next =~= Seq::<WindowModel>::empty());
                assert(rest =~= seq![window] + next);
                assert(built + rest =~= built.push(window));
            }
            done = true;
        } else {
            proof {
                let next = windows_from(
                    all,
                    size as nat,
                    step as nat,
                    (start + step) as nat,
                    (id + 1) as nat,
                );
                assert(rest =~= seq![window] + next);
                assert(built + rest =~= built.push(window) + next);
            }
            start = start + step;
        }
    }
    proof {
        if !done {
            assert(windows_from(
                all,
                size as nat,
                step as nat,
                start as nat,
                windows.len() as nat,
            ) =~= Seq::<WindowModel>::empty());
            assert(window_views(windows@) + Seq::<WindowModel>::empty() =~= window_views(
                windows@,
            ));
        }
    }
    windows
}

/// Builds the inverted index of `windows` in a table of `bucket_count`
/// buckets.
pub fn build_index(windows: &Vec<Window>, bucket_count: usize) -> (index: ShingleIndex)
    ensures
        index.wf(),
        index@ == index_of(window_views(windows@)),
{
    let ghost all = window_views(windows@);
    let mut index = ShingleIndex::new(bucket_count);
    let mut k: usize = 0;
    assert(index@ =~= partial_index(all, 0, 0));
    while k < windows.len()
        invariant
            k <= windows.len(),
            all == window_views(windows@),
            index.wf(),
            index@ == partial_index(all, k as int, 0),
        decreases windows.len() - k,
    {
        let tokens = &windows[k].tokens;
        let ghost views = token_views(tokens@);
        assert(all[k as int].tokens == views);
        let mut t: usize = 0;
        while tokens.len() >= SHINGLE_SIZE && t <= tokens.len() - SHINGLE_SIZE
            invariant
                k < windows.len(),
                all == window_views(windows@),
                all[k as int].tokens == views,
                views == token_views(tokens@),
                0 <= t <= shingle_count(views),
                index.wf(),
                index@ == partial_index(all, k as int, t as int),
            decreases tokens.len() - t,
        {
            let key = join_tokens(tokens, t, t + SHINGLE_SIZE);
            let ghost before = index@;
            let ghost key_view = key@;
            assert(key_view == shingle_at(views, t as int));
            index.add(key, k);
            proof {
                lemma_windows_with_ascending(all.take(k as int), key_view);
                let target = partial_index(all, k as int, t + 1);
                assert forall|other: Seq<char>|
                    partial_ids(all, k as int, t + 1, other) == if other == key_view {
                        with_id(partial_ids(all, k as int, t as int, other), k)
                    } else {
                        partial_ids(all, k as int, t as int, other)
                    } by {
                    let listed = windows_with(all.take(k as int), other);
                    if other == key_view {
                        assert(shingle_at(views, t as int) == other);
                        assert(has_shingle(views, other, t + 1));
                        if !has_shingle(views, other, t as int) {
                            if listed.len() > 0 {
                                assert(listed[listed.len() - 1] < k);
                            }
                        }
                    } else {
                        if has_shingle(views, other, t + 1) {
                            let i = choose|i: int|
                                0 <= i < t + 1 && #[trigger] shingle_at(views, i) == other;
                            assert(i < t);
                            assert(has_shingle(views, other, t as int));
                        }
                        if has_shingle(views, other, t as int) {
                            let i = choose|i: int|
                                0 <= i < t && #[trigger] shingle_at(views, i) == other;
                            assert(has_shingle(views, other, t + 1));
                        }
                    }
                }
                assert(postings(before, key_view) == partial_ids(
                    all,
                    k as int,
                    t as int,
                    key_view,
                ));
                assert(index@ =~= target);
            }
            t = t + 1;
        }
        proof {
            let done = shingle_count(views);
            assert(t == done);
            let upto = all.take(k + 1);
            assert(upto.drop_last() =~= all.take(k as int));
            assert(upto.last() == all[k as int]);
            assert forall|other: Seq<char>|
                partial_ids(all, k as int, done, other) == partial_ids(
                    all,
                    k + 1,
                    0,
                    other,
                ) by {
                assert(!has_shingle(all[k as int].tokens, other, 0));
                if k + 1 < windows.len() {
                    assert(!has_shingle(all[k + 1].tokens, other, 0));
                }
            }
            assert(partial_index(all, k as int, done) =~= partial_index(all, k + 1, 0));
        }
        k = k + 1;
    }
    proof {
        assert(all.take(windows.len() as int) =~= all);
        assert(index@ =~= index_of(all));
    }
    index
}

} // verus!
