//! What holds of every query: the confidence is a fraction of one, an exact
//! occurrence of the snippet is found with the full score, and a single
//! misheard token costs one point at most.

use vstd::prelude::*;
use crate::align::align_spec;
use crate::alignment_laws::{
    full_score, lemma_alignment_shape, lemma_full_score_alignment, lemma_holder_score, lemma_peak,
    lemma_pruning_is_sound,
};
use crate::edit_distance::edit_distance;
use crate::locator::{
    best_after, bound_of, build_model, candidates, eligible, empty_model, evaluate, occurrences,
    overlap,
    overlap_counts, query_spec, query_view, ranked, ranks_before, restored_model, state_model,
    LocatorModel, QueryResult, TextLocatorState, DEFAULT_TOP_K,
};
use crate::ratio::Fraction;
use crate::shingle_index::postings;
use crate::text::{join_words, tokenize_spec};
use crate::window_laws::lemma_run_in_window_from;
use crate::window::{
    has_shingle, index_of, shingle_at, shingle_count, windows_from, windows_of, windows_with,
    WindowModel, SHINGLE_SIZE,
};

verus! {

/// Whether every window is the stretch of the words that its indices name.
pub open spec fn windows_match_words(words: Seq<Seq<char>>, windows: Seq<WindowModel>) -> bool {
    forall|i: int|
        0 <= i < windows.len() ==> {
            let w = #[trigger] windows[i];
            &&& 0 <= w.start <= w.end < words.len()
            &&& w.tokens == words.subrange(w.start, w.end + 1)
        }
}

/// The windows that a query for the tokens `q` is aligned against.
pub open spec fn query_candidates(state: LocatorModel, q: Seq<Seq<char>>) -> Seq<int> {
    candidates(overlap_counts(state.index, q, state.windows.len()), DEFAULT_TOP_K as nat)
}

/// The windows cut from a word sequence are stretches of it, numbered in
/// order.
pub proof fn lemma_windows_from_match(
    words: Seq<Seq<char>>,
    size: nat,
    step: nat,
    start: nat,
    id: nat,
)
    ensures
        windows_match_words(words, windows_from(words, size, step, start, id)),
        forall|i: int|
            0 <= i < windows_from(words, size, step, start, id).len() ==> (#[trigger] windows_from(
                words,
                size,
                step,
                start,
                id,
            )[i]).id == id + i,
    decreases
        (if start < words.len() {
            words.len() - start
        } else {
            0
        }),
{
    let all = windows_from(words, size, step, start, id);
    if start >= words.len() || size == 0 || step == 0 {
    } else {
        let end: int = if start + size < words.len() {
            (start + size) as int
        } else {
            words.len() as int
        };
        if end != words.len() {
            lemma_windows_from_match(words, size, step, start + step, id + 1);
            let rest = windows_from(words, size, step, start + step, id + 1);
            assert forall|i: int| 0 <= i < all.len() implies {
                let w = #[trigger] all[i];
                &&& 0 <= w.start <= w.end < words.len()
                &&& w.tokens == words.subrange(w.start, w.end + 1)
                &&& w.id == id + i
            } by {
                if i > 0 {
                    assert(all[i] == rest[i - 1]);
                }
            }
        }
    }
}

/// After indexing, every window is the stretch of the words that its
/// indices name.
pub proof fn lemma_built_windows_match(words: Seq<Seq<char>>, size: nat, step: nat)
    ensures
        windows_match_words(words, windows_of(words, size, step)),
{
    lemma_windows_from_match(words, size, step, 0, 0);
}

/// What [`best_after`] picks is one of the first `n` windows, and eligible.
pub proof fn lemma_best_after(counts: Seq<nat>, prev: Option<int>, n: int)
    ensures
        match best_after(counts, prev, n) {
            Some(i) => 0 <= i < n && eligible(counts, prev, i),
            None => true,
        },
    decreases n,
{
    if n > 0 {
        lemma_best_after(counts, prev, n - 1);
    }
}

/// The ranked windows are windows with a positive overlap, `k` at most.
pub proof fn lemma_ranked_valid(counts: Seq<nat>, k: nat)
    ensures
        ranked(counts, k).len() <= k,
        forall|i: int|
            0 <= i < ranked(counts, k).len() ==> 0 <= (#[trigger] ranked(counts, k)[i])
                < counts.len() && counts[ranked(counts, k)[i]] > 0,
    decreases k,
{
    if k > 0 {
        lemma_ranked_valid(counts, (k - 1) as nat);
        let head = ranked(counts, (k - 1) as nat);
        if head.len() >= k - 1 {
            let prev = if head.len() == 0 {
                None
            } else {
                Some(head.last())
            };
            lemma_best_after(counts, prev, counts.len() as int);
        }
    }
}

/// Every candidate is a window, and there is a candidate whenever there is
/// a window.
pub proof fn lemma_candidates_valid(counts: Seq<nat>, k: nat)
    ensures
        forall|i: int|
            0 <= i < candidates(counts, k).len() ==> 0 <= (#[trigger] candidates(counts, k)[i])
                < counts.len(),
        counts.len() > 0 && k > 0 ==> candidates(counts, k).len() > 0,
{
    lemma_ranked_valid(counts, k);
}

/// What [`best_after`] picks ranks before every other eligible window, and
/// it picks nothing only if no window is eligible.
pub proof fn lemma_best_after_minimal(counts: Seq<nat>, prev: Option<int>, n: int)
    ensures
        match best_after(counts, prev, n) {
            Some(b) => forall|i: int|
                0 <= i < n && #[trigger] eligible(counts, prev, i) ==> i == b || ranks_before(
                    counts,
                    b,
                    i,
                ),
            None => forall|i: int| 0 <= i < n ==> !#[trigger] eligible(counts, prev, i),
        },
    decreases n,
{
    if n > 0 {
        lemma_best_after_minimal(counts, prev, n - 1);
    }
}

/// The ranked windows stand in rank order, so none occurs twice.
pub proof fn lemma_ranked_sorted(counts: Seq<nat>, k: nat)
    ensures
        forall|i: int, j: int|
            0 <= i < j < ranked(counts, k).len() ==> ranks_before(
                counts,
                #[trigger] ranked(counts, k)[i],
                #[trigger] ranked(counts, k)[j],
            ),
    decreases k,
{
    if k > 0 {
        lemma_ranked_sorted(counts, (k - 1) as nat);
        let head = ranked(counts, (k - 1) as nat);
        let all = ranked(counts, k);
        if head.len() >= k - 1 {
            let prev = if head.len() == 0 {
                None
            } else {
                Some(head.last())
            };
            lemma_best_after(counts, prev, counts.len() as int);
            assert forall|i: int, j: int| 0 <= i < j < all.len() implies ranks_before(
                counts,
                #[trigger] all[i],
                #[trigger] all[j],
            ) by {
                if j < head.len() {
                    assert(all[i] == head[i] && all[j] == head[j]);
                } else {
                    assert(all[i] == head[i]);
                    if i < head.len() - 1 {
                        assert(ranks_before(counts, head[i], head[head.len() - 1]));
                    }
                }
            }
        }
    }
}

/// A window with a positive overlap is among the ranked windows, unless
/// there are `k` of them and it ranks after the last.
pub proof fn lemma_ranked_covers(counts: Seq<nat>, k: nat, id: int)
    requires
        0 <= id < counts.len(),
        counts[id] > 0,
    ensures
        ranked(counts, k).contains(id) || (ranked(counts, k).len() == k && k > 0 && ranks_before(
            counts,
            ranked(counts, k).last(),
            id,
        )) || k == 0,
    decreases k,
{
    if k > 0 {
        lemma_ranked_covers(counts, (k - 1) as nat, id);
        let head = ranked(counts, (k - 1) as nat);
        let all = ranked(counts, k);
        lemma_ranked_valid(counts, (k - 1) as nat);
        if head.contains(id) {
            let i = choose|i: int| 0 <= i < head.len() && head[i] == id;
            assert(all[i] == id);
        } else {
            let prev = if head.len() == 0 {
                None
            } else {
                Some(head.last())
            };
            assert(eligible(counts, prev, id));
            lemma_best_after_minimal(counts, prev, counts.len() as int);
            let b = best_after(counts, prev, counts.len() as int).unwrap();
            assert(all == head.push(b));
            if id == b {
                assert(all[all.len() - 1] == id);
            }
        }
    }
}

/// No more windows are ranked than there are windows.
pub proof fn lemma_ranked_short(counts: Seq<nat>, k: nat)
    ensures
        ranked(counts, k).len() <= counts.len(),
{
    let all = ranked(counts, k);
    lemma_ranked_valid(counts, k);
    lemma_ranked_sorted(counts, k);
    assert(all.no_duplicates()) by {
        assert forall|i: int, j: int| 0 <= i < all.len() && 0 <= j < all.len() && i != j implies all[i]
            != all[j] by {
            if i < j {
                assert(ranks_before(counts, all[i], all[j]));
            } else {
                assert(ranks_before(counts, all[j], all[i]));
            }
        }
    }
    all.unique_seq_to_set();
    let range = vstd::set_lib::set_int_range(0, counts.len() as int);
    vstd::set_lib::lemma_int_range(0, counts.len() as int);
    assert(all.to_set().subset_of(range)) by {
        assert forall|x: int| all.to_set().contains(x) implies range.contains(x) by {
            let i = choose|i: int| 0 <= i < all.len() && all[i] == x;
        }
    }
    vstd::set_lib::lemma_len_subset(all.to_set(), range);
}

/// Whether window `id` holds the shingle `key`.
pub open spec fn holds_shingle(windows: Seq<WindowModel>, id: int, key: Seq<char>) -> bool {
    0 <= id < windows.len() && has_shingle(
        windows[id].tokens,
        key,
        shingle_count(windows[id].tokens),
    )
}

/// The index of a list of windows lists a window under a shingle once if
/// the window holds the shingle, and not at all if it does not.
pub proof fn lemma_listed_once(windows: Seq<WindowModel>, key: Seq<char>, id: int)
    requires
        windows.len() <= usize::MAX,
    ensures
        occurrences(windows_with(windows, key), id) == if holds_shingle(windows, id, key) {
            1nat
        } else {
            0nat
        },
    decreases windows.len(),
{
    if windows.len() > 0 {
        let init = windows.drop_last();
        let rest = windows_with(init, key);
        lemma_listed_once(init, key, id);
        if 0 <= id < init.len() {
            assert(init[id] == windows[id]);
        }
        if has_shingle(windows.last().tokens, key, shingle_count(windows.last().tokens)) {
            let grown = rest.push((windows.len() - 1) as usize);
            assert(grown.drop_last() =~= rest);
            assert(grown.last() == windows.len() - 1);
        }
    }
}

/// In an indexed text, the overlap of a window with the first shingles of a
/// snippet is at most their number, and it is their number if the window
/// holds all of them.
pub proof fn lemma_overlap_bounds(
    windows: Seq<WindowModel>,
    q: Seq<Seq<char>>,
    upto: int,
    id: int,
)
    requires
        windows.len() <= usize::MAX,
        0 <= upto,
    ensures
        overlap(index_of(windows), q, upto, id) <= upto,
        (forall|t: int| 0 <= t < upto ==> holds_shingle(windows, id, #[trigger] shingle_at(q, t)))
            ==> overlap(index_of(windows), q, upto, id) == upto,
    decreases upto,
{
    if upto > 0 {
        lemma_overlap_bounds(windows, q, upto - 1, id);
        let key = shingle_at(q, upto - 1);
        lemma_listed_once(windows, key, id);
        assert(postings(index_of(windows), key) == windows_with(windows, key));
    }
}

/// Whether window `id` is kept from being a candidate: the full number of
/// candidates is ranked, and every one of them stands before the window in
/// the text and shares as many shingles with the snippet as the snippet
/// has.
pub open spec fn crowded_out(state: LocatorModel, q: Seq<Seq<char>>, id: int) -> bool {
    let best = ranked(
        overlap_counts(state.index, q, state.windows.len()),
        DEFAULT_TOP_K as nat,
    );
    &&& best.len() == DEFAULT_TOP_K
    &&& forall|c: int|
        0 <= c < best.len() ==> (#[trigger] best[c]) < id && overlap(
            state.index,
            q,
            shingle_count(q),
            best[c],
        ) == shingle_count(q)
}

/// In an indexed text, a window that holds the tokens of a snippet of three
/// tokens or more, one after the other and unchanged, shares every shingle
/// of the snippet, which is the most that a window can share. It is a
/// candidate, unless as many windows as a query has candidates stand before
/// it and share every shingle too.
pub proof fn lemma_holder_ranks_first(
    state: LocatorModel,
    q: Seq<Seq<char>>,
    id: int,
    offset: int,
)
    requires
        state.index == index_of(state.windows),
        0 <= id < state.windows.len() <= usize::MAX,
        0 <= offset,
        q.len() >= SHINGLE_SIZE,
        offset + q.len() <= state.windows[id].tokens.len(),
        state.windows[id].tokens.subrange(offset, offset + q.len()) == q,
    ensures
        overlap(state.index, q, shingle_count(q), id) == shingle_count(q),
        forall|i: int| #[trigger]
            overlap(state.index, q, shingle_count(q), i) <= shingle_count(q),
        query_candidates(state, q).contains(id) || crowded_out(state, q, id),
{
    let counts = overlap_counts(state.index, q, state.windows.len());
    let k = DEFAULT_TOP_K as nat;
    let full = shingle_count(q);
    let holder = state.windows[id].tokens;
    assert forall|t: int| 0 <= t < full implies holds_shingle(
        state.windows,
        id,
        #[trigger] shingle_at(q, t),
    ) by {
        assert(q.subrange(t, t + 3) =~= holder.subrange(offset + t, offset + t + 3));
        assert(shingle_at(holder, offset + t) == shingle_at(q, t));
    }
    lemma_overlap_bounds(state.windows, q, full, id);
    assert forall|i: int| #[trigger] overlap(state.index, q, full, i) <= full by {
        lemma_overlap_bounds(state.windows, q, full, i);
    }
    assert(counts[id] == full);
    lemma_ranked_covers(counts, k, id);
    lemma_ranked_sorted(counts, k);
    lemma_ranked_valid(counts, k);
    let best = ranked(counts, k);
    if !best.contains(id) {
        assert forall|c: int| 0 <= c < best.len() implies (#[trigger] best[c]) < id && overlap(
            state.index,
            q,
            full,
            best[c],
        ) == full by {
            if c < best.len() - 1 {
                assert(ranks_before(counts, best[c], best[best.len() - 1]));
            }
            assert(counts[best[c]] == overlap(state.index, q, full, best[c]));
            assert(counts[best[best.len() - 1]] == overlap(
                state.index,
                q,
                full,
                best[best.len() - 1],
            ));
        }
    }
}

/// In an indexed text, a snippet of three tokens or more that stands in a
/// window, token by token and unchanged, is found with the full score,
/// unless the window is kept from being a candidate by as many windows
/// before it that share every shingle of the snippet.
pub proof fn lemma_exact_run_is_found_unless_crowded(
    words: Seq<Seq<char>>,
    size: nat,
    step: nat,
    snippet: Seq<char>,
    id: int,
    offset: int,
)
    requires
        tokenize_spec(snippet).len() >= SHINGLE_SIZE,
        0 <= id < windows_of(words, size, step).len() <= usize::MAX,
        0 <= offset,
        offset + tokenize_spec(snippet).len() <= windows_of(words, size, step)[id].tokens.len(),
        windows_of(words, size, step)[id].tokens.subrange(
            offset,
            offset + tokenize_spec(snippet).len(),
        ) == tokenize_spec(snippet),
        !crowded_out(build_model(words, size, step), tokenize_spec(snippet), id),
    ensures
        query_spec(build_model(words, size, step), snippet) is Some,
        query_spec(build_model(words, size, step), snippet).unwrap().alignment_score == 2
            * tokenize_spec(snippet).len(),
        query_spec(build_model(words, size, step), snippet).unwrap().matched_text == join_words(
            tokenize_spec(snippet),
        ),
{
    let state = build_model(words, size, step);
    let q = tokenize_spec(snippet);
    lemma_built_windows_match(words, size, step);
    lemma_holder_ranks_first(state, q, id, offset);
    let ids = query_candidates(state, q);
    let c = choose|c: int| 0 <= c < ids.len() && ids[c] == id;
    lemma_exact_run_is_found(state, snippet, c, offset);
}

/// In an indexed text, a window that holds the tokens of the snippet, one
/// after the other and unchanged, is a candidate whenever fewer than the
/// full number of candidates share a shingle with the snippet; for a
/// snippet too short to have a shingle, whenever it is among the first
/// windows.
pub proof fn lemma_holder_is_candidate(
    state: LocatorModel,
    q: Seq<Seq<char>>,
    id: int,
    offset: int,
)
    requires
        state.index == index_of(state.windows),
        0 <= id < state.windows.len() <= usize::MAX,
        0 <= offset,
        offset + q.len() <= state.windows[id].tokens.len(),
        state.windows[id].tokens.subrange(offset, offset + q.len()) == q,
        q.len() >= SHINGLE_SIZE ==> ranked(
            overlap_counts(state.index, q, state.windows.len()),
            DEFAULT_TOP_K as nat,
        ).len() < DEFAULT_TOP_K,
        q.len() < SHINGLE_SIZE ==> id < DEFAULT_TOP_K,
    ensures
        query_candidates(state, q).contains(id),
{
    let counts = overlap_counts(state.index, q, state.windows.len());
    let k = DEFAULT_TOP_K as nat;
    let ids = query_candidates(state, q);
    if q.len() >= SHINGLE_SIZE {
        lemma_holder_ranks_first(state, q, id, offset);
    } else {
        lemma_ranked_valid(counts, k);
        let best = ranked(counts, k);
        if best.len() > 0 {
            assert(counts[best[0]] > 0);
            assert(shingle_count(q) == 0);
        }
        assert(ids[id] == id);
    }
}

/// The best alignment over a list of candidates was found in one of them,
/// and its score is at least the best score that any of them holds: the
/// bound that the later candidates are held against hides nothing better.
pub proof fn lemma_evaluate(windows: Seq<WindowModel>, q: Seq<Seq<char>>, ids: Seq<int>)
    ensures
        evaluate(windows, q, ids) is None <==> ids.len() == 0,
        match evaluate(windows, q, ids) {
            Some(best) => {
                &&& 0 <= best.0.score <= 2 * q.len()
                &&& exists|c: int, bound: int|
                    0 <= c < ids.len() && best.1 == ids[c] && best.0 == #[trigger] align_spec(
                        q,
                        windows[ids[c]].tokens,
                        bound,
                    )
                &&& forall|c: int|
                    0 <= c < ids.len() ==> #[trigger] full_score(q, windows[ids[c]].tokens)
                        <= best.0.score
            },
            None => true,
        },
    decreases ids.len(),
{
    if ids.len() > 0 {
        let init = ids.drop_last();
        lemma_evaluate(windows, q, init);
        let before = evaluate(windows, q, init);
        let id = ids.last();
        let last = ids.len() - 1;
        let w = windows[id].tokens;
        let bound = bound_of(before);
        let found = align_spec(q, w, bound);
        lemma_alignment_shape(q, w, bound);
        lemma_pruning_is_sound(q, w, bound);
        lemma_peak(q, w, q.len() as int, w.len() as int);
        let best = evaluate(windows, q, ids).unwrap();
        assert(ids[last] == id);
        match before {
            None => {
                assert(best.0 == align_spec(q, windows[ids[last]].tokens, bound));
                assert forall|c: int| 0 <= c < ids.len() implies #[trigger] full_score(
                    q,
                    windows[ids[c]].tokens,
                ) <= best.0.score by {
                    assert(c == last);
                }
            },
            Some(b) => {
                let (c0, bound0) = choose|c: int, bound: int|
                    0 <= c < init.len() && b.1 == init[c] && b.0 == #[trigger] align_spec(
                        q,
                        windows[init[c]].tokens,
                        bound,
                    );
                assert(init[c0] == ids[c0]);
                if found.score > b.0.score {
                    assert(best.0 == align_spec(q, windows[ids[last]].tokens, bound));
                } else {
                    assert(best.0 == align_spec(q, windows[ids[c0]].tokens, bound0));
                }
                assert forall|c: int| 0 <= c < ids.len() implies #[trigger] full_score(
                    q,
                    windows[ids[c]].tokens,
                ) <= best.0.score by {
                    if c < last {
                        assert(init[c] == ids[c]);
                        assert(full_score(q, windows[init[c]].tokens) <= b.0.score);
                    }
                }
            },
        }
    }
}

/// The confidence of every query result lies between zero and one, and its
/// score is positive and at most twice the number of tokens of the snippet.
pub proof fn lemma_confidence_is_unit(state: LocatorModel, snippet: Seq<char>)
    ensures
        match query_spec(state, snippet) {
            Some(result) => {
                &&& result.confidence.is_unit()
                &&& 0 < result.alignment_score <= 2 * tokenize_spec(snippet).len()
                &&& result.confidence == (Fraction {
                    num: result.alignment_score,
                    den: 2 * (tokenize_spec(snippet).len() as int),
                })
            },
            None => true,
        },
{
    let q = tokenize_spec(snippet);
    lemma_evaluate(state.windows, q, query_candidates(state, q));
}

/// In a state whose windows are stretches of its words, a query finds a
/// match exactly when some candidate aligns with a positive score, and the
/// match is a stretch of the words inside the window it was found in.
pub proof fn lemma_query_result_shape(state: LocatorModel, snippet: Seq<char>)
    requires
        windows_match_words(state.words, state.windows),
    ensures
        query_spec(state, snippet) is Some <==> {
            &&& state.windows.len() > 0
            &&& tokenize_spec(snippet).len() > 0
            &&& evaluate(
                state.windows,
                tokenize_spec(snippet),
                query_candidates(state, tokenize_spec(snippet)),
            ) is Some
            &&& evaluate(
                state.windows,
                tokenize_spec(snippet),
                query_candidates(state, tokenize_spec(snippet)),
            ).unwrap().0.score > 0
        },
        match query_spec(state, snippet) {
            Some(result) => {
                &&& 0 <= result.window_id < state.windows.len()
                &&& state.windows[result.window_id].start <= result.start_word_index
                    <= result.end_word_index <= state.windows[result.window_id].end
                &&& result.end_word_index < state.words.len()
                &&& result.alignment_score == evaluate(
                    state.windows,
                    tokenize_spec(snippet),
                    query_candidates(state, tokenize_spec(snippet)),
                ).unwrap().0.score
            },
            None => true,
        },
{
    let q = tokenize_spec(snippet);
    let ids = query_candidates(state, q);
    let counts = overlap_counts(state.index, q, state.windows.len());
    lemma_candidates_valid(counts, DEFAULT_TOP_K as nat);
    lemma_evaluate(state.windows, q, ids);
    if state.windows.len() > 0 && q.len() > 0 {
        let best = evaluate(state.windows, q, ids).unwrap();
        let (c, bound) = choose|c: int, bound: int|
            0 <= c < ids.len() && best.1 == ids[c] && best.0 == #[trigger] align_spec(
                q,
                state.windows[ids[c]].tokens,
                bound,
            );
        let window = state.windows[best.1];
        lemma_alignment_shape(q, window.tokens, bound);
        assert(window.tokens.len() == window.end + 1 - window.start);
    }
}

/// A snippet whose tokens stand in one of the candidate windows, one after
/// the other and unchanged, is found with the full score: two points for
/// every token, a confidence of one, and its own tokens as the matched
/// words.
pub proof fn lemma_exact_run_is_found(
    state: LocatorModel,
    snippet: Seq<char>,
    c: int,
    offset: int,
)
    requires
        windows_match_words(state.words, state.windows),
        tokenize_spec(snippet).len() > 0,
        0 <= c < query_candidates(state, tokenize_spec(snippet)).len(),
        0 <= offset,
        offset + tokenize_spec(snippet).len() <= state.windows[query_candidates(
            state,
            tokenize_spec(snippet),
        )[c]].tokens.len(),
        state.windows[query_candidates(state, tokenize_spec(snippet))[c]].tokens.subrange(
            offset,
            offset + tokenize_spec(snippet).len(),
        ) == tokenize_spec(snippet),
    ensures
        query_spec(state, snippet) is Some,
        query_spec(state, snippet).unwrap().alignment_score == 2 * tokenize_spec(snippet).len(),
        state.words.subrange(
            query_spec(state, snippet).unwrap().start_word_index,
            query_spec(state, snippet).unwrap().end_word_index + 1,
        ) == tokenize_spec(snippet),
        query_spec(state, snippet).unwrap().matched_text == join_words(tokenize_spec(snippet)),
        query_spec(state, snippet).unwrap().confidence.num == query_spec(
            state,
            snippet,
        ).unwrap().confidence.den,
{
    let q = tokenize_spec(snippet);
    let m = q.len() as int;
    let ids = query_candidates(state, q);
    let counts = overlap_counts(state.index, q, state.windows.len());
    lemma_candidates_valid(counts, DEFAULT_TOP_K as nat);
    lemma_evaluate(state.windows, q, ids);
    // The window that holds the run scores two points a token.
    let holder = state.windows[ids[c]].tokens;
    assert forall|t: int| 0 <= t < m implies q[t] == #[trigger] holder[offset + t] by {
        assert(holder.subrange(offset, offset + m)[t] == holder[offset + t]);
    }
    lemma_holder_score(q, holder, offset, -1);
    // So does the best alignment, which therefore covers a copy of the run.
    let best = evaluate(state.windows, q, ids).unwrap();
    assert(best.0.score == 2 * m);
    let (c1, bound) = choose|c1: int, bound: int|
        0 <= c1 < ids.len() && best.1 == ids[c1] && best.0 == #[trigger] align_spec(
            q,
            state.windows[ids[c1]].tokens,
            bound,
        );
    let window = state.windows[best.1];
    lemma_full_score_alignment(q, window.tokens, bound);
    lemma_query_result_shape(state, snippet);
    let result = query_spec(state, snippet).unwrap();
    lemma_matched_words(state.words, window, best.0.start, best.0.end);
}

/// A stretch of a window is the stretch of the words at the same place.
pub proof fn lemma_matched_words(
    words: Seq<Seq<char>>,
    window: WindowModel,
    start: int,
    end: int,
)
    requires
        0 <= window.start <= window.end < words.len(),
        window.tokens == words.subrange(window.start, window.end + 1),
        0 <= start <= end < window.tokens.len(),
    ensures
        words.subrange(window.start + start, window.start + end + 1) == window.tokens.subrange(
            start,
            end + 1,
        ),
{
    assert(words.subrange(window.start + start, window.start + end + 1)
        =~= window.tokens.subrange(start, end + 1));
}

/// A snippet that differs from a run of tokens in one of the candidate
/// windows in a single token, and there by one edit at most, is still found,
/// with a score no more than one point below the full score.
pub proof fn lemma_near_run_is_found(
    state: LocatorModel,
    snippet: Seq<char>,
    c: int,
    offset: int,
    k: int,
)
    requires
        windows_match_words(state.words, state.windows),
        0 <= k < tokenize_spec(snippet).len(),
        0 <= c < query_candidates(state, tokenize_spec(snippet)).len(),
        0 <= offset,
        offset + tokenize_spec(snippet).len() <= state.windows[query_candidates(
            state,
            tokenize_spec(snippet),
        )[c]].tokens.len(),
        forall|t: int|
            0 <= t < tokenize_spec(snippet).len() && t != k ==> tokenize_spec(snippet)[t]
                == #[trigger] state.windows[query_candidates(
                state,
                tokenize_spec(snippet),
            )[c]].tokens[offset + t],
        edit_distance(
            tokenize_spec(snippet)[k],
            state.windows[query_candidates(state, tokenize_spec(snippet))[c]].tokens[offset + k],
        ) <= 1,
    ensures
        query_spec(state, snippet) is Some,
        query_spec(state, snippet).unwrap().alignment_score >= 2 * tokenize_spec(snippet).len()
            - 1,
        query_spec(state, snippet).unwrap().alignment_score > 0,
{
    let q = tokenize_spec(snippet);
    let m = q.len() as int;
    let ids = query_candidates(state, q);
    let counts = overlap_counts(state.index, q, state.windows.len());
    lemma_candidates_valid(counts, DEFAULT_TOP_K as nat);
    assert(0 <= ids[c] < state.windows.len());
    lemma_evaluate(state.windows, q, ids);
    let holder = state.windows[ids[c]].tokens;
    lemma_holder_score(q, holder, offset, k);
    assert(full_score(q, holder) >= 2 * m - 1);
    let best = evaluate(state.windows, q, ids).unwrap();
    assert(best.0.score >= 2 * m - 1);
    lemma_query_result_shape(state, snippet);
}

/// A locator restored from a snapshot answers every query as the locator
/// that the snapshot was taken of.
pub proof fn lemma_snapshot_preserves_queries(
    state: LocatorModel,
    snapshot: TextLocatorState,
    snippet: Seq<char>,
)
    requires
        state_model(snapshot) == state,
        state.window_size >= 1,
        state.step_size >= 1,
    ensures
        restored_model(snapshot) == state,
        query_spec(restored_model(snapshot), snippet) == query_spec(state, snippet),
{
}

/// Two queries for one snippet in one state give the same result.
pub proof fn lemma_query_is_repeatable(
    state: LocatorModel,
    snippet: Seq<char>,
    first: Option<QueryResult>,
    second: Option<QueryResult>,
)
    requires
        query_view(first) == query_spec(state, snippet),
        query_view(second) == query_spec(state, snippet),
    ensures
        query_view(first) == query_view(second),
        first is Some <==> second is Some,
        first is Some ==> first.unwrap().matched_text@ == second.unwrap().matched_text@
            && first.unwrap().window_id == second.unwrap().window_id
            && first.unwrap().start_word_index == second.unwrap().start_word_index
            && first.unwrap().end_word_index == second.unwrap().end_word_index
            && first.unwrap().alignment_score == second.unwrap().alignment_score
            && first.unwrap().confidence == second.unwrap().confidence,
{
}

/// A locator that has indexed a text without words finds nothing.
pub proof fn lemma_no_words_no_match(size: nat, step: nat, snippet: Seq<char>)
    ensures
        build_model(Seq::empty(), size, step).windows.len() == 0,
        query_spec(build_model(Seq::empty(), size, step), snippet) is None,
        query_spec(empty_model(size, step), snippet) is None,
{
}

/// A text no longer than one window is a single window.
pub proof fn lemma_single_window(words: Seq<Seq<char>>, size: nat, step: nat)
    requires
        0 < words.len() <= size,
        step >= 1,
    ensures
        windows_of(words, size, step) == seq![
            WindowModel { id: 0, start: 0, end: words.len() - 1, tokens: words },
        ],
{
    assert(words.subrange(0, words.len() as int) =~= words);
}

/// In a text of fewer windows than a query has candidates, every run of
/// tokens that stands in some window is found when it is asked for: the
/// match has the full score of two points a token and a confidence of one,
/// and its words are the tokens of the snippet.
pub proof fn lemma_exact_run_in_small_text(
    words: Seq<Seq<char>>,
    size: nat,
    step: nat,
    snippet: Seq<char>,
    id: int,
    offset: int,
)
    requires
        tokenize_spec(snippet).len() > 0,
        windows_of(words, size, step).len() < DEFAULT_TOP_K,
        0 <= id < windows_of(words, size, step).len(),
        0 <= offset,
        offset + tokenize_spec(snippet).len() <= windows_of(words, size, step)[id].tokens.len(),
        windows_of(words, size, step)[id].tokens.subrange(
            offset,
            offset + tokenize_spec(snippet).len(),
        ) == tokenize_spec(snippet),
    ensures
        query_spec(build_model(words, size, step), snippet) is Some,
        query_spec(build_model(words, size, step), snippet).unwrap().alignment_score == 2
            * tokenize_spec(snippet).len(),
        query_spec(build_model(words, size, step), snippet).unwrap().matched_text == join_words(
            tokenize_spec(snippet),
        ),
        query_spec(build_model(words, size, step), snippet).unwrap().confidence.num == query_spec(
            build_model(words, size, step),
            snippet,
        ).unwrap().confidence.den,
{
    let state = build_model(words, size, step);
    let q = tokenize_spec(snippet);
    let counts = overlap_counts(state.index, q, state.windows.len());
    lemma_built_windows_match(words, size, step);
    lemma_ranked_short(counts, DEFAULT_TOP_K as nat);
    lemma_holder_is_candidate(state, q, id, offset);
    let ids = query_candidates(state, q);
    let c = choose|c: int| 0 <= c < ids.len() && ids[c] == id;
    lemma_exact_run_is_found(state, snippet, c, offset);
}

/// In a text of fewer windows than a query has candidates, cut with a step
/// no larger than the window size, every run of words that is no longer
/// than two consecutive windows share, and one more, is found when it is
/// asked for, with the full score and a confidence of one.
pub proof fn lemma_short_run_is_found(
    words: Seq<Seq<char>>,
    size: nat,
    step: nat,
    snippet: Seq<char>,
    j: int,
)
    requires
        1 <= step <= size,
        1 <= tokenize_spec(snippet).len() <= size - step + 1,
        0 <= j,
        j + tokenize_spec(snippet).len() <= words.len(),
        words.subrange(j, j + tokenize_spec(snippet).len()) == tokenize_spec(snippet),
        windows_of(words, size, step).len() < DEFAULT_TOP_K,
    ensures
        query_spec(build_model(words, size, step), snippet) is Some,
        query_spec(build_model(words, size, step), snippet).unwrap().alignment_score == 2
            * tokenize_spec(snippet).len(),
        query_spec(build_model(words, size, step), snippet).unwrap().matched_text == join_words(
            tokenize_spec(snippet),
        ),
        query_spec(build_model(words, size, step), snippet).unwrap().confidence.num == query_spec(
            build_model(words, size, step),
            snippet,
        ).unwrap().confidence.den,
{
    let q = tokenize_spec(snippet);
    let m = q.len() as int;
    let all = windows_of(words, size, step);
    lemma_run_in_window_from(words, size, step, 0, 0, j, m);
    lemma_built_windows_match(words, size, step);
    let i = choose|i: int|
        0 <= i < all.len() && (#[trigger] all[i]).start <= j && j + m - 1 <= all[i].end;
    let offset = j - all[i].start;
    assert(all[i].tokens.subrange(offset, offset + m) =~= words.subrange(j, j + m));
    lemma_exact_run_in_small_text(words, size, step, snippet, i, offset);
}

} // verus!
