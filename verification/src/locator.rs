//! The locator: indexes a text and finds where a transcript snippet falls in it.

use vstd::prelude::*;
use crate::align::{align_spec, smith_waterman_align, Alignment, AlignmentResult};
use crate::ratio::{Fraction, Ratio};
use crate::shingle_index::{entries_map, postings, IndexEntry, ShingleIndex};
use crate::locator_laws::{lemma_built_windows_match, lemma_confidence_is_unit, windows_match_words};
use crate::text::{join_tokens, join_words, token_views, tokenize, tokenize_spec};
use crate::window::{
    build_index, build_windows, copy_tokens, index_of, shingle_at, shingle_count, window_views,
    windows_of, Window, WindowModel, SHINGLE_SIZE,
};

verus! {

/// Words per window, unless set otherwise.
pub const DEFAULT_WINDOW_SIZE_WORDS: usize = 100;

/// Words between the starts of two consecutive windows, unless set otherwise.
pub const DEFAULT_STEP_SIZE_WORDS: usize = 30;

/// Number of windows that a query is aligned against.
pub const DEFAULT_TOP_K: usize = 20;

/// Most buckets that the index of a text is given.
pub const MAX_INDEX_BUCKETS: usize = 65536;

/// Where a snippet was found.
#[derive(Debug)]
pub struct QueryResult {
    /// Position of the window in which the match was found.
    pub window_id: usize,
    /// Index in the text of the first matched word.
    pub start_word_index: usize,
    /// Index in the text of the last matched word.
    pub end_word_index: usize,
    /// The matched words, joined by single spaces.
    pub matched_text: String,
    /// Score of the alignment.
    pub alignment_score: i128,
    /// The score as a fraction of the best score that the snippet could reach.
    pub confidence: Ratio,
}

/// A query result as a mathematical value.
pub struct QueryModel {
    pub window_id: int,
    pub start_word_index: int,
    pub end_word_index: int,
    pub matched_text: Seq<char>,
    pub alignment_score: int,
    pub confidence: Fraction,
}

impl View for QueryResult {
    type V = QueryModel;

    open spec fn view(&self) -> QueryModel {
        QueryModel {
            window_id: self.window_id as int,
            start_word_index: self.start_word_index as int,
            end_word_index: self.end_word_index as int,
            matched_text: self.matched_text@,
            alignment_score: self.alignment_score as int,
            confidence: self.confidence@,
        }
    }
}

/// The value of an optional query result.
pub open spec fn query_view(result: Option<QueryResult>) -> Option<QueryModel> {
    match result {
        Some(r) => Some(r@),
        None => None,
    }
}

/// The state of a locator as a mathematical value.
pub struct LocatorModel {
    /// All tokens of the indexed text.
    pub words: Seq<Seq<char>>,
    /// The windows over the words.
    pub windows: Seq<WindowModel>,
    /// The inverted index: shingle to window positions.
    pub index: Map<Seq<char>, Seq<usize>>,
    /// Words per window.
    pub window_size: nat,
    /// Words between the starts of consecutive windows.
    pub step_size: nat,
}

/// The state of a locator that has indexed nothing.
pub open spec fn empty_model(window_size: nat, step_size: nat) -> LocatorModel {
    LocatorModel {
        words: Seq::empty(),
        windows: Seq::empty(),
        index: Map::empty(),
        window_size,
        step_size,
    }
}

/// The state that indexing `words` gives.
pub open spec fn build_model(words: Seq<Seq<char>>, window_size: nat, step_size: nat) -> LocatorModel {
    LocatorModel {
        words,
        windows: windows_of(words, window_size, step_size),
        index: index_of(windows_of(words, window_size, step_size)),
        window_size,
        step_size,
    }
}

/// How often `id` occurs in `ids`.
pub open spec fn occurrences(ids: Seq<usize>, id: int) -> nat
    decreases ids.len(),
{
    if ids.len() == 0 {
        0
    } else {
        occurrences(ids.drop_last(), id) + if ids.last() == id {
            1nat
        } else {
            0nat
        }
    }
}

/// The overlap of window `id` with the first `upto` shingles of `q`: for
/// each of these shingles, the number of times the index lists the window
/// under it. A shingle that occurs twice in `q` counts twice.
pub open spec fn overlap(index: Map<Seq<char>, Seq<usize>>, q: Seq<Seq<char>>, upto: int, id: int) -> nat
    decreases upto,
{
    if upto <= 0 {
        0
    } else {
        overlap(index, q, upto - 1, id) + occurrences(
            postings(index, shingle_at(q, upto - 1)),
            id,
        )
    }
}

/// The overlap of every window with the shingles of `q`.
pub open spec fn overlap_counts(index: Map<Seq<char>, Seq<usize>>, q: Seq<Seq<char>>, window_count: nat) -> Seq<nat> {
    Seq::new(window_count, |id: int| overlap(index, q, shingle_count(q), id))
}

/// Whether window `a` ranks before window `b`: by larger overlap, and among
/// equal overlaps by smaller position.
pub open spec fn ranks_before(counts: Seq<nat>, a: int, b: int) -> bool {
    counts[a] > counts[b] || (counts[a] == counts[b] && a < b)
}

/// Whether window `i` has a positive overlap and ranks after `prev`, if
/// there is a `prev`.
pub open spec fn eligible(counts: Seq<nat>, prev: Option<int>, i: int) -> bool {
    counts[i] > 0 && match prev {
        Some(p) => ranks_before(counts, p, i),
        None => true,
    }
}

/// The best-ranked among the first `n` windows that are eligible.
pub open spec fn best_after(counts: Seq<nat>, prev: Option<int>, n: int) -> Option<int>
    decreases n,
{
    if n <= 0 {
        None
    } else {
        let rest = best_after(counts, prev, n - 1);
        if !eligible(counts, prev, n - 1) {
            rest
        } else {
            match rest {
                None => Some(n - 1),
                Some(b) => if ranks_before(counts, n - 1, b) {
                    Some(n - 1)
                } else {
                    rest
                },
            }
        }
    }
}

/// The `k` best-ranked windows with a positive overlap, best first; fewer if
/// there are not as many.
pub open spec fn ranked(counts: Seq<nat>, k: nat) -> Seq<int>
    decreases k,
{
    if k == 0 {
        Seq::empty()
    } else {
        let head = ranked(counts, (k - 1) as nat);
        if head.len() < k - 1 {
            head
        } else {
            let prev = if head.len() == 0 {
                None
            } else {
                Some(head.last())
            };
            match best_after(counts, prev, counts.len() as int) {
                Some(i) => head.push(i),
                None => head,
            }
        }
    }
}

/// The windows that a query is aligned against: the `k` best-ranked, or, if
/// no window has any overlap, the first `k` windows.
pub open spec fn candidates(counts: Seq<nat>, k: nat) -> Seq<int> {
    let best = ranked(counts, k);
    if best.len() > 0 {
        best
    } else {
        Seq::new(
            if k < counts.len() {
                k
            } else {
                counts.len()
            },
            |i: int| i,
        )
    }
}

/// The score that candidates still to come have to beat.
pub open spec fn bound_of(best: Option<(Alignment, int)>) -> int {
    match best {
        Some(b) => if b.0.score > 0 {
            b.0.score
        } else {
            0
        },
        None => 0,
    }
}

/// The best alignment among the candidates, with the window it was found
/// in. Candidates are aligned in order, each against the best score found
/// before it; a later candidate replaces an earlier one only with a strictly
/// larger score.
pub open spec fn evaluate(windows: Seq<WindowModel>, q: Seq<Seq<char>>, ids: Seq<int>) -> Option<(Alignment, int)>
    decreases ids.len(),
{
    if ids.len() == 0 {
        None
    } else {
        let before = evaluate(windows, q, ids.drop_last());
        let id = ids.last();
        let found = align_spec(q, windows[id].tokens, bound_of(before));
        match before {
            Some(b) => if found.score > b.0.score {
                Some((found, id))
            } else {
                before
            },
            None => Some((found, id)),
        }
    }
}

/// What a query for `snippet` returns in state `state`.
pub open spec fn query_spec(state: LocatorModel, snippet: Seq<char>) -> Option<QueryModel> {
    let q = tokenize_spec(snippet);
    if state.windows.len() == 0 || q.len() == 0 {
        None
    } else {
        let counts = overlap_counts(state.index, q, state.windows.len());
        match evaluate(state.windows, q, candidates(counts, DEFAULT_TOP_K as nat)) {
            None => None,
            Some(best) => {
                let found = best.0;
                let window = state.windows[best.1];
                let start = window.start + found.start;
                let end = window.start + found.end;
                if found.score <= 0 || start >= state.words.len() || end >= state.words.len()
                    || start > end {
                    None
                } else {
                    Some(
                        QueryModel {
                            window_id: best.1,
                            start_word_index: start,
                            end_word_index: end,
                            matched_text: join_words(state.words.subrange(start, end + 1)),
                            alignment_score: found.score,
                            confidence: Fraction { num: found.score, den: 2 * (q.len() as int) },
                        },
                    )
                }
            },
        }
    }
}

/// The counts as natural numbers.
pub open spec fn count_values(counts: Seq<u128>) -> Seq<nat> {
    Seq::new(counts.len(), |i: int| counts[i] as nat)
}

/// The window positions as integers.
pub open spec fn positions(ids: Seq<usize>) -> Seq<int> {
    Seq::new(ids.len(), |i: int| ids[i] as int)
}

/// An optional window position as an integer.
pub open spec fn position(id: Option<usize>) -> Option<int> {
    match id {
        Some(i) => Some(i as int),
        None => None,
    }
}

/// Counts, for every window, how often the index lists it under the
/// shingles of `tokens`.
pub fn count_overlaps(index: &ShingleIndex, tokens: &Vec<String>, window_count: usize) -> (counts:
    Vec<u128>)
    requires
        index.wf(),
    ensures
        count_values(counts@) == overlap_counts(
            index@,
            token_views(tokens@),
            window_count as nat,
        ),
{
    let ghost q = token_views(tokens@);
    let mut counts: Vec<u128> = Vec::new();
    while counts.len() < window_count
        invariant
            counts.len() <= window_count,
            forall|id: int| 0 <= id < counts.len() ==> #[trigger] counts[id] == 0,
        decreases window_count - counts.len(),
    {
        counts.push(0);
    }
    let mut t: usize = 0;
    while tokens.len() >= SHINGLE_SIZE && t <= tokens.len() - SHINGLE_SIZE
        invariant
            index.wf(),
            q == token_views(tokens@),
            counts.len() == window_count,
            0 <= t <= shingle_count(q),
            forall|id: int|
                0 <= id < window_count ==> #[trigger] counts[id] == overlap(
                    index@,
                    q,
                    t as int,
                    id,
                ),
            forall|id: int|
                0 <= id < window_count ==> #[trigger] counts[id] <= t * 0xffff_ffff_ffff_ffff,
        decreases tokens.len() - t,
    {
        let key = join_tokens(tokens, t, t + SHINGLE_SIZE);
        assert(key@ == shingle_at(q, t as int));
        match index.get(&key) {
            Some(ids) => {
                assert(postings(index@, key@) == ids@);
                let mut p: usize = 0;
                while p < ids.len()
                    invariant
                        p <= ids.len(),
                        counts.len() == window_count,
                        t < 0xffff_ffff_ffff_ffff,
                        forall|id: int|
                            0 <= id < window_count ==> #[trigger] counts[id] == overlap(
                                index@,
                                q,
                                t as int,
                                id,
                            ) + occurrences(ids@.take(p as int), id),
                        forall|id: int|
                            0 <= id < window_count ==> #[trigger] counts[id] <= t
                                * 0xffff_ffff_ffff_ffff + p,
                    decreases ids.len() - p,
                {
                    let id: usize = ids[p];
                    proof {
                        let upto = ids@.take(p + 1);
                        assert(upto.drop_last() =~= ids@.take(p as int));
                        assert(upto.last() == id);
                    }
                    if id < window_count {
                        counts[id] = counts[id] + 1;
                    }
                    p = p + 1;
                }
                assert(ids@.take(ids.len() as int) =~= ids@);
            },
            None => {
                assert(postings(index@, key@).len() == 0);
            },
        }
        t = t + 1;
    }
    proof {
        assert(t == shingle_count(q));
        assert(count_values(counts@) =~= overlap_counts(index@, q, window_count as nat));
    }
    counts
}

/// The best-ranked window with a positive count that ranks after `prev`.
fn best_ranked_after(counts: &Vec<u128>, prev: Option<usize>) -> (best: Option<usize>)
    requires
        prev is Some ==> prev.unwrap() < counts.len(),
    ensures
        position(best) == best_after(count_values(counts@), position(prev), counts.len() as int),
        best is Some ==> best.unwrap() < counts.len(),
{
    let ghost values = count_values(counts@);
    let mut best: Option<usize> = None;
    let mut i: usize = 0;
    while i < counts.len()
        invariant
            i <= counts.len(),
            values == count_values(counts@),
            prev is Some ==> prev.unwrap() < counts.len(),
            position(best) == best_after(values, position(prev), i as int),
            best is Some ==> best.unwrap() < i,
        decreases counts.len() - i,
    {
        let count: u128 = counts[i];
        let after_prev: bool = match prev {
            Some(p) => counts[p] > count || (counts[p] == count && p < i),
            None => true,
        };
        if count > 0 && after_prev {
            match best {
                Some(b) => {
                    if count > counts[b] || (count == counts[b] && i < b) {
                        best = Some(i);
                    }
                },
                None => {
                    best = Some(i);
                },
            }
        }
        i = i + 1;
    }
    best
}

/// The `k` best-ranked windows with a positive count, best first.
pub fn rank_windows(counts: &Vec<u128>, k: usize) -> (best: Vec<usize>)
    ensures
        positions(best@) == ranked(count_values(counts@), k as nat),
        forall|i: int| 0 <= i < best.len() ==> (#[trigger] best[i]) < counts.len(),
{
    let ghost values = count_values(counts@);
    let mut best: Vec<usize> = Vec::new();
    let mut rounds: usize = 0;
    let mut prev: Option<usize> = None;
    assert(positions(best@) =~= ranked(values, 0));
    while rounds < k && best.len() == rounds
        invariant
            rounds <= k,
            values == count_values(counts@),
            best.len() <= rounds,
            positions(best@) == ranked(values, rounds as nat),
            forall|i: int| 0 <= i < best.len() ==> (#[trigger] best[i]) < counts.len(),
            prev == if best.len() == 0 {
                None
            } else {
                Some(best[best.len() - 1])
            },
        decreases k - rounds,
    {
        let ghost head = positions(best@);
        assert(position(prev) == if head.len() == 0 {
            None
        } else {
            Some(head.last())
        });
        match best_ranked_after(counts, prev) {
            Some(i) => {
                best.push(i);
                prev = Some(i);
                assert(positions(best@) =~= head.push(i as int));
            },
            None => {},
        }
        rounds = rounds + 1;
    }
    proof {
        lemma_ranked_settles(values, rounds as nat, k as nat);
    }
    best
}

/// Once a round finds no further window, later rounds find none either.
pub proof fn lemma_ranked_settles(counts: Seq<nat>, rounds: nat, k: nat)
    requires
        rounds <= k,
        ranked(counts, rounds).len() < rounds || rounds == k,
    ensures
        ranked(counts, k) == ranked(counts, rounds),
    decreases k - rounds,
{
    if rounds < k {
        lemma_ranked_settles(counts, rounds, (k - 1) as nat);
    }
}

/// The windows to align a query against.
pub fn select_candidates(counts: &Vec<u128>, k: usize) -> (ids: Vec<usize>)
    ensures
        positions(ids@) == candidates(count_values(counts@), k as nat),
        forall|i: int| 0 <= i < ids.len() ==> (#[trigger] ids[i]) < counts.len(),
{
    let best = rank_windows(counts, k);
    if best.len() > 0 {
        return best;
    }
    let limit: usize = if k < counts.len() {
        k
    } else {
        counts.len()
    };
    let mut ids: Vec<usize> = Vec::new();
    while ids.len() < limit
        invariant
            ids.len() <= limit <= counts.len(),
            forall|i: int| 0 <= i < ids.len() ==> (#[trigger] ids[i]) == i,
        decreases limit - ids.len(),
    {
        let next: usize = ids.len();
        ids.push(next);
    }
    assert(count_values(counts@).len() == counts.len());
    assert(positions(ids@) =~= candidates(count_values(counts@), k as nat));
    ids
}

/// The value of an optional best alignment.
pub open spec fn best_view(best: Option<(AlignmentResult, usize)>) -> Option<(Alignment, int)> {
    match best {
        Some(b) => Some((b.0@, b.1 as int)),
        None => None,
    }
}

/// Aligns the transcript against the candidate windows in order and keeps
/// the best alignment.
pub fn evaluate_candidates(windows: &Vec<Window>, tokens: &Vec<String>, ids: &Vec<usize>) -> (best:
    Option<(AlignmentResult, usize)>)
    requires
        forall|i: int| 0 <= i < ids.len() ==> (#[trigger] ids[i]) < windows.len(),
    ensures
        best_view(best) == evaluate(window_views(windows@), token_views(tokens@), positions(ids@)),
        best is Some ==> best.unwrap().1 < windows.len(),
{
    let ghost all = window_views(windows@);
    let ghost q = token_views(tokens@);
    let mut best: Option<(AlignmentResult, usize)> = None;
    let mut c: usize = 0;
    while c < ids.len()
        invariant
            c <= ids.len(),
            all == window_views(windows@),
            q == token_views(tokens@),
            forall|i: int| 0 <= i < ids.len() ==> (#[trigger] ids[i]) < windows.len(),
            best_view(best) == evaluate(all, q, positions(ids@).take(c as int)),
            best is Some ==> best.unwrap().1 < windows.len(),
        decreases ids.len() - c,
    {
        let id: usize = ids[c];
        proof {
            let upto = positions(ids@).take(c + 1);
            assert(upto.drop_last() =~= positions(ids@).take(c as int));
            assert(upto.last() == id);
            assert(all[id as int].tokens == token_views(windows[id as int].tokens@));
        }
        let bound: i128 = match best {
            Some(b) => if b.0.alignment_score > 0 {
                b.0.alignment_score
            } else {
                0
            },
            None => 0,
        };
        let found = smith_waterman_align(tokens, &windows[id].tokens, bound);
        let better: bool = match best {
            Some(b) => found.alignment_score > b.0.alignment_score,
            None => true,
        };
        if better {
            best = Some((found, id));
        }
        c = c + 1;
    }
    assert(positions(ids@).take(ids.len() as int) =~= positions(ids@));
    best
}

/// Everything a locator holds, as plain values: what is written out to
/// keep an index from one session to the next.
#[derive(Debug)]
pub struct TextLocatorState {
    /// All tokens of the indexed text.
    pub words: Vec<String>,
    /// The windows over the words.
    pub windows: Vec<Window>,
    /// The inverted index, one entry for each shingle.
    pub inverted_index: Vec<IndexEntry>,
    /// Words per window.
    pub window_size_words: usize,
    /// Words between the starts of consecutive windows.
    pub step_size_words: usize,
}

/// The state that a snapshot describes.
pub open spec fn state_model(snapshot: TextLocatorState) -> LocatorModel {
    LocatorModel {
        words: token_views(snapshot.words@),
        windows: window_views(snapshot.windows@),
        index: entries_map(snapshot.inverted_index@),
        window_size: snapshot.window_size_words as nat,
        step_size: snapshot.step_size_words as nat,
    }
}

/// The state of the locator that is restored from a snapshot: what the
/// snapshot describes, or the state of a new locator if its window or step
/// size is zero.
pub open spec fn restored_model(snapshot: TextLocatorState) -> LocatorModel {
    if snapshot.window_size_words >= 1 && snapshot.step_size_words >= 1 {
        state_model(snapshot)
    } else {
        empty_model(DEFAULT_WINDOW_SIZE_WORDS as nat, DEFAULT_STEP_SIZE_WORDS as nat)
    }
}

/// Copies a list of windows.
pub fn copy_windows(windows: &Vec<Window>) -> (out: Vec<Window>)
    ensures
        window_views(out@) == window_views(windows@),
{
    let mut out: Vec<Window> = Vec::new();
    let mut k: usize = 0;
    while k < windows.len()
        invariant
            k <= windows.len(),
            out.len() == k,
            forall|j: int| 0 <= j < k ==> (#[trigger] out[j])@ == windows[j]@,
        decreases windows.len() - k,
    {
        let window = &windows[k];
        let tokens = copy_tokens(&window.tokens, 0, window.tokens.len());
        assert(token_views(window.tokens@).subrange(0, window.tokens.len() as int) =~= token_views(
            window.tokens@,
        ));
        out.push(
            Window {
                id: window.id,
                start_word_index: window.start_word_index,
                end_word_index: window.end_word_index,
                tokens,
            },
        );
        k = k + 1;
    }
    assert(window_views(out@) =~= window_views(windows@));
    out
}

/// Locates transcript snippets in an indexed text.
#[derive(Debug)]
pub struct TextLocator {
    words: Vec<String>,
    windows: Vec<Window>,
    index: ShingleIndex,
    window_size_words: usize,
    step_size_words: usize,
}

impl View for TextLocator {
    type V = LocatorModel;

    closed spec fn view(&self) -> LocatorModel {
        LocatorModel {
            words: token_views(self.words@),
            windows: window_views(self.windows@),
            index: self.index@,
            window_size: self.window_size_words as nat,
            step_size: self.step_size_words as nat,
        }
    }
}

impl TextLocator {
    #[verifier::type_invariant]
    spec fn well_formed(&self) -> bool {
        &&& self.index.wf()
        &&& self.window_size_words >= 1
        &&& self.step_size_words >= 1
    }

    /// A locator with the default window and step sizes that has indexed
    /// nothing yet.
    pub fn new() -> (locator: TextLocator)
        ensures
            locator@ == empty_model(
                DEFAULT_WINDOW_SIZE_WORDS as nat,
                DEFAULT_STEP_SIZE_WORDS as nat,
            ),
    {
        let locator = TextLocator {
            words: Vec::new(),
            windows: Vec::new(),
            index: ShingleIndex::new(1),
            window_size_words: DEFAULT_WINDOW_SIZE_WORDS,
            step_size_words: DEFAULT_STEP_SIZE_WORDS,
        };
        assert(token_views(locator.words@) =~= Seq::<Seq<char>>::empty());
        assert(window_views(locator.windows@) =~= Seq::<WindowModel>::empty());
        locator
    }

    /// A locator with the given window and step sizes that has indexed
    /// nothing yet; none if either size is zero.
    pub fn with_parameters(window_size_words: usize, step_size_words: usize) -> (locator: Option<
        TextLocator,
    >)
        ensures
            locator is Some <==> window_size_words >= 1 && step_size_words >= 1,
            locator is Some ==> locator.unwrap()@ == empty_model(
                window_size_words as nat,
                step_size_words as nat,
            ),
    {
        if window_size_words == 0 || step_size_words == 0 {
            return None;
        }
        let locator = TextLocator {
            words: Vec::new(),
            windows: Vec::new(),
            index: ShingleIndex::new(1),
            window_size_words,
            step_size_words,
        };
        assert(token_views(locator.words@) =~= Seq::<Seq<char>>::empty());
        assert(window_views(locator.windows@) =~= Seq::<WindowModel>::empty());
        Some(locator)
    }

    /// A snapshot of everything the locator holds.
    pub fn state(&self) -> (snapshot: TextLocatorState)
        ensures
            state_model(snapshot) == self@,
            restored_model(snapshot) == self@,
    {
        proof {
            use_type_invariant(self);
        }
        let words = copy_tokens(&self.words, 0, self.words.len());
        assert(token_views(self.words@).subrange(0, self.words.len() as int) =~= token_views(
            self.words@,
        ));
        TextLocatorState {
            words,
            windows: copy_windows(&self.windows),
            inverted_index: self.index.entries(),
            window_size_words: self.window_size_words,
            step_size_words: self.step_size_words,
        }
    }

    /// The locator that a snapshot describes. A snapshot whose window or
    /// step size is zero describes none: it gives a new locator.
    pub fn from_state(snapshot: TextLocatorState) -> (locator: TextLocator)
        ensures
            locator@ == restored_model(snapshot),
    {
        if snapshot.window_size_words == 0 || snapshot.step_size_words == 0 {
            return TextLocator::new();
        }
        let bucket_count: usize = if snapshot.inverted_index.len() < MAX_INDEX_BUCKETS {
            snapshot.inverted_index.len()
        } else {
            MAX_INDEX_BUCKETS
        };
        let index = ShingleIndex::from_entries(&snapshot.inverted_index, bucket_count);
        TextLocator {
            words: snapshot.words,
            windows: snapshot.windows,
            index,
            window_size_words: snapshot.window_size_words,
            step_size_words: snapshot.step_size_words,
        }
    }

    /// Indexes `book_text` in place of whatever was indexed before: its
    /// tokens become the words, cut into windows of the locator's window
    /// size that begin a step apart, and every shingle of every window is
    /// listed in the inverted index.
    pub fn preprocess(&mut self, book_text: &str)
        ensures
            final(self)@ == build_model(
                tokenize_spec(book_text@),
                old(self)@.window_size,
                old(self)@.step_size,
            ),
            windows_match_words(final(self)@.words, final(self)@.windows),
    {
        proof {
            use_type_invariant(&*self);
            lemma_built_windows_match(
                tokenize_spec(book_text@),
                self.window_size_words as nat,
                self.step_size_words as nat,
            );
        }
        let words = tokenize(book_text);
        let windows = build_windows(&words, self.window_size_words, self.step_size_words);
        let bucket_count: usize = if words.len() < MAX_INDEX_BUCKETS {
            words.len()
        } else {
            MAX_INDEX_BUCKETS
        };
        let index = build_index(&windows, bucket_count);
        self.words = words;
        self.windows = windows;
        self.index = index;
    }

    /// Finds where `transcript_snippet` falls in the indexed text. The
    /// snippet is tokenised, the windows that share most shingles with it
    /// are aligned against it, and the best alignment is handed back in
    /// word indices of the text. None if nothing is indexed, the snippet
    /// has no tokens, or no window aligns with a positive score.
    pub fn query(&self, transcript_snippet: &str) -> (result: Option<QueryResult>)
        ensures
            query_view(result) == query_spec(self@, transcript_snippet@),
            result is Some ==> result.unwrap()@.confidence.is_unit(),
    {
        proof {
            use_type_invariant(self);
            lemma_confidence_is_unit(self@, transcript_snippet@);
        }
        if self.windows.len() == 0 {
            assert(window_views(self.windows@).len() == 0);
            return None;
        }
        let tokens = tokenize(transcript_snippet);
        if tokens.len() == 0 {
            assert(token_views(tokens@).len() == 0);
            return None;
        }
        let ghost q = token_views(tokens@);
        let ghost state = self@;
        assert(state.windows.len() == self.windows.len());
        assert(q.len() == tokens.len());
        let counts = count_overlaps(&self.index, &tokens, self.windows.len());
        let ids = select_candidates(&counts, DEFAULT_TOP_K);
        assert(counts.len() == self.windows.len()) by {
            assert(count_values(counts@).len() == counts.len());
        }
        match evaluate_candidates(&self.windows, &tokens, &ids) {
            None => None,
            Some(best) => {
                let found = best.0;
                let id: usize = best.1;
                if found.alignment_score <= 0 {
                    return None;
                }
                let window = &self.windows[id];
                assert(state.windows[id as int] == window@);
                assert(state.words.len() == self.words.len());
                let start: usize = match window.start_word_index.checked_add(
                    found.start_index_in_window,
                ) {
                    Some(s) => s,
                    None => {
                        return None;
                    },
                };
                let end: usize = match window.start_word_index.checked_add(
                    found.end_index_in_window,
                ) {
                    Some(e) => e,
                    None => {
                        return None;
                    },
                };
                if start >= self.words.len() || end >= self.words.len() || start > end {
                    return None;
                }
                let matched_text = join_tokens(&self.words, start, end + 1);
                let token_count: u128 = tokens.len() as u128;
                Some(
                    QueryResult {
                        window_id: id,
                        start_word_index: start,
                        end_word_index: end,
                        matched_text,
                        alignment_score: found.alignment_score,
                        confidence: Ratio {
                            num: found.alignment_score as u128,
                            den: 2 * token_count,
                        },
                    },
                )
            },
        }
    }
}

impl Default for TextLocator {
    /// A new locator, as [`TextLocator::new`] gives it.
    fn default() -> (locator: TextLocator)
        ensures
            locator@ == empty_model(
                DEFAULT_WINDOW_SIZE_WORDS as nat,
                DEFAULT_STEP_SIZE_WORDS as nat,
            ),
    {
        TextLocator::new()
    }
}

} // verus!
