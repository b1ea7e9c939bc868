//! Similarity measures on words and texts: character distance, shared
//! n-grams, containment, and alignment of tokens. Every measure that is a
//! quotient is handed out as an exact [`Ratio`].

use vstd::prelude::*;
use crate::align::{align_spec, smith_waterman_align};
use crate::alignment_laws::lemma_alignment_shape;
use crate::edit_distance::{edit_distance, lemma_edit_distance_bounds, levenshtein_chars};
use crate::ratio::{product_le, Fraction, Ratio};
use crate::text::{
    chars_of, is_whitespace_char, join_tokens, join_words, lowercase_of, normalize_spec,
    normalize_text, split_text, split_words, string_from_chars, token_views, tokenize,
    tokenize_spec,
};

verus! {

/// Weight of the word-level similarity in the combined similarity, in
/// thousandths.
pub const WEIGHT_WORD_LEVEL: u128 = 500;

/// Weight of the similarity of 3-grams, in thousandths.
pub const WEIGHT_NGRAM_3: u128 = 150;

/// Weight of the similarity of 2-grams, in thousandths.
pub const WEIGHT_NGRAM_2: u128 = 150;

/// Weight of the similarity of 4-grams, in thousandths.
pub const WEIGHT_NGRAM_4: u128 = 100;

/// Weight of the character similarity, in thousandths.
pub const WEIGHT_CHARACTERS: u128 = 50;

/// Weight of the containment score, in thousandths. The containment score
/// is one half if one text contains the other, and zero if not.
pub const WEIGHT_CONTAINMENT: u128 = 50;

/// Number of bytes that the UTF-8 form of `s` takes, as `str::len` counts
/// them.
pub open spec fn byte_len(s: Seq<char>) -> usize {
    vstd::utf8::encode_utf8(s).len() as usize
}

/// The edit distance of `a` and `b` in lower case, as a fraction of the
/// longer length; zero if both are empty.
pub open spec fn string_similarity_spec(a: Seq<char>, b: Seq<char>) -> Fraction {
    let s1 = lowercase_of(a);
    let s2 = lowercase_of(b);
    let longer = if s1.len() > s2.len() {
        s1.len()
    } else {
        s2.len()
    };
    if longer == 0 {
        Fraction { num: 0, den: 1 }
    } else {
        Fraction { num: edit_distance(s1, s2) as int, den: longer as int }
    }
}

/// One minus [`string_similarity_spec`]: the share of characters that need
/// no edit.
pub open spec fn closeness_spec(a: Seq<char>, b: Seq<char>) -> Fraction {
    string_similarity_spec(a, b).complement()
}

/// Whether `needle` occurs in `hay` as a contiguous stretch.
pub open spec fn is_substring(hay: Seq<char>, needle: Seq<char>) -> bool {
    exists|i: int|
        0 <= i && i + needle.len() <= hay.len() && #[trigger] hay.subrange(i, i + needle.len())
            == needle
}

/// `s` without its whitespace characters.
pub open spec fn strip_whitespace_spec(s: Seq<char>) -> Seq<char>
    decreases s.len(),
{
    if s.len() == 0 {
        Seq::empty()
    } else if is_whitespace_char(s.last()) {
        strip_whitespace_spec(s.drop_last())
    } else {
        strip_whitespace_spec(s.drop_last()).push(s.last())
    }
}

/// `c` put into the ascending sequence `s`, after the characters that are
/// not larger.
pub open spec fn insert_sorted(s: Seq<char>, c: char) -> Seq<char>
    decreases s.len(),
{
    if s.len() == 0 {
        seq![c]
    } else if s.last() <= c {
        s.push(c)
    } else {
        insert_sorted(s.drop_last(), c).push(s.last())
    }
}

/// The characters of `s` in ascending order.
pub open spec fn sort_chars(s: Seq<char>) -> Seq<char>
    decreases s.len(),
{
    if s.len() == 0 {
        Seq::empty()
    } else {
        insert_sorted(sort_chars(s.drop_last()), s.last())
    }
}

/// Number of n-grams of `n` words in `words`.
pub open spec fn ngram_count(words: Seq<Seq<char>>, n: nat) -> nat {
    if n == 0 || words.len() < n {
        0
    } else {
        (words.len() - n + 1) as nat
    }
}

/// The n-grams of `words`: every run of `n` words, joined by spaces.
pub open spec fn ngrams(words: Seq<Seq<char>>, n: nat) -> Seq<Seq<char>> {
    Seq::new(ngram_count(words, n), |i: int| join_words(words.subrange(i, i + n)))
}

/// The set of n-grams of the words of `text`.
pub open spec fn ngram_set(text: Seq<char>, n: nat) -> Set<Seq<char>> {
    ngrams(split_words(text), n).to_set()
}

/// The Jaccard similarity of two sets: the size of their intersection as a
/// fraction of the size of their union; zero if both are empty.
pub open spec fn jaccard(a: Set<Seq<char>>, b: Set<Seq<char>>) -> Fraction {
    if a.union(b).len() == 0 {
        Fraction { num: 0, den: 1 }
    } else {
        Fraction { num: a.intersect(b).len() as int, den: a.union(b).len() as int }
    }
}

/// Whether two words count as similar under `threshold`: they are equal, or
/// their closeness reaches the threshold, or the longer contains the
/// shorter and the shorter takes three bytes at least.
pub open spec fn are_words_similar_spec(a: Seq<char>, b: Seq<char>, threshold: Fraction) -> bool {
    let longer = if byte_len(a) > byte_len(b) {
        a
    } else {
        b
    };
    let shorter = if byte_len(a) > byte_len(b) {
        b
    } else {
        a
    };
    a == b || threshold.le(closeness_spec(a, b)) || (is_substring(longer, shorter) && byte_len(
        shorter,
    ) >= 3)
}

/// Whether the fraction `f` exceeds `num / den`.
pub open spec fn exceeds(f: Fraction, num: int, den: int) -> bool {
    f.num * den > num * f.den
}

/// The similarity of a word to a phrase. The first of these that applies:
/// one, if their normal forms are equal; the closeness of the word to the
/// phrase without its spaces, if above 3/4; the closeness of the word
/// without spaces to the phrase, if above 3/4; the closeness of the two
/// normal forms, if above 7/10; nine tenths of the closeness of their
/// sorted characters, if that closeness is above 4/5 and their lengths in
/// bytes differ by two at most; else the closeness of the two normal forms.
pub open spec fn word_to_phrase_spec(word: Seq<char>, phrase: Seq<char>) -> Fraction {
    let w = normalize_spec(word);
    let p = normalize_spec(phrase);
    let w_bare = strip_whitespace_spec(w);
    let p_bare = strip_whitespace_spec(p);
    let direct = closeness_spec(w, p_bare);
    let reverse = closeness_spec(w_bare, p);
    let plain = closeness_spec(w, p);
    let sorted = closeness_spec(sort_chars(w_bare), sort_chars(p_bare));
    if w == p {
        Fraction { num: 1, den: 1 }
    } else if exceeds(direct, 3, 4) {
        direct
    } else if exceeds(reverse, 3, 4) {
        reverse
    } else if exceeds(plain, 7, 10) {
        plain
    } else if exceeds(sorted, 4, 5) && byte_len(w_bare) - byte_len(p_bare) <= 2 && byte_len(p_bare)
        - byte_len(w_bare) <= 2 {
        Fraction { num: 9 * sorted.num, den: 10 * sorted.den }
    } else {
        plain
    }
}

/// The score of the best alignment of the transcript tokens with the chunk
/// tokens, as a fraction of two points a transcript token; zero for an
/// empty transcript.
pub open spec fn alignment_similarity_spec(transcript: Seq<Seq<char>>, chunk: Seq<Seq<char>>) -> Fraction {
    if transcript.len() == 0 {
        Fraction { num: 0, den: 1 }
    } else {
        Fraction { num: align_spec(transcript, chunk, 0).score, den: 2 * (transcript.len() as int) }
    }
}

/// The word-level similarity of two texts: the alignment similarity of
/// their tokens.
pub open spec fn word_level_spec(transcript: Seq<char>, chunk: Seq<char>) -> Fraction {
    alignment_similarity_spec(tokenize_spec(transcript), tokenize_spec(chunk))
}

/// The measures that make up the combined similarity of two texts.
#[derive(Clone, Copy, Debug)]
pub struct CombinedSimilarity {
    /// Word-level similarity of the normal forms.
    pub word_level: Ratio,
    /// Jaccard similarity of their 2-grams.
    pub ngram_2: Ratio,
    /// Jaccard similarity of their 3-grams.
    pub ngram_3: Ratio,
    /// Jaccard similarity of their 4-grams.
    pub ngram_4: Ratio,
    /// Closeness of their characters.
    pub characters: Ratio,
    /// Whether one normal form contains the other.
    pub contained: bool,
}

/// The combined similarity of two texts, measure by measure, in
/// mathematical values.
pub struct CombinedModel {
    pub word_level: Fraction,
    pub ngram_2: Fraction,
    pub ngram_3: Fraction,
    pub ngram_4: Fraction,
    pub characters: Fraction,
    pub contained: bool,
}

impl View for CombinedSimilarity {
    type V = CombinedModel;

    open spec fn view(&self) -> CombinedModel {
        CombinedModel {
            word_level: self.word_level@,
            ngram_2: self.ngram_2@,
            ngram_3: self.ngram_3@,
            ngram_4: self.ngram_4@,
            characters: self.characters@,
            contained: self.contained,
        }
    }
}

impl CombinedModel {
    /// Whether every measure is a fraction of one.
    pub open spec fn wf(self) -> bool {
        &&& self.word_level.is_unit()
        &&& self.ngram_2.is_unit()
        &&& self.ngram_3.is_unit()
        &&& self.ngram_4.is_unit()
        &&& self.characters.is_unit()
    }
}

/// The sum `acc` with `weight` times `measure` added, over the product of
/// the two denominators.
pub open spec fn add_measure(acc: Fraction, weight: int, measure: Fraction) -> Fraction {
    Fraction {
        num: acc.num * measure.den + weight * measure.num * acc.den,
        den: acc.den * measure.den,
    }
}

/// The weighted sum of the measures in thousandths: half the weight of the
/// containment if one text contains the other, and every other measure times
/// its weight.
pub open spec fn weighted_thousandths(m: CombinedModel) -> Fraction {
    let start = Fraction {
        num: if m.contained {
            WEIGHT_CONTAINMENT as int / 2
        } else {
            0
        },
        den: 1,
    };
    add_measure(
        add_measure(
            add_measure(
                add_measure(
                    add_measure(start, WEIGHT_WORD_LEVEL as int, m.word_level),
                    WEIGHT_NGRAM_3 as int,
                    m.ngram_3,
                ),
                WEIGHT_NGRAM_2 as int,
                m.ngram_2,
            ),
            WEIGHT_NGRAM_4 as int,
            m.ngram_4,
        ),
        WEIGHT_CHARACTERS as int,
        m.characters,
    )
}

/// The combined similarity: the weighted sum of the measures, as one
/// fraction over the product of their denominators.
pub open spec fn combined_score_spec(m: CombinedModel) -> Fraction {
    Fraction { num: weighted_thousandths(m).num, den: 1000 * weighted_thousandths(m).den }
}

/// Adds `weight` times `measure` to `acc`, of which `used` bounds the
/// weights added so far. None if a thousand times the new denominator
/// does not fit.
fn add_weighted(acc: Ratio, used: u128, weight: u128, measure: Ratio) -> (sum: Option<Ratio>)
    requires
        measure@.is_unit(),
        acc.den >= 1,
        acc.num <= used * acc.den,
        used + weight <= 1000,
        1000 * acc.den <= u128::MAX,
    ensures
        match sum {
            Some(s) => {
                &&& s@ == add_measure(acc@, weight as int, measure@)
                &&& s.den >= 1
                &&& s.num <= (used + weight) * s.den
                &&& 1000 * s.den <= u128::MAX
            },
            None => 1000 * (acc.den * measure.den) > u128::MAX,
        },
{
    let den: u128 = match acc.den.checked_mul(measure.den) {
        Some(d) => d,
        None => {
            return None;
        },
    };
    if den.checked_mul(1000).is_none() {
        return None;
    }
    assert(acc.num * measure.den <= used * den && used * den <= 1000 * den && weight
        * measure.num <= 1000 * den && weight * measure.num * acc.den <= weight * den && weight
        * den <= 1000 * den && den >= 1) by (nonlinear_arith)
        requires
            acc.num <= used * acc.den,
            den == acc.den * measure.den,
            measure.num <= measure.den,
            measure.den >= 1,
            acc.den >= 1,
            used + weight <= 1000,
    ;
    let left: u128 = acc.num * measure.den;
    let scaled: u128 = weight * measure.num;
    let right: u128 = scaled * acc.den;
    assert(left + right <= (used + weight) * den && (used + weight) * den <= 1000 * den)
        by (nonlinear_arith)
        requires
            left <= used * den,
            right <= weight * den,
            used + weight <= 1000,
            den >= 1,
    ;
    Some(Ratio { num: left + right, den })
}

impl CombinedSimilarity {
    /// The combined similarity of the two texts: the weighted sum of the
    /// measures, as one exact fraction. None if the common denominator of
    /// the measures, times a thousand, does not fit in 128 bits.
    pub fn score(&self) -> (score: Option<Ratio>)
        requires
            self@.wf(),
        ensures
            match score {
                Some(s) => s@ == combined_score_spec(self@) && s@.is_unit(),
                None => combined_score_spec(self@).den > u128::MAX,
            },
    {
        let start = Ratio {
            num: if self.contained {
                WEIGHT_CONTAINMENT / 2
            } else {
                0
            },
            den: 1,
        };
        let ghost d1 = self.word_level.den as int;
        let ghost d2 = self.ngram_3.den as int;
        let ghost d3 = self.ngram_2.den as int;
        let ghost d4 = self.ngram_4.den as int;
        let ghost d5 = self.characters.den as int;
        let ghost e1 = 1 * d1;
        let ghost e2 = e1 * d2;
        let ghost e3 = e2 * d3;
        let ghost e4 = e3 * d4;
        let ghost e5 = e4 * d5;
        proof {
            // A denominator that does not fit at one step does not fit at
            // the end: the denominators still to come are one at least.
            assert(e1 >= 1 && e2 >= e1 && e3 >= e2 && e4 >= e3 && e5 >= e4) by (nonlinear_arith)
                requires
                    e1 == 1 * d1,
                    e2 == e1 * d2,
                    e3 == e2 * d3,
                    e4 == e3 * d4,
                    e5 == e4 * d5,
                    d1 >= 1,
                    d2 >= 1,
                    d3 >= 1,
                    d4 >= 1,
                    d5 >= 1,
            ;
            assert(combined_score_spec(self@).den == 1000 * e5);
        }
        let first = match add_weighted(start, WEIGHT_CONTAINMENT / 2, WEIGHT_WORD_LEVEL, self.word_level) {
            Some(s) => s,
            None => {
                return None;
            },
        };
        let second = match add_weighted(first, 525, WEIGHT_NGRAM_3, self.ngram_3) {
            Some(s) => s,
            None => {
                return None;
            },
        };
        let third = match add_weighted(second, 675, WEIGHT_NGRAM_2, self.ngram_2) {
            Some(s) => s,
            None => {
                return None;
            },
        };
        let fourth = match add_weighted(third, 825, WEIGHT_NGRAM_4, self.ngram_4) {
            Some(s) => s,
            None => {
                return None;
            },
        };
        let fifth = match add_weighted(fourth, 925, WEIGHT_CHARACTERS, self.characters) {
            Some(s) => s,
            None => {
                return None;
            },
        };
        Some(Ratio { num: fifth.num, den: 1000 * fifth.den })
    }
}

/// The measures of the combined similarity of two texts, each taken of
/// their normal forms.
pub open spec fn combined_spec(transcript: Seq<char>, chunk: Seq<char>) -> CombinedModel {
    let t = normalize_spec(transcript);
    let c = normalize_spec(chunk);
    CombinedModel {
        word_level: word_level_spec(t, c),
        ngram_2: jaccard(ngram_set(t, 2), ngram_set(c, 2)),
        ngram_3: jaccard(ngram_set(t, 3), ngram_set(c, 3)),
        ngram_4: jaccard(ngram_set(t, 4), ngram_set(c, 4)),
        characters: closeness_spec(t, c),
        contained: is_substring(c, t) || is_substring(t, c),
    }
}

/// Whether the characters of `s` stand in ascending order.
pub open spec fn is_ascending(s: Seq<char>) -> bool {
    forall|i: int, j: int| 0 <= i <= j < s.len() ==> s[i] <= s[j]
}

/// Putting a character into an ascending sequence leaves it ascending, and
/// adds that character and no other.
pub proof fn lemma_insert_sorted_ascending(s: Seq<char>, c: char)
    requires
        is_ascending(s),
    ensures
        is_ascending(insert_sorted(s, c)),
        insert_sorted(s, c).len() == s.len() + 1,
        insert_sorted(s, c).to_multiset() == s.to_multiset().insert(c),
        forall|i: int|
            0 <= i < insert_sorted(s, c).len() ==> insert_sorted(s, c)[i] == c || s.contains(
                #[trigger] insert_sorted(s, c)[i],
            ),
    decreases s.len(),
{
    let out = insert_sorted(s, c);
    if s.len() == 0 {
        vstd::seq_lib::to_multiset_build(s, c);
        assert(out =~= s.push(c));
    } else if s.last() <= c {
        vstd::seq_lib::to_multiset_build(s, c);
        assert forall|i: int| 0 <= i < out.len() implies out[i] == c || s.contains(
            #[trigger] out[i],
        ) by {
            if i < s.len() {
                assert(s[i] == out[i]);
            }
        }
    } else {
        let init = s.drop_last();
        let inner = insert_sorted(init, c);
        assert(is_ascending(init)) by {
            assert forall|i: int, j: int| 0 <= i <= j < init.len() implies init[i] <= init[j] by {
                assert(init[i] == s[i] && init[j] == s[j]);
            }
        }
        lemma_insert_sorted_ascending(init, c);
        vstd::seq_lib::to_multiset_build(inner, s.last());
        vstd::seq_lib::to_multiset_build(init, s.last());
        assert(init.push(s.last()) =~= s);
        assert(init.to_multiset().insert(c).insert(s.last()) =~= init.to_multiset().insert(
            s.last(),
        ).insert(c));
        assert forall|i: int| 0 <= i < out.len() implies out[i] == c || s.contains(
            #[trigger] out[i],
        ) by {
            if i < inner.len() {
                assert(out[i] == inner[i]);
                if inner[i] != c {
                    let k = choose|k: int| 0 <= k < init.len() && init[k] == inner[i];
                    assert(s[k] == inner[i]);
                }
            } else {
                assert(out[i] == s[s.len() - 1]);
            }
        }
        assert forall|i: int, j: int| 0 <= i <= j < out.len() implies out[i] <= out[j] by {
            if j < inner.len() {
                assert(out[i] == inner[i] && out[j] == inner[j]);
            } else if i < inner.len() {
                assert(out[i] == inner[i]);
                if inner[i] != c {
                    let k = choose|k: int| 0 <= k < init.len() && init[k] == inner[i];
                    assert(s[k] <= s[s.len() - 1]);
                }
            }
        }
    }
}

/// The sorted characters of a text stand in ascending order and are the
/// characters of the text, each as often as it occurs there.
pub proof fn lemma_sort_chars(s: Seq<char>)
    ensures
        is_ascending(sort_chars(s)),
        sort_chars(s).len() == s.len(),
        sort_chars(s).to_multiset() == s.to_multiset(),
    decreases s.len(),
{
    if s.len() == 0 {
        assert(sort_chars(s) =~= s);
    } else {
        let init = s.drop_last();
        lemma_sort_chars(init);
        lemma_insert_sorted_ascending(sort_chars(init), s.last());
        vstd::seq_lib::to_multiset_build(init, s.last());
        assert(init.push(s.last()) =~= s);
    }
}

/// The similarity of a word to a phrase is a fraction of one.
pub proof fn lemma_word_to_phrase_is_unit(word: Seq<char>, phrase: Seq<char>)
    ensures
        word_to_phrase_spec(word, phrase).is_unit(),
{
    let w = normalize_spec(word);
    let p = normalize_spec(phrase);
    let w_bare = strip_whitespace_spec(w);
    let p_bare = strip_whitespace_spec(p);
    lemma_string_similarity_is_unit(w, p_bare);
    lemma_string_similarity_is_unit(w_bare, p);
    lemma_string_similarity_is_unit(w, p);
    lemma_string_similarity_is_unit(sort_chars(w_bare), sort_chars(p_bare));
}

/// The Jaccard similarity does not depend on the order of the two sets.
pub proof fn lemma_jaccard_symmetric(a: Set<Seq<char>>, b: Set<Seq<char>>)
    ensures
        jaccard(a, b) == jaccard(b, a),
{
    assert(a.union(b) =~= b.union(a));
    assert(a.intersect(b) =~= b.intersect(a));
}

/// The string similarity is a fraction of one.
pub proof fn lemma_string_similarity_is_unit(a: Seq<char>, b: Seq<char>)
    ensures
        string_similarity_spec(a, b).is_unit(),
        closeness_spec(a, b).is_unit(),
{
    lemma_edit_distance_bounds(lowercase_of(a), lowercase_of(b));
}

/// The distance of two strings in lower case as a fraction of the longer
/// length, counted in characters: zero for strings that differ in case
/// only, one for strings that share nothing. Zero if both are empty.
pub fn string_similarity(str1: &str, str2: &str) -> (similarity: Ratio)
    ensures
        similarity@ == string_similarity_spec(str1@, str2@),
        similarity@.is_unit(),
        similarity.den <= usize::MAX,
{
    let s1 = str1.to_lowercase();
    let s2 = str2.to_lowercase();
    let c1 = chars_of(s1.as_str());
    let c2 = chars_of(s2.as_str());
    let longer: usize = if c1.len() > c2.len() {
        c1.len()
    } else {
        c2.len()
    };
    proof {
        lemma_string_similarity_is_unit(str1@, str2@);
    }
    if longer == 0 {
        return Ratio { num: 0, den: 1 };
    }
    let distance: usize = levenshtein_chars(&c1, &c2);
    Ratio { num: distance as u128, den: longer as u128 }
}

/// One minus the string similarity.
pub fn closeness(str1: &str, str2: &str) -> (r: Ratio)
    ensures
        r@ == closeness_spec(str1@, str2@),
        r@.is_unit(),
        r.den <= usize::MAX,
{
    let similarity = string_similarity(str1, str2);
    Ratio { num: similarity.den - similarity.num, den: similarity.den }
}

/// Whether two character vectors hold the same characters.
pub fn chars_equal(a: &Vec<char>, b: &Vec<char>) -> (equal: bool)
    ensures
        equal == (a@ == b@),
{
    if a.len() != b.len() {
        return false;
    }
    let mut i: usize = 0;
    while i < a.len()
        invariant
            i <= a.len(),
            a.len() == b.len(),
            forall|k: int| 0 <= k < i ==> a[k] == b[k],
        decreases a.len() - i,
    {
        if a[i] != b[i] {
            return false;
        }
        i = i + 1;
    }
    assert(a@ =~= b@);
    true
}

/// Whether `needle` stands in `hay` at position `at`.
fn matches_at(hay: &Vec<char>, needle: &Vec<char>, at: usize) -> (equal: bool)
    requires
        at + needle.len() <= hay.len(),
    ensures
        equal == (hay@.subrange(at as int, at + needle.len()) == needle@),
{
    let ghost stretch = hay@.subrange(at as int, at + needle.len());
    let mut i: usize = 0;
    while i < needle.len()
        invariant
            i <= needle.len(),
            at + needle.len() <= hay.len(),
            stretch == hay@.subrange(at as int, at + needle.len()),
            forall|k: int| 0 <= k < i ==> stretch[k] == needle[k],
        decreases needle.len() - i,
    {
        if hay[at + i] != needle[i] {
            assert(stretch[i as int] != needle[i as int]);
            return false;
        }
        i = i + 1;
    }
    assert(stretch =~= needle@);
    true
}

/// Whether `needle` occurs in `hay`.
pub fn contains_chars(hay: &Vec<char>, needle: &Vec<char>) -> (found: bool)
    ensures
        found == is_substring(hay@, needle@),
{
    if needle.len() > hay.len() {
        return false;
    }
    if needle.len() == 0 {
        assert(hay@.subrange(0, 0 + needle.len()) =~= needle@);
        return true;
    }
    let last: usize = hay.len() - needle.len();
    let mut i: usize = 0;
    while i <= last
        invariant
            needle.len() >= 1,
            last == hay.len() - needle.len(),
            i <= last + 1,
            forall|k: int| 0 <= k < i ==> #[trigger] hay@.subrange(k, k + needle.len()) != needle@,
        decreases last + 1 - i,
    {
        if matches_at(hay, needle, i) {
            return true;
        }
        i = i + 1;
    }
    false
}

/// `s` without its whitespace characters.
pub fn strip_whitespace(s: &str) -> (out: String)
    ensures
        out@ == strip_whitespace_spec(s@),
{
    let chars = chars_of(s);
    let mut kept: Vec<char> = Vec::new();
    let mut i: usize = 0;
    while i < chars.len()
        invariant
            i <= chars.len(),
            kept@ == strip_whitespace_spec(chars@.take(i as int)),
        decreases chars.len() - i,
    {
        let c: char = chars[i];
        proof {
            let upto = chars@.take(i + 1);
            assert(upto.drop_last() =~= chars@.take(i as int));
            assert(upto.last() == c);
        }
        if !c.is_whitespace() {
            kept.push(c);
        }
        i = i + 1;
    }
    assert(chars@.take(chars.len() as int) =~= chars@);
    string_from_chars(&kept)
}

/// Putting `c` into an ascending sequence is an insertion at the place
/// behind which every character is larger.
proof fn lemma_insert_sorted(s: Seq<char>, c: char, at: int)
    requires
        0 <= at <= s.len(),
        forall|k: int| at <= k < s.len() ==> s[k] > c,
        at > 0 ==> s[at - 1] <= c,
    ensures
        insert_sorted(s, c) == s.insert(at, c),
    decreases s.len(),
{
    if s.len() == 0 {
        assert(s.insert(at, c) =~= seq![c]);
    } else if at == s.len() {
        assert(s.insert(at, c) =~= s.push(c));
    } else {
        lemma_insert_sorted(s.drop_last(), c, at);
        assert(s.insert(at, c) =~= s.drop_last().insert(at, c).push(s.last()));
    }
}

/// The characters of `s` in ascending order.
pub fn sorted_chars(s: &str) -> (out: String)
    ensures
        out@ == sort_chars(s@),
{
    let chars = chars_of(s);
    let mut sorted: Vec<char> = Vec::new();
    let mut i: usize = 0;
    while i < chars.len()
        invariant
            i <= chars.len(),
            sorted@ == sort_chars(chars@.take(i as int)),
        decreases chars.len() - i,
    {
        let c: char = chars[i];
        proof {
            let upto = chars@.take(i + 1);
            assert(upto.drop_last() =~= chars@.take(i as int));
            assert(upto.last() == c);
        }
        let mut at: usize = sorted.len();
        while at > 0 && sorted[at - 1] > c
            invariant
                at <= sorted.len(),
                forall|k: int| at <= k < sorted.len() ==> sorted[k] > c,
            decreases at,
        {
            at = at - 1;
        }
        proof {
            lemma_insert_sorted(sorted@, c, at as int);
        }
        sorted.insert(at, c);
        i = i + 1;
    }
    assert(chars@.take(chars.len() as int) =~= chars@);
    string_from_chars(&sorted)
}

/// Whether two words count as similar: they are equal, or their closeness
/// reaches `threshold`, or the longer contains the shorter and the shorter
/// takes three bytes at least.
pub fn are_words_similar(word1: &str, word2: &str, threshold: Ratio) -> (similar: bool)
    ensures
        similar == are_words_similar_spec(word1@, word2@, threshold@),
{
    let c1 = chars_of(word1);
    let c2 = chars_of(word2);
    if chars_equal(&c1, &c2) {
        return true;
    }
    let close = closeness(word1, word2);
    if product_le(threshold.num, close.den, close.num, threshold.den) {
        return true;
    }
    if word1.len() > word2.len() {
        contains_chars(&c1, &c2) && word2.len() >= 3
    } else {
        contains_chars(&c2, &c1) && word1.len() >= 3
    }
}

/// The similarity of a word to a phrase; see [`word_to_phrase_spec`] for the
/// rules, of which the first that applies decides.
pub fn word_to_phrase_similarity(word: &str, phrase: &str) -> (similarity: Ratio)
    ensures
        similarity@ == word_to_phrase_spec(word@, phrase@),
        similarity@.is_unit(),
{
    proof {
        lemma_word_to_phrase_is_unit(word@, phrase@);
    }
    let word_norm = normalize_text(word);
    let phrase_norm = normalize_text(phrase);
    if word_norm == phrase_norm {
        return Ratio { num: 1, den: 1 };
    }
    let phrase_bare = strip_whitespace(phrase_norm.as_str());
    let direct = closeness(word_norm.as_str(), phrase_bare.as_str());
    if 4 * direct.num > 3 * direct.den {
        return direct;
    }
    let word_bare = strip_whitespace(word_norm.as_str());
    let reverse = closeness(word_bare.as_str(), phrase_norm.as_str());
    if 4 * reverse.num > 3 * reverse.den {
        return reverse;
    }
    let plain = closeness(word_norm.as_str(), phrase_norm.as_str());
    if 10 * plain.num > 7 * plain.den {
        return plain;
    }
    let word_sorted = sorted_chars(word_bare.as_str());
    let phrase_sorted = sorted_chars(phrase_bare.as_str());
    let sorted = closeness(word_sorted.as_str(), phrase_sorted.as_str());
    let word_bytes: usize = word_bare.as_str().len();
    let phrase_bytes: usize = phrase_bare.as_str().len();
    let apart: usize = if word_bytes > phrase_bytes {
        word_bytes - phrase_bytes
    } else {
        phrase_bytes - word_bytes
    };
    if 5 * sorted.num > 4 * sorted.den && apart <= 2 {
        return Ratio { num: 9 * sorted.num, den: 10 * sorted.den };
    }
    plain
}

/// The n-grams of `tokens`: every run of `n` tokens, joined by spaces.
pub fn generate_token_ngrams(tokens: &Vec<String>, n: usize) -> (out: Vec<String>)
    ensures
        token_views(out@) == ngrams(token_views(tokens@), n as nat),
{
    let mut out: Vec<String> = Vec::new();
    if n == 0 || tokens.len() < n {
        assert(token_views(out@) =~= ngrams(token_views(tokens@), n as nat));
        return out;
    }
    let last: usize = tokens.len() - n;
    let mut i: usize = 0;
    while i <= last
        invariant
            n >= 1,
            last == tokens.len() - n,
            i <= last + 1,
            out.len() == i,
            forall|k: int|
                0 <= k < i ==> (#[trigger] out[k])@ == join_words(
                    token_views(tokens@).subrange(k, k + n),
                ),
        decreases last + 1 - i,
    {
        out.push(join_tokens(tokens, i, i + n));
        i = i + 1;
    }
    assert(token_views(out@) =~= ngrams(token_views(tokens@), n as nat));
    out
}

/// Whether `list` holds a string equal to `item`.
pub fn contains_token(list: &Vec<String>, item: &String) -> (found: bool)
    ensures
        found == token_views(list@).contains(item@),
{
    let mut i: usize = 0;
    while i < list.len()
        invariant
            i <= list.len(),
            forall|k: int| 0 <= k < i ==> (#[trigger] list[k])@ != item@,
        decreases list.len() - i,
    {
        if list[i] == *item {
            assert(token_views(list@)[i as int] == item@);
            return true;
        }
        i = i + 1;
    }
    assert forall|k: int| 0 <= k < token_views(list@).len() implies token_views(list@)[k]
        != item@ by {
        assert(token_views(list@)[k] == list[k]@);
    }
    false
}

/// The distinct n-grams of the words of `text`, each once.
pub fn generate_ngrams(text: &str, n: usize) -> (out: Vec<String>)
    ensures
        token_views(out@).no_duplicates(),
        token_views(out@).to_set() == ngram_set(text@, n as nat),
{
    let words = split_text(text);
    let grams = generate_token_ngrams(&words, n);
    let ghost all = token_views(grams@);
    let mut out: Vec<String> = Vec::new();
    let mut i: usize = 0;
    while i < grams.len()
        invariant
            i <= grams.len(),
            all == token_views(grams@),
            token_views(out@).no_duplicates(),
            forall|x: Seq<char>|
                token_views(out@).contains(x) <==> all.take(i as int).contains(x),
        decreases grams.len() - i,
    {
        let ghost before = token_views(out@);
        let ghost x = grams[i as int]@;
        proof {
            assert(all.take(i + 1) =~= all.take(i as int).push(x));
        }
        if !contains_token(&out, &grams[i]) {
            out.push(grams[i].clone());
            proof {
                assert(token_views(out@) =~= before.push(x));
                assert forall|y: Seq<char>|
                    token_views(out@).contains(y) <==> all.take(i + 1).contains(y) by {
                    push_contains(before, x, y);
                    push_contains(all.take(i as int), x, y);
                }
            }
        } else {
            proof {
                assert forall|y: Seq<char>|
                    token_views(out@).contains(y) <==> all.take(i + 1).contains(y) by {
                    push_contains(all.take(i as int), x, y);
                }
            }
        }
        i = i + 1;
    }
    proof {
        assert(all.take(grams.len() as int) =~= all);
        assert(token_views(out@).to_set() =~= all.to_set());
    }
    out
}

/// A sequence with one more item at its end contains what it contained
/// before, and the item.
proof fn push_contains(s: Seq<Seq<char>>, x: Seq<char>, y: Seq<char>)
    ensures
        s.push(x).contains(y) <==> (s.contains(y) || y == x),
{
    if s.contains(y) {
        let i = choose|i: int| 0 <= i < s.len() && s[i] == y;
        assert(s.push(x)[i] == y);
    }
    if y == x {
        assert(s.push(x)[s.len() as int] == y);
    }
    if s.push(x).contains(y) {
        let i = choose|i: int| 0 <= i < s.push(x).len() && s.push(x)[i] == y;
        if i < s.len() {
            assert(s[i] == y);
        }
    }
}

/// The Jaccard similarity of two sets of strings, each given as a list
/// without repetitions.
pub fn jaccard_similarity(set1: &Vec<String>, set2: &Vec<String>) -> (similarity: Ratio)
    requires
        token_views(set1@).no_duplicates(),
        token_views(set2@).no_duplicates(),
    ensures
        similarity@ == jaccard(token_views(set1@).to_set(), token_views(set2@).to_set()),
        similarity@.is_unit(),
{
    let ghost a = token_views(set1@);
    let ghost b = token_views(set2@);
    let ghost mut shared: Seq<Seq<char>> = Seq::empty();
    let mut common: usize = 0;
    let mut i: usize = 0;
    while i < set1.len()
        invariant
            i <= set1.len(),
            a == token_views(set1@),
            b == token_views(set2@),
            a.no_duplicates(),
            common == shared.len(),
            common <= i,
            shared.no_duplicates(),
            forall|x: Seq<char>|
                shared.contains(x) <==> (a.take(i as int).contains(x) && b.contains(x)),
        decreases set1.len() - i,
    {
        let ghost x = set1[i as int]@;
        let ghost before = shared;
        proof {
            assert(a.take(i + 1) =~= a.take(i as int).push(x));
            assert(a[i as int] == x);
            if a.take(i as int).contains(x) {
                let k = choose|k: int| 0 <= k < i && a.take(i as int)[k] == x;
                assert(a[k] == a[i as int]);
            }
        }
        if contains_token(set2, &set1[i]) {
            common = common + 1;
            proof {
                shared = shared.push(x);
                assert forall|y: Seq<char>|
                    shared.contains(y) <==> (a.take(i + 1).contains(y) && b.contains(y)) by {
                    push_contains(before, x, y);
                    push_contains(a.take(i as int), x, y);
                }
                assert(shared.no_duplicates()) by {
                    assert forall|k: int, l: int|
                        0 <= k < shared.len() && 0 <= l < shared.len() && k != l implies shared[k]
                        != shared[l] by {
                        if k < before.len() && l < before.len() {
                            assert(before[k] != before[l]);
                        } else if k < before.len() {
                            assert(before.contains(before[k]));
                        } else {
                            assert(before.contains(before[l]));
                        }
                    }
                }
            }
        } else {
            proof {
                assert forall|y: Seq<char>|
                    shared.contains(y) <==> (a.take(i + 1).contains(y) && b.contains(y)) by {
                    push_contains(a.take(i as int), x, y);
                }
            }
        }
        i = i + 1;
    }
    proof {
        assert(a.take(set1.len() as int) =~= a);
        assert(shared.to_set() =~= a.to_set().intersect(b.to_set()));
        shared.unique_seq_to_set();
        a.unique_seq_to_set();
        b.unique_seq_to_set();
        vstd::seq_lib::seq_to_set_is_finite(a);
        vstd::seq_lib::seq_to_set_is_finite(b);
        vstd::set_lib::lemma_set_intersect_union_lens(a.to_set(), b.to_set());
        vstd::set_lib::lemma_len_subset(a.to_set().intersect(b.to_set()), b.to_set());
    }
    let total: u128 = set1.len() as u128 + set2.len() as u128 - common as u128;
    if total == 0 {
        return Ratio { num: 0, den: 1 };
    }
    Ratio { num: common as u128, den: total }
}

/// The Jaccard similarity of the sets of `n`-word n-grams of two texts;
/// zero if neither text has an n-gram.
pub fn n_gram_similarity(text1: &str, text2: &str, n: usize) -> (similarity: Ratio)
    ensures
        similarity@ == jaccard(ngram_set(text1@, n as nat), ngram_set(text2@, n as nat)),
        similarity@.is_unit(),
{
    let ngrams1 = generate_ngrams(text1, n);
    let ngrams2 = generate_ngrams(text2, n);
    jaccard_similarity(&ngrams1, &ngrams2)
}

/// The score of the best alignment of the transcript with the chunk, as a
/// fraction of two points a transcript word; zero for an empty transcript.
pub fn sequence_alignment_similarity(transcript_words: &Vec<String>, chunk_words: &Vec<String>) -> (similarity:
    Ratio)
    ensures
        similarity@ == alignment_similarity_spec(
            token_views(transcript_words@),
            token_views(chunk_words@),
        ),
        similarity@.is_unit(),
{
    let alignment = smith_waterman_align(transcript_words, chunk_words, 0);
    if transcript_words.len() == 0 {
        return Ratio { num: 0, den: 1 };
    }
    proof {
        lemma_alignment_shape(token_views(transcript_words@), token_views(chunk_words@), 0);
    }
    let count: u128 = transcript_words.len() as u128;
    Ratio { num: alignment.alignment_score as u128, den: 2 * count }
}

/// The word-level similarity of two texts: how well the tokens of the
/// transcript align with the tokens of the chunk.
pub fn word_level_similarity(transcript: &str, chunk: &str) -> (similarity: Ratio)
    ensures
        similarity@ == word_level_spec(transcript@, chunk@),
        similarity@.is_unit(),
{
    let transcript_tokens = tokenize(transcript);
    let chunk_tokens = tokenize(chunk);
    sequence_alignment_similarity(&transcript_tokens, &chunk_tokens)
}

/// The measures of which the combined similarity of a transcript and a
/// chunk is the weighted sum, each taken of the normal forms of the two
/// texts. [`CombinedSimilarity::score`] gives the sum.
pub fn calculate_combined_similarity(transcript: &str, chunk: &str) -> (measures:
    CombinedSimilarity)
    ensures
        measures@ == combined_spec(transcript@, chunk@),
        measures@.wf(),
{
    let normalized_transcript = normalize_text(transcript);
    let normalized_chunk = normalize_text(chunk);
    let t = normalized_transcript.as_str();
    let c = normalized_chunk.as_str();
    let ngram_2 = n_gram_similarity(t, c, 2);
    let ngram_3 = n_gram_similarity(t, c, 3);
    let ngram_4 = n_gram_similarity(t, c, 4);
    let word_level = word_level_similarity(t, c);
    let characters = closeness(t, c);
    let t_chars = chars_of(t);
    let c_chars = chars_of(c);
    let contained = contains_chars(&c_chars, &t_chars) || contains_chars(&t_chars, &c_chars);
    CombinedSimilarity { word_level, ngram_2, ngram_3, ngram_4, characters, contained }
}

} // verus!
