//! Normalisation and tokenisation of raw text.

use vstd::prelude::*;
use vstd::string::*;

verus! {

/// The text that `str::to_lowercase` returns for `s`.
pub uninterp spec fn lowercase_of(s: Seq<char>) -> Seq<char>;

/// Whether `char::is_alphanumeric` holds of `c`.
pub uninterp spec fn is_alphanumeric_char(c: char) -> bool;

/// Whether `char::is_whitespace` holds of `c`.
pub uninterp spec fn is_whitespace_char(c: char) -> bool;

/// `str::to_lowercase` depends on its argument alone (the Unicode tables are
/// part of the standard library), so its result is given the name
/// [`lowercase_of`]. Nothing else is claimed of it.
pub assume_specification[ str::to_lowercase ](s: &str) -> (r: String)
    ensures
        r@ == lowercase_of(s@),
;

/// `char::is_alphanumeric` is a fixed predicate on characters, named
/// [`is_alphanumeric_char`]. Nothing else is claimed of it.
pub assume_specification[ char::is_alphanumeric ](c: char) -> (r: bool)
    ensures
        r == is_alphanumeric_char(c),
;

/// `char::is_whitespace` is a fixed predicate on characters, named
/// [`is_whitespace_char`]. Nothing else is claimed of it.
pub assume_specification[ char::is_whitespace ](c: char) -> (r: bool)
    ensures
        r == is_whitespace_char(c),
;

/// Collects characters into a `String` with `String::from_iter`; the string
/// holds exactly the characters given, in order.
#[verifier::external_body]
pub(crate) fn string_from_chars(chars: &Vec<char>) -> (s: String)
    ensures
        s@ == chars@,
{
    String::from_iter(chars.iter())
}

/// The character sequences that a vector of words holds.
pub open spec fn word_views(words: Seq<Vec<char>>) -> Seq<Seq<char>> {
    Seq::new(words.len(), |i: int| words[i]@)
}

/// The character sequences that a vector of tokens holds.
pub open spec fn token_views(tokens: Seq<String>) -> Seq<Seq<char>> {
    Seq::new(tokens.len(), |i: int| tokens[i]@)
}

/// A character survives cleaning when it is alphanumeric or whitespace;
/// anything else becomes a space.
pub open spec fn clean_char(c: char) -> char {
    if is_alphanumeric_char(c) || is_whitespace_char(c) {
        c
    } else {
        ' '
    }
}

/// `s` with every character cleaned.
pub open spec fn clean_text(s: Seq<char>) -> Seq<char> {
    Seq::new(s.len(), |i: int| clean_char(s[i]))
}

/// The maximal runs of non-whitespace characters of `s`, in order.
pub open spec fn split_words(s: Seq<char>) -> Seq<Seq<char>>
    decreases s.len(),
{
    if s.len() == 0 {
        Seq::empty()
    } else {
        let init = s.drop_last();
        let words = split_words(init);
        let c = s.last();
        if is_whitespace_char(c) {
            words
        } else if init.len() > 0 && !is_whitespace_char(init.last()) && words.len() > 0 {
            words.drop_last().push(words.last().push(c))
        } else {
            words.push(seq![c])
        }
    }
}

/// The words joined by single spaces.
pub open spec fn join_words(words: Seq<Seq<char>>) -> Seq<char>
    decreases words.len(),
{
    if words.len() == 0 {
        Seq::empty()
    } else if words.len() == 1 {
        words[0]
    } else {
        join_words(words.drop_last()) + seq![' '] + words.last()
    }
}

/// Normal form of a text: lowercased, cleaned, its words joined by single
/// spaces with nothing before the first or after the last.
pub open spec fn normalize_spec(text: Seq<char>) -> Seq<char> {
    join_words(split_words(clean_text(lowercase_of(text))))
}

/// The tokens of a text: the words of its normal form.
pub open spec fn tokenize_spec(text: Seq<char>) -> Seq<Seq<char>> {
    split_words(normalize_spec(text))
}

/// Every word that [`split_words`] yields is non-empty and free of whitespace,
/// and a text that ends in a non-whitespace character has a last word.
pub proof fn lemma_split_words_shape(s: Seq<char>)
    ensures
        forall|k: int|
            0 <= k < split_words(s).len() ==> (#[trigger] split_words(s)[k]).len() > 0,
        forall|k: int, j: int|
            0 <= k < split_words(s).len() && 0 <= j < split_words(s)[k].len()
                ==> !is_whitespace_char(#[trigger] split_words(s)[k][j]),
        s.len() > 0 && !is_whitespace_char(s.last()) ==> split_words(s).len() > 0,
    decreases s.len(),
{
    if s.len() > 0 {
        let init = s.drop_last();
        let words = split_words(init);
        let c = s.last();
        let result = split_words(s);
        lemma_split_words_shape(init);
        if is_whitespace_char(c) {
            assert(result == words);
        } else if init.len() > 0 && !is_whitespace_char(init.last()) && words.len() > 0 {
            let grown = words.last().push(c);
            assert(result == words.drop_last().push(grown));
            assert forall|k: int| 0 <= k < result.len() implies (#[trigger] result[k]).len()
                > 0 by {
                if k < result.len() - 1 {
                    assert(result[k] == words[k]);
                }
            }
            assert forall|k: int, j: int|
                0 <= k < result.len() && 0 <= j < result[k].len() implies !is_whitespace_char(
                #[trigger] result[k][j],
            ) by {
                if k < result.len() - 1 {
                    assert(result[k] == words[k]);
                } else if j < grown.len() - 1 {
                    assert(grown[j] == words.last()[j]);
                }
            }
        } else {
            assert(result == words.push(seq![c]));
            assert forall|k: int| 0 <= k < result.len() implies (#[trigger] result[k]).len()
                > 0 by {
                if k < result.len() - 1 {
                    assert(result[k] == words[k]);
                }
            }
            assert forall|k: int, j: int|
                0 <= k < result.len() && 0 <= j < result[k].len() implies !is_whitespace_char(
                #[trigger] result[k][j],
            ) by {
                if k < result.len() - 1 {
                    assert(result[k] == words[k]);
                }
            }
        }
    }
}

/// A joined list of non-empty words begins with the first character of the
/// first word and ends with the last character of the last.
pub proof fn lemma_join_words_ends(words: Seq<Seq<char>>)
    requires
        words.len() > 0,
        forall|k: int| 0 <= k < words.len() ==> (#[trigger] words[k]).len() > 0,
    ensures
        join_words(words).len() > 0,
        join_words(words).first() == words.first().first(),
        join_words(words).last() == words.last().last(),
    decreases words.len(),
{
    if words.len() > 1 {
        let init = words.drop_last();
        assert forall|k: int| 0 <= k < init.len() implies (#[trigger] init[k]).len() > 0 by {
            assert(init[k] == words[k]);
        }
        lemma_join_words_ends(init);
        assert(init.first() == words.first());
    }
}

/// The normal form of a text neither begins nor ends with whitespace.
pub proof fn lemma_normal_form_is_trimmed(text: Seq<char>)
    ensures
        normalize_spec(text).len() > 0 ==> !is_whitespace_char(normalize_spec(text).first())
            && !is_whitespace_char(normalize_spec(text).last()),
{
    let words = split_words(clean_text(lowercase_of(text)));
    lemma_split_words_shape(clean_text(lowercase_of(text)));
    if words.len() > 0 {
        lemma_join_words_ends(words);
        assert(!is_whitespace_char(words.first()[0]));
        assert(!is_whitespace_char(words.last()[words.last().len() - 1]));
    }
}

/// The characters of a string slice, in order.
pub fn chars_of(s: &str) -> (v: Vec<char>)
    ensures
        v@ == s@,
{
    let mut v: Vec<char> = Vec::new();
    for c in it: s.chars()
        invariant
            it.seq() == s@,
            v@ == it.seq().take(it.index() as int),
    {
        v.push(c);
        assert(it.seq().take(it.index() + 1) =~= it.seq().take(it.index() as int).push(c));
    }
    assert(s@.take(s@.len() as int) =~= s@);
    v
}

/// Cleans every character of `chars`.
pub fn clean_chars(chars: &Vec<char>) -> (out: Vec<char>)
    ensures
        out@ == clean_text(chars@),
{
    let mut out: Vec<char> = Vec::new();
    let mut i: usize = 0;
    while i < chars.len()
        invariant
            i <= chars.len(),
            out.len() == i,
            forall|k: int| 0 <= k < i ==> out[k] == clean_char(#[trigger] chars[k]),
        decreases chars.len() - i,
    {
        let c: char = chars[i];
        if c.is_alphanumeric() || c.is_whitespace() {
            out.push(c);
        } else {
            out.push(' ');
        }
        i = i + 1;
    }
    assert(out@ =~= clean_text(chars@));
    out
}

/// Splits `chars` at whitespace, dropping empty pieces.
pub fn split_whitespace_chars(chars: &Vec<char>) -> (words: Vec<Vec<char>>)
    ensures
        word_views(words@) == split_words(chars@),
{
    let mut done: Vec<Vec<char>> = Vec::new();
    let mut current: Vec<char> = Vec::new();
    let mut i: usize = 0;
    while i < chars.len()
        invariant
            i <= chars.len(),
            (current.len() == 0) <==> (i == 0 || is_whitespace_char(chars[i - 1])),
            current.len() == 0 ==> word_views(done@) == split_words(chars@.take(i as int)),
            current.len() > 0 ==> word_views(done@).push(current@) == split_words(
                chars@.take(i as int),
            ),
        decreases chars.len() - i,
    {
        let c: char = chars[i];
        let ghost before = chars@.take(i as int);
        let ghost after = chars@.take(i + 1);
        let ghost done_before = word_views(done@);
        proof {
            assert(after.drop_last() =~= before);
            assert(after.last() == c);
            if i > 0 {
                assert(before.last() == chars[i - 1]);
            }
        }
        if c.is_whitespace() {
            if current.len() > 0 {
                let ghost finished = current@;
                done.push(current);
                current = Vec::new();
                assert(word_views(done@) =~= done_before.push(finished));
            }
        } else {
            let ghost current_before = current@;
            current.push(c);
            proof {
                if current_before.len() > 0 {
                    let words = done_before.push(current_before);
                    assert(words.drop_last() =~= done_before);
                    assert(words.last() == current_before);
                } else {
                    assert(current@ =~= seq![c]);
                }
            }
        }
        i = i + 1;
    }
    let ghost done_before = word_views(done@);
    let ghost last = current@;
    assert(chars@.take(chars.len() as int) =~= chars@);
    if current.len() > 0 {
        done.push(current);
        assert(word_views(done@) =~= done_before.push(last));
    }
    done
}

/// Joins `words` with single spaces.
pub fn join_chars(words: &Vec<Vec<char>>) -> (out: Vec<char>)
    ensures
        out@ == join_words(word_views(words@)),
{
    let mut out: Vec<char> = Vec::new();
    let mut k: usize = 0;
    while k < words.len()
        invariant
            k <= words.len(),
            out@ == join_words(word_views(words@).take(k as int)),
        decreases words.len() - k,
    {
        let ghost joined = out@;
        let ghost upto = word_views(words@).take(k + 1);
        proof {
            assert(upto.drop_last() =~= word_views(words@).take(k as int));
            assert(upto.last() == words[k as int]@);
        }
        if k > 0 {
            out.push(' ');
        }
        let ghost base = out@;
        let word = &words[k];
        let mut t: usize = 0;
        while t < word.len()
            invariant
                t <= word.len(),
                out@ == base + word@.take(t as int),
            decreases word.len() - t,
        {
            out.push(word[t]);
            assert(word@.take(t + 1) =~= word@.take(t as int).push(word[t as int]));
            assert(out@ =~= base + word@.take(t + 1));
            t = t + 1;
        }
        proof {
            assert(word@.take(word.len() as int) =~= word@);
            if k > 0 {
                assert(base =~= joined + seq![' ']);
            } else {
                assert(out@ =~= word@);
            }
        }
        k = k + 1;
    }
    assert(word_views(words@).take(words.len() as int) =~= word_views(words@));
    out
}

/// Joins the tokens `tokens[start..end]` with single spaces.
pub fn join_tokens(tokens: &Vec<String>, start: usize, end: usize) -> (out: String)
    requires
        start <= end <= tokens.len(),
    ensures
        out@ == join_words(token_views(tokens@).subrange(start as int, end as int)),
{
    let mut out = String::new();
    let ghost run = token_views(tokens@).subrange(start as int, end as int);
    let mut k: usize = start;
    while k < end
        invariant
            start <= k <= end <= tokens.len(),
            run == token_views(tokens@).subrange(start as int, end as int),
            out@ == join_words(run.take(k - start)),
        decreases end - k,
    {
        let ghost joined = out@;
        let ghost upto = run.take(k - start + 1);
        proof {
            reveal_strlit(" ");
            assert(" "@ =~= seq![' ']);
            assert(upto.drop_last() =~= run.take(k - start));
            assert(upto.last() == tokens[k as int]@);
        }
        if k > start {
            out.append(" ");
        }
        out.append(tokens[k].as_str());
        proof {
            if k == start {
                assert(out@ =~= tokens[k as int]@);
            }
        }
        k = k + 1;
    }
    assert(run.take(end - start) =~= run);
    out
}

/// The normal form of `text`: lowercased, every character that is neither
/// alphanumeric nor whitespace replaced by a space, runs of whitespace
/// collapsed to one space, and no whitespace at either end.
pub fn normalize_text(text: &str) -> (normalized: String)
    ensures
        normalized@ == normalize_spec(text@),
{
    let lowered = text.to_lowercase();
    let chars = chars_of(lowered.as_str());
    let cleaned = clean_chars(&chars);
    let words = split_whitespace_chars(&cleaned);
    let joined = join_chars(&words);
    string_from_chars(&joined)
}

/// The whitespace-separated words of `text`, taken as it stands.
pub fn split_text(text: &str) -> (words: Vec<String>)
    ensures
        token_views(words@) == split_words(text@),
{
    let chars = chars_of(text);
    let pieces = split_whitespace_chars(&chars);
    let mut words: Vec<String> = Vec::new();
    let mut k: usize = 0;
    while k < pieces.len()
        invariant
            k <= pieces.len(),
            words.len() == k,
            forall|j: int| 0 <= j < k ==> (#[trigger] words[j])@ == pieces[j]@,
        decreases pieces.len() - k,
    {
        words.push(string_from_chars(&pieces[k]));
        k = k + 1;
    }
    assert(token_views(words@) =~= word_views(pieces@));
    words
}

/// The characters of each token.
pub fn token_chars(tokens: &Vec<String>) -> (out: Vec<Vec<char>>)
    ensures
        word_views(out@) == token_views(tokens@),
{
    let mut out: Vec<Vec<char>> = Vec::new();
    let mut k: usize = 0;
    while k < tokens.len()
        invariant
            k <= tokens.len(),
            out.len() == k,
            forall|j: int| 0 <= j < k ==> (#[trigger] out[j])@ == tokens[j]@,
        decreases tokens.len() - k,
    {
        out.push(chars_of(tokens[k].as_str()));
        k = k + 1;
    }
    assert(word_views(out@) =~= token_views(tokens@));
    out
}

/// The tokens of `text`: the words of its normal form.
pub fn tokenize(text: &str) -> (tokens: Vec<String>)
    ensures
        token_views(tokens@) == tokenize_spec(text@),
{
    let normalized = normalize_text(text);
    split_text(normalized.as_str())
}

} // verus!
