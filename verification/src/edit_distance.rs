//! Levenshtein edit distance between character sequences.

use vstd::prelude::*;
use crate::text::chars_of;

verus! {

/// The smallest of three numbers.
pub open spec fn min3(a: nat, b: nat, c: nat) -> nat {
    if a <= b && a <= c {
        a
    } else if b <= c {
        b
    } else {
        c
    }
}

/// The least number of single-character insertions, deletions and
/// substitutions that turn `a` into `b`.
pub open spec fn edit_distance(a: Seq<char>, b: Seq<char>) -> nat
    decreases a.len() + b.len(),
{
    if a.len() == 0 {
        b.len()
    } else if b.len() == 0 {
        a.len()
    } else {
        let substitute = edit_distance(a.drop_last(), b.drop_last()) + if a.last() == b.last() {
            0nat
        } else {
            1nat
        };
        let delete = edit_distance(a.drop_last(), b) + 1;
        let insert = edit_distance(a, b.drop_last()) + 1;
        min3(substitute, delete, insert)
    }
}

/// The distance never exceeds the longer length, and is at least the
/// difference of the lengths.
pub proof fn lemma_edit_distance_bounds(a: Seq<char>, b: Seq<char>)
    ensures
        edit_distance(a, b) <= if a.len() >= b.len() { a.len() } else { b.len() },
        edit_distance(a, b) >= a.len() - b.len(),
        edit_distance(a, b) >= b.len() - a.len(),
    decreases a.len() + b.len(),
{
    if a.len() > 0 && b.len() > 0 {
        lemma_edit_distance_bounds(a.drop_last(), b.drop_last());
        lemma_edit_distance_bounds(a.drop_last(), b);
        lemma_edit_distance_bounds(a, b.drop_last());
    }
}

/// Two sequences are at distance zero exactly when they are equal.
pub proof fn lemma_edit_distance_zero(a: Seq<char>, b: Seq<char>)
    ensures
        edit_distance(a, b) == 0 <==> a == b,
    decreases a.len() + b.len(),
{
    if a.len() == 0 || b.len() == 0 {
        if a.len() == 0 && b.len() == 0 {
            assert(a =~= b);
        }
    } else {
        lemma_edit_distance_zero(a.drop_last(), b.drop_last());
        if a == b {
            assert(a.drop_last() == b.drop_last());
        }
        if edit_distance(a, b) == 0 {
            assert(a =~= a.drop_last().push(a.last()));
            assert(b =~= b.drop_last().push(b.last()));
        }
    }
}

/// The distance from `a` to `b` is the distance from `b` to `a`.
pub proof fn lemma_edit_distance_symmetric(a: Seq<char>, b: Seq<char>)
    ensures
        edit_distance(a, b) == edit_distance(b, a),
    decreases a.len() + b.len(),
{
    if a.len() > 0 && b.len() > 0 {
        lemma_edit_distance_symmetric(a.drop_last(), b.drop_last());
        lemma_edit_distance_symmetric(a.drop_last(), b);
        lemma_edit_distance_symmetric(a, b.drop_last());
    }
}

/// Edit distance between two character vectors, by dynamic programming over
/// two rolling rows that are as long as the shorter of the two.
pub fn levenshtein_chars(a: &Vec<char>, b: &Vec<char>) -> (d: usize)
    ensures
        d == edit_distance(a@, b@),
{
    if a.len() < b.len() {
        proof {
            lemma_edit_distance_symmetric(a@, b@);
        }
        distance_by_rows(b, a)
    } else {
        distance_by_rows(a, b)
    }
}

/// Edit distance between `a` and `b`, with rows as long as `b`.
fn distance_by_rows(a: &Vec<char>, b: &Vec<char>) -> (d: usize)
    ensures
        d == edit_distance(a@, b@),
{
    let m: usize = a.len();
    let n: usize = b.len();
    if m == 0 {
        return n;
    }
    if n == 0 {
        return m;
    }
    // prev[j - 1] is the distance between a[..i - 1] and b[..j], for j in 1..=n.
    let mut prev: Vec<usize> = Vec::new();
    while prev.len() < n
        invariant
            prev.len() <= n,
            forall|c: int| 0 <= c < prev.len() ==> #[trigger] prev[c] == c + 1,
        decreases n - prev.len(),
    {
        let next: usize = prev.len() + 1;
        prev.push(next);
    }
    proof {
        assert forall|c: int| 1 <= c <= n implies prev[c - 1] == edit_distance(
            a@.take(0),
            #[trigger] b@.take(c),
        ) by {
            assert(a@.take(0).len() == 0);
            assert(b@.take(c).len() == c);
        }
    }
    let mut i: usize = 1;
    loop
        invariant_except_break
            1 <= i <= m,
            prev.len() == n,
            forall|c: int|
                1 <= c <= n ==> prev[c - 1] == edit_distance(
                    a@.take(i - 1),
                    #[trigger] b@.take(c),
                ),
        invariant
            m == a.len(),
            n == b.len(),
            m >= 1,
            n >= 1,
        ensures
            prev.len() == n,
            prev[n - 1] == edit_distance(a@, b@),
        decreases m - i,
    {
        let mut curr: Vec<usize> = Vec::new();
        let ghost ai = a@.take(i as int);
        proof {
            assert(ai.drop_last() =~= a@.take(i - 1));
            assert(ai.last() == a[i - 1]);
        }
        let mut j: usize = 1;
        loop
            invariant_except_break
                1 <= j <= n,
                curr.len() == j - 1,
            invariant
                1 <= i <= m,
                m == a.len(),
                n == b.len(),
                n >= 1,
                prev.len() == n,
                ai == a@.take(i as int),
                ai.drop_last() == a@.take(i - 1),
                ai.last() == a[i - 1],
                forall|c: int|
                    1 <= c <= n ==> prev[c - 1] == edit_distance(
                        a@.take(i - 1),
                        #[trigger] b@.take(c),
                    ),
                forall|c: int|
                    1 <= c <= curr.len() ==> curr[c - 1] == edit_distance(
                        ai,
                        #[trigger] b@.take(c),
                    ),
            ensures
                curr.len() == n,
            decreases n - j,
        {
            let ghost bj = b@.take(j as int);
            proof {
                assert(bj.drop_last() =~= b@.take(j - 1));
                assert(bj.last() == b[j - 1]);
                lemma_edit_distance_bounds(a@.take(i - 1), b@.take(j - 1));
                lemma_edit_distance_bounds(a@.take(i - 1), bj);
                lemma_edit_distance_bounds(ai, b@.take(j - 1));
                lemma_edit_distance_bounds(ai, bj);
                assert(b@.take(0).len() == 0);
                assert(a@.take(0).len() == 0);
            }
            // The three neighbours: above, to the left, and diagonal.
            let above: usize = prev[j - 1];
            let left: usize = if j == 1 {
                i
            } else {
                curr[j - 2]
            };
            let diagonal: usize = if j == 1 {
                i - 1
            } else {
                prev[j - 2]
            };
            let cost: usize = if a[i - 1] != b[j - 1] {
                1
            } else {
                0
            };
            let substitute: usize = diagonal + cost;
            let nearest: usize = if above < left {
                above
            } else {
                left
            };
            let value: usize = if substitute <= nearest {
                substitute
            } else {
                nearest + 1
            };
            proof {
                assert(left == edit_distance(ai, b@.take(j - 1)));
                assert(diagonal == edit_distance(a@.take(i - 1), b@.take(j - 1)));
                assert(value == edit_distance(ai, bj));
            }
            curr.push(value);
            if j == n {
                break;
            }
            j = j + 1;
        }
        prev = curr;
        if i == m {
            proof {
                assert(a@.take(m as int) =~= a@);
                assert(b@.take(n as int) =~= b@);
            }
            break;
        }
        i = i + 1;
    }
    prev[n - 1]
}

/// Levenshtein edit distance between two strings, counted in characters.
pub fn levenshtein_distance(str1: &str, str2: &str) -> (d: usize)
    ensures
        d == edit_distance(str1@, str2@),
{
    let s1 = chars_of(str1);
    let s2 = chars_of(str2);
    levenshtein_chars(&s1, &s2)
}

} // verus!
