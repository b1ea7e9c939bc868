//! The inverted index: a hash table from shingles to the windows that hold
//! them.

use vstd::prelude::*;
use crate::text::chars_of;

verus! {

/// Hash values are kept below this prime.
pub const HASH_MODULUS: u64 = 4294967291;

/// A shingle together with the ids of the windows that contain it.
#[derive(Debug)]
pub struct IndexEntry {
    /// The tokens of the shingle, joined by single spaces.
    pub shingle: String,
    /// Ids of the windows that contain the shingle.
    pub window_ids: Vec<usize>,
}

/// A polynomial hash of a character sequence.
pub open spec fn hash_chars(s: Seq<char>) -> nat
    decreases s.len(),
{
    if s.len() == 0 {
        5381
    } else {
        ((hash_chars(s.drop_last()) * 33 + s.last() as nat) % (HASH_MODULUS as nat)) as nat
    }
}

/// The bucket that holds `key` in a table of `bucket_count` buckets.
pub open spec fn bucket_of(key: Seq<char>, bucket_count: nat) -> int {
    (hash_chars(key) % bucket_count) as int
}

/// Position of the first entry for `key` in `bucket`, if there is one.
pub open spec fn position_of(bucket: Seq<IndexEntry>, key: Seq<char>) -> Option<int>
    decreases bucket.len(),
{
    if bucket.len() == 0 {
        None
    } else {
        match position_of(bucket.drop_last(), key) {
            Some(p) => Some(p),
            None => if bucket.last().shingle@ == key {
                Some(bucket.len() - 1)
            } else {
                None
            },
        }
    }
}

/// The map that a list of entries stands for; of two entries with one
/// shingle the later counts.
pub open spec fn entries_map(entries: Seq<IndexEntry>) -> Map<Seq<char>, Seq<usize>>
    decreases entries.len(),
{
    if entries.len() == 0 {
        Map::empty()
    } else {
        entries_map(entries.drop_last()).insert(
            entries.last().shingle@,
            entries.last().window_ids@,
        )
    }
}

/// The window ids listed under `key`, or none.
pub open spec fn postings(index: Map<Seq<char>, Seq<usize>>, key: Seq<char>) -> Seq<usize> {
    if index.contains_key(key) {
        index[key]
    } else {
        Seq::empty()
    }
}

/// `ids` with `id` at its end, unless it ends in `id` already.
pub open spec fn with_id(ids: Seq<usize>, id: usize) -> Seq<usize> {
    if ids.len() > 0 && ids.last() == id {
        ids
    } else {
        ids.push(id)
    }
}

/// What [`position_of`] finds is the first entry with the key, and it finds
/// nothing only if no entry has it.
pub proof fn lemma_position_of(bucket: Seq<IndexEntry>, key: Seq<char>)
    ensures
        match position_of(bucket, key) {
            Some(p) => {
                &&& 0 <= p < bucket.len()
                &&& bucket[p].shingle@ == key
                &&& forall|k: int| 0 <= k < p ==> (#[trigger] bucket[k]).shingle@ != key
            },
            None => forall|k: int| 0 <= k < bucket.len() ==> (#[trigger] bucket[k]).shingle@ != key,
        },
    decreases bucket.len(),
{
    if bucket.len() > 0 {
        lemma_position_of(bucket.drop_last(), key);
        assert forall|k: int| 0 <= k < bucket.len() - 1 implies bucket[k] == bucket.drop_last()[k] by {}
    }
}

/// An entry whose shingle occurs nowhere before it is found at its own place.
pub proof fn lemma_position_of_found(bucket: Seq<IndexEntry>, p: int)
    requires
        0 <= p < bucket.len(),
        forall|k: int| 0 <= k < p ==> (#[trigger] bucket[k]).shingle@ != bucket[p].shingle@,
    ensures
        position_of(bucket, bucket[p].shingle@) == Some(p),
{
    lemma_position_of(bucket, bucket[p].shingle@);
}

/// The position of a key depends on the shingles of the entries alone.
pub proof fn lemma_position_of_same_shingles(
    a: Seq<IndexEntry>,
    b: Seq<IndexEntry>,
    key: Seq<char>,
)
    requires
        a.len() == b.len(),
        forall|k: int| 0 <= k < a.len() ==> (#[trigger] a[k]).shingle@ == b[k].shingle@,
    ensures
        position_of(a, key) == position_of(b, key),
    decreases a.len(),
{
    if a.len() > 0 {
        assert forall|k: int| 0 <= k < a.len() - 1 implies (#[trigger] a.drop_last()[k]).shingle@
            == b.drop_last()[k].shingle@ by {
            assert(a.drop_last()[k] == a[k]);
            assert(b.drop_last()[k] == b[k]);
        }
        lemma_position_of_same_shingles(a.drop_last(), b.drop_last(), key);
        assert(a.last() == a[a.len() - 1]);
        assert(b.last() == b[b.len() - 1]);
    }
}

/// A hash table from shingles to lists of window ids.
#[derive(Debug)]
pub struct ShingleIndex {
    buckets: Vec<Vec<IndexEntry>>,
}

impl View for ShingleIndex {
    type V = Map<Seq<char>, Seq<usize>>;

    /// The map that the table holds.
    closed spec fn view(&self) -> Map<Seq<char>, Seq<usize>> {
        let buckets = self.buckets;
        Map::new(
            |key: Seq<char>|
                position_of(buckets[bucket_of(key, buckets.len() as nat)]@, key) is Some,
            |key: Seq<char>|
                {
                    let bucket = buckets[bucket_of(key, buckets.len() as nat)]@;
                    bucket[position_of(bucket, key).unwrap()].window_ids@
                },
        )
    }
}

/// Copies a list of window ids.
pub fn copy_ids(ids: &Vec<usize>) -> (out: Vec<usize>)
    ensures
        out@ == ids@,
{
    let mut out: Vec<usize> = Vec::new();
    let mut k: usize = 0;
    while k < ids.len()
        invariant
            k <= ids.len(),
            out@ == ids@.take(k as int),
        decreases ids.len() - k,
    {
        out.push(ids[k]);
        assert(ids@.take(k + 1) =~= ids@.take(k as int).push(ids[k as int]));
        k = k + 1;
    }
    assert(ids@.take(ids.len() as int) =~= ids@);
    out
}

/// The code point of a character.
fn char_code(c: char) -> (code: u64)
    ensures
        code == c as nat,
        code <= 0x10FFFF,
{
    (c as u32) as u64
}

/// The hash of a key.
fn hash_key(key: &String) -> (h: u64)
    ensures
        h == hash_chars(key@),
        h < HASH_MODULUS,
{
    let chars = chars_of(key.as_str());
    let mut h: u64 = 5381;
    let mut i: usize = 0;
    while i < chars.len()
        invariant
            i <= chars.len(),
            chars@ == key@,
            h == hash_chars(chars@.take(i as int)),
            h < HASH_MODULUS,
        decreases chars.len() - i,
    {
        let c: char = chars[i];
        let ghost after = chars@.take(i + 1);
        proof {
            assert(after.drop_last() =~= chars@.take(i as int));
            assert(after.last() == c);
        }
        h = (h * 33 + char_code(c)) % HASH_MODULUS;
        i = i + 1;
    }
    assert(chars@.take(chars.len() as int) =~= chars@);
    h
}

/// Position of the entry for `key` in `bucket`, if there is one.
fn find(bucket: &Vec<IndexEntry>, key: &String) -> (found: Option<usize>)
    ensures
        match found {
            Some(p) => p < bucket.len() && position_of(bucket@, key@) == Some(p as int),
            None => position_of(bucket@, key@) is None,
        },
{
    let mut k: usize = 0;
    while k < bucket.len()
        invariant
            k <= bucket.len(),
            position_of(bucket@.take(k as int), key@) is None,
        decreases bucket.len() - k,
    {
        let ghost upto = bucket@.take(k + 1);
        proof {
            assert(upto.drop_last() =~= bucket@.take(k as int));
            assert(upto.last() == bucket[k as int]);
        }
        if bucket[k].shingle == *key {
            proof {
                lemma_position_of(bucket@, key@);
                lemma_position_of(upto, key@);
                assert(upto[k as int] == bucket[k as int]);
                if position_of(bucket@, key@) != Some(k as int) {
                    let p = position_of(bucket@, key@).unwrap();
                    assert(upto[p] == bucket[p]);
                }
            }
            return Some(k);
        }
        k = k + 1;
    }
    assert(bucket@.take(bucket.len() as int) =~= bucket@);
    None
}

impl ShingleIndex {
    /// Every entry lies in the bucket of its shingle, and no bucket holds a
    /// shingle twice.
    pub closed spec fn wf(&self) -> bool {
        &&& self.buckets.len() > 0
        &&& forall|b: int, p: int|
            0 <= b < self.buckets.len() && 0 <= p < self.buckets[b].len() ==> bucket_of(
                (#[trigger] self.buckets[b][p]).shingle@,
                self.buckets.len() as nat,
            ) == b
        &&& forall|b: int, earlier: int, later: int|
            0 <= b < self.buckets.len() && 0 <= earlier < later < self.buckets[b].len() ==> (
            #[trigger] self.buckets[b][earlier]).shingle@ != (#[trigger] self.buckets[b][later]).shingle@
    }

    /// An empty index with `bucket_count` buckets, or one bucket if
    /// `bucket_count` is zero.
    pub fn new(bucket_count: usize) -> (index: ShingleIndex)
        ensures
            index.wf(),
            index@ == Map::<Seq<char>, Seq<usize>>::empty(),
    {
        let mut buckets: Vec<Vec<IndexEntry>> = Vec::new();
        buckets.push(Vec::new());
        while buckets.len() < bucket_count
            invariant
                buckets.len() >= 1,
                forall|b: int| 0 <= b < buckets.len() ==> (#[trigger] buckets[b]).len() == 0,
            decreases bucket_count - buckets.len(),
        {
            buckets.push(Vec::new());
        }
        let index = ShingleIndex { buckets };
        assert(index@ =~= Map::<Seq<char>, Seq<usize>>::empty());
        index
    }

    /// The window ids listed under `key`, if the index holds the key.
    pub fn get(&self, key: &String) -> (found: Option<&Vec<usize>>)
        requires
            self.wf(),
        ensures
            match found {
                Some(ids) => self@.contains_key(key@) && self@[key@] == ids@,
                None => !self@.contains_key(key@),
            },
    {
        let count: usize = self.buckets.len();
        let b: usize = (hash_key(key) % (count as u64)) as usize;
        match find(&self.buckets[b], key) {
            Some(p) => Some(&self.buckets[b][p].window_ids),
            None => None,
        }
    }

    /// Lists `ids` under `key`, in place of what was listed there before.
    pub fn insert(&mut self, key: String, ids: Vec<usize>)
        requires
            old(self).wf(),
        ensures
            final(self).wf(),
            final(self)@ == old(self)@.insert(key@, ids@),
    {
        let count: usize = self.buckets.len();
        let b: usize = (hash_key(&key) % (count as u64)) as usize;
        let ghost before = self.buckets;
        let ghost key_view = key@;
        let ghost ids_view = ids@;
        match find(&self.buckets[b], &key) {
            Some(p) => {
                self.buckets[b][p].window_ids = ids;
                proof {
                    lemma_position_of(before[b as int]@, key_view);
                    self.lemma_entry_changed(before, b as int, p as int);
                }
            },
            None => {
                self.buckets[b].push(IndexEntry { shingle: key, window_ids: ids });
                proof {
                    lemma_position_of(before[b as int]@, key_view);
                    assert(self.buckets[b as int]@.drop_last() =~= before[b as int]@);
                    self.lemma_entry_added(before, b as int);
                }
            },
        }
        assert(self@ =~= old(self)@.insert(key_view, ids_view));
    }

    /// Lists `id` under `key` after the ids that are there, unless it is the
    /// last of them already.
    pub fn add(&mut self, key: String, id: usize)
        requires
            old(self).wf(),
        ensures
            final(self).wf(),
            final(self)@ == old(self)@.insert(key@, with_id(postings(old(self)@, key@), id)),
    {
        let count: usize = self.buckets.len();
        let b: usize = (hash_key(&key) % (count as u64)) as usize;
        let ghost before = self.buckets;
        let ghost key_view = key@;
        let ghost listed = postings(self@, key@);
        match find(&self.buckets[b], &key) {
            Some(p) => {
                let len: usize = self.buckets[b][p].window_ids.len();
                assert(listed == before[b as int][p as int].window_ids@);
                if len == 0 || self.buckets[b][p].window_ids[len - 1] != id {
                    self.buckets[b][p].window_ids.push(id);
                }
                proof {
                    lemma_position_of(before[b as int]@, key_view);
                    self.lemma_entry_changed(before, b as int, p as int);
                }
            },
            None => {
                let mut ids: Vec<usize> = Vec::new();
                ids.push(id);
                assert(ids@ =~= with_id(listed, id));
                self.buckets[b].push(IndexEntry { shingle: key, window_ids: ids });
                proof {
                    lemma_position_of(before[b as int]@, key_view);
                    assert(self.buckets[b as int]@.drop_last() =~= before[b as int]@);
                    self.lemma_entry_added(before, b as int);
                }
            },
        }
        assert(self@ =~= old(self)@.insert(key_view, with_id(listed, id)));
    }

    /// Whether the entry for `key` lies before position `p` of bucket `b`.
    spec fn lies_before(&self, key: Seq<char>, b: int, p: int) -> bool {
        let home = bucket_of(key, self.buckets.len() as nat);
        self@.contains_key(key) && (home < b || (home == b && position_of(
            self.buckets[home]@,
            key,
        ).unwrap() < p))
    }

    /// The part of the index that lies before position `p` of bucket `b`.
    spec fn listed_before(&self, b: int, p: int) -> Map<Seq<char>, Seq<usize>> {
        Map::new(|key: Seq<char>| self.lies_before(key, b, p), |key: Seq<char>| self@[key])
    }

    /// All entries of the index, every shingle once.
    pub fn entries(&self) -> (out: Vec<IndexEntry>)
        requires
            self.wf(),
        ensures
            entries_map(out@) == self@,
    {
        let mut out: Vec<IndexEntry> = Vec::new();
        let mut b: usize = 0;
        let ghost count = self.buckets.len() as nat;
        proof {
            assert forall|other: Seq<char>| !self.lies_before(other, 0, 0) by {
                let home = bucket_of(other, count);
                assert(0 <= home < count) by (nonlinear_arith)
                    requires
                        home == (hash_chars(other) % count) as int,
                        count > 0,
                ;
                lemma_position_of(self.buckets[home]@, other);
            }
            assert(entries_map(out@) =~= self.listed_before(0, 0));
        }
        while b < self.buckets.len()
            invariant
                self.wf(),
                count == self.buckets.len(),
                b <= self.buckets.len(),
                entries_map(out@) == self.listed_before(b as int, 0),
            decreases self.buckets.len() - b,
        {
            let bucket = &self.buckets[b];
            let mut p: usize = 0;
            while p < bucket.len()
                invariant
                    self.wf(),
                    count == self.buckets.len(),
                    b < self.buckets.len(),
                    bucket == self.buckets[b as int],
                    p <= bucket.len(),
                    entries_map(out@) == self.listed_before(b as int, p as int),
                decreases bucket.len() - p,
            {
                let ghost before = out@;
                let entry = IndexEntry {
                    shingle: bucket[p].shingle.clone(),
                    window_ids: copy_ids(&bucket[p].window_ids),
                };
                let ghost key = entry.shingle@;
                let ghost ids = entry.window_ids@;
                out.push(entry);
                proof {
                    assert(out@.drop_last() =~= before);
                    assert(entries_map(out@) == entries_map(before).insert(key, ids));
                    assert(bucket_of(key, count) == b);
                    lemma_position_of_found(bucket@, p as int);
                    assert forall|other: Seq<char>|
                        self.lies_before(other, b as int, p + 1) <==> (other == key
                            || self.lies_before(other, b as int, p as int)) by {
                        let home = bucket_of(other, count);
                        assert(0 <= home < count) by (nonlinear_arith)
                            requires
                                home == (hash_chars(other) % count) as int,
                                count > 0,
                        ;
                        lemma_position_of(self.buckets[home]@, other);
                    }
                    assert(entries_map(out@) =~= self.listed_before(b as int, p + 1));
                }
                p = p + 1;
            }
            proof {
                assert forall|other: Seq<char>|
                    self.lies_before(other, b as int, bucket.len() as int) <==> self.lies_before(
                        other,
                        b + 1,
                        0,
                    ) by {
                    let home = bucket_of(other, count);
                    assert(0 <= home < count) by (nonlinear_arith)
                        requires
                            home == (hash_chars(other) % count) as int,
                            count > 0,
                    ;
                    lemma_position_of(self.buckets[home]@, other);
                }
                assert(self.listed_before(b as int, bucket.len() as int) =~= self.listed_before(
                    b + 1,
                    0,
                ));
            }
            b = b + 1;
        }
        proof {
            assert forall|other: Seq<char>|
                self@.contains_key(other) implies self.lies_before(other, count as int, 0) by {
                let home = bucket_of(other, count);
                assert(0 <= home < count) by (nonlinear_arith)
                    requires
                        home == (hash_chars(other) % count) as int,
                        count > 0,
                ;
            }
            assert(self.listed_before(count as int, 0) =~= self@);
        }
        out
    }

    /// The index that a list of entries stands for, in a table of
    /// `bucket_count` buckets; of two entries with one shingle the later
    /// counts.
    pub fn from_entries(entries: &Vec<IndexEntry>, bucket_count: usize) -> (index: ShingleIndex)
        ensures
            index.wf(),
            index@ == entries_map(entries@),
    {
        let mut index = ShingleIndex::new(bucket_count);
        let mut k: usize = 0;
        while k < entries.len()
            invariant
                k <= entries.len(),
                index.wf(),
                index@ == entries_map(entries@.take(k as int)),
            decreases entries.len() - k,
        {
            let ghost upto = entries@.take(k + 1);
            proof {
                assert(upto.drop_last() =~= entries@.take(k as int));
                assert(upto.last() == entries[k as int]);
            }
            index.insert(entries[k].shingle.clone(), copy_ids(&entries[k].window_ids));
            k = k + 1;
        }
        assert(entries@.take(entries.len() as int) =~= entries@);
        index
    }

    /// After the ids of one entry have changed, the table is well formed and
    /// holds what it held, but for that entry's ids.
    proof fn lemma_entry_changed(&self, before: Vec<Vec<IndexEntry>>, b: int, p: int)
        requires
            (ShingleIndex { buckets: before }).wf(),
            0 <= b < before.len(),
            0 <= p < before[b].len(),
            self.buckets.len() == before.len(),
            forall|k: int| 0 <= k < before.len() && k != b ==> self.buckets[k] == before[k],
            self.buckets[b].len() == before[b].len(),
            forall|k: int|
                0 <= k < before[b].len() && k != p ==> self.buckets[b][k] == before[b][k],
            self.buckets[b][p].shingle@ == before[b][p].shingle@,
        ensures
            self.wf(),
            self@ == (ShingleIndex { buckets: before })@.insert(
                before[b][p].shingle@,
                self.buckets[b][p].window_ids@,
            ),
    {
        let old_index = ShingleIndex { buckets: before };
        let count = before.len() as nat;
        let key = before[b][p].shingle@;
        assert forall|c: int, k: int|
            0 <= c < self.buckets.len() && 0 <= k < self.buckets[c].len() implies (
        #[trigger] self.buckets[c][k]).shingle@ == before[c][k].shingle@ by {}
        assert(self.wf()) by {
            assert forall|c: int, k: int|
                0 <= c < self.buckets.len() && 0 <= k < self.buckets[c].len() implies bucket_of(
                (#[trigger] self.buckets[c][k]).shingle@,
                count,
            ) == c by {
                assert(before[c][k].shingle@ == self.buckets[c][k].shingle@);
            }
            assert forall|c: int, k1: int, k2: int|
                0 <= c < self.buckets.len() && 0 <= k1 < k2 < self.buckets[c].len() implies (
            #[trigger] self.buckets[c][k1]).shingle@ != (
            #[trigger] self.buckets[c][k2]).shingle@ by {
                assert(before[c][k1].shingle@ == self.buckets[c][k1].shingle@);
                assert(before[c][k2].shingle@ == self.buckets[c][k2].shingle@);
            }
        }
        lemma_position_of_found(before[b]@, p);
        assert(bucket_of(key, count) == b);
        assert forall|other: Seq<char>|
            #![trigger bucket_of(other, count)]
            position_of(self.buckets[bucket_of(other, count)]@, other) == position_of(
                before[bucket_of(other, count)]@,
                other,
            ) by {
            let c = bucket_of(other, count);
            assert(0 <= c < count) by (nonlinear_arith)
                requires
                    c == (hash_chars(other) % count) as int,
                    count > 0,
            ;
            lemma_position_of_same_shingles(self.buckets[c]@, before[c]@, other);
        }
        let target = old_index@.insert(key, self.buckets[b][p].window_ids@);
        assert forall|other: Seq<char>| self@.contains_key(other) <==> target.contains_key(
            other,
        ) by {}
        assert forall|other: Seq<char>| self@.contains_key(other) implies self@[other]
            == target[other] by {
            let c = bucket_of(other, count);
            assert(0 <= c < count) by (nonlinear_arith)
                requires
                    c == (hash_chars(other) % count) as int,
                    count > 0,
            ;
            lemma_position_of(before[c]@, other);
            let k = position_of(before[c]@, other).unwrap();
            if other != key {
                assert(c != b || k != p);
            }
        }
        assert(self@ =~= target);
    }

    /// After an entry with a new shingle has been put at the end of its
    /// bucket, the table is well formed and holds that entry besides what it
    /// held.
    proof fn lemma_entry_added(&self, before: Vec<Vec<IndexEntry>>, b: int)
        requires
            (ShingleIndex { buckets: before }).wf(),
            0 <= b < before.len(),
            self.buckets.len() == before.len(),
            forall|k: int| 0 <= k < before.len() && k != b ==> self.buckets[k] == before[k],
            self.buckets[b].len() == before[b].len() + 1,
            self.buckets[b]@.drop_last() == before[b]@,
            bucket_of(self.buckets[b]@.last().shingle@, before.len() as nat) == b,
            position_of(before[b]@, self.buckets[b]@.last().shingle@) is None,
        ensures
            self.wf(),
            self@ == (ShingleIndex { buckets: before })@.insert(
                self.buckets[b]@.last().shingle@,
                self.buckets[b]@.last().window_ids@,
            ),
    {
        let old_index = ShingleIndex { buckets: before };
        let count = before.len() as nat;
        let entry = self.buckets[b]@.last();
        let key = entry.shingle@;
        lemma_position_of(before[b]@, key);
        assert forall|k: int| 0 <= k < before[b].len() implies self.buckets[b][k]
            == before[b][k] by {
            assert(self.buckets[b]@.drop_last()[k] == self.buckets[b][k]);
        }
        assert(self.wf()) by {
            assert forall|c: int, k: int|
                0 <= c < self.buckets.len() && 0 <= k < self.buckets[c].len() implies bucket_of(
                (#[trigger] self.buckets[c][k]).shingle@,
                count,
            ) == c by {
                if c == b && k == before[b].len() {
                } else {
                    assert(self.buckets[c][k] == before[c][k]);
                }
            }
            assert forall|c: int, k1: int, k2: int|
                0 <= c < self.buckets.len() && 0 <= k1 < k2 < self.buckets[c].len() implies (
            #[trigger] self.buckets[c][k1]).shingle@ != (
            #[trigger] self.buckets[c][k2]).shingle@ by {
                assert(self.buckets[c][k1] == before[c][k1]);
                if c == b && k2 == before[b].len() {
                } else {
                    assert(self.buckets[c][k2] == before[c][k2]);
                }
            }
        }
        let target = old_index@.insert(key, entry.window_ids@);
        assert forall|other: Seq<char>|
            #![trigger bucket_of(other, count)]
            {
                let c = bucket_of(other, count);
                &&& 0 <= c < count
                &&& position_of(self.buckets[c]@, other) == if other == key {
                    Some(before[b].len() as int)
                } else {
                    position_of(before[c]@, other)
                }
            } by {
            let c = bucket_of(other, count);
            assert(0 <= c < count) by (nonlinear_arith)
                requires
                    c == (hash_chars(other) % count) as int,
                    count > 0,
            ;
            lemma_position_of(before[c]@, other);
            if c == b {
                assert(self.buckets[b]@.last() == entry);
            }
        }
        assert forall|other: Seq<char>| self@.contains_key(other) <==> target.contains_key(
            other,
        ) by {}
        assert forall|other: Seq<char>| self@.contains_key(other) implies self@[other]
            == target[other] by {
            let c = bucket_of(other, count);
            lemma_position_of(before[c]@, other);
        }
        assert(self@ =~= target);
    }
}

} // verus!
