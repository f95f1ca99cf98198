//! The metadata table: the mapping from a segment's 64-bit key to its stored
//! record. Backed by a vector with pairwise-distinct keys; abstracted as both
//! the sequence of its entries (which fixes iteration order) and the map from
//! keys to records (which fixes lookup).

use vstd::prelude::*;

use crate::segment::{models, SegModel, StoredSegment};

verus! {

/// Is some entry of `s` stored under `key`?
pub open spec fn has_key(s: Seq<SegModel>, key: u64) -> bool {
    exists|i: int| 0 <= i < s.len() && s[i].key == key
}

/// The first position of `s` whose entry is stored under `key`, or -1.
pub open spec fn index_of_key(s: Seq<SegModel>, key: u64) -> int
    decreases s.len(),
{
    if s.len() == 0 {
        -1
    } else if s[0].key == key {
        0
    } else {
        let r = index_of_key(s.subrange(1, s.len() as int), key);
        if r < 0 {
            -1
        } else {
            r + 1
        }
    }
}

/// The key-to-record map described by an entry sequence; on duplicate keys the
/// later entry wins, as it would under repeated map insertion.
pub open spec fn map_of(s: Seq<SegModel>) -> Map<u64, SegModel>
    decreases s.len(),
{
    if s.len() == 0 {
        Map::empty()
    } else {
        map_of(s.drop_last()).insert(s.last().key, s.last())
    }
}

/// Entry sequence after storing `x`: the entry under the same key is replaced
/// in place, or `x` is appended if its key is new.
pub open spec fn spec_insert(s: Seq<SegModel>, x: SegModel) -> Seq<SegModel> {
    if has_key(s, x.key) {
        s.update(index_of_key(s, x.key), x)
    } else {
        s.push(x)
    }
}

/// Entry sequence after dropping the entry under `key`, if any.
pub open spec fn spec_remove(s: Seq<SegModel>, key: u64) -> Seq<SegModel> {
    if has_key(s, key) {
        s.remove(index_of_key(s, key))
    } else {
        s
    }
}

/// The entries of `s` that belong to the collection `vid`, in table order.
pub open spec fn of_video(s: Seq<SegModel>, vid: Seq<char>) -> Seq<SegModel>
    decreases s.len(),
{
    if s.len() == 0 {
        Seq::empty()
    } else if s.last().video_id == vid {
        of_video(s.drop_last(), vid).push(s.last())
    } else {
        of_video(s.drop_last(), vid)
    }
}

/// Is there an entry under `key` whose collection is `vid`?
pub open spec fn key_in_video(s: Seq<SegModel>, key: u64, vid: Seq<char>) -> bool {
    exists|i: int| 0 <= i < s.len() && s[i].key == key && s[i].video_id == vid
}

/// The keys of the entries, element-wise.
pub open spec fn keys_of(s: Seq<SegModel>) -> Seq<u64> {
    s.map_values(|e: SegModel| e.key)
}

pub proof fn lemma_index_of_key(s: Seq<SegModel>, key: u64)
    ensures
        (index_of_key(s, key) >= 0) == has_key(s, key),
        index_of_key(s, key) >= 0 ==> index_of_key(s, key) < s.len() && s[index_of_key(s, key)].key
            == key,
    decreases s.len(),
{
    if s.len() > 0 && s[0].key != key {
        let tail = s.subrange(1, s.len() as int);
        lemma_index_of_key(tail, key);
        if index_of_key(tail, key) >= 0 {
            assert(s[index_of_key(tail, key) + 1].key == key);
        } else {
            assert(forall|i: int| 0 <= i < tail.len() ==> tail[i].key != key);
            assert forall|i: int| 0 <= i < s.len() implies s[i].key != key by {
                if i > 0 {
                    assert(tail[i - 1] == s[i]);
                }
            }
        }
    }
}

pub proof fn lemma_map_of_dom(s: Seq<SegModel>, key: u64)
    ensures
        map_of(s).contains_key(key) == has_key(s, key),
    decreases s.len(),
{
    if s.len() > 0 {
        lemma_map_of_dom(s.drop_last(), key);
        if map_of(s).contains_key(key) {
            assert(has_key(s, key));
        }
        if has_key(s, key) {
            let i = choose|i: int| 0 <= i < s.len() && s[i].key == key;
            if i < s.len() - 1 {
                assert(s.drop_last()[i].key == key);
            }
        }
    }
}

/// Under pairwise-distinct keys, the map agrees with every entry.
pub proof fn lemma_map_of_index(s: Seq<SegModel>, i: int)
    requires
        wf_entries(s),
        0 <= i < s.len(),
    ensures
        map_of(s).contains_key(s[i].key),
        map_of(s)[s[i].key] == s[i],
    decreases s.len(),
{
    if i == s.len() - 1 {
    } else {
        lemma_map_of_index(s.drop_last(), i);
        assert(s.drop_last()[i] == s[i]);
        assert(s.last().key != s[i].key);
    }
}

/// Pairwise-distinct keys.
pub open spec fn wf_entries(s: Seq<SegModel>) -> bool {
    forall|i: int, j: int| 0 <= i < j < s.len() ==> s[i].key != s[j].key
}

pub proof fn lemma_map_of_update(s: Seq<SegModel>, j: int, x: SegModel)
    requires
        wf_entries(s),
        0 <= j < s.len(),
        s[j].key == x.key,
    ensures
        map_of(s.update(j, x)) == map_of(s).insert(x.key, x),
    decreases s.len(),
{
    if j == s.len() - 1 {
        assert(s.update(j, x).drop_last() =~= s.drop_last());
        assert(map_of(s.update(j, x)) =~= map_of(s).insert(x.key, x));
    } else {
        assert(s.update(j, x).drop_last() =~= s.drop_last().update(j, x));
        lemma_map_of_update(s.drop_last(), j, x);
        assert(s.last().key != x.key);
        assert(map_of(s.update(j, x)) =~= map_of(s).insert(x.key, x));
    }
}

pub proof fn lemma_map_of_push(s: Seq<SegModel>, x: SegModel)
    ensures
        map_of(s.push(x)) == map_of(s).insert(x.key, x),
{
    assert(s.push(x).drop_last() =~= s);
}

pub proof fn lemma_map_of_remove(s: Seq<SegModel>, j: int)
    requires
        wf_entries(s),
        0 <= j < s.len(),
    ensures
        map_of(s.remove(j)) == map_of(s).remove(s[j].key),
    decreases s.len(),
{
    lemma_map_of_dom(s.drop_last(), s[j].key);
    if j == s.len() - 1 {
        assert(s.remove(j) =~= s.drop_last());
        assert(!has_key(s.drop_last(), s[j].key)) by {
            assert forall|i: int| 0 <= i < s.drop_last().len() implies s.drop_last()[i].key
                != s[j].key by {
                assert(s.drop_last()[i] == s[i]);
            }
        }
        assert(map_of(s.remove(j)) =~= map_of(s).remove(s[j].key));
    } else {
        assert(s.remove(j).drop_last() =~= s.drop_last().remove(j));
        assert(s.remove(j).last() == s.last());
        lemma_map_of_remove(s.drop_last(), j);
        assert(s.drop_last()[j] == s[j]);
        assert(s.last().key != s[j].key);
        assert(map_of(s.remove(j)) =~= map_of(s).remove(s[j].key));
    }
}


/// Entry sequence after storing each segment of `segs`, in order.
pub open spec fn spec_insert_all(t: Seq<SegModel>, segs: Seq<SegModel>) -> Seq<SegModel>
    decreases segs.len(),
{
    if segs.len() == 0 {
        t
    } else {
        spec_insert(spec_insert_all(t, segs.drop_last()), segs.last())
    }
}

/// Storing keeps keys pairwise distinct.
pub proof fn lemma_wf_spec_insert(s: Seq<SegModel>, x: SegModel)
    requires
        wf_entries(s),
    ensures
        wf_entries(spec_insert(s, x)),
{
    lemma_index_of_key(s, x.key);
    if has_key(s, x.key) {
        let j = index_of_key(s, x.key);
        let r = s.update(j, x);
        assert forall|a: int, b: int| 0 <= a < b < r.len() implies r[a].key != r[b].key by {
            if a != j && b != j {
                assert(r[a] == s[a] && r[b] == s[b]);
            } else if a == j {
                assert(r[b] == s[b] && s[j].key != s[b].key);
            } else {
                assert(r[a] == s[a] && s[a].key != s[j].key);
            }
        }
    }
}

/// Storing acts on the map as one insertion.
pub proof fn lemma_map_of_spec_insert(s: Seq<SegModel>, x: SegModel)
    requires
        wf_entries(s),
    ensures
        map_of(spec_insert(s, x)) == map_of(s).insert(x.key, x),
{
    lemma_index_of_key(s, x.key);
    if has_key(s, x.key) {
        lemma_map_of_update(s, index_of_key(s, x.key), x);
    } else {
        lemma_map_of_push(s, x);
    }
}

/// A table with pairwise-distinct keys is exactly its map: one map entry per
/// table entry.
pub proof fn lemma_map_of_len(s: Seq<SegModel>)
    requires
        wf_entries(s),
    ensures
        map_of(s).dom().finite(),
        map_of(s).dom().len() == s.len(),
    decreases s.len(),
{
    if s.len() > 0 {
        lemma_map_of_len(s.drop_last());
        lemma_map_of_dom(s.drop_last(), s.last().key);
        assert(!has_key(s.drop_last(), s.last().key)) by {
            assert forall|i: int| 0 <= i < s.drop_last().len() implies s.drop_last()[i].key
                != s.last().key by {
                assert(s.drop_last()[i] == s[i]);
            }
        }
        assert(map_of(s).dom() =~= map_of(s.drop_last()).dom().insert(s.last().key));
    }
}

/// Rebuilding a table from its own entries, one store at a time, is the
/// identity: each key is met for the first time and appended in place.
pub proof fn lemma_insert_all_identity(s: Seq<SegModel>)
    requires
        wf_entries(s),
    ensures
        spec_insert_all(Seq::<SegModel>::empty(), s) == s,
    decreases s.len(),
{
    if s.len() > 0 {
        let d = s.drop_last();
        lemma_insert_all_identity(d);
        assert(!has_key(d, s.last().key)) by {
            assert forall|i: int| 0 <= i < d.len() implies d[i].key != s.last().key by {
                assert(d[i] == s[i]);
            }
        }
        assert(spec_insert_all(Seq::<SegModel>::empty(), s) =~= s);
    }
}

/// Pairwise-distinct keys all drawn from a finite set are no more numerous
/// than the set.
pub proof fn lemma_distinct_keys_in_set(ks: Seq<u64>, s: Set<u64>)
    requires
        s.finite(),
        forall|a: int, b: int| 0 <= a < b < ks.len() ==> ks[a] != ks[b],
        forall|j: int| 0 <= j < ks.len() ==> s.contains(ks[j]),
    ensures
        ks.len() <= s.len(),
    decreases ks.len(),
{
    if ks.len() > 0 {
        let last = ks.last();
        let rest = ks.drop_last();
        let smaller = s.remove(last);
        assert forall|j: int| 0 <= j < rest.len() implies smaller.contains(rest[j]) by {
            assert(rest[j] == ks[j]);
            assert(ks[j] != last);
        }
        lemma_distinct_keys_in_set(rest, smaller);
        assert(s.contains(last));
        assert(smaller.len() == s.len() - 1);
    }
}

/// A subset of a finite set with the same cardinality is the whole set.
pub proof fn lemma_subset_same_len<A>(a: Set<A>, b: Set<A>)
    requires
        a.subset_of(b),
        b.finite(),
        a.len() == b.len(),
    ensures
        a == b,
{
    vstd::set_lib::lemma_len_subset(a, b);
    if a != b {
        assert(exists|x: A| b.contains(x) && !a.contains(x)) by {
            assert(!(forall|x: A| b.contains(x) ==> a.contains(x))) by {
                if forall|x: A| b.contains(x) ==> a.contains(x) {
                    assert(a =~= b);
                }
            }
        }
        let x = choose|x: A| b.contains(x) && !a.contains(x);
        assert(a.subset_of(b.remove(x)));
        vstd::set_lib::lemma_len_subset(a, b.remove(x));
        assert(b.remove(x).len() == b.len() - 1);
    }
}

/// Entry sequence with every entry of collection `vid` dropped; the order of
/// the others is kept.
pub open spec fn remove_video(s: Seq<SegModel>, vid: Seq<char>) -> Seq<SegModel>
    decreases s.len(),
{
    if s.len() == 0 {
        Seq::empty()
    } else if s.last().video_id == vid {
        remove_video(s.drop_last(), vid)
    } else {
        remove_video(s.drop_last(), vid).push(s.last())
    }
}

/// Entry sequence after dropping each key of `ks`, in order.
pub open spec fn remove_keys(s: Seq<SegModel>, ks: Seq<u64>) -> Seq<SegModel>
    decreases ks.len(),
{
    if ks.len() == 0 {
        s
    } else {
        spec_remove(remove_keys(s, ks.drop_last()), ks.last())
    }
}

proof fn lemma_index_of_key_push(m: Seq<SegModel>, x: SegModel, k: u64)
    requires
        x.key != k,
    ensures
        index_of_key(m.push(x), k) == index_of_key(m, k),
    decreases m.len(),
{
    if m.len() == 0 {
        assert(m.push(x)[0] == x);
        assert(m.push(x).subrange(1, 1) =~= Seq::<SegModel>::empty());
        assert(index_of_key(Seq::<SegModel>::empty(), k) == -1);
        assert(index_of_key(m.push(x), k) == -1);
        assert(index_of_key(m, k) == -1);
    } else {
        assert(m.push(x)[0] == m[0]);
        if m[0].key != k {
            let tail = m.subrange(1, m.len() as int);
            assert(m.push(x).subrange(1, m.len() as int + 1) =~= tail.push(x));
            lemma_index_of_key_push(tail, x, k);
            assert(index_of_key(m.push(x), k) == (if index_of_key(tail.push(x), k) < 0 {
                -1int
            } else {
                index_of_key(tail.push(x), k) + 1
            }));
            assert(index_of_key(m, k) == (if index_of_key(tail, k) < 0 {
                -1int
            } else {
                index_of_key(tail, k) + 1
            }));
        }
    }
}

proof fn lemma_index_of_key_push_new(m: Seq<SegModel>, x: SegModel)
    requires
        !has_key(m, x.key),
    ensures
        index_of_key(m.push(x), x.key) == m.len(),
    decreases m.len(),
{
    lemma_index_of_key(m, x.key);
    if m.len() == 0 {
        assert(m.push(x)[0] == x);
    } else {
        assert(m[0].key != x.key);
        assert(m.push(x)[0] == m[0]);
        let tail = m.subrange(1, m.len() as int);
        assert(m.push(x).subrange(1, m.len() as int + 1) =~= tail.push(x));
        assert(!has_key(tail, x.key)) by {
            assert forall|i: int| 0 <= i < tail.len() implies tail[i].key != x.key by {
                assert(tail[i] == m[i + 1]);
            }
        }
        lemma_index_of_key_push_new(tail, x);
    }
}

proof fn lemma_remove_keys_push(d: Seq<SegModel>, x: SegModel, ks: Seq<u64>)
    requires
        forall|i: int| 0 <= i < ks.len() ==> ks[i] != x.key,
    ensures
        remove_keys(d.push(x), ks) == remove_keys(d, ks).push(x),
    decreases ks.len(),
{
    if ks.len() > 0 {
        lemma_remove_keys_push(d, x, ks.drop_last());
        let m = remove_keys(d, ks.drop_last());
        let k = ks.last();
        assert(k != x.key);
        lemma_index_of_key(m, k);
        lemma_index_of_key(m.push(x), k);
        lemma_index_of_key_push(m, x, k);
        if has_key(m, k) {
            let j = index_of_key(m, k);
            assert(m.push(x).remove(j) =~= m.remove(j).push(x));
        } else {
            assert(!has_key(m.push(x), k));
        }
    }
}

/// Every entry of the collection's view is an entry of the table.
proof fn lemma_of_video_element(s: Seq<SegModel>, vid: Seq<char>, j: int)
    requires
        0 <= j < of_video(s, vid).len(),
    ensures
        exists|i: int| 0 <= i < s.len() && of_video(s, vid)[j] == s[i],
    decreases s.len(),
{
    if s.len() > 0 {
        let d = s.drop_last();
        if s.last().video_id == vid && j == of_video(s, vid).len() - 1 {
            assert(of_video(s, vid)[j] == s[s.len() - 1]);
        } else {
            lemma_of_video_element(d, vid, j);
            let i = choose|i: int| 0 <= i < d.len() && of_video(d, vid)[j] == d[i];
            assert(d[i] == s[i]);
            assert(of_video(s, vid)[j] == s[i]);
        }
    }
}

/// Dropping a collection introduces no key that the table did not hold.
proof fn lemma_remove_video_keys(s: Seq<SegModel>, vid: Seq<char>, k: u64)
    requires
        has_key(remove_video(s, vid), k),
    ensures
        has_key(s, k),
    decreases s.len(),
{
    if s.len() > 0 {
        let d = s.drop_last();
        let rv = remove_video(s, vid);
        if s.last().video_id == vid {
            lemma_remove_video_keys(d, vid, k);
            let i = choose|i: int| 0 <= i < d.len() && d[i].key == k;
            assert(s[i].key == k);
        } else {
            let rd = remove_video(d, vid);
            let j = choose|j: int| 0 <= j < rv.len() && rv[j].key == k;
            if j == rv.len() - 1 {
                assert(s[s.len() - 1].key == k);
            } else {
                assert(rv[j] == rd[j]);
                lemma_remove_video_keys(d, vid, k);
                let i = choose|i: int| 0 <= i < d.len() && d[i].key == k;
                assert(s[i].key == k);
            }
        }
    }
}

/// Dropping, one key at a time, every key of a collection's entries is the
/// same as filtering the collection out, when keys are pairwise distinct.
pub proof fn lemma_remove_by_keys(s: Seq<SegModel>, vid: Seq<char>)
    requires
        wf_entries(s),
    ensures
        remove_keys(s, keys_of(of_video(s, vid))) == remove_video(s, vid),
    decreases s.len(),
{
    if s.len() == 0 {
        assert(of_video(s, vid) =~= Seq::<SegModel>::empty());
        assert(keys_of(of_video(s, vid)) =~= Seq::<u64>::empty());
    } else {
        let d = s.drop_last();
        let x = s.last();
        assert(wf_entries(d)) by {
            assert forall|a: int, b: int| 0 <= a < b < d.len() implies d[a].key != d[b].key by {
                assert(d[a] == s[a] && d[b] == s[b]);
            }
        }
        lemma_remove_by_keys(d, vid);
        let kd = keys_of(of_video(d, vid));
        assert forall|i: int| 0 <= i < kd.len() implies kd[i] != x.key by {
            assert(kd[i] == of_video(d, vid)[i].key);
            lemma_of_video_element(d, vid, i);
            let t = choose|t: int| 0 <= t < d.len() && of_video(d, vid)[i] == d[t];
            assert(d[t] == s[t]);
            assert(s[t].key != s[s.len() - 1].key);
        }
        assert(s =~= d.push(x));
        let rv = remove_video(d, vid);
        if x.video_id == vid {
            assert(of_video(s, vid) == of_video(d, vid).push(x));
            assert(keys_of(of_video(s, vid)) =~= kd.push(x.key));
            let full = kd.push(x.key);
            assert(full.drop_last() =~= kd);
            assert(remove_keys(s, full) == spec_remove(remove_keys(s, kd), x.key));
            lemma_remove_keys_push(d, x, kd);
            assert(remove_keys(s, kd) == rv.push(x));
            assert(!has_key(rv, x.key)) by {
                if has_key(rv, x.key) {
                    lemma_remove_video_keys(d, vid, x.key);
                    let t = choose|t: int| 0 <= t < d.len() && d[t].key == x.key;
                    assert(s[t].key == s[s.len() - 1].key);
                }
            }
            lemma_index_of_key_push_new(rv, x);
            lemma_index_of_key(rv.push(x), x.key);
            assert(has_key(rv.push(x), x.key));
            assert(spec_remove(rv.push(x), x.key) == rv.push(x).remove(rv.len() as int));
            assert(rv.push(x).remove(rv.len() as int) =~= rv);
        } else {
            assert(of_video(s, vid) == of_video(d, vid));
            lemma_remove_keys_push(d, x, kd);
        }
    }
}

/// The metadata table.
pub struct MetadataTable {
    entries: Vec<StoredSegment>,
}

impl View for MetadataTable {
    type V = Seq<SegModel>;

    closed spec fn view(&self) -> Seq<SegModel> {
        models(self.entries@)
    }
}

impl MetadataTable {
    /// Keys are pairwise distinct, so the table is a finite map.
    pub open spec fn wf(&self) -> bool {
        wf_entries(self@)
    }

    /// The key-to-record map this table realizes.
    pub open spec fn as_map(&self) -> Map<u64, SegModel> {
        map_of(self@)
    }

    /// An empty table.
    pub fn new() -> (t: MetadataTable)
        ensures
            t.wf(),
            t@ == Seq::<SegModel>::empty(),
    {
        let t = MetadataTable { entries: Vec::new() };
        assert(t@ =~= Seq::<SegModel>::empty());
        t
    }

    pub fn len(&self) -> (n: usize)
        ensures
            n == self@.len(),
    {
        self.entries.len()
    }

    /// The entry at position `i`.
    pub fn entry_at(&self, i: usize) -> (e: &StoredSegment)
        requires
            i < self@.len(),
        ensures
            e@ == self@[i as int],
    {
        &self.entries[i]
    }

    /// The key of the entry at position `i`.
    pub fn key_at(&self, i: usize) -> (k: u64)
        requires
            i < self@.len(),
        ensures
            k == self@[i as int].key,
    {
        self.entries[i].key
    }

    /// The position of the entry stored under `key`, if any.
    fn find(&self, key: u64) -> (r: Option<usize>)
        ensures
            match r {
                Some(i) => i < self@.len() && self@[i as int].key == key,
                None => !has_key(self@, key),
            },
    {
        let n = self.entries.len();
        for i in 0..n
            invariant
                n == self@.len(),
                forall|j: int| 0 <= j < i ==> self@[j].key != key,
        {
            if self.entries[i].key == key {
                return Some(i);
            }
        }
        None
    }

    /// The record stored under `key`, if any.
    pub fn get(&self, key: u64) -> (r: Option<&StoredSegment>)
        requires
            self.wf(),
        ensures
            match r {
                Some(seg) => self.as_map().contains_key(key) && seg@ == self.as_map()[key],
                None => !self.as_map().contains_key(key),
            },
    {
        proof {
            lemma_map_of_dom(self@, key);
        }
        match self.find(key) {
            Some(i) => {
                proof {
                    lemma_map_of_index(self@, i as int);
                }
                Some(&self.entries[i])
            },
            None => None,
        }
    }

    /// Stores `seg` under its key; an entry already under that key is
    /// replaced, last write wins.
    pub fn insert(&mut self, seg: StoredSegment)
        requires
            old(self).wf(),
        ensures
            final(self).wf(),
            final(self)@ == spec_insert(old(self)@, seg@),
            final(self).as_map() == old(self).as_map().insert(seg@.key, seg@),
    {
        proof {
            lemma_index_of_key(self@, seg@.key);
        }
        match self.find(seg.key) {
            Some(i) => {
                proof {
                    let j = index_of_key(self@, seg@.key);
                    assert(self@[j].key == seg@.key);
                    assert(j == i as int);  // both hold the key; keys are distinct
                    lemma_map_of_update(self@, i as int, seg@);
                }
                self.entries[i] = seg;
                assert(self@ =~= spec_insert(old(self)@, seg@));
            },
            None => {
                proof {
                    lemma_map_of_push(self@, seg@);
                }
                self.entries.push(seg);
                assert(self@ =~= spec_insert(old(self)@, seg@));
            },
        }
    }

    /// Drops the entry stored under `key`, if any; the order of the other
    /// entries is kept.
    pub fn remove(&mut self, key: u64)
        requires
            old(self).wf(),
        ensures
            final(self).wf(),
            final(self)@ == spec_remove(old(self)@, key),
            final(self).as_map() == old(self).as_map().remove(key),
    {
        proof {
            lemma_index_of_key(self@, key);
            lemma_map_of_dom(self@, key);
        }
        match self.find(key) {
            Some(i) => {
                proof {
                    let j = index_of_key(self@, key);
                    assert(self@[j].key == key);
                    assert(j == i as int);
                    lemma_map_of_remove(self@, i as int);
                }
                self.entries.remove(i);
                assert(self@ =~= spec_remove(old(self)@, key));
            },
            None => {
                assert(self@ =~= spec_remove(old(self)@, key));
                assert(self.as_map() =~= old(self).as_map().remove(key));
            },
        }
    }

    /// Is there an entry under `key` belonging to collection `vid`? Total on
    /// any table state, so the similarity index may consult it while
    /// filtering.
    pub fn key_has_video(&self, key: u64, vid: &str) -> (b: bool)
        ensures
            b == key_in_video(self@, key, vid@),
    {
        let vid_owned: String = vid.to_owned();
        let n = self.entries.len();
        for i in 0..n
            invariant
                n == self@.len(),
                vid_owned@ == vid@,
                forall|j: int|
                    0 <= j < i ==> !(self@[j].key == key && self@[j].video_id == vid@),
        {
            if self.entries[i].key == key && self.entries[i].video_id == vid_owned {
                assert(self@[i as int].key == key && self@[i as int].video_id == vid@);
                return true;
            }
        }
        false
    }

    /// All entries of collection `vid`, in table order, cloned out.
    pub fn segments_of_video(&self, vid: &str) -> (r: Vec<StoredSegment>)
        ensures
            models(r@) == of_video(self@, vid@),
    {
        let vid_owned: String = vid.to_owned();
        let mut r: Vec<StoredSegment> = Vec::new();
        let n = self.entries.len();
        proof {
            assert(models(r@) =~= of_video(self@.take(0), vid@));
        }
        for i in 0..n
            invariant
                n == self@.len(),
                vid_owned@ == vid@,
                models(r@) == of_video(self@.take(i as int), vid@),
        {
            if self.entries[i].video_id == vid_owned {
                r.push(self.entries[i].clone());
            }
            proof {
                assert(self@.take(i + 1).drop_last() =~= self@.take(i as int));
                assert(self@.take(i + 1).last() == self@[i as int]);
                assert(models(r@) =~= of_video(self@.take(i + 1), vid@));
            }
        }
        proof {
            assert(self@.take(n as int) =~= self@);
        }
        r
    }

    /// The keys of all entries of collection `vid`, in table order.
    pub fn keys_of_video(&self, vid: &str) -> (r: Vec<u64>)
        ensures
            r@ == keys_of(of_video(self@, vid@)),
    {
        let segs = self.segments_of_video(vid);
        let mut r: Vec<u64> = Vec::new();
        let n = segs.len();
        let ghost filtered = of_video(self@, vid@);
        for i in 0..n
            invariant
                n == segs@.len(),
                models(segs@) == filtered,
                r@ == keys_of(filtered).take(i as int),
        {
            r.push(segs[i].key);
            proof {
                assert(segs@[i as int]@ == filtered[i as int]);
                assert(r@ =~= keys_of(filtered).take(i + 1));
            }
        }
        proof {
            assert(keys_of(filtered).take(n as int) =~= keys_of(filtered));
        }
        r
    }

    /// Every entry, in table order, cloned out.
    pub fn values(&self) -> (r: Vec<StoredSegment>)
        ensures
            models(r@) == self@,
    {
        let mut r: Vec<StoredSegment> = Vec::new();
        let n = self.entries.len();
        proof {
            assert(models(r@) =~= self@.take(0));
        }
        for i in 0..n
            invariant
                n == self@.len(),
                models(r@) == self@.take(i as int),
        {
            r.push(self.entries[i].clone());
            proof {
                assert(self@.take(i + 1).drop_last() =~= self@.take(i as int));
                assert(self@.take(i + 1).last() == self@[i as int]);
                assert(models(r@) =~= self@.take(i + 1));
            }
        }
        proof {
            assert(self@.take(n as int) =~= self@);
        }
        r
    }
}

} // verus!
