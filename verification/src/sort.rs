//! Ordering of query results: segments of a collection are reported sorted
//! ascending by their start time (for non-negative times, the unsigned order
//! of the `u64` bit patterns is the numeric order). The sort is pinned as a
//! spec function, so equal tables always present collections identically.

use vstd::prelude::*;

use crate::segment::{models, SegModel, StoredSegment};
use vstd::multiset::Multiset;

verus! {

/// Ascending by start time, duplicates allowed.
pub open spec fn sorted_by_start(s: Seq<SegModel>) -> bool {
    forall|i: int, j: int| 0 <= i < j < s.len() ==> s[i].start_bits <= s[j].start_bits
}

/// `x` placed after the last entry of `s` that does not start later than `x`.
pub open spec fn insert_sorted(s: Seq<SegModel>, x: SegModel) -> Seq<SegModel>
    decreases s.len(),
{
    if s.len() == 0 {
        seq![x]
    } else if s.last().start_bits <= x.start_bits {
        s.push(x)
    } else {
        insert_sorted(s.drop_last(), x).push(s.last())
    }
}

/// Insertion sort by start time; stable, so entries starting together keep
/// their table order.
pub open spec fn sort_by_start(s: Seq<SegModel>) -> Seq<SegModel>
    decreases s.len(),
{
    if s.len() == 0 {
        Seq::empty()
    } else {
        insert_sorted(sort_by_start(s.drop_last()), s.last())
    }
}

pub proof fn lemma_insert_sorted(s: Seq<SegModel>, x: SegModel)
    requires
        sorted_by_start(s),
    ensures
        sorted_by_start(insert_sorted(s, x)),
        insert_sorted(s, x).to_multiset() == s.to_multiset().insert(x),
        insert_sorted(s, x).len() == s.len() + 1,
    decreases s.len(),
{
    broadcast use vstd::seq_lib::group_to_multiset_ensures;

    if s.len() == 0 {
        assert(seq![x] =~= Seq::<SegModel>::empty().push(x));
        assert(Seq::<SegModel>::empty().to_multiset() =~= Multiset::<SegModel>::empty());
    } else if s.last().start_bits <= x.start_bits {
        assert forall|i: int, j: int|
            0 <= i < j < s.push(x).len() implies s.push(x)[i].start_bits
            <= s.push(x)[j].start_bits by {
            if j < s.len() {
            } else {
                assert(s.push(x)[i].start_bits <= s.last().start_bits);
            }
        }
    } else {
        let d = s.drop_last();
        assert(sorted_by_start(d));
        lemma_insert_sorted(d, x);
        let r = insert_sorted(d, x);
        assert(insert_sorted(s, x) == r.push(s.last()));
        assert(r.to_multiset() == d.to_multiset().insert(x));
        assert(s =~= d.push(s.last()));
        assert(r.push(s.last()).to_multiset() =~= s.to_multiset().insert(x));
        assert forall|i: int| 0 <= i < r.len() implies r[i].start_bits
            <= s.last().start_bits by {
            assert(r.to_multiset().count(r[i]) > 0);
            if d.to_multiset().count(r[i]) > 0 {
                let k = choose|k: int| 0 <= k < d.len() && d[k] == r[i];
                assert(d[k].start_bits <= s.last().start_bits);
            } else {
                assert(r[i] == x);
            }
        }
        assert forall|i: int, j: int|
            0 <= i < j < r.push(s.last()).len() implies r.push(s.last())[i].start_bits <= r.push(
            s.last(),
        )[j].start_bits by {
            if j < r.len() {
            } else {
                assert(r.push(s.last())[i] == r[i]);
            }
        }
    }
}

/// The sort is a permutation and its result is sorted.
pub proof fn lemma_sort_by_start(s: Seq<SegModel>)
    ensures
        sorted_by_start(sort_by_start(s)),
        sort_by_start(s).to_multiset() == s.to_multiset(),
        sort_by_start(s).len() == s.len(),
    decreases s.len(),
{
    broadcast use vstd::seq_lib::group_to_multiset_ensures;

    if s.len() == 0 {
    } else {
        lemma_sort_by_start(s.drop_last());
        lemma_insert_sorted(sort_by_start(s.drop_last()), s.last());
        assert(s =~= s.drop_last().push(s.last()));
    }
}

/// Inserts `x` into the already-sorted `v`, preserving the order.
fn insert_sorted_exec(v: Vec<StoredSegment>, x: StoredSegment) -> (r: Vec<StoredSegment>)
    ensures
        models(r@) == insert_sorted(models(v@), x@),
    decreases v@.len(),
{
    let mut v = v;
    let ghost orig = models(v@);
    if v.len() == 0 {
        v.push(x);
        assert(models(v@) =~= insert_sorted(orig, x@));
        v
    } else if v[v.len() - 1].start_bits <= x.start_bits {
        proof {
            assert(orig.last() == v@[v@.len() - 1]@);
        }
        v.push(x);
        assert(models(v@) =~= orig.push(x@));
        v
    } else {
        proof {
            assert(orig.last() == v@[v@.len() - 1]@);
        }
        let last_elem = v.pop().unwrap();
        proof {
            assert(models(v@) =~= orig.drop_last());
            assert(last_elem@ == orig.last());
        }
        let mut r = insert_sorted_exec(v, x);
        r.push(last_elem);
        assert(models(r@) =~= insert_sorted(orig.drop_last(), x@).push(orig.last()));
        r
    }
}

/// Sorts segments ascending by start time.
pub fn sort_segments(v: Vec<StoredSegment>) -> (r: Vec<StoredSegment>)
    ensures
        models(r@) == sort_by_start(models(v@)),
{
    let mut r: Vec<StoredSegment> = Vec::new();
    let n = v.len();
    proof {
        assert(models(r@) =~= sort_by_start(models(v@).take(0)));
    }
    for i in 0..n
        invariant
            n == v@.len(),
            models(r@) == sort_by_start(models(v@).take(i as int)),
    {
        r = insert_sorted_exec(r, v[i].clone());
        proof {
            assert(models(v@).take(i + 1).drop_last() =~= models(v@).take(i as int));
            assert(models(v@).take(i + 1).last() == models(v@)[i as int]);
        }
    }
    proof {
        assert(models(v@).take(n as int) =~= models(v@));
    }
    r
}

} // verus!
