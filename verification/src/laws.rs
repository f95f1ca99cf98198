//! Laws of the store, proved over the same spec functions its contracts use:
//! reopening from a store's own records restores it, ingesting a batch twice
//! leaves what one ingestion left, and deleting a collection touches no
//! other.

use vstd::prelude::*;

use crate::keys::spec_derive_key;
use crate::segment::{SegModel, TranscriptModel};
use crate::sort::sort_by_start;
use crate::store::{ingested_segment, spec_ingest};
use crate::table::{
    lemma_insert_all_identity, lemma_map_of_spec_insert, lemma_wf_spec_insert, map_of, of_video,
    remove_video, spec_insert_all, wf_entries,
};

verus! {

/// Round trip: a store reopened from its own records (`all_segments`, and an
/// index snapshot holding the same keys) carries the same table, so
/// `get_segments` answers for every collection exactly as before the reload.
pub proof fn lemma_reload_round_trip(s: Seq<SegModel>, vid: Seq<char>)
    requires
        wf_entries(s),
    ensures
        spec_insert_all(Seq::<SegModel>::empty(), s) == s,
        sort_by_start(of_video(spec_insert_all(Seq::<SegModel>::empty(), s), vid))
            == sort_by_start(of_video(s, vid)),
{
    lemma_insert_all_identity(s);
}

/// Does the batch derive `k` for one of its positions?
pub open spec fn batch_has(vid: Seq<char>, ts: Seq<TranscriptModel>, k: u64) -> bool {
    exists|i: int| 0 <= i < ts.len() && #[trigger] spec_derive_key(vid, i as nat) == k
}

/// Ingestion at the map level: one insertion per position, in order.
pub open spec fn ingest_map(
    m: Map<u64, SegModel>,
    vid: Seq<char>,
    ts: Seq<TranscriptModel>,
) -> Map<u64, SegModel>
    decreases ts.len(),
{
    if ts.len() == 0 {
        m
    } else {
        ingest_map(m, vid, ts.drop_last()).insert(
            spec_derive_key(vid, (ts.len() - 1) as nat),
            ingested_segment(vid, ts.len() - 1, ts.last()),
        )
    }
}

/// Ingesting into a table with pairwise-distinct keys keeps them distinct and
/// acts on the map as `ingest_map`.
pub proof fn lemma_ingest_map(s: Seq<SegModel>, vid: Seq<char>, ts: Seq<TranscriptModel>)
    requires
        wf_entries(s),
    ensures
        wf_entries(spec_ingest(s, vid, ts)),
        map_of(spec_ingest(s, vid, ts)) == ingest_map(map_of(s), vid, ts),
    decreases ts.len(),
{
    if ts.len() > 0 {
        lemma_ingest_map(s, vid, ts.drop_last());
        let prev = spec_ingest(s, vid, ts.drop_last());
        let x = ingested_segment(vid, ts.len() - 1, ts.last());
        lemma_wf_spec_insert(prev, x);
        lemma_map_of_spec_insert(prev, x);
    }
}

/// Where the batch speaks, the result does not depend on what the map held.
proof fn lemma_ingest_map_indep(
    m1: Map<u64, SegModel>,
    m2: Map<u64, SegModel>,
    vid: Seq<char>,
    ts: Seq<TranscriptModel>,
    k: u64,
)
    requires
        batch_has(vid, ts, k),
    ensures
        ingest_map(m1, vid, ts).contains_key(k),
        ingest_map(m2, vid, ts).contains_key(k),
        ingest_map(m1, vid, ts)[k] == ingest_map(m2, vid, ts)[k],
    decreases ts.len(),
{
    let kk = spec_derive_key(vid, (ts.len() - 1) as nat);
    if k != kk {
        assert(batch_has(vid, ts.drop_last(), k)) by {
            let i = choose|i: int| 0 <= i < ts.len() && #[trigger] spec_derive_key(vid, i as nat) == k;
            assert(i < ts.len() - 1);
            assert(0 <= i < ts.drop_last().len() && spec_derive_key(vid, i as nat) == k);
        }
        lemma_ingest_map_indep(m1, m2, vid, ts.drop_last(), k);
    }
}

/// Where the batch is silent, the map entry is untouched.
proof fn lemma_ingest_map_frame(
    m: Map<u64, SegModel>,
    vid: Seq<char>,
    ts: Seq<TranscriptModel>,
    k: u64,
)
    requires
        !batch_has(vid, ts, k),
    ensures
        ingest_map(m, vid, ts).contains_key(k) == m.contains_key(k),
        m.contains_key(k) ==> ingest_map(m, vid, ts)[k] == m[k],
    decreases ts.len(),
{
    if ts.len() > 0 {
        let kk = spec_derive_key(vid, (ts.len() - 1) as nat);
        assert(k != kk) by {
            if k == kk {
                assert(0 <= ts.len() - 1 < ts.len() && spec_derive_key(
                    vid,
                    (ts.len() - 1) as nat,
                ) == k);
            }
        }
        assert(!batch_has(vid, ts.drop_last(), k)) by {
            if batch_has(vid, ts.drop_last(), k) {
                let i = choose|i: int|
                    0 <= i < ts.drop_last().len() && #[trigger] spec_derive_key(vid, i as nat)
                        == k;
                assert(0 <= i < ts.len() && spec_derive_key(vid, i as nat) == k);
            }
        }
        lemma_ingest_map_frame(m, vid, ts.drop_last(), k);
    }
}

/// Idempotence of ingestion: ingesting the same batch twice leaves the same
/// keys with the same records (so also the same index size) as ingesting it
/// once.
pub proof fn lemma_ingest_idempotent(s: Seq<SegModel>, vid: Seq<char>, ts: Seq<TranscriptModel>)
    requires
        wf_entries(s),
    ensures
        map_of(spec_ingest(spec_ingest(s, vid, ts), vid, ts)) == map_of(spec_ingest(s, vid, ts)),
        map_of(spec_ingest(spec_ingest(s, vid, ts), vid, ts)).dom() == map_of(
            spec_ingest(s, vid, ts),
        ).dom(),
{
    lemma_ingest_map(s, vid, ts);
    let once = spec_ingest(s, vid, ts);
    lemma_ingest_map(once, vid, ts);
    let m1 = ingest_map(map_of(s), vid, ts);
    let m2 = ingest_map(m1, vid, ts);
    assert forall|k: u64| m2.contains_key(k) == m1.contains_key(k) by {
        if batch_has(vid, ts, k) {
            lemma_ingest_map_indep(m1, map_of(s), vid, ts, k);
        } else {
            lemma_ingest_map_frame(m1, vid, ts, k);
        }
    }
    assert forall|k: u64| m1.contains_key(k) implies #[trigger] m2[k] == m1[k] by {
        if batch_has(vid, ts, k) {
            lemma_ingest_map_indep(m1, map_of(s), vid, ts, k);
        } else {
            lemma_ingest_map_frame(m1, vid, ts, k);
        }
    }
    assert(m2 =~= m1);
}

/// Deleting one collection leaves every other collection's segments exactly
/// as they were.
pub proof fn lemma_delete_other_collections(s: Seq<SegModel>, vid: Seq<char>, other: Seq<char>)
    requires
        other != vid,
    ensures
        of_video(remove_video(s, vid), other) == of_video(s, other),
    decreases s.len(),
{
    if s.len() > 0 {
        lemma_delete_other_collections(s.drop_last(), vid, other);
        if s.last().video_id != vid {
            assert(remove_video(s, vid).drop_last() =~= remove_video(s.drop_last(), vid));
            assert(remove_video(s, vid).last() == s.last());
        }
    }
}

/// After deleting a collection, it has no segments left.
pub proof fn lemma_delete_removes_all(s: Seq<SegModel>, vid: Seq<char>)
    ensures
        of_video(remove_video(s, vid), vid).len() == 0,
    decreases s.len(),
{
    if s.len() > 0 {
        lemma_delete_removes_all(s.drop_last(), vid);
        if s.last().video_id != vid {
            assert(remove_video(s, vid).drop_last() =~= remove_video(s.drop_last(), vid));
            assert(remove_video(s, vid).last() == s.last());
        }
    }
}

} // verus!
