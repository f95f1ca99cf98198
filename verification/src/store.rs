//! The vector store: orchestrates the similarity index and the metadata
//! table, keeping their key sets in agreement across ingestion, search and
//! deletion. Network and file handling stay outside: the caller hands in
//! embedding vectors and serialized snapshots as plain values and carries the
//! returned values to disk or to the screen.

use vstd::prelude::*;
use vstd::string::StrSliceExecFns;
use vstd::string::StringExecFns;

use crate::index::{
    index_add, index_contains, index_filtered_search, index_load_bytes, index_remove,
    index_reserve, index_save_bytes, index_search, index_size, index_vectors, new_cos_index,
    index_keys,
};
use crate::ids::{distinct_views, insert_id_sorted, sorted_ids, vec_has_id, views_of};
use crate::keys::{derive_key, spec_derive_key};
use crate::segment::{
    models, result_models, result_of, transcript_models, ResultModel, SegModel, SearchResult,
    StoredSegment, TranscriptModel, TranscriptSegment,
};
use crate::sort::{sort_by_start, sort_segments, sorted_by_start};
use crate::table::{
    key_in_video, keys_of, lemma_distinct_keys_in_set, lemma_map_of_dom, lemma_map_of_index,
    lemma_map_of_len, lemma_remove_by_keys, lemma_subset_same_len, map_of, of_video, remove_keys,
    remove_video, spec_insert, spec_insert_all, spec_remove, wf_entries, MetadataTable,
};

verus! {

/// The store's fault taxonomy. Faults of the surrounding application's
/// collaborators (the embedding service, the filesystem) are carried in the
/// variants the application maps them to.
#[derive(Debug)]
pub enum StoreError {
    /// The embedding service could not be reached at all.
    OllamaUnavailable,
    /// The embedding service answered, but not with one vector per text.
    EmbeddingFailed(String),
    /// The similarity index refused an operation.
    Index(String),
    /// The named collection has no segments.
    VideoNotFound(String),
    /// A filesystem fault, mapped by the application.
    Io(String),
    /// The metadata document could not be read or written.
    Json(String),
    /// A transport fault below the embedding service.
    Http(String),
}

/// The record that ingesting position `i` of collection `vid` stores.
pub open spec fn ingested_segment(vid: Seq<char>, i: int, t: TranscriptModel) -> SegModel {
    SegModel {
        video_id: vid,
        index: i,
        start_bits: t.start_bits,
        end_bits: t.end_bits,
        text: t.text,
        key: spec_derive_key(vid, i as nat),
    }
}

/// Table contents after ingesting `ts` into collection `vid`, position by
/// position: each position's record is stored under its derived key,
/// replacing what that key held.
pub open spec fn spec_ingest(s: Seq<SegModel>, vid: Seq<char>, ts: Seq<TranscriptModel>) -> Seq<
    SegModel,
>
    decreases ts.len(),
{
    if ts.len() == 0 {
        s
    } else {
        spec_insert(spec_ingest(s, vid, ts.drop_last()), ingested_segment(vid, ts.len() - 1, ts.last()))
    }
}

/// Does some table entry carry exactly these result fields?
pub open spec fn is_hit(s: Seq<SegModel>, rm: ResultModel) -> bool {
    exists|i: int|
        0 <= i < s.len() && rm.video_id == s[i].video_id && rm.start_bits == s[i].start_bits
            && rm.end_bits == s[i].end_bits && rm.text == s[i].text
}

/// The in-order join of the engine's matches with the table: each matched key
/// the table holds contributes its record paired with that key's reported
/// distance; a key the table does not hold is silently dropped, never a
/// fault.
pub open spec fn spec_join(s: Seq<SegModel>, ks: Seq<u64>, ds: Seq<u32>) -> Seq<ResultModel>
    decreases ks.len(),
{
    if ks.len() == 0 {
        Seq::empty()
    } else {
        let rest = spec_join(s, ks.drop_last(), ds.drop_last());
        if map_of(s).contains_key(ks.last()) {
            rest.push(result_of(map_of(s)[ks.last()], ds.last()))
        } else {
            rest
        }
    }
}

/// When the table holds every matched key, the join drops nothing: one
/// result per key, in the engine's order, carrying that key's record and
/// distance.
pub proof fn lemma_spec_join_total(s: Seq<SegModel>, ks: Seq<u64>, ds: Seq<u32>)
    requires
        ks.len() == ds.len(),
        forall|j: int| 0 <= j < ks.len() ==> map_of(s).contains_key(ks[j]),
    ensures
        spec_join(s, ks, ds).len() == ks.len(),
        forall|j: int|
            0 <= j < ks.len() ==> spec_join(s, ks, ds)[j] == result_of(map_of(s)[ks[j]], ds[j]),
    decreases ks.len(),
{
    if ks.len() > 0 {
        assert forall|j: int|
            0 <= j < ks.drop_last().len() implies map_of(s).contains_key(
            ks.drop_last()[j],
        ) by {
            assert(ks.drop_last()[j] == ks[j]);
        }
        lemma_spec_join_total(s, ks.drop_last(), ds.drop_last());
        assert forall|j: int|
            0 <= j < ks.len() implies spec_join(s, ks, ds)[j] == result_of(
            map_of(s)[ks[j]],
            ds[j],
        ) by {
            if j < ks.len() - 1 {
                assert(ks.drop_last()[j] == ks[j]);
                assert(ds.drop_last()[j] == ds[j]);
            }
        }
    }
}

/// Do the index and the table hold exactly the same keys, one vector per
/// key? Decided by one size comparison and one membership probe per table
/// key: when every probe succeeds the table's keys are a subset of the
/// index's keys, which in turn never outnumber the index's vectors; the
/// vector count equalling the table size then forces both the key sets equal
/// and one vector per key.
fn check_synced(index: &usearch::Index, metadata: &MetadataTable) -> (b: bool)
    requires
        metadata.wf(),
        index_keys(*index).finite(),
        index_keys(*index).len() <= index_vectors(*index),
    ensures
        b == (index_keys(*index) == metadata.as_map().dom() && index_vectors(*index)
            == index_keys(*index).len()),
{
    proof {
        lemma_map_of_len(metadata@);
    }
    let total = index_size(index);
    if total != metadata.len() {
        proof {
            if index_keys(*index) == metadata.as_map().dom() && index_vectors(*index)
                == index_keys(*index).len() {
                assert(index_keys(*index).len() == metadata.as_map().dom().len());
            }
        }
        return false;
    }
    let m = metadata.len();
    for i in 0..m
        invariant
            m == metadata@.len(),
            metadata.wf(),
            forall|j: int| 0 <= j < i ==> index_keys(*index).contains(metadata@[j].key),
    {
        let k = metadata.key_at(i);
        if !index_contains(index, k) {
            proof {
                lemma_map_of_index(metadata@, i as int);
            }
            return false;
        }
    }
    proof {
        assert forall|k: u64| metadata.as_map().dom().contains(k) implies index_keys(
            *index,
        ).contains(k) by {
            lemma_map_of_dom(metadata@, k);
            let j = choose|j: int| 0 <= j < metadata@.len() && metadata@[j].key == k;
            assert(index_keys(*index).contains(metadata@[j].key));
        }
        vstd::set_lib::lemma_len_subset(metadata.as_map().dom(), index_keys(*index));
        assert(index_keys(*index).len() == metadata.as_map().dom().len());
        lemma_subset_same_len(metadata.as_map().dom(), index_keys(*index));
    }
    true
}

/// An open handle: the similarity index and the metadata table, loaded in
/// memory. The handle is the sole owner of both for its lifetime.
pub struct VectorStore {
    index: usearch::Index,
    metadata: MetadataTable,
}

impl View for VectorStore {
    type V = Seq<SegModel>;

    closed spec fn view(&self) -> Seq<SegModel> {
        self.metadata@
    }
}

impl VectorStore {
    /// The similarity index holds exactly the keys of the metadata table,
    /// one vector per key.
    pub closed spec fn index_synced(&self) -> bool {
        self.metadata.wf() && index_keys(self.index) == self.metadata.as_map().dom()
            && index_vectors(self.index) == index_keys(self.index).len()
    }

    /// Invariant of an open store: pairwise-distinct keys, and index and
    /// table never diverge.
    pub open spec fn wf(&self) -> bool {
        wf_entries(self@) && self.index_synced()
    }

    /// Opens a store from its persisted parts: the serialized index snapshot
    /// (absent on first open) and the metadata records. Fails with an index
    /// fault if the engine cannot construct or load the index, or if the
    /// snapshot and the records disagree on their key sets — in particular, a
    /// snapshot whose keys differ from those of the records is always refused,
    /// and a store only opens when the two agree.
    ///
    /// The refusal is deliberate: a directory whose two files were left
    /// half-written by an interrupted persist is reported rather than opened
    /// in a diverged state. The index cannot be rebuilt from the records,
    /// which carry no vectors, and the agreement established here is what
    /// every later operation maintains.
    pub fn open(index_snapshot: Option<&Vec<u8>>, segments: Vec<StoredSegment>) -> (r: Result<
        VectorStore,
        StoreError,
    >)
        ensures
            r matches Ok(s) ==> s.wf() && s@ == spec_insert_all(
                Seq::<SegModel>::empty(),
                models(segments@),
            ),
            r matches Ok(s) ==> (index_snapshot matches Some(b)
                ==> crate::index::snapshot_keys(b@) == map_of(s@).dom()),
            r matches Ok(s) ==> (index_snapshot is None ==> s@.len() == 0),
            (index_snapshot matches Some(b) && crate::index::snapshot_keys(b@) != map_of(
                spec_insert_all(Seq::<SegModel>::empty(), models(segments@)),
            ).dom()) ==> r is Err,
            (index_snapshot is None && map_of(
                spec_insert_all(Seq::<SegModel>::empty(), models(segments@)),
            ).dom() != Set::<u64>::empty()) ==> r is Err,
            r matches Err(e) ==> e is Index,
    {
        let mut index = match new_cos_index() {
            Ok(i) => i,
            Err(m) => { return Err(StoreError::Index(m)) },
        };
        match index_snapshot {
            Some(bytes) => {
                match index_load_bytes(&mut index, bytes) {
                    Ok(u) => u,
                    Err(m) => { return Err(StoreError::Index(m)) },
                }
            },
            None => {},
        }
        assert(index_keys(index).finite());
        let mut metadata = MetadataTable::new();
        let n = segments.len();
        proof {
            assert(models(segments@).take(0) =~= Seq::<SegModel>::empty());
        }
        for i in 0..n
            invariant
                n == segments@.len(),
                metadata.wf(),
                metadata@ == spec_insert_all(
                    Seq::<SegModel>::empty(),
                    models(segments@).take(i as int),
                ),
        {
            proof {
                assert(models(segments@).take(i + 1).drop_last() =~= models(segments@).take(
                    i as int,
                ));
                assert(models(segments@).take(i + 1).last() == segments@[i as int]@);
            }
            metadata.insert(segments[i].clone());
        }
        proof {
            assert(models(segments@).take(n as int) =~= models(segments@));
        }
        if !check_synced(&index, &metadata) {
            return Err(
                StoreError::Index(
                    String::from_str("index snapshot and metadata disagree on their keys"),
                ),
            );
        }
        proof {
            lemma_map_of_len(metadata@);
        }
        Ok(VectorStore { index, metadata })
    }

    /// The number of stored segments (equally: of live index keys).
    pub fn len(&self) -> (n: usize)
        ensures
            n == self@.len(),
    {
        self.metadata.len()
    }

    /// Every stored record, in table order: what the application writes out
    /// as the metadata document.
    pub fn all_segments(&self) -> (r: Vec<StoredSegment>)
        ensures
            models(r@) == self@,
    {
        self.metadata.values()
    }

    /// The serialized snapshot of the similarity index: what the application
    /// writes out as the index file. The snapshot holds exactly the store's
    /// keys — less the one key equal to `u64::MAX`, which the engine cannot
    /// carry through a snapshot (it doubles as its internal tombstone
    /// sentinel) — so reopening from it restores this store whenever no
    /// segment's derived key is that value.
    pub fn index_snapshot(&self) -> (r: Result<Vec<u8>, StoreError>)
        requires
            self.wf(),
        ensures
            r matches Ok(b) ==> crate::index::snapshot_keys(b@) == map_of(self@).dom().remove(
                u64::MAX,
            ),
            r matches Err(e) ==> e is Index,
    {
        match index_save_bytes(&self.index) {
            Ok(b) => Ok(b),
            Err(m) => Err(StoreError::Index(m)),
        }
    }

    /// Embeds nothing itself: the application calls the embedding service
    /// once for the whole batch and hands the vectors in, one per segment.
    /// Stores each segment under its derived key, replacing what an earlier
    /// ingestion of the same collection left at the same position, and keeps
    /// the index in step with the table. Returns the number of segments
    /// ingested; an empty batch is a no-op. A vector count that does not
    /// match the segment count is refused outright.
    pub fn store_transcript(
        &mut self,
        video_id: &str,
        segments: &Vec<TranscriptSegment>,
        embeddings: &Vec<Vec<i8>>,
    ) -> (r: Result<usize, StoreError>)
        requires
            old(self).wf(),
        ensures
            final(self).wf(),
            r matches Ok(cnt) ==> cnt == segments@.len() && final(self)@ == spec_ingest(
                old(self)@,
                video_id@,
                transcript_models(segments@),
            ),
            segments@.len() == 0 ==> (r matches Ok(cnt) && cnt == 0 && final(self)@ == old(self)@),
            r matches Err(e) ==> e is EmbeddingFailed || e is Index,
            r matches Err(e) && e is EmbeddingFailed ==> segments@.len() > 0 && embeddings@.len()
                != segments@.len() && final(self)@ == old(self)@,
            segments@.len() > 0 && embeddings@.len() != segments@.len() ==> (r matches Err(e)
                && e is EmbeddingFailed),
            r matches Err(e) && e is Index ==> exists|j: int|
                0 <= j <= segments@.len() && (final(self)@ == spec_ingest(
                    old(self)@,
                    video_id@,
                    #[trigger] transcript_models(segments@).take(j),
                ) || final(self)@ == spec_remove(
                    spec_ingest(old(self)@, video_id@, transcript_models(segments@).take(j)),
                    spec_derive_key(video_id@, j as nat),
                )),
    {
        let ghost tms = transcript_models(segments@);
        if segments.len() == 0 {
            return Ok(0);
        }
        if embeddings.len() != segments.len() {
            return Err(
                StoreError::EmbeddingFailed(
                    String::from_str("embedding count does not match segment count"),
                ),
            );
        }
        let n = segments.len();
        let cur = index_size(&self.index);
        let capacity = if cur <= usize::MAX - n {
            cur + n
        } else {
            usize::MAX
        };
        match index_reserve(&mut self.index, capacity) {
            Ok(u) => u,
            Err(m) => {
                proof {
                    assert(tms.take(0) =~= Seq::<TranscriptModel>::empty());
                    assert(self.metadata@ == spec_ingest(old(self)@, video_id@, tms.take(0)));
                }
                return Err(StoreError::Index(m));
            },
        }
        proof {
            assert(tms.take(0) =~= Seq::<TranscriptModel>::empty());
            lemma_map_of_len(self.metadata@);
        }
        for i in 0..n
            invariant
                n == segments@.len(),
                n == embeddings@.len(),
                self.metadata.wf(),
                index_keys(self.index) == self.metadata.as_map().dom(),
                index_keys(self.index).finite(),
                index_vectors(self.index) == index_keys(self.index).len(),
                self.metadata@ == spec_ingest(old(self)@, video_id@, tms.take(i as int)),
                tms == transcript_models(segments@),
        {
            let key = derive_key(video_id, i);
            let ghost pre_keys = index_keys(self.index);
            let ghost pre_vecs = index_vectors(self.index);
            let ghost pre_seq = self.metadata@;
            if index_contains(&self.index, key) {
                match index_remove(&mut self.index, key) {
                    Ok(c) => c,
                    Err(m) => {
                        proof {
                            assert(self.metadata@ == spec_ingest(
                                old(self)@,
                                video_id@,
                                tms.take(i as int),
                            ));
                        }
                        return Err(StoreError::Index(m));
                    },
                };
            }
            proof {
                assert(index_keys(self.index) =~= pre_keys.remove(key));
                assert(index_vectors(self.index) == index_keys(self.index).len());
            }
            match index_add(&mut self.index, key, &embeddings[i]) {
                Ok(u) => u,
                Err(m) => {
                    self.metadata.remove(key);
                    proof {
                        lemma_map_of_dom(pre_seq, key);
                        assert(index_keys(self.index) =~= self.metadata.as_map().dom());
                        assert(self.metadata@ == spec_remove(
                            spec_ingest(old(self)@, video_id@, tms.take(i as int)),
                            spec_derive_key(video_id@, i as nat),
                        ));
                    }
                    return Err(StoreError::Index(m));
                },
            }
            let seg = StoredSegment {
                video_id: video_id.to_owned(),
                index: i,
                start_bits: segments[i].start_bits,
                end_bits: segments[i].end_bits,
                text: segments[i].text.clone(),
                key,
            };
            proof {
                assert(seg@ =~= ingested_segment(video_id@, i as int, tms[i as int]));
            }
            self.metadata.insert(seg);
            proof {
                assert(index_keys(self.index) =~= self.metadata.as_map().dom());
                assert(tms.take(i + 1).drop_last() =~= tms.take(i as int));
                assert(tms.take(i + 1).last() == tms[i as int]);
                assert(self.metadata@ == spec_ingest(old(self)@, video_id@, tms.take(i + 1)));
            }
        }
        proof {
            assert(tms.take(n as int) =~= tms);
        }
        Ok(n)
    }

    /// All segments of a collection, sorted ascending by start time. An
    /// unknown or empty collection is a not-found fault.
    pub fn get_segments(&self, video_id: &str) -> (r: Result<Vec<StoredSegment>, StoreError>)
        ensures
            r matches Ok(res) ==> of_video(self@, video_id@).len() > 0 && models(res@)
                == sort_by_start(of_video(self@, video_id@)) && sorted_by_start(models(res@)),
            r matches Err(e) ==> e matches StoreError::VideoNotFound(v) && v@ == video_id@
                && of_video(self@, video_id@).len() == 0,
    {
        let segs = self.metadata.segments_of_video(video_id);
        if segs.len() == 0 {
            return Err(StoreError::VideoNotFound(video_id.to_owned()));
        }
        proof {
            crate::sort::lemma_sort_by_start(of_video(self@, video_id@));
        }
        Ok(sort_segments(segs))
    }


    /// Removes every segment of a collection from both the index and the
    /// table, and returns how many were removed. A collection with no
    /// segments is a not-found fault, and the store is left as it was.
    pub fn delete_video(&mut self, video_id: &str) -> (r: Result<usize, StoreError>)
        requires
            old(self).wf(),
        ensures
            final(self).wf(),
            r matches Ok(cnt) ==> cnt == of_video(old(self)@, video_id@).len() && cnt > 0
                && final(self)@ == remove_video(old(self)@, video_id@),
            r matches Err(e) ==> e is VideoNotFound || e is Index,
            r matches Err(e) ==> (e matches StoreError::VideoNotFound(v) ==> v@ == video_id@
                && final(self)@ == old(self)@ && of_video(old(self)@, video_id@).len() == 0),
            of_video(old(self)@, video_id@).len() == 0 ==> (r matches Err(e)
                && e is VideoNotFound),
            r matches Err(e) && e is Index ==> exists|j: int|
                0 <= j <= of_video(old(self)@, video_id@).len() && final(self)@ == remove_keys(
                    old(self)@,
                    #[trigger] keys_of(of_video(old(self)@, video_id@)).take(j),
                ),
    {
        let ks = self.metadata.keys_of_video(video_id);
        if ks.len() == 0 {
            return Err(StoreError::VideoNotFound(video_id.to_owned()));
        }
        let cnt = ks.len();
        let ghost orig = self.metadata@;
        proof {
            assert(keys_of(of_video(orig, video_id@)).len() == of_video(orig, video_id@).len());
            lemma_map_of_len(self.metadata@);
        }
        for j in 0..cnt
            invariant
                cnt == ks@.len(),
                cnt > 0,
                orig == old(self)@,
                cnt == of_video(orig, video_id@).len(),
                ks@ == keys_of(of_video(orig, video_id@)),
                self.metadata.wf(),
                index_keys(self.index) == self.metadata.as_map().dom(),
                index_keys(self.index).finite(),
                index_vectors(self.index) == index_keys(self.index).len(),
                self.metadata@ == remove_keys(orig, ks@.take(j as int)),
        {
            match index_remove(&mut self.index, ks[j]) {
                Ok(u) => u,
                Err(m) => {
                    proof {
                        assert(self.metadata@ == remove_keys(
                            old(self)@,
                            keys_of(of_video(old(self)@, video_id@)).take(j as int),
                        ));
                    }
                    return Err(StoreError::Index(m));
                },
            };
            self.metadata.remove(ks[j]);
            proof {
                assert(index_keys(self.index) =~= self.metadata.as_map().dom());
                assert(ks@.take(j + 1).drop_last() =~= ks@.take(j as int));
                assert(ks@.take(j + 1).last() == ks@[j as int]);
                assert(self.metadata@ == remove_keys(orig, ks@.take(j + 1)));
            }
        }
        proof {
            assert(ks@.take(cnt as int) =~= ks@);
            lemma_remove_by_keys(orig, video_id@);
        }
        Ok(cnt)
    }


    /// The distinct collection ids across all stored segments, in the
    /// lexicographic order of their UTF-8 encodings.
    pub fn get_video_ids(&self) -> (r: Vec<String>)
        ensures
            sorted_ids(views_of(r@)),
            distinct_views(views_of(r@)),
            forall|v: Seq<char>|
                views_of(r@).contains(v) == (exists|t: int|
                    0 <= t < self@.len() && self@[t].video_id == v),
    {
        let mut ids: Vec<String> = Vec::new();
        let n = self.metadata.len();
        for i in 0..n
            invariant
                n == self@.len(),
                distinct_views(views_of(ids@)),
                forall|v: Seq<char>|
                    views_of(ids@).contains(v) == (exists|t: int|
                        0 <= t < i && self@[t].video_id == v),
        {
            let e = self.metadata.entry_at(i);
            let ghost before = views_of(ids@);
            if !vec_has_id(&ids, &e.video_id) {
                ids.push(e.video_id.clone());
                proof {
                    assert forall|v: Seq<char>|
                        views_of(ids@).contains(v) == (before.contains(v) || v == self@[i as int].video_id) by {
                        if before.contains(v) {
                            let k = choose|k: int| 0 <= k < before.len() && before[k] == v;
                            assert(views_of(ids@)[k] == v);
                        }
                        if v == self@[i as int].video_id {
                            assert(views_of(ids@)[before.len() as int] == v);
                        }
                        if views_of(ids@).contains(v) {
                            let k = choose|k: int|
                                0 <= k < views_of(ids@).len() && views_of(ids@)[k] == v;
                            if k < before.len() {
                                assert(before[k] == v);
                            }
                        }
                    }
                    assert forall|a: int, b: int|
                        0 <= a < b < views_of(ids@).len() implies views_of(ids@)[a] != views_of(
                        ids@,
                    )[b] by {
                        if b < before.len() {
                            assert(views_of(ids@)[a] == before[a] && views_of(ids@)[b]
                                == before[b]);
                        } else {
                            assert(views_of(ids@)[a] == before[a]);
                            assert(before.contains(before[a]));
                        }
                    }
                }
            }
            proof {
                assert forall|v: Seq<char>|
                    views_of(ids@).contains(v) == (exists|t: int|
                        0 <= t < i + 1 && self@[t].video_id == v) by {
                    if views_of(ids@).contains(v) {
                        if before.contains(v) {
                            let t = choose|t: int| 0 <= t < i && self@[t].video_id == v;
                            assert(0 <= t < i + 1 && self@[t].video_id == v);
                        } else {
                            assert(self@[i as int].video_id == v);
                        }
                    }
                    if exists|t: int| 0 <= t < i + 1 && self@[t].video_id == v {
                        let t = choose|t: int| 0 <= t < i + 1 && self@[t].video_id == v;
                        if t < i {
                            assert(before.contains(v));
                            let k = choose|k: int| 0 <= k < before.len() && before[k] == v;
                            if ids@.len() > before.len() {
                                assert(views_of(ids@)[k] == v);
                            }
                        }
                    }
                }
            }
        }
        let mut out: Vec<String> = Vec::new();
        let m = ids.len();
        for i in 0..m
            invariant
                m == ids@.len(),
                sorted_ids(views_of(out@)),
                distinct_views(views_of(out@)),
                distinct_views(views_of(ids@)),
                forall|v: Seq<char>|
                    views_of(ids@).contains(v) == (exists|t: int|
                        0 <= t < self@.len() && self@[t].video_id == v),
                forall|v: Seq<char>|
                    views_of(out@).contains(v) == views_of(ids@).take(i as int).contains(v),
        {
            let x = ids[i].clone();
            proof {
                assert(views_of(ids@)[i as int] == ids@[i as int]@);
                assert(!views_of(out@).contains(x@)) by {
                    if views_of(out@).contains(x@) {
                        let k = choose|k: int|
                            0 <= k < i && views_of(ids@).take(i as int)[k] == x@;
                        assert(views_of(ids@)[k] == views_of(ids@)[i as int]);
                    }
                }
            }
            let ghost before_out = views_of(out@);
            out = insert_id_sorted(out, x);
            proof {
                assert forall|v: Seq<char>|
                    views_of(out@).contains(v) == views_of(ids@).take(i + 1).contains(v) by {
                    if views_of(out@).contains(v) {
                        if before_out.contains(v) {
                            let k = choose|k: int|
                                0 <= k < i && views_of(ids@).take(i as int)[k] == v;
                            assert(views_of(ids@).take(i + 1)[k] == v);
                        } else {
                            assert(views_of(ids@).take(i + 1)[i as int] == v);
                        }
                    }
                    if views_of(ids@).take(i + 1).contains(v) {
                        let k = choose|k: int|
                            0 <= k < i + 1 && #[trigger] views_of(ids@).take(i + 1)[k] == v;
                        if k < i {
                            assert(views_of(ids@).take(i as int)[k] == v);
                        } else {
                            assert(v == views_of(ids@)[i as int]);
                        }
                    }
                }
            }
        }
        proof {
            assert forall|v: Seq<char>|
                views_of(out@).contains(v) == views_of(ids@).contains(v) by {
                assert(views_of(ids@).take(m as int) =~= views_of(ids@));
            }
        }
        out
    }

    /// Joins the engine's matches with the table, in the engine's order:
    /// each matched key the table holds is reported with its stored record
    /// and that key's distance; a key missing from the table is silently
    /// dropped rather than faulting (an open store's invariant rules the
    /// case out).
    pub fn join_matches(&self, keys: &Vec<u64>, distances: &Vec<u32>) -> (r: Vec<SearchResult>)
        requires
            self.wf(),
            keys@.len() == distances@.len(),
        ensures
            result_models(r@) == spec_join(self@, keys@, distances@),
    {
        let mut r: Vec<SearchResult> = Vec::new();
        let count = keys.len();
        proof {
            assert(result_models(r@) =~= spec_join(self@, keys@.take(0), distances@.take(0)));
        }
        for j in 0..count
            invariant
                self.wf(),
                count == keys@.len(),
                count == distances@.len(),
                result_models(r@) == spec_join(
                    self@,
                    keys@.take(j as int),
                    distances@.take(j as int),
                ),
        {
            match self.metadata.get(keys[j]) {
                Some(seg) => {
                    let hit = SearchResult {
                        video_id: seg.video_id.clone(),
                        start_bits: seg.start_bits,
                        end_bits: seg.end_bits,
                        text: seg.text.clone(),
                        distance_bits: distances[j],
                    };
                    proof {
                        assert(hit@ =~= result_of(map_of(self@)[keys@[j as int]], distances@[
                            j as int
                        ]));
                    }
                    r.push(hit);
                },
                None => {},
            }
            proof {
                assert(keys@.take(j + 1).drop_last() =~= keys@.take(j as int));
                assert(distances@.take(j + 1).drop_last() =~= distances@.take(j as int));
                assert(keys@.take(j + 1).last() == keys@[j as int]);
                assert(distances@.take(j + 1).last() == distances@[j as int]);
                assert(result_models(r@) =~= spec_join(
                    self@,
                    keys@.take(j + 1),
                    distances@.take(j + 1),
                ));
            }
        }
        proof {
            assert(keys@.take(count as int) =~= keys@);
            assert(distances@.take(count as int) =~= distances@);
        }
        r
    }

    /// Searches with an already-embedded query vector for the `n` closest
    /// stored segments, optionally only within one collection; the caller
    /// embeds the query, the library itself never contacts the embedding
    /// provider. An empty store answers with an empty result directly,
    /// consulting neither the engine nor anything else. Results
    /// come back in the engine's order, closest first (ascending distance,
    /// read off the bit patterns wherever their sign bit is clear), each
    /// matched key joined with its stored record via `join_matches`, so there
    /// are never more results than stored segments.
    pub fn search(
        &self,
        query: &Vec<i8>,
        n: usize,
        video_id_filter: Option<&str>,
    ) -> (r: Result<Vec<SearchResult>, StoreError>)
        requires
            self.wf(),
        ensures
            self@.len() == 0 ==> (r matches Ok(res) && res@.len() == 0),
            r matches Ok(res) ==> res@.len() <= n && res@.len() <= self@.len() && forall|j: int|
                0 <= j < res@.len() ==> is_hit(self@, res@[j]@) && (video_id_filter matches Some(v)
                    ==> res@[j]@.video_id == v@),
            r matches Ok(res) ==> forall|a: int, b: int|
                0 <= a < b < res@.len() && res@[a]@.distance_bits < 0x80000000u32
                    ==> res@[b]@.distance_bits < 0x80000000u32 && res@[a]@.distance_bits <= res@[
                b]@.distance_bits,
            r matches Err(e) ==> e is Index && self@.len() > 0,
    {
        proof {
            lemma_map_of_len(self@);
        }
        let total = index_size(&self.index);
        if total == 0 {
            return Ok(Vec::new());
        }
        let found = match video_id_filter {
            Some(vid) => index_filtered_search(&self.index, query, n, &self.metadata, vid),
            None => index_search(&self.index, query, n),
        };
        let (ks, ds) = match found {
            Ok(m) => m,
            Err(m) => { return Err(StoreError::Index(m)) },
        };
        proof {
            assert forall|t: int| 0 <= t < ks@.len() implies map_of(self@).contains_key(
                ks@[t],
            ) by {
                lemma_map_of_dom(self@, ks@[t]);
            }
        }
        let res = self.join_matches(&ks, &ds);
        proof {
            lemma_spec_join_total(self@, ks@, ds@);
            assert(res@.len() == ks@.len());
            lemma_distinct_keys_in_set(ks@, map_of(self@).dom());
            assert forall|j: int|
                0 <= j < res@.len() implies is_hit(self@, res@[j]@) && (
            video_id_filter matches Some(v) ==> res@[j]@.video_id == v@) by {
                let k = ks@[j];
                lemma_map_of_dom(self@, k);
                let i = choose|i: int|
                    0 <= i < self@.len() && self@[i].key == k && (video_id_filter matches Some(v)
                        ==> self@[i].video_id == v@);
                lemma_map_of_index(self@, i);
                assert(result_models(res@)[j] == res@[j]@);
                assert(result_models(res@)[j] == spec_join(self@, ks@, ds@)[j]);
                assert(res@[j]@ == result_of(map_of(self@)[k], ds@[j]));
            }
            assert forall|j: int| 0 <= j < res@.len() implies #[trigger] res@[j]@.distance_bits
                == ds@[j] by {
                assert(result_models(res@)[j] == res@[j]@);
                assert(result_models(res@)[j] == spec_join(self@, ks@, ds@)[j]);
                assert(res@[j]@ == result_of(map_of(self@)[ks@[j]], ds@[j]));
            }
        }
        Ok(res)
    }
}

} // verus!
