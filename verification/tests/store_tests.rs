use sawt::segment::TranscriptSegment;
use sawt::store::{StoreError, VectorStore};

const DIM: usize = 768;

/// A deterministic stub embedding: a unit-scale vector leaning on axis `axis`.
fn stub_vector(axis: usize) -> Vec<i8> {
    let mut v = vec![0i8; DIM];
    v[axis % DIM] = 127;
    v[(axis + 1) % DIM] = 13;
    v
}

fn seg(start: f64, end: f64, text: &str) -> TranscriptSegment {
    TranscriptSegment {
        start_bits: start.to_bits(),
        end_bits: end.to_bits(),
        text: text.to_string(),
    }
}

fn fresh_store() -> VectorStore {
    VectorStore::open(None, Vec::new()).unwrap()
}

#[test]
fn empty_store_search_returns_empty() {
    let store = fresh_store();
    let res = store.search(&stub_vector(0), 5, None).unwrap();
    assert!(res.is_empty());
}

#[test]
fn store_transcript_empty_batch_is_noop() {
    let mut store = fresh_store();
    let n = store
        .store_transcript("vid1", &Vec::new(), &Vec::new())
        .unwrap();
    assert_eq!(n, 0);
    assert_eq!(store.len(), 0);
}

#[test]
fn store_transcript_count_mismatch_fails() {
    let mut store = fresh_store();
    let segs = vec![seg(0.0, 1.0, "hello"), seg(1.0, 2.0, "world")];
    let embeds = vec![stub_vector(0)];
    let e = store.store_transcript("vid1", &segs, &embeds).unwrap_err();
    assert!(matches!(e, StoreError::EmbeddingFailed(_)));
    assert_eq!(store.len(), 0);
}

#[test]
fn ingest_and_retrieve_scenario() {
    let mut store = fresh_store();
    let segs = vec![seg(1.0, 1.5, "hello"), seg(2.0, 2.5, "world")];
    let embeds = vec![stub_vector(0), stub_vector(10)];
    let n = store.store_transcript("vid1", &segs, &embeds).unwrap();
    assert_eq!(n, 2);
    let res = store.search(&stub_vector(0), 1, None).unwrap();
    assert_eq!(res.len(), 1);
    assert_eq!(res[0].text, "hello");
    assert_eq!(res[0].video_id, "vid1");
    assert_eq!(f64::from_bits(res[0].start_bits), 1.0);
}

#[test]
fn ingest_twice_is_idempotent() {
    let mut store = fresh_store();
    let segs = vec![seg(1.0, 1.5, "hello"), seg(2.0, 2.5, "world")];
    let embeds = vec![stub_vector(0), stub_vector(10)];
    store.store_transcript("vid1", &segs, &embeds).unwrap();
    let len_once = store.len();
    let texts_once: Vec<String> = store
        .get_segments("vid1")
        .unwrap()
        .iter()
        .map(|s| s.text.clone())
        .collect();
    store.store_transcript("vid1", &segs, &embeds).unwrap();
    assert_eq!(store.len(), len_once);
    let texts_twice: Vec<String> = store
        .get_segments("vid1")
        .unwrap()
        .iter()
        .map(|s| s.text.clone())
        .collect();
    assert_eq!(texts_once, texts_twice);
}

#[test]
fn save_then_load_round_trip() {
    let mut store = fresh_store();
    let segs = vec![seg(3.0, 4.0, "first"), seg(1.0, 2.0, "second")];
    let embeds = vec![stub_vector(3), stub_vector(40)];
    store.store_transcript("vid1", &segs, &embeds).unwrap();
    let snapshot = store.index_snapshot().unwrap();
    let records = store.all_segments();
    let reloaded = VectorStore::open(Some(&snapshot), records).unwrap();
    let before: Vec<(u64, String)> = store
        .get_segments("vid1")
        .unwrap()
        .iter()
        .map(|s| (s.start_bits, s.text.clone()))
        .collect();
    let after: Vec<(u64, String)> = reloaded
        .get_segments("vid1")
        .unwrap()
        .iter()
        .map(|s| (s.start_bits, s.text.clone()))
        .collect();
    assert_eq!(before, after);
    assert_eq!(store.len(), reloaded.len());
    let res = reloaded.search(&stub_vector(3), 1, None).unwrap();
    assert_eq!(res[0].text, "first");
}

#[test]
fn open_refuses_mismatched_parts() {
    let mut store = fresh_store();
    let segs = vec![seg(0.0, 1.0, "hello")];
    let embeds = vec![stub_vector(0)];
    store.store_transcript("vid1", &segs, &embeds).unwrap();
    let records = store.all_segments();
    // Records without the index snapshot that goes with them.
    match VectorStore::open(None, records) {
        Ok(_) => panic!("open accepted records without their index snapshot"),
        Err(e) => assert!(matches!(e, StoreError::Index(_))),
    }
}

#[test]
fn filtered_search_stays_in_collection() {
    let mut store = fresh_store();
    let a = vec![seg(0.0, 1.0, "alpha one"), seg(1.0, 2.0, "alpha two")];
    let b = vec![seg(0.0, 1.0, "beta one"), seg(1.0, 2.0, "beta two")];
    let ea = vec![stub_vector(0), stub_vector(5)];
    let eb = vec![stub_vector(0), stub_vector(5)];
    store.store_transcript("a", &a, &ea).unwrap();
    store.store_transcript("b", &b, &eb).unwrap();
    for axis in [0usize, 5, 100] {
        let res = store.search(&stub_vector(axis), 10, Some("a")).unwrap();
        for r in &res {
            assert_eq!(r.video_id, "a");
        }
    }
    let res = store.search(&stub_vector(0), 10, Some("a")).unwrap();
    assert!(!res.is_empty());
}

#[test]
fn get_segments_sorted_by_start() {
    let mut store = fresh_store();
    let segs = vec![
        seg(12.0, 13.0, "late"),
        seg(3.5, 4.0, "early"),
        seg(7.0, 8.0, "middle"),
    ];
    let embeds = vec![stub_vector(1), stub_vector(2), stub_vector(3)];
    store.store_transcript("vid1", &segs, &embeds).unwrap();
    let got = store.get_segments("vid1").unwrap();
    let starts: Vec<f64> = got.iter().map(|s| f64::from_bits(s.start_bits)).collect();
    assert_eq!(starts, vec![3.5, 7.0, 12.0]);
}

#[test]
fn get_segments_unknown_collection_is_not_found() {
    let store = fresh_store();
    let e = store.get_segments("missing").unwrap_err();
    assert!(matches!(e, StoreError::VideoNotFound(v) if v == "missing"));
}

#[test]
fn get_video_ids_distinct_sorted() {
    let mut store = fresh_store();
    let segs = vec![seg(0.0, 1.0, "x")];
    store
        .store_transcript("zeta", &segs, &vec![stub_vector(1)])
        .unwrap();
    store
        .store_transcript("alpha", &segs, &vec![stub_vector(2)])
        .unwrap();
    store
        .store_transcript("mu", &segs, &vec![stub_vector(3)])
        .unwrap();
    assert_eq!(store.get_video_ids(), vec!["alpha", "mu", "zeta"]);
}

#[test]
fn delete_collection_removes_exactly_its_segments() {
    let mut store = fresh_store();
    let a = vec![seg(0.0, 1.0, "a0"), seg(1.0, 2.0, "a1")];
    let b = vec![seg(0.0, 1.0, "b0")];
    store
        .store_transcript("a", &a, &vec![stub_vector(0), stub_vector(1)])
        .unwrap();
    store
        .store_transcript("b", &b, &vec![stub_vector(2)])
        .unwrap();
    let removed = store.delete_video("a").unwrap();
    assert_eq!(removed, 2);
    assert_eq!(store.len(), 1);
    assert!(store.get_segments("a").is_err());
    assert_eq!(store.get_segments("b").unwrap().len(), 1);
    let again = store.delete_video("a").unwrap_err();
    assert!(matches!(again, StoreError::VideoNotFound(_)));
}

#[test]
fn search_results_come_closest_first() {
    let mut store = fresh_store();
    let segs = vec![seg(0.0, 1.0, "near"), seg(1.0, 2.0, "far")];
    let mut near = vec![0i8; DIM];
    near[0] = 127;
    let mut far = vec![0i8; DIM];
    far[300] = 127;
    store
        .store_transcript("vid1", &segs, &vec![near.clone(), far])
        .unwrap();
    let res = store.search(&near, 2, None).unwrap();
    assert_eq!(res.len(), 2);
    assert_eq!(res[0].text, "near");
    assert!(f32::from_bits(res[0].distance_bits) <= f32::from_bits(res[1].distance_bits));
}

#[test]
fn shrinking_reingestion_keeps_stale_positions() {
    // Re-ingesting a collection with fewer segments does not prune metadata
    // for the trailing positions of the earlier, longer ingestion.
    let mut store = fresh_store();
    let long = vec![seg(0.0, 1.0, "one"), seg(1.0, 2.0, "two")];
    store
        .store_transcript("vid1", &long, &vec![stub_vector(0), stub_vector(1)])
        .unwrap();
    let short = vec![seg(0.0, 1.0, "one prime")];
    store
        .store_transcript("vid1", &short, &vec![stub_vector(2)])
        .unwrap();
    let got = store.get_segments("vid1").unwrap();
    assert_eq!(got.len(), 2);
    let texts: Vec<&str> = got.iter().map(|s| s.text.as_str()).collect();
    assert_eq!(texts, vec!["one prime", "two"]);
}

#[test]
fn empty_store_round_trips() {
    let store = fresh_store();
    let snapshot = store.index_snapshot().unwrap();
    let reloaded = VectorStore::open(Some(&snapshot), store.all_segments()).unwrap();
    assert_eq!(reloaded.len(), 0);
    assert!(reloaded.get_video_ids().is_empty());
}
