//! Trusted adapter over the approximate-nearest-neighbor engine (the
//! `usearch` crate). The index is opaque to the verifier; its live key set is
//! named by `index_keys`, and each wrapper states over that name what the
//! engine's source shows for the one call its body makes.
//!
//! A vector crosses this boundary as its components quantized to `i8` (the
//! engine casts them to its 32-bit storage scalars on entry). Cosine distance
//! is scale-invariant, so quantizing every component to the -127..=127 range
//! preserves the ranking the provider's unit-scale floats would give, up to
//! quantization error. A reported distance crosses back as the bit pattern of
//! the engine's 32-bit float, in a `u32`.

use vstd::prelude::*;

use crate::table::key_in_video;
use crate::table::MetadataTable;

verus! {

/// Vector dimension fixed at construction.
pub const EMBEDDING_DIM: usize = 768;

#[verifier::external_type_specification]
#[verifier::external_body]
pub struct ExIndex(usearch::Index);

/// The set of keys live in an index value.
pub uninterp spec fn index_keys(i: usearch::Index) -> Set<u64>;

/// The number of live vectors in an index value. The engine can hold several
/// vectors under one key when a state written by other software (multi-vector
/// mode, or with key lookups disabled) is loaded from a snapshot; every index
/// this crate builds holds one vector per key, which is exactly the states
/// with `index_vectors(i) == index_keys(i).len()`. The clauses below that
/// need one vector per key are conditioned on that equation.
pub uninterp spec fn index_vectors(i: usearch::Index) -> nat;

/// The set of keys a serialized index snapshot holds.
pub uninterp spec fn snapshot_keys(bytes: Seq<u8>) -> Set<u64>;

/// Relies on usearch::Index::new: a freshly constructed index holds no keys.
/// Configuration per the store's design: 768 dimensions, cosine metric,
/// 32-bit float storage, connectivity 16, expansions 128/64, one vector per
/// key.
#[verifier::external_body]
pub(crate) fn new_cos_index() -> (r: Result<usearch::Index, String>)
    ensures
        r matches Ok(i) ==> index_keys(i) == Set::<u64>::empty() && index_vectors(i) == 0,
{
    let options = usearch::IndexOptions {
        dimensions: EMBEDDING_DIM,
        metric: usearch::MetricKind::Cos,
        quantization: usearch::ScalarKind::F32,
        connectivity: 16,
        expansion_add: 128,
        expansion_search: 64,
        multi: false,
    };
    usearch::Index::new(&options).map_err(|e| e.what().to_string())
}

/// Relies on usearch::Index::size: the number of live vectors (added and not
/// since removed); every live key holds at least one, so the live keys are
/// finitely many and never outnumber the vectors.
#[verifier::external_body]
pub(crate) fn index_size(i: &usearch::Index) -> (n: usize)
    ensures
        n == index_vectors(*i) && index_keys(*i).len() <= n,
{
    i.size()
}

/// Relies on usearch::Index::contains: whether a key is live.
#[verifier::external_body]
pub(crate) fn index_contains(i: &usearch::Index, key: u64) -> (b: bool)
    ensures
        b == index_keys(*i).contains(key),
{
    i.contains(key)
}

/// Relies on usearch::Index::reserve: capacity changes, the contents do not,
/// whether or not the call succeeds.
#[verifier::external_body]
pub(crate) fn index_reserve(i: &mut usearch::Index, capacity: usize) -> (r: Result<(), String>)
    ensures
        index_keys(*final(i)) == index_keys(*old(i)),
        index_vectors(*final(i)) == index_vectors(*old(i)),
{
    i.reserve(capacity).map_err(|e| e.what().to_string())
}

/// Relies on usearch::Index::add: on success the key becomes live; every
/// failure (duplicate key, missing capacity, bad dimension, allocation) is
/// reported before the engine registers the key, leaving the key set as it
/// was.
#[verifier::external_body]
pub(crate) fn index_add(i: &mut usearch::Index, key: u64, vector: &Vec<i8>) -> (r: Result<
    (),
    String,
>)
    ensures
        r is Ok ==> index_keys(*final(i)) == index_keys(*old(i)).insert(key) && index_vectors(
            *final(i),
        ) == index_vectors(*old(i)) + 1,
        r is Err ==> index_keys(*final(i)) == index_keys(*old(i)) && index_vectors(*final(i))
            == index_vectors(*old(i)),
{
    i.add(key, vector.as_slice()).map_err(|e| e.what().to_string())
}

/// Relies on usearch::Index::remove: on success the key is no longer live,
/// the count of vectors dropped is returned (zero exactly when the key was
/// absent; one per key where the index holds one vector per key), and a
/// missing key is a successful no-op; failures are reported before any entry
/// is dropped.
#[verifier::external_body]
pub(crate) fn index_remove(i: &mut usearch::Index, key: u64) -> (r: Result<usize, String>)
    ensures
        r matches Ok(n) ==> index_keys(*final(i)) == index_keys(*old(i)).remove(key)
            && index_vectors(*old(i)) == index_vectors(*final(i)) + n && ((n == 0)
            == !index_keys(*old(i)).contains(key)),
        r matches Ok(n) ==> (index_vectors(*old(i)) == index_keys(*old(i)).len() ==> n == (
        if index_keys(*old(i)).contains(key) {
            1int
        } else {
            0int
        })),
        r is Err ==> index_keys(*final(i)) == index_keys(*old(i)) && index_vectors(*final(i))
            == index_vectors(*old(i)),
{
    i.remove(key).map_err(|e| e.what().to_string())
}

/// Relies on usearch::Index::search: at most `count` matches, each a live
/// key (pairwise distinct wherever the index holds one vector per key) paired
/// with its reported distance, sorted
/// ascending by distance, closest first. A cosine distance is almost always
/// non-negative (its float can dip a hair below zero through rounding); for
/// two distances whose bit patterns have a clear sign bit, the unsigned order
/// of the patterns is the float order, so the patterns come back ascending
/// wherever the sign bit is clear, and no sign-set pattern follows a clear
/// one.
#[verifier::external_body]
pub(crate) fn index_search(i: &usearch::Index, query: &Vec<i8>, count: usize) -> (r: Result<
    (Vec<u64>, Vec<u32>),
    String,
>)
    ensures
        r matches Ok(m) ==> m.0.len() == m.1.len() && m.0.len() <= count && forall|j: int|
            0 <= j < m.0.len() ==> index_keys(*i).contains(m.0[j]),
        r matches Ok(m) ==> (index_vectors(*i) == index_keys(*i).len() ==> forall|a: int, b: int|
            0 <= a < b < m.0.len() ==> m.0[a] != m.0[b]),
        r matches Ok(m) ==> forall|a: int, b: int|
            0 <= a < b < m.1.len() && m.1[a] < 0x80000000u32 ==> m.1[b] < 0x80000000u32 && m.1[a]
                <= m.1[b],
{
    let m = i.search(query.as_slice(), count).map_err(|e| e.what().to_string())?;
    let dist_bits: Vec<u32> = m.distances.iter().map(|d| d.to_bits()).collect();
    Ok((m.keys, dist_bits))
}

/// Relies on usearch::Index::filtered_search: as `search` (including the
/// distinctness and ascending-distance order of the matches), but a match is
/// only returned if the predicate accepted its key; the predicate handed over
/// asks the metadata table whether the key belongs to the given collection.
#[verifier::external_body]
pub(crate) fn index_filtered_search(
    i: &usearch::Index,
    query: &Vec<i8>,
    count: usize,
    table: &MetadataTable,
    video_id: &str,
) -> (r: Result<(Vec<u64>, Vec<u32>), String>)
    ensures
        r matches Ok(m) ==> m.0.len() == m.1.len() && m.0.len() <= count && forall|j: int|
            0 <= j < m.0.len() ==> index_keys(*i).contains(m.0[j]) && key_in_video(
                table@,
                m.0[j],
                video_id@,
            ),
        r matches Ok(m) ==> (index_vectors(*i) == index_keys(*i).len() ==> forall|a: int, b: int|
            0 <= a < b < m.0.len() ==> m.0[a] != m.0[b]),
        r matches Ok(m) ==> forall|a: int, b: int|
            0 <= a < b < m.1.len() && m.1[a] < 0x80000000u32 ==> m.1[b] < 0x80000000u32 && m.1[a]
                <= m.1[b],
{
    let m = i
        .filtered_search(query.as_slice(), count, |key| table.key_has_video(key, video_id))
        .map_err(|e| e.what().to_string())?;
    let dist_bits: Vec<u32> = m.distances.iter().map(|d| d.to_bits()).collect();
    Ok((m.keys, dist_bits))
}

/// Relies on usearch::Index::serialized_length and save_to_buffer: where the
/// index holds one vector per key (every state this crate builds), the
/// serialized snapshot holds exactly the live keys — except the one key equal
/// to `u64::MAX`, which the engine also uses internally as its tombstone
/// sentinel: a live entry under that exact key is written indistinguishably
/// from a freed slot, and a reload drops it. So the snapshot's keys are the
/// live keys less that sentinel value. Nothing is promised of saving a
/// foreign many-vectors-per-key or orphaned-slot state, whose serialization
/// need not mirror the live key set.
#[verifier::external_body]
pub(crate) fn index_save_bytes(i: &usearch::Index) -> (r: Result<Vec<u8>, String>)
    ensures
        r matches Ok(b) ==> (index_vectors(*i) == index_keys(*i).len() ==> snapshot_keys(b@)
            == index_keys(*i).remove(u64::MAX)),
{
    let mut buffer = vec![0u8; i.serialized_length()];
    i.save_to_buffer(buffer.as_mut_slice()).map_err(|e| e.what().to_string())?;
    Ok(buffer)
}

/// Relies on usearch::Index::load_from_buffer: on success the index holds
/// exactly the (finitely many) keys of the snapshot, replacing its previous
/// contents, each live key holding at least one vector. The loader adopts the
/// snapshot's own configuration, so a snapshot written by other software can
/// leave several vectors under one key; nothing stronger than the key-count
/// bound is promised here, and the store checks the loaded index against its
/// records before trusting it.
#[verifier::external_body]
pub(crate) fn index_load_bytes(i: &mut usearch::Index, bytes: &Vec<u8>) -> (r: Result<(), String>)
    ensures
        r is Ok ==> index_keys(*final(i)) == snapshot_keys(bytes@) && snapshot_keys(
            bytes@,
        ).finite() && index_keys(*final(i)).len() <= index_vectors(*final(i)),
{
    i.load_from_buffer(bytes.as_slice()).map_err(|e| e.what().to_string())
}

} // verus!
