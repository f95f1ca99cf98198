//! The data carried by the store: transcript segments as they arrive from
//! transcription, and stored segments as the metadata table keeps them.
//!
//! Times are non-negative seconds. The library holds a time as the IEEE-754
//! bit pattern of its `f64` value, in a `u64` field: for non-negative finite
//! values the unsigned order of the patterns agrees with the numeric order,
//! so sorting by `start_bits` sorts by start time. Likewise a search distance
//! is held as the bit pattern of its `f32` value. The surrounding application
//! converts with `to_bits` / `from_bits` at the boundary.

use vstd::prelude::*;

verus! {

/// Ghost model of a stored segment: plain mathematical values for each field.
#[verifier::ext_equal]
pub ghost struct SegModel {
    pub video_id: Seq<char>,
    pub index: int,
    pub start_bits: u64,
    pub end_bits: u64,
    pub text: Seq<char>,
    pub key: u64,
}

/// Ghost model of an incoming transcript segment.
#[verifier::ext_equal]
pub ghost struct TranscriptModel {
    pub start_bits: u64,
    pub end_bits: u64,
    pub text: Seq<char>,
}

/// The models of a sequence of stored segments, element-wise.
pub open spec fn models(v: Seq<StoredSegment>) -> Seq<SegModel> {
    v.map_values(|e: StoredSegment| e@)
}

/// The models of a sequence of transcript segments, element-wise.
pub open spec fn transcript_models(v: Seq<TranscriptSegment>) -> Seq<TranscriptModel> {
    v.map_values(|e: TranscriptSegment| e@)
}

/// Ghost model of one search answer.
#[verifier::ext_equal]
pub ghost struct ResultModel {
    pub video_id: Seq<char>,
    pub start_bits: u64,
    pub end_bits: u64,
    pub text: Seq<char>,
    pub distance_bits: u32,
}

/// The models of a sequence of search answers, element-wise.
pub open spec fn result_models(v: Seq<SearchResult>) -> Seq<ResultModel> {
    v.map_values(|r: SearchResult| r@)
}

/// The answer that joins a stored record with a reported distance.
pub open spec fn result_of(e: SegModel, distance_bits: u32) -> ResultModel {
    ResultModel {
        video_id: e.video_id,
        start_bits: e.start_bits,
        end_bits: e.end_bits,
        text: e.text,
        distance_bits: distance_bits,
    }
}

/// One segment of a transcript, as handed to the store for ingestion.
#[derive(Debug)]
pub struct TranscriptSegment {
    /// Bit pattern of the non-negative `f64` start time in seconds.
    pub start_bits: u64,
    /// Bit pattern of the non-negative `f64` end time in seconds.
    pub end_bits: u64,
    /// The spoken text of the segment.
    pub text: String,
}

/// One retrievable unit of transcript, as the metadata table stores it.
#[derive(Debug)]
pub struct StoredSegment {
    /// The collection (source video) this segment belongs to.
    pub video_id: String,
    /// Position of the segment within its collection's transcript.
    pub index: usize,
    /// Bit pattern of the non-negative `f64` start time in seconds.
    pub start_bits: u64,
    /// Bit pattern of the non-negative `f64` end time in seconds.
    pub end_bits: u64,
    /// The spoken text of the segment.
    pub text: String,
    /// The stable 64-bit identifier deriving from `(video_id, index)`.
    pub key: u64,
}

/// One ranked answer to a similarity search.
#[derive(Debug)]
pub struct SearchResult {
    /// The collection of the matched segment.
    pub video_id: String,
    /// Bit pattern of the `f64` start time of the matched segment.
    pub start_bits: u64,
    /// Bit pattern of the `f64` end time of the matched segment.
    pub end_bits: u64,
    /// The text of the matched segment.
    pub text: String,
    /// Bit pattern of the `f32` distance the index reported; smaller is closer.
    pub distance_bits: u32,
}

impl View for SearchResult {
    type V = ResultModel;

    open spec fn view(&self) -> ResultModel {
        ResultModel {
            video_id: self.video_id@,
            start_bits: self.start_bits,
            end_bits: self.end_bits,
            text: self.text@,
            distance_bits: self.distance_bits,
        }
    }
}

impl View for TranscriptSegment {
    type V = TranscriptModel;

    open spec fn view(&self) -> TranscriptModel {
        TranscriptModel {
            start_bits: self.start_bits,
            end_bits: self.end_bits,
            text: self.text@,
        }
    }
}

impl View for StoredSegment {
    type V = SegModel;

    open spec fn view(&self) -> SegModel {
        SegModel {
            video_id: self.video_id@,
            index: self.index as int,
            start_bits: self.start_bits,
            end_bits: self.end_bits,
            text: self.text@,
            key: self.key,
        }
    }
}

impl Clone for TranscriptSegment {
    fn clone(&self) -> (res: Self)
        ensures
            res@ == self@,
    {
        TranscriptSegment {
            start_bits: self.start_bits,
            end_bits: self.end_bits,
            text: self.text.clone(),
        }
    }
}

impl Clone for StoredSegment {
    fn clone(&self) -> (res: Self)
        ensures
            res@ == self@,
    {
        StoredSegment {
            video_id: self.video_id.clone(),
            index: self.index,
            start_bits: self.start_bits,
            end_bits: self.end_bits,
            text: self.text.clone(),
            key: self.key,
        }
    }
}

} // verus!
