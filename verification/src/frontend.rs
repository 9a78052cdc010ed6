//! The index types offered to users.
use vstd::prelude::*;
use crate::backend::{DiscardedSuffixArray, SearchIndexBackend};
use crate::character::Character;
use crate::error::Error;
use crate::fm_index::FMIndexBackend;
use crate::multi_pieces::FMIndexMultiPiecesBackend;
use crate::rlfmi::RLFMIndexBackend;
use crate::model::valid_text;
use crate::sample::SuffixOrderSampledArray;
use crate::search::{MatchWrapper, SearchIndexWrapper, SearchWrapper};
use crate::text::Text;

verus! {

/// FMIndex, count only.
///
/// The FM-Index is both a search index as well as compact representation of
/// the text.
pub type FMIndex<C> = SearchIndexWrapper<FMIndexBackend<C, DiscardedSuffixArray>>;

/// Search result for FMIndex, count only.
pub type FMIndexSearch<'a, C> = SearchWrapper<'a, FMIndexBackend<C, DiscardedSuffixArray>>;

/// Match in the text for FMIndex.
pub type FMIndexMatch<'a, C> = MatchWrapper<'a, FMIndexBackend<C, DiscardedSuffixArray>>;

/// FMIndex with locate support.
///
/// This is an FM-Index which uses additional storage to support locate queries.
pub type FMIndexWithLocate<C> = SearchIndexWrapper<FMIndexBackend<C, SuffixOrderSampledArray>>;

/// Search result for FMIndex with locate support.
pub type FMIndexSearchWithLocate<'a, C> = SearchWrapper<'a, FMIndexBackend<C, SuffixOrderSampledArray>>;

/// Match in the text for FMIndex with locate support.
pub type FMIndexMatchWithLocate<'a, C> = MatchWrapper<'a, FMIndexBackend<C, SuffixOrderSampledArray>>;

/// RLFMIndex, count only.
///
/// This is a version of the FM-Index that uses less space, but is also less efficient.
pub type RLFMIndex<C> = SearchIndexWrapper<RLFMIndexBackend<C, DiscardedSuffixArray>>;

/// Search result for RLFMIndex, count only.
pub type RLFMIndexSearch<'a, C> = SearchWrapper<'a, RLFMIndexBackend<C, DiscardedSuffixArray>>;

/// Match in the text for RLFMIndex.
pub type RLFMIndexMatch<'a, C> = MatchWrapper<'a, RLFMIndexBackend<C, DiscardedSuffixArray>>;

/// RLFMIndex with locate support.
///
/// This is a version of the FM-Index that uses less space, but is also less efficient.
/// It uses additional storage to support locate queries.
pub type RLFMIndexWithLocate<C> = SearchIndexWrapper<RLFMIndexBackend<C, SuffixOrderSampledArray>>;

/// Search result for RLFMIndex with locate support.
pub type RLFMIndexSearchWithLocate<'a, C> = SearchWrapper<'a, RLFMIndexBackend<C, SuffixOrderSampledArray>>;

/// Match in the text for RLFMIndex with locate support.
pub type RLFMIndexMatchWithLocate<'a, C> = MatchWrapper<'a, RLFMIndexBackend<C, SuffixOrderSampledArray>>;

/// MultiText index, count only.
///
/// This is a multi-text version of the FM-Index. It allows \0 separated strings.
pub type FMIndexMultiPieces<C> = SearchIndexWrapper<FMIndexMultiPiecesBackend<C, DiscardedSuffixArray>>;

/// Search result for MultiText index, count only.
pub type FMIndexMultiPiecesSearch<'a, C> = SearchWrapper<'a, FMIndexMultiPiecesBackend<C, DiscardedSuffixArray>>;

/// Match in the text for MultiText index.
pub type FMIndexMultiPiecesMatch<'a, C> = MatchWrapper<'a, FMIndexMultiPiecesBackend<C, DiscardedSuffixArray>>;

/// MultiText index with locate support.
///
/// This is a multi-text version of the FM-Index. It allows \0 separated strings.
/// It uses additional storage to support locate queries.
pub type FMIndexMultiPiecesWithLocate<C> = SearchIndexWrapper<FMIndexMultiPiecesBackend<C, SuffixOrderSampledArray>>;

/// Search result for MultiText index with locate support.
pub type FMIndexMultiPiecesSearchWithLocate<'a, C> = SearchWrapper<
    'a,
    FMIndexMultiPiecesBackend<C, SuffixOrderSampledArray>,
>;

/// Match in the text for MultiText index with locate support.
pub type FMIndexMultiPiecesMatchWithLocate<'a, C> = MatchWrapper<
    'a,
    FMIndexMultiPiecesBackend<C, SuffixOrderSampledArray>,
>;

impl<C: Character> SearchIndexWrapper<FMIndexBackend<C, DiscardedSuffixArray>> {
    /// Create a new FMIndex without locate support.
    ///
    /// The text must end with a single zero character and hold no two
    /// consecutive zeros; otherwise `Error::InvalidText` is returned.
    pub fn new(text: &Text<C>) -> (r: Result<Self, Error>)
        requires
            text.bounded(),
            1 <= text.max_code() < usize::MAX,
            text.codes().len() <= usize::MAX / 64,
        ensures
            r is Ok <==> valid_text(text.codes()),
            r matches Ok(idx) ==> {
                &&& idx.text() == text.codes()
                &&& idx.max_code() == text.max_code()
                &&& idx.backend().steps_exact() == forall|k: int|
                    0 <= k < text.codes().len() - 1 ==> #[trigger] text.codes()[k] != 0
            },
    {
        match FMIndexBackend::new(text, 0) {
            Ok(b) => Ok(SearchIndexWrapper::wrap(b)),
            Err(e) => Err(e),
        }
    }
}

impl<C: Character> SearchIndexWrapper<FMIndexBackend<C, SuffixOrderSampledArray>> {
    /// Create a new FMIndex with locate support.
    ///
    /// The level argument controls the sampling rate used. Higher levels use
    /// less storage, at the cost of performance of locate queries. A level of
    /// 0 means no sampling, and a level of 1 means half of the suffix array is
    /// sampled, a level of 2 means a quarter of the suffix array is sampled,
    /// and so on.
    pub fn new(text: &Text<C>, level: usize) -> (r: Result<Self, Error>)
        requires
            text.bounded(),
            1 <= text.max_code() < usize::MAX,
            text.codes().len() <= usize::MAX / 64,
            level < usize::BITS,
        ensures
            r is Ok <==> valid_text(text.codes()),
            r matches Ok(idx) ==> {
                &&& idx.text() == text.codes()
                &&& idx.max_code() == text.max_code()
                &&& idx.backend().steps_exact() == forall|k: int|
                    0 <= k < text.codes().len() - 1 ==> #[trigger] text.codes()[k] != 0
            },
    {
        match FMIndexBackend::new(text, level) {
            Ok(b) => Ok(SearchIndexWrapper::wrap(b)),
            Err(e) => Err(e),
        }
    }
}

impl<C: Character> SearchIndexWrapper<FMIndexMultiPiecesBackend<C, DiscardedSuffixArray>> {
    /// Create a new FMIndexMultiPieces without locate support.
    ///
    /// The text is a sequence of pieces, each ended by a zero character;
    /// it must hold no two consecutive zeros, otherwise `Error::InvalidText`
    /// is returned.
    pub fn new(text: &Text<C>) -> (r: Result<Self, Error>)
        requires
            text.bounded(),
            1 <= text.max_code() < usize::MAX,
            text.codes().len() <= usize::MAX / 64,
        ensures
            r is Ok <==> valid_text(text.codes()),
            r matches Ok(idx) ==> {
                &&& idx.text() == text.codes()
                &&& idx.max_code() == text.max_code()
                &&& idx.backend().steps_exact()
            },
    {
        match FMIndexMultiPiecesBackend::new(text, 0) {
            Ok(b) => Ok(SearchIndexWrapper::wrap(b)),
            Err(e) => Err(e),
        }
    }
}

impl<C: Character> SearchIndexWrapper<FMIndexMultiPiecesBackend<C, SuffixOrderSampledArray>> {
    /// Create a new FMIndexMultiPieces with locate support.
    ///
    /// The level argument controls the sampling rate used. Higher levels use
    /// less storage, at the cost of performance of locate queries. A level of
    /// 0 means no sampling, and a level of 1 means half of the suffix array is
    /// sampled, a level of 2 means a quarter of the suffix array is sampled,
    /// and so on.
    pub fn new(text: &Text<C>, level: usize) -> (r: Result<Self, Error>)
        requires
            text.bounded(),
            1 <= text.max_code() < usize::MAX,
            text.codes().len() <= usize::MAX / 64,
            level < usize::BITS,
        ensures
            r is Ok <==> valid_text(text.codes()),
            r matches Ok(idx) ==> {
                &&& idx.text() == text.codes()
                &&& idx.max_code() == text.max_code()
                &&& idx.backend().steps_exact()
            },
    {
        match FMIndexMultiPiecesBackend::new(text, level) {
            Ok(b) => Ok(SearchIndexWrapper::wrap(b)),
            Err(e) => Err(e),
        }
    }
}

impl<C: Character> SearchIndexWrapper<RLFMIndexBackend<C, DiscardedSuffixArray>> {
    /// Create a new RLFMIndex without locate support.
    ///
    /// The text must end with a single zero character and hold no two
    /// consecutive zeros; otherwise `Error::InvalidText` is returned. It
    /// must hold more than the terminator.
    pub fn new(text: &Text<C>) -> (r: Result<Self, Error>)
        requires
            text.bounded(),
            1 <= text.max_code() < usize::MAX,
            text.codes().len() <= usize::MAX / 64,
            text.codes() != seq![0u64],
        ensures
            r is Ok <==> valid_text(text.codes()),
            r matches Ok(idx) ==> {
                &&& idx.text() == text.codes()
                &&& idx.max_code() == text.max_code()
                &&& idx.backend().steps_exact() == forall|k: int|
                    0 <= k < text.codes().len() - 1 ==> #[trigger] text.codes()[k] != 0
            },
    {
        match RLFMIndexBackend::new(text, 0) {
            Ok(b) => Ok(SearchIndexWrapper::wrap(b)),
            Err(e) => Err(e),
        }
    }
}

impl<C: Character> SearchIndexWrapper<RLFMIndexBackend<C, SuffixOrderSampledArray>> {
    /// Create a new RLFMIndex with locate support.
    ///
    /// The level argument controls the sampling rate used. Higher levels use
    /// less storage, at the cost of performance of locate queries. A level of
    /// 0 means no sampling, and a level of 1 means half of the suffix array is
    /// sampled, a level of 2 means a quarter of the suffix array is sampled,
    /// and so on.
    pub fn new(text: &Text<C>, level: usize) -> (r: Result<Self, Error>)
        requires
            text.bounded(),
            1 <= text.max_code() < usize::MAX,
            text.codes().len() <= usize::MAX / 64,
            level < usize::BITS,
            text.codes() != seq![0u64],
        ensures
            r is Ok <==> valid_text(text.codes()),
            r matches Ok(idx) ==> {
                &&& idx.text() == text.codes()
                &&& idx.max_code() == text.max_code()
                &&& idx.backend().steps_exact() == forall|k: int|
                    0 <= k < text.codes().len() - 1 ==> #[trigger] text.codes()[k] != 0
            },
    {
        match RLFMIndexBackend::new(text, level) {
            Ok(b) => Ok(SearchIndexWrapper::wrap(b)),
            Err(e) => Err(e),
        }
    }
}

} // verus!
