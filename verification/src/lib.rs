//! Compressed full-text indexes (FM-index and its variants) with verified
//! construction, backward search and locate queries.

use vstd::prelude::*;

pub mod backend;
pub mod character;
pub mod counting;
pub mod error;
pub mod fm_index;
pub mod laws;
pub mod frontend;
pub mod model;
pub mod multi_pieces;
pub mod piece;
pub mod rlfmi;
pub mod runs;
pub mod search;
pub mod sais;
pub mod sample;
pub mod succinct;
pub mod suffix_array;
pub mod text;
pub mod text_builder;
pub mod theory;
pub mod util;

pub use character::Character;
pub use error::Error;
pub use piece::PieceId;
pub use text::Text;
pub use text_builder::{TextBuilder, TextId};
pub use frontend::{
    FMIndex, FMIndexMatch, FMIndexMatchWithLocate, FMIndexMultiPieces, FMIndexMultiPiecesMatch,
    FMIndexMultiPiecesMatchWithLocate, FMIndexMultiPiecesSearch, FMIndexMultiPiecesSearchWithLocate,
    FMIndexMultiPiecesWithLocate, FMIndexSearch, FMIndexSearchWithLocate, FMIndexWithLocate, RLFMIndex,
    RLFMIndexMatch, RLFMIndexMatchWithLocate, RLFMIndexSearch, RLFMIndexSearchWithLocate, RLFMIndexWithLocate,
};
pub use search::{Match, MatchWithLocate, MatchWithPieceId, Search, SearchIndex, SearchIndexWithMultiPieces};
pub use backend::{HasPosition, HeapSize};
