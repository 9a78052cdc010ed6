//! Identifiers of the text pieces of a multi-piece index.
use vstd::prelude::*;

verus! {

/// A unique id identifying a single piece of a text.
#[derive(Clone, Copy, Debug, PartialEq, Eq, Structural, PartialOrd, Ord, Hash)]
pub struct PieceId(usize);

impl PieceId {
    /// The number of the piece: pieces are numbered from 0 in text order.
    pub closed spec fn index(self) -> usize {
        self.0
    }

    /// The piece with the given number.
    pub fn new(value: usize) -> (r: PieceId)
        ensures
            r.index() == value,
    {
        PieceId(value)
    }

    /// The number of the piece.
    pub fn value(&self) -> (r: usize)
        ensures
            r == self.index(),
    {
        self.0
    }
}

impl From<usize> for PieceId {
    fn from(value: usize) -> (r: PieceId)
        ensures
            r.index() == value,
    {
        PieceId(value)
    }
}

impl vstd::std_specs::convert::FromSpecImpl<usize> for PieceId {
    open spec fn obeys_from_spec() -> bool {
        true
    }

    closed spec fn from_spec(v: usize) -> PieceId {
        PieceId(v)
    }
}

impl From<PieceId> for usize {
    fn from(value: PieceId) -> (r: usize)
        ensures
            r == value.index(),
    {
        value.0
    }
}

impl vstd::std_specs::convert::FromSpecImpl<PieceId> for usize {
    open spec fn obeys_from_spec() -> bool {
        true
    }

    closed spec fn from_spec(v: PieceId) -> usize {
        v.0
    }
}

} // verus!
