//! The interface every index variant offers to searching.
use vstd::prelude::*;
use crate::character::Character;
use crate::model::{is_suffix_array, occ, valid_text};
use crate::piece::PieceId;
use crate::sample::SuffixOrderSampledArray;
use crate::theory::{bwt, cons, le_count, lt_count};

verus! {

/// A store of suffix-array entries kept in an index.
pub trait SuffixArraySample: Sized {
    /// The store was made from the suffix array `sa`.
    spec fn samples_of(&self, sa: Seq<usize>) -> bool;

    /// Make the store from a suffix array, keeping every `2^level`-th entry.
    fn from_suffix_array(sa: &Vec<usize>, level: usize) -> (r: Self)
        requires
            level < usize::BITS,
            sa.len() <= usize::MAX / 64,
            forall|i: int| 0 <= i < sa.len() ==> #[trigger] sa[i] < sa.len(),
        ensures
            r.samples_of(sa@),
    ;
}

/// A store that keeps no entry: the index answers count queries only.
pub struct DiscardedSuffixArray {}

impl SuffixArraySample for DiscardedSuffixArray {
    open spec fn samples_of(&self, sa: Seq<usize>) -> bool {
        true
    }

    fn from_suffix_array(sa: &Vec<usize>, level: usize) -> (r: Self) {
        DiscardedSuffixArray {}
    }
}

/// Access the heap size of a structure.
///
/// This can be useful if you want to fine-tune the memory usage of your
/// application.
pub trait HeapSize {
    /// `bytes` is a heap size this structure reports: the sum, saturating at
    /// the largest `usize`, of the bytes of its parts, where the parts held
    /// in plain vectors count by their capacity (which the allocation
    /// decides).
    spec fn is_heap_size(&self, bytes: usize) -> bool;

    /// The size of the data used by this structure on the heap, in bytes.
    ///
    /// This does not include non-used pre-allocated space of the succinct
    /// structures.
    fn heap_size(&self) -> (r: usize)
        ensures
            self.is_heap_size(r),
    ;
}

impl HeapSize for DiscardedSuffixArray {
    /// Nothing is stored.
    open spec fn is_heap_size(&self, bytes: usize) -> bool {
        bytes == 0
    }

    fn heap_size(&self) -> (r: usize) {
        0
    }
}

impl SuffixArraySample for SuffixOrderSampledArray {
    open spec fn samples_of(&self, sa: Seq<usize>) -> bool {
        self.holds(sa)
    }

    fn from_suffix_array(sa: &Vec<usize>, level: usize) -> (r: Self) {
        SuffixOrderSampledArray::sample(sa, level)
    }
}

/// An FM-index backend: the transform of a text with the operations that
/// backward search and text extraction are built from.
pub trait SearchIndexBackend: Sized {
    /// The character type of the indexed text.
    type C: Character;

    /// The backend is consistent and was built from `text()`.
    spec fn wf(&self) -> bool;

    /// The codes of the indexed text, terminator included.
    spec fn text(&self) -> Seq<u64>;

    /// The suffix array of the text.
    spec fn sa(&self) -> Seq<usize>;

    /// The code of the largest character the index accepts.
    spec fn max_code(&self) -> u64;

    /// The row a backward step with `c` from row boundary `i` leads to.
    spec fn lf2_spec(&self, c: u64, i: int) -> int;

    /// The row `lf_map` leads to from row `i`.
    spec fn lf_spec(&self, i: int) -> int;

    /// The LF mapping leads from each row to the row of the preceding
    /// position of the text.
    spec fn steps_exact(&self) -> bool;

    /// Stepping forward stops at the zero character that ends a piece.
    spec fn stops_at_zero(&self) -> bool;

    proof fn lemma_wf(&self)
        requires
            self.wf(),
        ensures
            valid_text(self.text()),
            is_suffix_array(self.text(), self.sa()),
            1 <= self.max_code() < usize::MAX,
            self.max_code() <= Self::C::max_code(),
            self.text().len() <= usize::MAX / 64,
            forall|i: int| 0 <= i < self.text().len() ==> #[trigger] self.text()[i] <= self.max_code(),
    ;

    /// A backward step with a non-zero character moves both ends of the
    /// block of suffixes starting with `q` to those of the block of `c·q`.
    proof fn lemma_step(&self, c: u64, q: Seq<u64>)
        requires
            self.wf(),
            1 <= c <= self.max_code(),
        ensures
            self.lf2_spec(c, lt_count(self.text(), q) as int) == lt_count(self.text(), cons(c, q)),
            self.lf2_spec(c, le_count(self.text(), q) as int) == le_count(self.text(), cons(c, q)),
    ;

    /// With exact steps, LF leads to the row of the preceding position.
    proof fn lemma_lf(&self, i: int)
        requires
            self.wf(),
            self.steps_exact(),
            0 <= i < self.text().len(),
        ensures
            0 <= self.lf_spec(i) < self.text().len(),
            self.sa()[self.lf_spec(i)] == (self.sa()[i] + self.text().len() - 1) % (self.text().len() as int),
    ;

    /// No two rows are led to the same row by LF.
    proof fn lemma_lf_injective(&self, i: int, j: int)
        requires
            self.wf(),
            0 <= i < self.text().len(),
            0 <= j < self.text().len(),
            self.lf_spec(i) == self.lf_spec(j),
        ensures
            i == j,
    ;

    /// LF leads from each row to a row.
    proof fn lemma_lf_range(&self, i: int)
        requires
            self.wf(),
            0 <= i < self.text().len(),
        ensures
            0 <= self.lf_spec(i) < self.text().len(),
    ;

    /// The length of the text, terminator included.
    fn len(&self) -> (r: usize)
        requires
            self.wf(),
        ensures
            r == self.text().len(),
    ;

    /// The transform character of row `i`.
    fn get_l(&self, i: usize) -> (r: u64)
        requires
            self.wf(),
            i < self.text().len(),
        ensures
            r == bwt(self.text(), self.sa())[i as int],
    ;

    /// The LF mapping of row `i`.
    fn lf_map(&self, i: usize) -> (r: usize)
        requires
            self.wf(),
            i < self.text().len(),
        ensures
            r == self.lf_spec(i as int),
            r < self.text().len(),
    ;

    /// A backward step with `c` from row boundary `i`.
    fn lf_map2(&self, c: u64, i: usize) -> (r: usize)
        requires
            self.wf(),
            c <= self.max_code(),
            i <= self.text().len(),
        ensures
            r == self.lf2_spec(c, i as int),
            r <= self.text().len(),
    ;

    /// The first character of the suffix of row `i`.
    fn get_f(&self, i: usize) -> (r: u64)
        requires
            self.wf(),
            i < self.text().len(),
        ensures
            r == self.text()[self.sa()[i as int] as int],
    ;

    /// The row of the following position (none for backends that stop at
    /// the end of a piece, on the rows whose suffix starts with a zero).
    fn fl_map(&self, i: usize) -> (r: Option<usize>)
        requires
            self.wf(),
            i < self.text().len(),
        ensures
            r is None <==> self.stops_at_zero() && self.text()[self.sa()[i as int] as int] == 0,
            r matches Some(j) ==> {
                &&& j < self.text().len()
                &&& self.lf_spec(j as int) == i
                &&& self.steps_exact() ==> self.sa()[j as int] == (self.sa()[i as int] + 1) % (self.text().len() as int)
            },
    ;
}

/// A backend that keeps suffix-array samples, for locate queries.
pub trait HasPosition: SearchIndexBackend {
    /// The number of rows between two stored entries.
    spec fn sample_rate(&self) -> nat;

    /// The stored entry of row `i`, if stored.
    fn sample_at(&self, i: usize) -> (r: Option<usize>)
        requires
            self.wf(),
            i < self.text().len(),
        ensures
            self.sample_rate() >= 1,
            r == if i as nat % self.sample_rate() == 0 {
                Some(self.sa()[i as int])
            } else {
                None
            },
    ;
}

/// The number of zero characters before position `p`: the number of the
/// piece that position `p` belongs to.
pub open spec fn zeros_before(t: Seq<u64>, p: int) -> nat {
    occ(t.take(p), 0)
}

/// A backend that contains multiple pieces (text fragments).
pub trait HasMultiPieces: SearchIndexBackend {
    /// The ID of the piece the suffix of row `i` starts in.
    fn piece_id(&self, i: usize) -> (r: PieceId)
        requires
            self.wf(),
            i < self.text().len(),
        ensures
            r.index() == zeros_before(self.text(), self.sa()[i as int] as int),
    ;

    /// The number of pieces in the index.
    fn pieces_count(&self) -> (r: usize)
        requires
            self.wf(),
        ensures
            r == occ(self.text(), 0),
    ;
}

} // verus!
