//! Searching an index: backward search, counting, and the matches found.
use vstd::prelude::*;
use crate::backend::{zeros_before, HasMultiPieces, HasPosition, HeapSize, SearchIndexBackend};
use crate::piece::PieceId;
use crate::theory::{lemma_first_row, lemma_rows_distinct};
use crate::util::{lemma_cyclic_next, lemma_cyclic_prev};
use crate::character::Character;
use crate::counting::lemma_count_bound;
use crate::model::{count_upto, lex_lt, occ, occurrences, occurs_at, suffix};
use crate::theory::{
    bwt, cons, lemma_count_less_zero, lemma_empty_interval, lemma_interval_width, lemma_lt_single, le_count,
    lt_count,
};

verus! {

/// The rows `s..e` hold exactly the suffixes that start with `p`, or the
/// pattern does not occur and the rows are empty.
pub open spec fn represents(t: Seq<u64>, p: Seq<u64>, s: int, e: int) -> bool {
    ||| (s == lt_count(t, p) && e == le_count(t, p))
    ||| (s == e && occurrences(t, p) == 0)
}

/// Backward search of `p` from the row range `s..e`: one step per character,
/// last character first, stopping once the range is empty.
pub open spec fn backward_search<B: SearchIndexBackend>(b: B, p: Seq<u64>, s: int, e: int) -> (int, int)
    decreases p.len(),
{
    if p.len() == 0 {
        (s, e)
    } else {
        let c = p.last();
        let s2 = b.lf2_spec(c, s);
        let e2 = b.lf2_spec(c, e);
        if s2 == e2 {
            (s2, e2)
        } else {
            backward_search(b, p.drop_last(), s2, e2)
        }
    }
}

/// Every character of `p` is a non-zero code of at most `max`.
pub open spec fn plain_pattern(p: Seq<u64>, max: u64) -> bool {
    forall|k: int| 0 <= k < p.len() ==> 1 <= #[trigger] p[k] <= max
}

/// The codes of a sequence of characters.
pub open spec fn codes_of<C: Character>(p: Seq<C>) -> Seq<u64> {
    p.map_values(|c: C| c.code())
}

/// If a pattern occurs, so does every suffix of it.
proof fn lemma_occurrences_cons(t: Seq<u64>, c: u64, p: Seq<u64>)
    requires
        occurrences(t, p) == 0,
    ensures
        occurrences(t, cons(c, p)) == 0,
{
    let n = t.len() as int;
    let f = |j: int| cons(c, p).is_prefix_of(suffix(t, j));
    let g = |j: int| p.is_prefix_of(suffix(t, j));
    if occurrences(t, cons(c, p)) > 0 {
        lemma_count_witness(n, f);
        let j = choose|j: int| 0 <= j < n && #[trigger] f(j);
        assert(suffix(t, j + 1) =~= suffix(t, j).drop_first());
        assert(suffix(t, j + 1).subrange(0, p.len() as int) =~= suffix(t, j).subrange(0, cons(c, p).len() as int).drop_first());
        assert(cons(c, p).drop_first() =~= p);
        lemma_count_positive(n, g, j + 1);
    }
}

proof fn lemma_count_witness(n: int, f: spec_fn(int) -> bool)
    requires
        count_upto(n, f) > 0,
    ensures
        exists|j: int| 0 <= j < n && #[trigger] f(j),
    decreases n,
{
    if n > 0 && !f(n - 1) {
        lemma_count_witness(n - 1, f);
    }
}

pub(crate) proof fn lemma_count_positive(n: int, f: spec_fn(int) -> bool, j: int)
    requires
        0 <= j < n,
        f(j),
    ensures
        count_upto(n, f) > 0,
    decreases n,
{
    if j < n - 1 {
        lemma_count_positive(n - 1, f, j);
    }
}

/// A backward step keeps the block of a pattern represented.
pub(crate) proof fn lemma_represents_step<B: SearchIndexBackend>(b: B, c: u64, p: Seq<u64>, s: int, e: int)
    requires
        b.wf(),
        1 <= c <= b.max_code(),
        represents(b.text(), p, s, e),
    ensures
        represents(b.text(), cons(c, p), b.lf2_spec(c, s), b.lf2_spec(c, e)),
{
    b.lemma_step(c, p);
    if !(s == lt_count(b.text(), p) && e == le_count(b.text(), p)) {
        lemma_occurrences_cons(b.text(), c, p);
    }
}

/// An empty represented block means the pattern does not occur.
pub(crate) proof fn lemma_represents_empty(t: Seq<u64>, p: Seq<u64>, s: int)
    requires
        represents(t, p, s, s),
    ensures
        occurrences(t, p) == 0,
{
    lemma_interval_width(t, p);
}

/// The number of occurrences of a represented pattern is the width of its block.
pub proof fn lemma_represents_count(t: Seq<u64>, p: Seq<u64>, s: int, e: int)
    requires
        represents(t, p, s, e),
    ensures
        e >= s,
        e - s == occurrences(t, p),
{
    lemma_interval_width(t, p);
}

/// A search index: a backend that searches can be started on.
pub struct SearchIndexWrapper<B: SearchIndexBackend> {
    backend: B,
}

/// The result of a search: the block of rows whose suffixes start with the
/// pattern searched for.
pub struct SearchWrapper<'a, B: SearchIndexBackend> {
    backend: &'a B,
    s: usize,
    e: usize,
    pattern: Ghost<Seq<u64>>,
    exact: Ghost<bool>,
    match_prefix_only: bool,
}

/// A match: one row of a search result.
pub struct MatchWrapper<'a, B: SearchIndexBackend> {
    backend: &'a B,
    i: usize,
}

impl<B: SearchIndexBackend> SearchIndexWrapper<B> {
    #[verifier::type_invariant]
    spec fn inv(self) -> bool {
        self.backend.wf()
    }

    /// The backend of the index.
    pub closed spec fn backend(&self) -> B {
        self.backend
    }

    /// The codes of the indexed text, terminator included.
    pub open spec fn text(&self) -> Seq<u64> {
        self.backend().text()
    }

    /// The code of the largest character the index accepts.
    pub open spec fn max_code(&self) -> u64 {
        self.backend().max_code()
    }

    pub(crate) fn wrap(backend: B) -> (r: Self)
        requires
            backend.wf(),
        ensures
            r.backend() == backend,
    {
        SearchIndexWrapper { backend }
    }

    /// The size of the text in the index.
    ///
    /// Note that this includes an ending \0 (terminator) character
    /// so will be one more than the length of the text passed in.
    pub fn len(&self) -> (r: usize)
        ensures
            r == self.text().len(),
    {
        proof {
            use_type_invariant(self);
        }
        self.backend.len()
    }

    fn start<'a>(&'a self, s: usize, e: usize, anchor: Ghost<Seq<u64>>, prefix_only: bool) -> (r: SearchWrapper<'a, B>)
        requires
            self.backend.wf(),
            s <= self.text().len(),
            e <= self.text().len(),
            represents(self.text(), anchor@, s as int, e as int),
        ensures
            r.backend() == self.backend(),
            r.range() == (s as int, e as int),
            r.pattern() == anchor@,
            r.exact(),
            r.prefix_only() == prefix_only,
    {
        SearchWrapper { backend: &self.backend, s, e, pattern: anchor, exact: Ghost(true), match_prefix_only: prefix_only }
    }

    /// Search for a pattern in the text.
    ///
    /// Returns the block of rows whose suffixes start with the pattern.
    pub fn search<'a>(&'a self, pattern: &[B::C]) -> (r: SearchWrapper<'a, B>)
        requires
            forall|k: int| 0 <= k < pattern.len() ==> #[trigger] pattern[k].code() <= self.max_code(),
        ensures
            r.backend() == self.backend(),
            r.pattern() == codes_of(pattern@),
            r.range() == backward_search(self.backend(), codes_of(pattern@), 0, self.text().len() as int),
            r.exact() == plain_pattern(codes_of(pattern@), self.max_code()),
            r.exact() ==> r.range().0 <= r.range().1,
            !r.prefix_only(),
    {
        proof {
            use_type_invariant(self);
            lemma_empty_interval(self.text());
        }
        let n = self.backend.len();
        let start = self.start(0, n, Ghost(Seq::empty()), false);
        let r = start.search(pattern);
        proof {
            assert(codes_of(pattern@) + Seq::<u64>::empty() =~= codes_of(pattern@));
        }
        r
    }
}

impl<B: SearchIndexBackend + HeapSize> HeapSize for SearchIndexWrapper<B> {
    /// The heap size of the backend.
    open spec fn is_heap_size(&self, bytes: usize) -> bool {
        self.backend().is_heap_size(bytes)
    }

    fn heap_size(&self) -> (r: usize) {
        self.backend.heap_size()
    }
}

impl<B: HasMultiPieces> SearchIndexWrapper<B> {
    /// Search for a pattern that is a prefix of a text piece.
    ///
    /// The rows found are those of every occurrence; only the occurrences at
    /// the start of a piece are reported as matches.
    pub fn search_prefix<'a>(&'a self, pattern: &[B::C]) -> (r: SearchWrapper<'a, B>)
        requires
            forall|k: int| 0 <= k < pattern.len() ==> #[trigger] pattern[k].code() <= self.max_code(),
        ensures
            r.backend() == self.backend(),
            r.pattern() == codes_of(pattern@),
            r.range() == backward_search(self.backend(), codes_of(pattern@), 0, self.text().len() as int),
            r.exact() == plain_pattern(codes_of(pattern@), self.max_code()),
            r.exact() ==> r.range().0 <= r.range().1,
            r.prefix_only(),
    {
        proof {
            use_type_invariant(self);
            lemma_empty_interval(self.text());
        }
        let n = self.backend.len();
        let start = self.start(0, n, Ghost(Seq::empty()), true);
        let r = start.search(pattern);
        proof {
            assert(codes_of(pattern@) + Seq::<u64>::empty() =~= codes_of(pattern@));
        }
        r
    }

    /// The block of the suffixes that start with the zero character: one
    /// row for each piece end.
    fn piece_ends<'a>(&'a self, prefix_only: bool) -> (r: SearchWrapper<'a, B>)
        ensures
            r.backend() == self.backend(),
            r.pattern() == seq![0u64],
            r.range() == (0int, occ(self.text(), 0) as int),
            r.exact(),
            r.prefix_only() == prefix_only,
    {
        proof {
            use_type_invariant(self);
            lemma_lt_single(self.text(), 0);
            lemma_count_less_zero(self.text());
            lemma_count_bound(
                self.text().len() as int,
                |j: int| lex_lt(suffix(self.text(), j), seq![0u64]) || seq![0u64].is_prefix_of(suffix(self.text(), j)),
            );
        }
        let z = self.backend.pieces_count();
        let ghost anchor: Seq<u64> = seq![0u64];
        self.start(0, z, Ghost(anchor), prefix_only)
    }

    /// Search for a pattern that is a suffix of a text piece.
    ///
    /// The pattern is searched with the zero character that ends a piece
    /// after it.
    pub fn search_suffix<'a>(&'a self, pattern: &[B::C]) -> (r: SearchWrapper<'a, B>)
        requires
            forall|k: int| 0 <= k < pattern.len() ==> #[trigger] pattern[k].code() <= self.max_code(),
        ensures
            r.backend() == self.backend(),
            r.pattern() == codes_of(pattern@).push(0),
            r.range() == backward_search(self.backend(), codes_of(pattern@), 0, occ(self.text(), 0) as int),
            r.exact() == plain_pattern(codes_of(pattern@), self.max_code()),
            r.exact() ==> r.range().0 <= r.range().1,
            !r.prefix_only(),
    {
        let ends = self.piece_ends(false);
        let r = ends.search(pattern);
        proof {
            assert(codes_of(pattern@) + seq![0u64] =~= codes_of(pattern@).push(0));
        }
        r
    }

    /// Search for a pattern that is a whole text piece.
    pub fn search_exact<'a>(&'a self, pattern: &[B::C]) -> (r: SearchWrapper<'a, B>)
        requires
            forall|k: int| 0 <= k < pattern.len() ==> #[trigger] pattern[k].code() <= self.max_code(),
        ensures
            r.backend() == self.backend(),
            r.pattern() == codes_of(pattern@).push(0),
            r.range() == backward_search(self.backend(), codes_of(pattern@), 0, occ(self.text(), 0) as int),
            r.exact() == plain_pattern(codes_of(pattern@), self.max_code()),
            r.exact() ==> r.range().0 <= r.range().1,
            r.prefix_only(),
    {
        let ends = self.piece_ends(true);
        let r = ends.search(pattern);
        proof {
            assert(codes_of(pattern@) + seq![0u64] =~= codes_of(pattern@).push(0));
        }
        r
    }
}

impl<'a, B: SearchIndexBackend> SearchWrapper<'a, B> {
    #[verifier::type_invariant]
    spec fn inv(self) -> bool {
        &&& self.backend.wf()
        &&& self.s <= self.backend.text().len()
        &&& self.e <= self.backend.text().len()
        &&& self.exact@ ==> represents(self.backend.text(), self.pattern@, self.s as int, self.e as int)
    }

    /// The backend searched.
    pub closed spec fn backend(&self) -> B {
        *self.backend
    }

    /// The pattern searched for (for suffix and exact searches, with the
    /// terminator that anchors it).
    pub closed spec fn pattern(&self) -> Seq<u64> {
        self.pattern@
    }

    /// The rows found, as a half-open range.
    pub closed spec fn range(&self) -> (int, int) {
        (self.s as int, self.e as int)
    }

    /// The range is the block of suffixes that start with the pattern (the
    /// pattern holds no zero character, nor one above the largest).
    pub closed spec fn exact(&self) -> bool {
        self.exact@
    }

    /// Only matches at the start of a text piece are reported.
    pub closed spec fn prefix_only(&self) -> bool {
        self.match_prefix_only
    }

    /// The codes of the indexed text.
    pub open spec fn text(&self) -> Seq<u64> {
        self.backend().text()
    }

    /// Search in the current search result, refining it.
    ///
    /// This adds a prefix `pattern` to the existing pattern, and
    /// looks for those expanded patterns in the text.
    pub fn search(&self, pattern: &[B::C]) -> (r: Self)
        requires
            forall|k: int| 0 <= k < pattern.len() ==> #[trigger] pattern[k].code() <= self.backend().max_code(),
        ensures
            r.backend() == self.backend(),
            r.pattern() == codes_of(pattern@) + self.pattern(),
            r.range() == backward_search(self.backend(), codes_of(pattern@), self.range().0, self.range().1),
            r.exact() == (self.exact() && plain_pattern(codes_of(pattern@), self.backend().max_code())),
            r.exact() ==> r.range().0 <= r.range().1,
            r.prefix_only() == self.prefix_only(),
    {
        proof {
            use_type_invariant(self);
        }
        let ghost b = *self.backend;
        let ghost p = codes_of(pattern@);
        let ghost n = b.text().len();
        let mut s = self.s;
        let mut e = self.e;
        let mut k = pattern.len();
        let ghost mut exact = self.exact@;
        proof {
            assert(p.take(k as int) =~= p);
            assert(p.skip(k as int) =~= Seq::<u64>::empty());
            assert(Seq::<u64>::empty() + self.pattern@ =~= self.pattern@);
            assert(p.skip(0) =~= p);
            assert(p.take(0) =~= Seq::<u64>::empty());
        }
        while k > 0
            invariant_except_break
                p.skip(0) == p,
                p.len() == pattern.len(),
                n == b.text().len(),
                b == *self.backend,
                b.wf(),
                k <= pattern.len(),
                p == codes_of(pattern@),
                forall|j: int| 0 <= j < pattern.len() ==> #[trigger] pattern[j].code() <= b.max_code(),
                s <= n,
                e <= n,
                backward_search(b, p.take(k as int), s as int, e as int) == backward_search(b, p, self.s as int, self.e as int),
                exact == (self.exact@ && plain_pattern(p.skip(k as int), b.max_code())),
                exact ==> represents(b.text(), p.skip(k as int) + self.pattern@, s as int, e as int),
            ensures
                n == b.text().len(),
                b.wf(),
                s <= n,
                e <= n,
                (s as int, e as int) == backward_search(b, p, self.s as int, self.e as int),
                exact == (self.exact@ && plain_pattern(p, b.max_code())),
                exact ==> represents(b.text(), p + self.pattern@, s as int, e as int),
            decreases k,
        {
            let c = pattern[k - 1].into_u64();
            let ghost old_s = s;
            let ghost old_e = e;
            let ghost q = p.skip(k as int) + self.pattern@;
            s = self.backend.lf_map2(c, s);
            e = self.backend.lf_map2(c, e);
            proof {
                assert(p.take(k as int).last() == c);
                assert(p.take(k as int).drop_last() =~= p.take(k - 1));
                assert(p.skip(k - 1) =~= cons(c, p.skip(k as int)));
                assert(cons(c, q) =~= p.skip(k - 1) + self.pattern@);
                let ex2 = exact && 1 <= c;
                if ex2 {
                    lemma_represents_step(b, c, q, old_s as int, old_e as int);
                }
                assert(plain_pattern(p.skip(k - 1), b.max_code()) == (1 <= c && plain_pattern(p.skip(k as int), b.max_code()))) by {
                    if plain_pattern(p.skip(k as int), b.max_code()) && 1 <= c {
                        assert forall|j: int| 0 <= j < p.skip(k - 1).len() implies 1 <= #[trigger] p.skip(k - 1)[j] <= b.max_code() by {
                            if j > 0 {
                                assert(p.skip(k - 1)[j] == p.skip(k as int)[j - 1]);
                            }
                        }
                    }
                    if plain_pattern(p.skip(k - 1), b.max_code()) {
                        assert(p.skip(k - 1)[0] == c);
                        assert forall|j: int| 0 <= j < p.skip(k as int).len() implies 1 <= #[trigger] p.skip(k as int)[j] <= b.max_code() by {
                            assert(p.skip(k as int)[j] == p.skip(k - 1)[j + 1]);
                        }
                    }
                }
                exact = ex2;
            }
            k = k - 1;
            if s == e {
                proof {
                    if exact {
                        // the found part does not occur, so neither does the whole pattern
                        lemma_represents_empty(b.text(), p.skip(k as int) + self.pattern@, s as int);
                        lemma_occurrences_prefix(b.text(), p.take(k as int), p.skip(k as int) + self.pattern@);
                        assert(p.take(k as int) + (p.skip(k as int) + self.pattern@) =~= p + self.pattern@);
                    }
                    lemma_plain_split(p, k as int, b.max_code());
                    if exact && !plain_pattern(p, b.max_code()) {
                    }
                }
                let ghost final_exact = exact && plain_pattern(p.take(k as int), b.max_code());
                proof {
                    exact = final_exact;
                }
                break;
            }
        }
        proof {
            if k == 0 {
                assert(p.skip(0) =~= p);
                assert(p.take(0) =~= Seq::<u64>::empty());
            }
        }
        proof {
            if exact {
                lemma_represents_count(b.text(), p + self.pattern@, s as int, e as int);
            }
        }
        SearchWrapper { backend: self.backend, s, e, pattern: Ghost(p + self.pattern@), exact: Ghost(exact), match_prefix_only: self.match_prefix_only }
    }

    /// The rows of the matches, in order.
    pub fn iter_matches(&self) -> (r: Vec<MatchWrapper<'a, B>>)
        ensures
            r.len() == match_rows(self.backend(), self.range().0, self.range().1, self.prefix_only()).len(),
            forall|k: int|
                0 <= k < r.len() ==> (#[trigger] r[k]).row() == match_rows(
                    self.backend(),
                    self.range().0,
                    self.range().1,
                    self.prefix_only(),
                )[k] && r[k].backend() == self.backend(),
    {
        proof {
            use_type_invariant(self);
        }
        let ghost b = *self.backend;
        let mut r: Vec<MatchWrapper<'a, B>> = Vec::new();
        let mut i = self.s;
        while i < self.e
            invariant
                b == *self.backend,
                b.wf(),
                self.s <= i <= self.e || (self.e < self.s && i == self.s),
                self.e <= b.text().len(),
                r.len() == match_rows(b, self.s as int, i as int, self.match_prefix_only).len(),
                forall|k: int|
                    0 <= k < r.len() ==> (#[trigger] r[k]).row() == match_rows(b, self.s as int, i as int, self.match_prefix_only)[k]
                        && r[k].backend() == b,
            decreases self.e - i,
        {
            if !self.match_prefix_only || self.backend.get_l(i) == 0 {
                r.push(MatchWrapper { backend: self.backend, i });
            }
            i = i + 1;
        }
        proof {
            if self.e < self.s {
                assert(match_rows(b, self.s as int, self.e as int, self.match_prefix_only) == Seq::<int>::empty());
            }
        }
        r
    }

    /// The rows found, as a half-open range.
    pub fn get_range(&self) -> (r: (usize, usize))
        ensures
            (r.0 as int, r.1 as int) == self.range(),
    {
        (self.s, self.e)
    }

    /// Count the number of occurrences: the number of matches reported.
    /// That is the width of the row range, or, where only matches at the
    /// start of a piece are reported, the number of those rows. A pattern
    /// whose backward search crossed a piece boundary can leave the range
    /// inverted; its width is then undefined (see `get_range`).
    pub fn count(&self) -> (r: usize)
        requires
            self.prefix_only() || self.range().0 <= self.range().1,
        ensures
            r == match_rows(self.backend(), self.range().0, self.range().1, self.prefix_only()).len(),
            !self.prefix_only() ==> r == self.range().1 - self.range().0,
            self.exact() && !self.prefix_only() ==> r == occurrences(self.text(), self.pattern()),
    {
        proof {
            use_type_invariant(self);
            if self.exact@ {
                lemma_represents_count(self.backend.text(), self.pattern@, self.s as int, self.e as int);
            }
            lemma_match_rows_width(*self.backend, self.s as int, self.e as int, self.match_prefix_only);
        }
        if !self.match_prefix_only {
            return self.e - self.s;
        }
        let ghost b = *self.backend;
        let mut c: usize = 0;
        let mut i = self.s;
        while i < self.e
            invariant
                b == *self.backend,
                b.wf(),
                self.match_prefix_only,
                self.s <= i,
                i <= self.e || i == self.s,
                self.e <= b.text().len(),
                c <= i - self.s,
                c == match_rows(b, self.s as int, i as int, true).len(),
            decreases self.e - i,
        {
            if self.backend.get_l(i) == 0 {
                c = c + 1;
            }
            i = i + 1;
        }
        c
    }
}

/// Where all rows are reported, as many are reported as the range is wide;
/// none is reported from an empty or inverted range.
proof fn lemma_match_rows_width<B: SearchIndexBackend>(b: B, s: int, e: int, prefix_only: bool)
    ensures
        !prefix_only && s <= e ==> match_rows(b, s, e, prefix_only).len() == e - s,
        e <= s ==> match_rows(b, s, e, prefix_only).len() == 0,
    decreases e - s,
{
    if e > s {
        lemma_match_rows_width(b, s, e - 1, prefix_only);
    }
}

/// Whatever precedes a pattern that does not occur, the whole does not occur.
pub(crate) proof fn lemma_occurrences_prefix(t: Seq<u64>, a: Seq<u64>, p: Seq<u64>)
    requires
        occurrences(t, p) == 0,
    ensures
        occurrences(t, a + p) == 0,
    decreases a.len(),
{
    if a.len() > 0 {
        lemma_occurrences_prefix(t, a.drop_first(), p);
        assert(a + p =~= cons(a[0], a.drop_first() + p));
        lemma_occurrences_cons(t, a[0], a.drop_first() + p);
    } else {
        assert(a + p =~= p);
    }
}

pub(crate) proof fn lemma_plain_split(p: Seq<u64>, k: int, max: u64)
    requires
        0 <= k <= p.len(),
    ensures
        plain_pattern(p, max) == (plain_pattern(p.take(k), max) && plain_pattern(p.skip(k), max)),
{
    if plain_pattern(p.take(k), max) && plain_pattern(p.skip(k), max) {
        assert forall|j: int| 0 <= j < p.len() implies 1 <= #[trigger] p[j] <= max by {
            if j < k {
                assert(p[j] == p.take(k)[j]);
            } else {
                assert(p[j] == p.skip(k)[j - k]);
            }
        }
    }
    if plain_pattern(p, max) {
        assert forall|j: int| 0 <= j < p.take(k).len() implies 1 <= #[trigger] p.take(k)[j] <= max by {
            assert(p[j] == p.take(k)[j]);
        }
        assert forall|j: int| 0 <= j < p.skip(k).len() implies 1 <= #[trigger] p.skip(k)[j] <= max by {
            assert(p[j + k] == p.skip(k)[j]);
        }
    }
}

/// The rows `s..e` that are reported as matches: all of them, or only those
/// at the start of a piece.
pub open spec fn match_rows<B: SearchIndexBackend>(b: B, s: int, e: int, prefix_only: bool) -> Seq<int>
    decreases e - s,
{
    if e <= s {
        Seq::empty()
    } else {
        let rest = match_rows(b, s, e - 1, prefix_only);
        if !prefix_only || bwt(b.text(), b.sa())[e - 1] == 0 {
            rest.push(e - 1)
        } else {
            rest
        }
    }
}

/// The row reached from row `i` after `k` LF steps.
pub open spec fn lf_iter<B: SearchIndexBackend>(b: B, i: int, k: nat) -> int
    decreases k,
{
    if k == 0 {
        i
    } else {
        b.lf_spec(lf_iter(b, i, (k - 1) as nat))
    }
}

/// The row reached from row `i` after `k` forward steps: each step goes to
/// the row that LF leads back from.
pub open spec fn fl_iter<B: SearchIndexBackend>(b: B, i: int, k: nat) -> int
    decreases k,
{
    if k == 0 {
        i
    } else {
        let p = fl_iter(b, i, (k - 1) as nat);
        choose|j: int| 0 <= j < b.text().len() && b.lf_spec(j) == p
    }
}

impl<'a, B: SearchIndexBackend> MatchWrapper<'a, B> {
    #[verifier::type_invariant]
    spec fn inv(self) -> bool {
        &&& self.backend.wf()
        &&& self.i < self.backend.text().len()
    }

    /// The backend of the match.
    pub closed spec fn backend(&self) -> B {
        *self.backend
    }

    /// The row of the match in the suffix array.
    pub closed spec fn row(&self) -> int {
        self.i as int
    }

    /// The codes of the indexed text.
    pub open spec fn text(&self) -> Seq<u64> {
        self.backend().text()
    }

    /// The position of the text at which the match starts.
    pub open spec fn position(&self) -> int {
        self.backend().sa()[self.row()] as int
    }

    /// The characters before the match, nearest first, `count` of them
    /// (the text is read cyclically).
    pub fn iter_chars_backward(&self, count: usize) -> (r: Vec<B::C>)
        ensures
            r.len() == count,
            forall|k: int|
                0 <= k < count ==> #[trigger] r[k] == B::C::from_code(
                    bwt(self.text(), self.backend().sa())[lf_iter(self.backend(), self.row(), k as nat)],
                ),
            self.backend().steps_exact() ==> forall|k: int|
                0 <= k < count ==> (#[trigger] r[k]).code() == self.text()[(self.position() - 1 - k) % (self.text().len() as int)],
    {
        proof {
            use_type_invariant(self);
        }
        let ghost b = *self.backend;
        let ghost n = b.text().len() as int;
        let ghost i0 = self.i as int;
        proof {
            b.lemma_wf();
            assert(b.sa()[i0] < n);
            vstd::arithmetic::div_mod::lemma_small_mod(b.sa()[i0] as nat, n as nat);
        }
        let mut r: Vec<B::C> = Vec::new();
        let mut i = self.i;
        let mut k: usize = 0;
        while k < count
            invariant
                b == *self.backend,
                b.wf(),
                n == b.text().len(),
                0 <= i0 < n,
                n >= 1,
                i < n,
                k <= count,
                r.len() == k,
                i == lf_iter(b, i0, k as nat),
                b.max_code() <= B::C::max_code(),
                b.steps_exact() ==> b.sa()[i as int] as int == (b.sa()[i0] - k) % n,
                forall|j: int|
                    0 <= j < k ==> #[trigger] r[j] == B::C::from_code(bwt(b.text(), b.sa())[lf_iter(b, i0, j as nat)]),
                b.steps_exact() ==> forall|j: int|
                    0 <= j < k ==> (#[trigger] r[j]).code() == b.text()[(b.sa()[i0] - 1 - j) % n],
                forall|x: int| 0 <= x < n ==> #[trigger] b.text()[x] <= b.max_code(),
            decreases count - k,
        {
            let c = self.backend.get_l(i);
            proof {
                b.lemma_wf();
                let a = b.sa()[i as int] as int;
                assert(b.sa()[i as int] < n);
                B::C::lemma_from_code(c);
                if b.steps_exact() {
                    lemma_prev_char_cyclic(b.text(), a);
                    lemma_mod_step(b.sa()[i0] as int, k as int, n);
                }
            }
            r.push(B::C::from_u64(c));
            let ghost old_i = i;
            i = self.backend.lf_map(i);
            proof {
                if b.steps_exact() {
                    b.lemma_lf(old_i as int);
                    lemma_cyclic_prev(b.sa()[old_i as int] as int, n);
                    lemma_mod_step(b.sa()[i0] as int, k as int, n);
                }
            }
            k = k + 1;
        }
        r
    }

    /// The characters from the match on, `count` of them at most (the text
    /// is read cyclically; a backend that stops at the end of a piece
    /// stops before the zero that ends it).
    pub fn iter_chars_forward(&self, count: usize) -> (r: Vec<B::C>)
        ensures
            r.len() <= count,
            forall|k: int|
                0 <= k < r.len() ==> (#[trigger] r[k]).code() == self.text()[self.backend().sa()[fl_iter(
                    self.backend(),
                    self.row(),
                    k as nat,
                )] as int],
            self.backend().stops_at_zero() ==> forall|k: int|
                0 <= k < r.len() ==> self.text()[self.backend().sa()[#[trigger] fl_iter(self.backend(), self.row(), k as nat)] as int] != 0,
            r.len() < count ==> self.backend().stops_at_zero() && self.text()[self.backend().sa()[fl_iter(
                self.backend(),
                self.row(),
                r.len() as nat,
            )] as int] == 0,
            self.backend().steps_exact() ==> forall|k: int|
                0 <= k < r.len() ==> (#[trigger] r[k]).code() == self.text()[(self.position() + k) % (self.text().len() as int)],
            self.backend().steps_exact() && self.backend().stops_at_zero() ==> forall|k: int|
                0 <= k < r.len() ==> #[trigger] self.text()[(self.position() + k) % (self.text().len() as int)] != 0,
            self.backend().steps_exact() && r.len() < count ==> self.text()[(self.position() + r.len())
                % (self.text().len() as int)] == 0,
    {
        proof {
            use_type_invariant(self);
        }
        let ghost b = *self.backend;
        let ghost n = b.text().len() as int;
        let ghost i0 = self.i as int;
        proof {
            b.lemma_wf();
            assert(b.sa()[i0] < n);
            vstd::arithmetic::div_mod::lemma_small_mod(b.sa()[i0] as nat, n as nat);
        }
        let mut r: Vec<B::C> = Vec::new();
        let mut i = self.i;
        let mut k: usize = 0;
        while k < count
            invariant_except_break
                b == *self.backend,
                b.wf(),
                n == b.text().len(),
                0 <= i0 < n,
                i < n,
                k <= count,
                r.len() == k,
                b.max_code() <= B::C::max_code(),
                i == fl_iter(b, i0, k as nat),
                forall|j: int|
                    0 <= j < k ==> (#[trigger] r[j]).code() == b.text()[b.sa()[fl_iter(b, i0, j as nat)] as int],
                b.stops_at_zero() ==> forall|j: int|
                    0 <= j < k ==> b.text()[b.sa()[#[trigger] fl_iter(b, i0, j as nat)] as int] != 0,
                b.steps_exact() ==> b.sa()[i as int] as int == (b.sa()[i0] + k) % n,
                b.steps_exact() ==> forall|j: int|
                    0 <= j < k ==> (#[trigger] r[j]).code() == b.text()[(b.sa()[i0] + j) % n],
                b.steps_exact() && b.stops_at_zero() ==> forall|j: int|
                    0 <= j < k ==> #[trigger] b.text()[(b.sa()[i0] + j) % n] != 0,
                forall|x: int| 0 <= x < n ==> #[trigger] b.text()[x] <= b.max_code(),
            ensures
                r.len() <= count,
                forall|j: int|
                    0 <= j < r.len() ==> (#[trigger] r[j]).code() == b.text()[b.sa()[fl_iter(b, i0, j as nat)] as int],
                b.stops_at_zero() ==> forall|j: int|
                    0 <= j < r.len() ==> b.text()[b.sa()[#[trigger] fl_iter(b, i0, j as nat)] as int] != 0,
                r.len() < count ==> b.stops_at_zero() && b.text()[b.sa()[fl_iter(b, i0, r.len() as nat)] as int] == 0,
                b.steps_exact() ==> forall|j: int|
                    0 <= j < r.len() ==> (#[trigger] r[j]).code() == b.text()[(b.sa()[i0] + j) % n],
                b.steps_exact() && b.stops_at_zero() ==> forall|j: int|
                    0 <= j < r.len() ==> #[trigger] b.text()[(b.sa()[i0] + j) % n] != 0,
                b.steps_exact() && r.len() < count ==> b.text()[(b.sa()[i0] + r.len()) % n] == 0,
            decreases count - k,
        {
            let c = self.backend.get_f(i);
            proof {
                b.lemma_wf();
                assert(b.sa()[i as int] < n);
                B::C::lemma_from_code(c);
            }
            match self.backend.fl_map(i) {
                Some(j) => {
                    r.push(B::C::from_u64(c));
                    proof {
                        let w = choose|x: int| 0 <= x < n && b.lf_spec(x) == i;
                        b.lemma_lf_injective(w, j as int);
                        assert(fl_iter(b, i0, (k + 1) as nat) == j);
                        if b.steps_exact() {
                            lemma_cyclic_next(b.sa()[i as int] as int, n);
                            lemma_mod_next(b.sa()[i0] as int, k as int, n);
                        }
                    }
                    i = j;
                },
                None => {
                    break;
                },
            }
            k = k + 1;
        }
        r
    }
}

impl<'a, B: HasPosition> MatchWrapper<'a, B> {
    /// Get the location of the match in the text.
    pub fn locate(&self) -> (r: usize)
        ensures
            r < self.text().len(),
            r == located(self.backend(), self.row(), 0, self.text().len() as nat),
            self.backend().steps_exact() ==> r == self.position(),
    {
        proof {
            use_type_invariant(self);
        }
        get_sa(self.backend, self.i)
    }
}

impl<'a, B: HasMultiPieces> MatchWrapper<'a, B> {
    /// Get the ID of the text piece that the match starts in.
    pub fn piece_id(&self) -> (r: PieceId)
        ensures
            r.index() == zeros_before(self.text(), self.position()),
    {
        proof {
            use_type_invariant(self);
        }
        self.backend.piece_id(self.i)
    }
}

/// The character before position `a`, read cyclically.
proof fn lemma_prev_char_cyclic(t: Seq<u64>, a: int)
    requires
        crate::model::valid_text(t),
        0 <= a < t.len(),
    ensures
        crate::theory::prev_char(t, a) == t[(a - 1) % (t.len() as int)],
{
    let n = t.len() as int;
    if a == 0 {
        vstd::arithmetic::div_mod::lemma_mod_add_multiples_vanish(-1, n);
        vstd::arithmetic::div_mod::lemma_small_mod((n - 1) as nat, n as nat);
    } else {
        vstd::arithmetic::div_mod::lemma_small_mod((a - 1) as nat, n as nat);
    }
}

/// Moving back one step modulo `n`.
proof fn lemma_mod_step(a: int, k: int, n: int)
    requires
        n >= 1,
    ensures
        ((a - k) % n + n - 1) % n == (a - k - 1) % n,
        ((a - k) % n - 1) % n == (a - k - 1) % n,
{
    vstd::arithmetic::div_mod::lemma_sub_mod_noop(a - k, 1, n);
    if n > 1 {
        vstd::arithmetic::div_mod::lemma_small_mod(1, n as nat);
    }
    vstd::arithmetic::div_mod::lemma_mod_add_multiples_vanish((a - k) % n - 1, n);
    if n == 1 {
        vstd::arithmetic::div_mod::lemma_mod_self_0(1);
    }
}

/// Moving forward one step modulo `n`.
proof fn lemma_mod_next(a: int, k: int, n: int)
    requires
        n >= 1,
    ensures
        ((a + k) % n + 1) % n == (a + k + 1) % n,
{
    vstd::arithmetic::div_mod::lemma_add_mod_noop(a + k, 1, n);
    if n == 1 {
        vstd::arithmetic::div_mod::lemma_mod_self_0(1);
        vstd::arithmetic::div_mod::lemma_small_mod(0, 1);
    } else {
        vstd::arithmetic::div_mod::lemma_small_mod(1, n as nat);
    }
}

/// The position a walk back from row `i` reports, `steps` LF steps taken
/// so far: at the first sampled row, the position stored there plus the
/// steps taken (modulo the length of the text); 0 when `fuel` further
/// steps find no sampled row.
pub open spec fn located<B: HasPosition>(b: B, i: int, steps: int, fuel: nat) -> int
    decreases fuel,
{
    if i % (b.sample_rate() as int) == 0 {
        (b.sa()[i] + steps) % (b.text().len() as int)
    } else if fuel == 0 {
        0
    } else {
        located(b, b.lf_spec(i), steps + 1, (fuel - 1) as nat)
    }
}

/// The position of the suffix of row `i`, found by stepping back to a
/// sampled row.
pub(crate) fn get_sa<B: HasPosition>(b: &B, i: usize) -> (r: usize)
    requires
        b.wf(),
        i < b.text().len(),
    ensures
        r < b.text().len(),
        r == located(*b, i as int, 0, b.text().len() as nat),
        b.steps_exact() ==> r == b.sa()[i as int],
{
    proof {
        b.lemma_wf();
    }
    let n = b.len();
    let ghost a = b.sa()[i as int] as int;
    let mut k = i;
    let mut steps: usize = 0;
    while steps <= n
        invariant
            b.wf(),
            n == b.text().len(),
            1 <= n <= usize::MAX / 64,
            0 <= a < n,
            a == b.sa()[i as int],
            k < n,
            steps <= n + 1,
            steps <= n ==> located(*b, i as int, 0, n as nat) == located(*b, k as int, steps as int, (n - steps) as nat),
            steps == n + 1 ==> located(*b, i as int, 0, n as nat) == 0,
            b.steps_exact() ==> {
                ||| (steps <= a && b.sa()[k as int] == a - steps)
                ||| (steps == a + 1 && k == 0)
            },
        decreases n + 1 - steps,
    {
        match b.sample_at(k) {
            Some(v) => {
                proof {
                    b.lemma_wf();
                    if b.steps_exact() {
                        if steps <= a {
                            vstd::arithmetic::div_mod::lemma_small_mod(a as nat, n as nat);
                        } else {
                            lemma_first_row(b.text(), b.sa());
                            vstd::arithmetic::div_mod::lemma_mod_add_multiples_vanish(a, n as int);
                            vstd::arithmetic::div_mod::lemma_small_mod(a as nat, n as nat);
                        }
                    }
                }
                return (v + steps) % n;
            },
            None => {
                proof {
                    if b.steps_exact() {
                        b.lemma_lf(k as int);
                        b.lemma_wf();
                        lemma_cyclic_prev(b.sa()[k as int] as int, n as int);
                        if steps == a + 1 {
                            // row 0 is always sampled
                            assert(0nat % b.sample_rate() == 0) by {
                                vstd::arithmetic::div_mod::lemma_small_mod(0, b.sample_rate());
                            }
                        } else if b.sa()[k as int] == 0 {
                            lemma_first_row(b.text(), b.sa());
                            let k2 = b.lf_spec(k as int);
                            if k2 != 0 {
                                lemma_rows_distinct(b.text(), b.sa(), k2, 0);
                            }
                        }
                    }
                }
                k = b.lf_map(k);
                steps = steps + 1;
            },
        }
    }
    proof {
        if b.steps_exact() {
            assert(false);
        }
    }
    0
}

/// A match in the text.
pub trait Match<C> {
    /// The `k`-th character before the match, nearest first.
    spec fn char_before(&self, k: int) -> C;

    /// The `k`-th character from the match on.
    spec fn char_after(&self, k: int) -> C;

    /// Reading forward stops before the `k`-th character from the match on.
    spec fn stops_before(&self, k: int) -> bool;

    /// The characters from the match on, `count` of them at most: up to the
    /// first place where reading stops.
    fn iter_chars_forward(&self, count: usize) -> (r: Vec<C>)
        ensures
            r.len() <= count,
            forall|k: int| 0 <= k < r.len() ==> r[k] == #[trigger] self.char_after(k),
            forall|k: int| 0 <= k < r.len() ==> !#[trigger] self.stops_before(k),
            r.len() < count ==> self.stops_before(r.len() as int),
    ;

    /// The characters before the match, nearest first, `count` of them.
    fn iter_chars_backward(&self, count: usize) -> (r: Vec<C>)
        ensures
            r.len() == count,
            forall|k: int| 0 <= k < count ==> r[k] == #[trigger] self.char_before(k),
    ;
}

/// A match in the text that contains its location on the text.
pub trait MatchWithLocate<C>: Match<C> {
    /// The position of the text reported for the match.
    spec fn location(&self) -> int;

    /// Get the location of the match in the text.
    fn locate(&self) -> (r: usize)
        ensures
            r == self.location(),
    ;
}

/// A match in the text that contains the ID of the piece where the pattern is found.
pub trait MatchWithPieceId<C>: Match<C> {
    /// The number of the piece the match starts in.
    spec fn piece(&self) -> nat;

    /// Get the ID of the text piece that the match starts in.
    fn piece_id(&self) -> (r: PieceId)
        ensures
            r.index() == self.piece(),
    ;
}

/// The result of a search.
///
/// A search result can be refined by adding more characters to the
/// search pattern, and it holds matches, which can be listed.
pub trait Search<C: Character>: Sized {
    /// The matches of the search.
    type Match;

    /// The codes of the text searched, terminator included.
    spec fn searched_text(&self) -> Seq<u64>;

    /// The code of the largest character the index accepts.
    spec fn searched_max_code(&self) -> u64;

    /// The codes of the pattern searched for.
    spec fn searched_pattern(&self) -> Seq<u64>;

    /// The rows found, as a half-open range.
    spec fn rows(&self) -> (int, int);

    /// The rows are the block of suffixes that start with the pattern.
    spec fn is_exact(&self) -> bool;

    /// The rows that backward search with the codes `p` leads to from the
    /// rows found.
    spec fn refined_rows(&self, p: Seq<u64>) -> (int, int);

    /// Search in the current search result, refining it.
    ///
    /// This adds a prefix `pattern` to the existing pattern, and
    /// looks for those expanded patterns in the text.
    fn search(&self, pattern: &[C]) -> (r: Self)
        requires
            forall|k: int| 0 <= k < pattern.len() ==> #[trigger] pattern[k].code() <= self.searched_max_code(),
        ensures
            r.searched_text() == self.searched_text(),
            r.searched_max_code() == self.searched_max_code(),
            r.searched_pattern() == codes_of(pattern@) + self.searched_pattern(),
            r.rows() == self.refined_rows(codes_of(pattern@)),
            r.is_exact() == (self.is_exact() && plain_pattern(codes_of(pattern@), self.searched_max_code())),
            r.is_exact() ==> r.rows().0 <= r.rows().1,
            r.reports_all_rows() == self.reports_all_rows(),
    ;

    /// Count the number of occurrences: the number of matches reported.
    fn count(&self) -> (r: usize)
        requires
            !self.reports_all_rows() || self.rows().0 <= self.rows().1,
        ensures
            r == self.reported_rows().len(),
            self.reports_all_rows() ==> r == self.rows().1 - self.rows().0,
            self.is_exact() && self.reports_all_rows() ==> r == occurrences(self.searched_text(), self.searched_pattern()),
    ;

    /// The rows reported as matches, in order.
    spec fn reported_rows(&self) -> Seq<int>;

    /// Every row found is reported as a match (not only those at the start of
    /// a piece).
    spec fn reports_all_rows(&self) -> bool;

    /// `m` is the match of this search at row `row`.
    spec fn is_match_at(&self, m: Self::Match, row: int) -> bool;

    /// The matches, one for each row reported, in the order of the rows.
    fn iter_matches(&self) -> (r: Vec<Self::Match>)
        ensures
            r.len() == self.reported_rows().len(),
            forall|k: int| 0 <= k < r.len() ==> self.is_match_at(#[trigger] r[k], self.reported_rows()[k]),
    ;
}

/// Searching in an index.
///
/// You can use this to search in an index generically. It is implemented
/// for references to the index types, whose searches borrow the index.
pub trait SearchIndex<C: Character>: Sized {
    /// The result of a search in this index.
    type Found: Search<C>;

    /// The codes of the indexed text, terminator included.
    spec fn indexed_text(&self) -> Seq<u64>;

    /// The code of the largest character the index accepts.
    spec fn indexed_max_code(&self) -> u64;

    /// The rows that backward search with the codes `p` leads to from the
    /// rows `s..e`.
    spec fn rows_from(&self, p: Seq<u64>, s: int, e: int) -> (int, int);

    /// Search for a pattern in the text.
    fn search(self, pattern: &[C]) -> (r: Self::Found)
        requires
            forall|k: int| 0 <= k < pattern.len() ==> #[trigger] pattern[k].code() <= self.indexed_max_code(),
        ensures
            r.searched_text() == self.indexed_text(),
            r.searched_max_code() == self.indexed_max_code(),
            r.searched_pattern() == codes_of(pattern@),
            r.rows() == self.rows_from(codes_of(pattern@), 0, self.indexed_text().len() as int),
            r.is_exact() == plain_pattern(codes_of(pattern@), self.indexed_max_code()),
            r.is_exact() ==> r.rows().0 <= r.rows().1,
            r.reports_all_rows(),
    ;

    /// The size of the text in the index, terminator included.
    fn len(self) -> (r: usize)
        ensures
            r == self.indexed_text().len(),
    ;

    /// `bytes` is a heap size the index reports (see `HeapSize`).
    spec fn is_index_heap_size(&self, bytes: usize) -> bool;

    /// The size of the data used by this structure on the heap, in bytes.
    fn heap_size(self) -> (r: usize)
        ensures
            self.is_index_heap_size(r),
    ;
}

impl<'a, B: SearchIndexBackend + HeapSize> SearchIndex<B::C> for &'a SearchIndexWrapper<B> {
    type Found = SearchWrapper<'a, B>;

    open spec fn indexed_text(&self) -> Seq<u64> {
        self.text()
    }

    open spec fn indexed_max_code(&self) -> u64 {
        self.max_code()
    }

    open spec fn rows_from(&self, p: Seq<u64>, s: int, e: int) -> (int, int) {
        backward_search(self.backend(), p, s, e)
    }

    fn search(self, pattern: &[B::C]) -> (r: SearchWrapper<'a, B>) {
        SearchIndexWrapper::search(self, pattern)
    }

    fn len(self) -> (r: usize) {
        SearchIndexWrapper::len(self)
    }

    open spec fn is_index_heap_size(&self, bytes: usize) -> bool {
        HeapSize::is_heap_size(*self, bytes)
    }

    fn heap_size(self) -> (r: usize) {
        HeapSize::heap_size(self)
    }
}

/// Searching in an index that holds several text pieces.
pub trait SearchIndexWithMultiPieces<C: Character>: SearchIndex<C> {
    /// Search for a pattern that is a prefix of a text piece.
    fn search_prefix(self, pattern: &[C]) -> (r: Self::Found)
        requires
            forall|k: int| 0 <= k < pattern.len() ==> #[trigger] pattern[k].code() <= self.indexed_max_code(),
        ensures
            r.searched_text() == self.indexed_text(),
            r.searched_max_code() == self.indexed_max_code(),
            r.searched_pattern() == codes_of(pattern@),
            r.rows() == self.rows_from(codes_of(pattern@), 0, self.indexed_text().len() as int),
            r.is_exact() == plain_pattern(codes_of(pattern@), self.indexed_max_code()),
            r.is_exact() ==> r.rows().0 <= r.rows().1,
            !r.reports_all_rows(),
    ;

    /// Search for a pattern that is a suffix of a text piece.
    fn search_suffix(self, pattern: &[C]) -> (r: Self::Found)
        requires
            forall|k: int| 0 <= k < pattern.len() ==> #[trigger] pattern[k].code() <= self.indexed_max_code(),
        ensures
            r.searched_text() == self.indexed_text(),
            r.searched_max_code() == self.indexed_max_code(),
            r.searched_pattern() == codes_of(pattern@).push(0),
            r.rows() == self.rows_from(codes_of(pattern@), 0, occ(self.indexed_text(), 0) as int),
            r.is_exact() == plain_pattern(codes_of(pattern@), self.indexed_max_code()),
            r.is_exact() ==> r.rows().0 <= r.rows().1,
            r.reports_all_rows(),
    ;

    /// Search for a pattern that is a whole text piece.
    fn search_exact(self, pattern: &[C]) -> (r: Self::Found)
        requires
            forall|k: int| 0 <= k < pattern.len() ==> #[trigger] pattern[k].code() <= self.indexed_max_code(),
        ensures
            r.searched_text() == self.indexed_text(),
            r.searched_max_code() == self.indexed_max_code(),
            r.searched_pattern() == codes_of(pattern@).push(0),
            r.rows() == self.rows_from(codes_of(pattern@), 0, occ(self.indexed_text(), 0) as int),
            r.is_exact() == plain_pattern(codes_of(pattern@), self.indexed_max_code()),
            r.is_exact() ==> r.rows().0 <= r.rows().1,
            !r.reports_all_rows(),
    ;
}

impl<'a, B: HasMultiPieces + HeapSize> SearchIndexWithMultiPieces<B::C> for &'a SearchIndexWrapper<B> {
    fn search_prefix(self, pattern: &[B::C]) -> (r: SearchWrapper<'a, B>) {
        SearchIndexWrapper::search_prefix(self, pattern)
    }

    fn search_suffix(self, pattern: &[B::C]) -> (r: SearchWrapper<'a, B>) {
        SearchIndexWrapper::search_suffix(self, pattern)
    }

    fn search_exact(self, pattern: &[B::C]) -> (r: SearchWrapper<'a, B>) {
        SearchIndexWrapper::search_exact(self, pattern)
    }
}

impl<'a, B: SearchIndexBackend> Search<B::C> for SearchWrapper<'a, B> {
    type Match = MatchWrapper<'a, B>;

    open spec fn searched_text(&self) -> Seq<u64> {
        self.text()
    }

    open spec fn searched_max_code(&self) -> u64 {
        self.backend().max_code()
    }

    open spec fn searched_pattern(&self) -> Seq<u64> {
        self.pattern()
    }

    open spec fn rows(&self) -> (int, int) {
        self.range()
    }

    open spec fn is_exact(&self) -> bool {
        self.exact()
    }

    open spec fn refined_rows(&self, p: Seq<u64>) -> (int, int) {
        backward_search(self.backend(), p, self.range().0, self.range().1)
    }

    open spec fn reported_rows(&self) -> Seq<int> {
        match_rows(self.backend(), self.range().0, self.range().1, self.prefix_only())
    }

    open spec fn reports_all_rows(&self) -> bool {
        !self.prefix_only()
    }

    open spec fn is_match_at(&self, m: MatchWrapper<'a, B>, row: int) -> bool {
        m.backend() == self.backend() && m.row() == row
    }

    fn search(&self, pattern: &[B::C]) -> (r: Self) {
        SearchWrapper::search(self, pattern)
    }

    fn count(&self) -> (r: usize) {
        SearchWrapper::count(self)
    }

    fn iter_matches(&self) -> (r: Vec<MatchWrapper<'a, B>>) {
        SearchWrapper::iter_matches(self)
    }
}

impl<'a, B: SearchIndexBackend> Match<B::C> for MatchWrapper<'a, B> {
    open spec fn char_before(&self, k: int) -> B::C {
        B::C::from_code(bwt(self.text(), self.backend().sa())[lf_iter(self.backend(), self.row(), k as nat)])
    }

    open spec fn char_after(&self, k: int) -> B::C {
        B::C::from_code(self.text()[self.backend().sa()[fl_iter(self.backend(), self.row(), k as nat)] as int])
    }

    open spec fn stops_before(&self, k: int) -> bool {
        self.backend().stops_at_zero()
            && self.text()[self.backend().sa()[fl_iter(self.backend(), self.row(), k as nat)] as int] == 0
    }

    fn iter_chars_forward(&self, count: usize) -> (r: Vec<B::C>) {
        let r = MatchWrapper::iter_chars_forward(self, count);
        proof {
            assert forall|k: int| 0 <= k < r.len() implies r[k] == #[trigger] self.char_after(k) by {
                B::C::lemma_code(r[k]);
            }
        }
        r
    }

    fn iter_chars_backward(&self, count: usize) -> (r: Vec<B::C>) {
        MatchWrapper::iter_chars_backward(self, count)
    }
}

impl<'a, B: HasPosition> MatchWithLocate<B::C> for MatchWrapper<'a, B> {
    open spec fn location(&self) -> int {
        located(self.backend(), self.row(), 0, self.text().len() as nat)
    }

    fn locate(&self) -> (r: usize) {
        MatchWrapper::locate(self)
    }
}

impl<'a, B: HasMultiPieces> MatchWithPieceId<B::C> for MatchWrapper<'a, B> {
    open spec fn piece(&self) -> nat {
        zeros_before(self.text(), self.position())
    }

    fn piece_id(&self) -> (r: PieceId) {
        MatchWrapper::piece_id(self)
    }
}

} // verus!
