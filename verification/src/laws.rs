//! What the indexes promise as a whole: searching finds the occurrences of
//! a pattern, counting counts them, the matches locate them, refining a
//! search is searching the longer pattern, the suffix array an index is
//! built on is the only one its text has, every index variant answers
//! the same, LF permutes the rows, and sampling at a higher level keeps
//! fewer entries.
use vstd::prelude::*;
use crate::backend::SearchIndexBackend;
use crate::sample::sample_entries;
use vstd::arithmetic::div_mod::{lemma_div_is_ordered_by_denominator, lemma_div_plus_one};
use vstd::arithmetic::power2::{lemma_pow2_pos, lemma_pow2_strictly_increases, pow2};
use crate::counting::lemma_suffix_array_onto;
use crate::model::{count_upto, is_suffix_array, lex_lt, occ, occurrences, occurs_at, suffix};
use crate::search::{
    backward_search, lemma_count_positive, lemma_occurrences_prefix, lemma_represents_count, lemma_represents_empty,
    lemma_represents_step, match_rows, plain_pattern, represents,
};
use crate::theory::{
    bwt, cons, lemma_block_rows, lemma_count_less_zero, lemma_empty_interval, lemma_lt_single, lemma_row_of_position, prev_char,
};

verus! {

/// Backward search of a pattern of non-zero characters from the block of
/// a pattern `q` ends at the block of the pattern followed by `q` (or at an
/// empty range when that does not occur).
pub proof fn lemma_backward_search_block<B: SearchIndexBackend>(b: B, p: Seq<u64>, q: Seq<u64>, s: int, e: int)
    requires
        b.wf(),
        plain_pattern(p, b.max_code()),
        represents(b.text(), q, s, e),
    ensures
        represents(b.text(), p + q, backward_search(b, p, s, e).0, backward_search(b, p, s, e).1),
    decreases p.len(),
{
    if p.len() == 0 {
        assert(p + q =~= q);
    } else {
        let c = p.last();
        let p1 = p.drop_last();
        lemma_represents_step(b, c, q, s, e);
        let s2 = b.lf2_spec(c, s);
        let e2 = b.lf2_spec(c, e);
        assert(p1 + cons(c, q) =~= p + q);
        assert(plain_pattern(p1, b.max_code()));
        if s2 == e2 {
            lemma_represents_empty(b.text(), cons(c, q), s2);
            lemma_occurrences_prefix(b.text(), p1, cons(c, q));
        } else {
            lemma_backward_search_block(b, p1, cons(c, q), s2, e2);
        }
    }
}

/// Searching an index for a pattern of non-zero characters it accepts finds
/// the block of rows whose suffixes start with the pattern: as many rows as
/// the pattern has occurrences in the text.
pub proof fn law_search_counts_occurrences<B: SearchIndexBackend>(b: B, p: Seq<u64>)
    requires
        b.wf(),
        plain_pattern(p, b.max_code()),
    ensures
        represents(
            b.text(),
            p,
            backward_search(b, p, 0, b.text().len() as int).0,
            backward_search(b, p, 0, b.text().len() as int).1,
        ),
        backward_search(b, p, 0, b.text().len() as int).0 <= backward_search(b, p, 0, b.text().len() as int).1,
        backward_search(b, p, 0, b.text().len() as int).1 - backward_search(b, p, 0, b.text().len() as int).0
            == occurrences(b.text(), p),
{
    lemma_empty_interval(b.text());
    lemma_backward_search_block(b, p, Seq::empty(), 0, b.text().len() as int);
    assert(p + Seq::<u64>::empty() =~= p);
    lemma_represents_count(
        b.text(),
        p,
        backward_search(b, p, 0, b.text().len() as int).0,
        backward_search(b, p, 0, b.text().len() as int).1,
    );
}

/// The rows of the block of a pattern hold exactly the positions at which
/// the pattern occurs, each once.
pub proof fn law_block_positions<B: SearchIndexBackend>(b: B, p: Seq<u64>, s: int, e: int)
    requires
        b.wf(),
        represents(b.text(), p, s, e),
    ensures
        forall|r: int| s <= r < e ==> 0 <= r < b.text().len() && occurs_at(b.text(), p, #[trigger] b.sa()[r] as int),
        forall|j: int| #[trigger] occurs_at(b.text(), p, j) ==> exists|r: int| s <= r < e && b.sa()[r] == j,
        forall|r1: int, r2: int| s <= r1 < r2 < e ==> #[trigger] b.sa()[r1] != #[trigger] b.sa()[r2],
{
    let t = b.text();
    let sa = b.sa();
    b.lemma_wf();
    lemma_represents_count(t, p, s, e);
    if s == lt_count_of(t, p) && e == le_count_of(t, p) {
        crate::counting::lemma_count_bound(
            t.len() as int,
            |j: int| lex_lt(suffix(t, j), p) || p.is_prefix_of(suffix(t, j)),
        );
        assert forall|r: int| s <= r < e implies 0 <= r < t.len() && occurs_at(t, p, #[trigger] sa[r] as int) by {
            lemma_block_rows(t, sa, p, r);
        }
        assert forall|j: int| #[trigger] occurs_at(t, p, j) implies exists|r: int| s <= r < e && sa[r] == j by {
            lemma_suffix_array_onto(t, sa, j);
            let r = choose|r: int| 0 <= r < sa.len() && sa[r] == j;
            lemma_block_rows(t, sa, p, r);
        }
    } else {
        assert forall|j: int| #[trigger] occurs_at(t, p, j) implies exists|r: int| s <= r < e && sa[r] == j by {
            lemma_count_positive(t.len() as int, |k: int| p.is_prefix_of(suffix(t, k)), j);
        }
    }
    assert forall|r1: int, r2: int| s <= r1 < r2 < e implies #[trigger] sa[r1] != #[trigger] sa[r2] by {
        if s == lt_count_of(t, p) {
            crate::theory::lemma_rows_distinct(t, sa, r1, r2);
        }
    }
}

/// Where the block of `p` begins (see `theory::lt_count`).
pub open spec fn lt_count_of(t: Seq<u64>, p: Seq<u64>) -> nat {
    crate::theory::lt_count(t, p)
}

/// Where the block of `p` ends (see `theory::le_count`).
pub open spec fn le_count_of(t: Seq<u64>, p: Seq<u64>) -> nat {
    crate::theory::le_count(t, p)
}

/// The rows reported as matches: all rows of the range, or only those whose
/// suffix starts a piece; in increasing order.
pub proof fn lemma_match_rows<B: SearchIndexBackend>(b: B, s: int, e: int, prefix_only: bool)
    ensures
        forall|k: int|
            0 <= k < match_rows(b, s, e, prefix_only).len() ==> {
                &&& s <= #[trigger] match_rows(b, s, e, prefix_only)[k] < e
                &&& prefix_only ==> bwt(b.text(), b.sa())[match_rows(b, s, e, prefix_only)[k]] == 0
            },
        prefix_only ==> forall|r: int|
            s <= r < e && #[trigger] bwt(b.text(), b.sa())[r] == 0 ==> exists|k: int|
                0 <= k < match_rows(b, s, e, prefix_only).len() && match_rows(b, s, e, prefix_only)[k] == r,
        forall|k1: int, k2: int|
            0 <= k1 < k2 < match_rows(b, s, e, prefix_only).len() ==> #[trigger] match_rows(b, s, e, prefix_only)[k1]
                < #[trigger] match_rows(b, s, e, prefix_only)[k2],
        !prefix_only && s <= e ==> match_rows(b, s, e, prefix_only).len() == e - s,
        !prefix_only ==> forall|k: int|
            0 <= k < match_rows(b, s, e, prefix_only).len() ==> #[trigger] match_rows(b, s, e, prefix_only)[k] == s + k,
    decreases e - s,
{
    if e > s {
        lemma_match_rows(b, s, e - 1, prefix_only);
        let rest = match_rows(b, s, e - 1, prefix_only);
        let l = bwt(b.text(), b.sa());
        if prefix_only && l[e - 1] == 0 {
            let all = rest.push(e - 1);
            assert(match_rows(b, s, e, prefix_only) == all);
            assert forall|r: int| s <= r < e && #[trigger] l[r] == 0 implies exists|k: int|
                0 <= k < all.len() && all[k] == r by {
                if r < e - 1 {
                    let k = choose|k: int| 0 <= k < rest.len() && rest[k] == r;
                    assert(all[k] == r);
                } else {
                    assert(all[all.len() - 1] == r);
                }
            }
        } else if prefix_only {
            assert(match_rows(b, s, e, prefix_only) == rest);
            assert forall|r: int| s <= r < e && #[trigger] l[r] == 0 implies exists|k: int|
                0 <= k < rest.len() && rest[k] == r by {
                assert(r < e - 1);
            }
        }
    }
}

/// Searching with the matches reported as located: for a pattern of
/// non-zero characters, the positions of the rows of a plain search are
/// exactly the positions at which the pattern occurs, each once.
pub proof fn law_matches_locate_occurrences<B: SearchIndexBackend>(b: B, p: Seq<u64>)
    requires
        b.wf(),
        plain_pattern(p, b.max_code()),
    ensures
        ({
            let (s, e) = backward_search(b, p, 0, b.text().len() as int);
            let rows = match_rows(b, s, e, false);
            &&& rows.len() == occurrences(b.text(), p)
            &&& forall|k: int| 0 <= k < rows.len() ==> occurs_at(b.text(), p, b.sa()[#[trigger] rows[k]] as int)
            &&& forall|j: int| #[trigger] occurs_at(b.text(), p, j) ==> exists|k: int|
                0 <= k < rows.len() && b.sa()[rows[k]] == j
            &&& forall|k1: int, k2: int|
                0 <= k1 < k2 < rows.len() ==> b.sa()[#[trigger] rows[k1]] != b.sa()[#[trigger] rows[k2]]
        }),
{
    let (s, e) = backward_search(b, p, 0, b.text().len() as int);
    law_search_counts_occurrences(b, p);
    law_block_positions(b, p, s, e);
    lemma_match_rows(b, s, e, false);
    let rows = match_rows(b, s, e, false);
    assert forall|j: int| #[trigger] occurs_at(b.text(), p, j) implies exists|k: int|
        0 <= k < rows.len() && b.sa()[rows[k]] == j by {
        let r = choose|r: int| s <= r < e && b.sa()[r] == j;
        assert(rows[r - s] == r);
    }
    assert forall|k1: int, k2: int| 0 <= k1 < k2 < rows.len() implies b.sa()[#[trigger] rows[k1]] != b.sa()[#[trigger] rows[k2]] by {
        assert(rows[k1] < rows[k2]);
    }
}

/// The matches of a search restricted to piece starts (exact and prefix
/// searches of a multi-piece index): the rows reported are exactly those of
/// the occurrences at the start of the text or right after a zero.
pub proof fn law_prefix_matches<B: SearchIndexBackend>(b: B, q: Seq<u64>, s: int, e: int)
    requires
        b.wf(),
        represents(b.text(), q, s, e),
    ensures
        ({
            let rows = match_rows(b, s, e, true);
            &&& forall|k: int|
                0 <= k < rows.len() ==> occurs_at(b.text(), q, b.sa()[#[trigger] rows[k]] as int) && prev_char(
                    b.text(),
                    b.sa()[rows[k]] as int,
                ) == 0
            &&& forall|j: int|
                #[trigger] occurs_at(b.text(), q, j) && prev_char(b.text(), j) == 0 ==> exists|k: int|
                    0 <= k < rows.len() && b.sa()[rows[k]] == j
        }),
{
    law_block_positions(b, q, s, e);
    lemma_match_rows(b, s, e, true);
    let rows = match_rows(b, s, e, true);
    b.lemma_wf();
    assert forall|j: int| #[trigger] occurs_at(b.text(), q, j) && prev_char(b.text(), j) == 0 implies exists|k: int|
        0 <= k < rows.len() && b.sa()[rows[k]] == j by {
        let r = choose|r: int| s <= r < e && b.sa()[r] == j;
        assert(bwt(b.text(), b.sa())[r] == 0);
        let k = choose|k: int| 0 <= k < rows.len() && rows[k] == r;
    }
}

/// Backward search from an empty range ends at an empty range.
pub proof fn lemma_backward_search_empty<B: SearchIndexBackend>(b: B, p: Seq<u64>, x: int)
    ensures
        backward_search(b, p, x, x).0 == backward_search(b, p, x, x).1,
    decreases p.len(),
{
}

/// Refining a search result with a pattern is searching for the longer
/// pattern: the search for `q` in the result of the search for `p` ends at
/// the same rows as the search for `q` followed by `p`, or both end at an
/// empty range.
pub proof fn law_refine_search<B: SearchIndexBackend>(b: B, q: Seq<u64>, p: Seq<u64>, s: int, e: int)
    ensures
        ({
            let inner = backward_search(b, p, s, e);
            let refined = backward_search(b, q, inner.0, inner.1);
            let whole = backward_search(b, q + p, s, e);
            ||| refined == whole
            ||| (refined.0 == refined.1 && whole.0 == whole.1)
        }),
    decreases p.len(),
{
    if p.len() == 0 {
        assert(q + p =~= q);
    } else {
        let c = p.last();
        let s2 = b.lf2_spec(c, s);
        let e2 = b.lf2_spec(c, e);
        assert((q + p).drop_last() =~= q + p.drop_last());
        assert((q + p).last() == c);
        if s2 == e2 {
            lemma_backward_search_empty(b, q, s2);
        } else {
            law_refine_search(b, q, p.drop_last(), s2, e2);
        }
    }
}

/// A text has a single suffix array: two arrays that both list its
/// positions in the order of their suffixes are equal.
pub proof fn law_suffix_array_unique(t: Seq<u64>, sa1: Seq<usize>, sa2: Seq<usize>)
    requires
        is_suffix_array(t, sa1),
        is_suffix_array(t, sa2),
    ensures
        sa1 == sa2,
{
    assert forall|r: int| 0 <= r < sa1.len() implies sa1[r] == sa2[r] by {
        lemma_row_of_position(t, sa1, r);
        lemma_suffix_array_onto(t, sa2, sa1[r] as int);
        let r2 = choose|r2: int| 0 <= r2 < sa2.len() && sa2[r2] == sa1[r];
        lemma_row_of_position(t, sa2, r2);
    }
    assert(sa1 =~= sa2);
}

/// Every index variant answers the same: two indexes of the same text are
/// built on the same suffix array, find the same number of rows for a
/// pattern of non-zero characters both accept, and, where the pattern
/// occurs, the same rows.
pub proof fn law_variants_agree<B1: SearchIndexBackend, B2: SearchIndexBackend>(b1: B1, b2: B2, p: Seq<u64>)
    requires
        b1.wf(),
        b2.wf(),
        b1.text() == b2.text(),
        plain_pattern(p, b1.max_code()),
        plain_pattern(p, b2.max_code()),
    ensures
        b1.sa() == b2.sa(),
        ({
            let (s1, e1) = backward_search(b1, p, 0, b1.text().len() as int);
            let (s2, e2) = backward_search(b2, p, 0, b2.text().len() as int);
            &&& e1 - s1 == e2 - s2
            &&& occurrences(b1.text(), p) > 0 ==> s1 == s2 && e1 == e2
        }),
{
    b1.lemma_wf();
    b2.lemma_wf();
    law_suffix_array_unique(b1.text(), b1.sa(), b2.sa());
    law_search_counts_occurrences(b1, p);
    law_search_counts_occurrences(b2, p);
}

/// Sampling a suffix array keeps one entry in every `2^level`, rounded up
/// (level 1 keeps half, level 2 a quarter, ...), so a higher level keeps no
/// more entries. Arrays no longer than `2^level` are kept whole instead,
/// which is why the array must be longer than `2^l2`.
pub proof fn law_sample_entries(n: nat, l1: nat, l2: nat)
    requires
        l1 <= l2,
        n > pow2(l2),
    ensures
        sample_entries(n, l1) == (n + pow2(l1) - 1) / (pow2(l1) as int),
        sample_entries(n, l2) == (n + pow2(l2) - 1) / (pow2(l2) as int),
        sample_entries(n, l2) <= sample_entries(n, l1),
{
    let p1 = pow2(l1) as int;
    let p2 = pow2(l2) as int;
    lemma_pow2_pos(l1);
    lemma_pow2_pos(l2);
    if l1 < l2 {
        lemma_pow2_strictly_increases(l1, l2);
    }
    lemma_div_plus_one(n - 1, p1);
    lemma_div_plus_one(n - 1, p2);
    assert(p1 + (n - 1) == n + p1 - 1);
    assert(p2 + (n - 1) == n + p2 - 1);
    lemma_div_is_ordered_by_denominator(n - 1, p1, p2);
}

/// LF permutes the rows: it leads from each row to a row, and no two rows to
/// the same one. So stepping forward from the row LF leads to gives the row
/// stepped from (`fl_map(lf_map(i))` is row `i`, where it is not a piece end).
pub proof fn law_lf_permutes_rows<B: SearchIndexBackend>(b: B, i: int, j: int)
    requires
        b.wf(),
        0 <= i < b.text().len(),
        0 <= j < b.text().len(),
    ensures
        0 <= b.lf_spec(i) < b.text().len(),
        b.lf_spec(i) == b.lf_spec(j) ==> i == j,
{
    b.lemma_lf_range(i);
    if b.lf_spec(i) == b.lf_spec(j) {
        b.lemma_lf_injective(i, j);
    }
}

/// The rows whose suffixes start with the zero character are the first
/// ones, one for each zero of the text: the block of the piece ends.
pub proof fn lemma_piece_end_block(t: Seq<u64>)
    ensures
        represents(t, seq![0u64], 0, occ(t, 0) as int),
{
    lemma_lt_single(t, 0);
    lemma_count_less_zero(t);
}

/// The occurrences that a search reporting only piece starts reports, each
/// once: positions of the rows are distinct.
proof fn lemma_reported_distinct<B: SearchIndexBackend>(b: B, s: int, e: int, prefix_only: bool)
    requires
        b.wf(),
        e <= s || (0 <= s && e <= b.text().len()),
    ensures
        forall|k1: int, k2: int|
            0 <= k1 < k2 < match_rows(b, s, e, prefix_only).len() ==> b.sa()[#[trigger] match_rows(b, s, e, prefix_only)[k1]]
                != b.sa()[#[trigger] match_rows(b, s, e, prefix_only)[k2]],
{
    lemma_match_rows(b, s, e, prefix_only);
    b.lemma_wf();
    let rows = match_rows(b, s, e, prefix_only);
    assert forall|k1: int, k2: int| 0 <= k1 < k2 < rows.len() implies b.sa()[#[trigger] rows[k1]] != b.sa()[#[trigger] rows[k2]] by {
        crate::theory::lemma_rows_distinct(b.text(), b.sa(), rows[k1], rows[k2]);
    }
}

/// A prefix search (`search_prefix`) for a pattern of non-zero characters
/// the index accepts reports exactly the occurrences of the pattern that
/// start a piece (at position 0 or right after a zero), each once; an
/// occurrence inside a piece is not reported.
pub proof fn law_prefix_search<B: SearchIndexBackend>(b: B, p: Seq<u64>)
    requires
        b.wf(),
        plain_pattern(p, b.max_code()),
    ensures
        ({
            let (s, e) = backward_search(b, p, 0, b.text().len() as int);
            let rows = match_rows(b, s, e, true);
            &&& forall|k: int|
                0 <= k < rows.len() ==> occurs_at(b.text(), p, b.sa()[#[trigger] rows[k]] as int)
                    && prev_char(b.text(), b.sa()[rows[k]] as int) == 0
            &&& forall|j: int|
                #[trigger] occurs_at(b.text(), p, j) && prev_char(b.text(), j) == 0 ==> exists|k: int|
                    0 <= k < rows.len() && b.sa()[rows[k]] == j
            &&& forall|k1: int, k2: int|
                0 <= k1 < k2 < rows.len() ==> b.sa()[#[trigger] rows[k1]] != b.sa()[#[trigger] rows[k2]]
        }),
{
    let (s, e) = backward_search(b, p, 0, b.text().len() as int);
    law_search_counts_occurrences(b, p);
    law_prefix_matches(b, p, s, e);
    b.lemma_wf();
    law_block_positions(b, p, s, e);
    if s < e {
        assert(occurs_at(b.text(), p, b.sa()[s] as int));
        assert(occurs_at(b.text(), p, b.sa()[e - 1] as int));
    }
    lemma_reported_distinct(b, s, e, true);
}

/// An exact search (`search_exact`) for a pattern of non-zero characters the
/// index accepts reports exactly the pieces equal to the pattern: the
/// occurrences of the pattern followed by a zero that start a piece, each
/// once. A piece that only ends with the pattern is not reported.
pub proof fn law_exact_search<B: SearchIndexBackend>(b: B, p: Seq<u64>)
    requires
        b.wf(),
        plain_pattern(p, b.max_code()),
    ensures
        ({
            let (s, e) = backward_search(b, p, 0, occ(b.text(), 0) as int);
            let rows = match_rows(b, s, e, true);
            &&& forall|k: int|
                0 <= k < rows.len() ==> occurs_at(b.text(), p.push(0), b.sa()[#[trigger] rows[k]] as int)
                    && prev_char(b.text(), b.sa()[rows[k]] as int) == 0
            &&& forall|j: int|
                #[trigger] occurs_at(b.text(), p.push(0), j) && prev_char(b.text(), j) == 0 ==> exists|k: int|
                    0 <= k < rows.len() && b.sa()[rows[k]] == j
            &&& forall|k1: int, k2: int|
                0 <= k1 < k2 < rows.len() ==> b.sa()[#[trigger] rows[k1]] != b.sa()[#[trigger] rows[k2]]
        }),
{
    let z = occ(b.text(), 0) as int;
    lemma_piece_end_block(b.text());
    lemma_represents_count(b.text(), seq![0u64], 0, z);
    lemma_backward_search_block(b, p, seq![0u64], 0, z);
    assert(p + seq![0u64] =~= p.push(0));
    let (s, e) = backward_search(b, p, 0, z);
    law_prefix_matches(b, p.push(0), s, e);
    b.lemma_wf();
    law_block_positions(b, p.push(0), s, e);
    if s < e {
        assert(occurs_at(b.text(), p.push(0), b.sa()[s] as int));
        assert(occurs_at(b.text(), p.push(0), b.sa()[e - 1] as int));
    }
    lemma_reported_distinct(b, s, e, true);
}

/// A suffix search (`search_suffix`) for a pattern of non-zero characters
/// the index accepts reports exactly the occurrences of the pattern that end
/// a piece (followed by a zero), each once.
pub proof fn law_suffix_search<B: SearchIndexBackend>(b: B, p: Seq<u64>)
    requires
        b.wf(),
        plain_pattern(p, b.max_code()),
    ensures
        ({
            let (s, e) = backward_search(b, p, 0, occ(b.text(), 0) as int);
            let rows = match_rows(b, s, e, false);
            &&& rows.len() == occurrences(b.text(), p.push(0))
            &&& forall|k: int| 0 <= k < rows.len() ==> occurs_at(b.text(), p.push(0), b.sa()[#[trigger] rows[k]] as int)
            &&& forall|j: int| #[trigger] occurs_at(b.text(), p.push(0), j) ==> exists|k: int|
                0 <= k < rows.len() && b.sa()[rows[k]] == j
            &&& forall|k1: int, k2: int|
                0 <= k1 < k2 < rows.len() ==> b.sa()[#[trigger] rows[k1]] != b.sa()[#[trigger] rows[k2]]
        }),
{
    let z = occ(b.text(), 0) as int;
    lemma_piece_end_block(b.text());
    lemma_represents_count(b.text(), seq![0u64], 0, z);
    lemma_backward_search_block(b, p, seq![0u64], 0, z);
    assert(p + seq![0u64] =~= p.push(0));
    let (s, e) = backward_search(b, p, 0, z);
    lemma_represents_count(b.text(), p.push(0), s, e);
    law_block_positions(b, p.push(0), s, e);
    lemma_match_rows(b, s, e, false);
    let rows = match_rows(b, s, e, false);
    assert forall|j: int| #[trigger] occurs_at(b.text(), p.push(0), j) implies exists|k: int|
        0 <= k < rows.len() && b.sa()[rows[k]] == j by {
        let r = choose|r: int| s <= r < e && b.sa()[r] == j;
        assert(rows[r - s] == r);
    }
    if s < e {
        assert(occurs_at(b.text(), p.push(0), b.sa()[s] as int));
        assert(occurs_at(b.text(), p.push(0), b.sa()[e - 1] as int));
    }
    lemma_reported_distinct(b, s, e, false);
}

/// Refining a search reports the matches that the search for the longer
/// pattern reports, with the same reporting: refining a prefix search
/// (`search_prefix`, then `search`) reports the piece starts of the longer
/// pattern, refining a plain search all its occurrences.
pub proof fn law_refine_reports<B: SearchIndexBackend>(b: B, q: Seq<u64>, p: Seq<u64>, s: int, e: int, prefix_only: bool)
    ensures
        ({
            let inner = backward_search(b, p, s, e);
            let refined = backward_search(b, q, inner.0, inner.1);
            let whole = backward_search(b, q + p, s, e);
            match_rows(b, refined.0, refined.1, prefix_only) == match_rows(b, whole.0, whole.1, prefix_only)
        }),
{
    law_refine_search(b, q, p, s, e);
    let inner = backward_search(b, p, s, e);
    let refined = backward_search(b, q, inner.0, inner.1);
    let whole = backward_search(b, q + p, s, e);
    if refined != whole {
        assert(match_rows(b, refined.0, refined.1, prefix_only) == Seq::<int>::empty());
        assert(match_rows(b, whole.0, whole.1, prefix_only) == Seq::<int>::empty());
    }
}

} // verus!
