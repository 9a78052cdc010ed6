use fm_index::backend::{HasMultiPieces, SearchIndexBackend};
use fm_index::multi_pieces::FMIndexMultiPiecesBackend;
use fm_index::sample::SuffixOrderSampledArray;
use fm_index::{FMIndexMultiPieces, FMIndexMultiPiecesWithLocate, PieceId, Text};
use rand::rngs::StdRng;
use rand::{Rng, SeedableRng};

/// Build a text for tests using a generator function `gen`: no two
/// consecutive zeros, not starting with a zero, ending with a single zero.
fn build_text<F: FnMut() -> u8>(mut gen: F, len: usize) -> Vec<u8> {
    let mut text = vec![0u8; len];
    let mut prev_zero = true;
    for t in text.iter_mut().take(len - 1) {
        let mut c = gen();
        if prev_zero {
            while c == 0 {
                c = gen();
            }
        }
        prev_zero = c == 0;
        *t = c;
    }
    while text[len - 2] == 0 {
        text[len - 2] = gen();
    }
    text
}

/// Run `run_test` on `texts` random texts with `patterns` random patterns each.
fn run_random<R>(text_size: usize, run_test: R)
where
    R: Fn(&FMIndexMultiPiecesWithLocate<u8>, &[u8], &[u8]),
{
    let texts = 100;
    let patterns = 100;
    let alphabet_size: u8 = 8;
    let level_max: usize = 3;
    let pattern_size_max: usize = 10;
    let mut rng = StdRng::seed_from_u64(0);
    for _ in 0..texts {
        let text = build_text(|| rng.gen::<u8>() % alphabet_size, text_size);
        let level = rng.gen::<usize>() % (level_max + 1);
        let fm_index = FMIndexMultiPiecesWithLocate::new(&Text::new(text.clone()), level).unwrap();
        for _ in 0..patterns {
            let pattern_size = rng.gen::<usize>() % (pattern_size_max - 1) + 1;
            let pattern = (0..pattern_size)
                .map(|_| rng.gen::<u8>() % (alphabet_size - 1) + 1)
                .collect::<Vec<_>>();
            run_test(&fm_index, &text, &pattern);
        }
    }
}

#[test]
fn test_multitext_test_search_count() {
    let text_size = 1024;
    run_random(text_size, |fm_index, text, pattern| {
        let mut count_expected = 0;
        for i in 0..=(text_size - pattern.len()) {
            if &text[i..i + pattern.len()] == pattern {
                count_expected += 1;
            }
        }
        let count_actual = fm_index.search(pattern).count();
        assert_eq!(count_expected, count_actual, "text = {:?}, pattern = {:?}", text, pattern);
    });
}

#[test]
fn test_multitext_test_search_locate() {
    let text_size = 1024;
    run_random(text_size, |fm_index, text, pattern| {
        let mut positions_expected = Vec::new();
        for i in 0..=(text_size - pattern.len()) {
            if &text[i..i + pattern.len()] == pattern {
                positions_expected.push(i);
            }
        }
        let mut positions_actual =
            fm_index.search(pattern).iter_matches().iter().map(|m| m.locate()).collect::<Vec<_>>();
        positions_actual.sort();
        assert_eq!(positions_expected, positions_actual, "text = {:?}, pattern = {:?}", text, pattern);
    });
}

#[test]
fn test_search_iter_matches_locate() {
    let text_size = 1024;
    run_random(text_size, |fm_index, text, pattern| {
        let mut positions_expected = Vec::new();
        for i in 0..=(text_size - pattern.len()) {
            if &text[i..i + pattern.len()] == pattern {
                positions_expected.push(i);
            }
        }
        let mut positions_actual = fm_index
            .search(pattern)
            .iter_matches()
            .into_iter()
            .map(|m| m.locate())
            .collect::<Vec<_>>();
        positions_actual.sort();
        assert_eq!(positions_expected, positions_actual, "text = {:?}, pattern = {:?}", text, pattern);
    });
}

#[test]
fn test_search_iter_matches_text_id() {
    let text_size = 1024;
    run_random(text_size, |fm_index, text, pattern| {
        let mut text_ids_expected = Vec::new();
        let mut text_id = 0;
        for i in 0..=(text_size - pattern.len()) {
            if text[i] == 0 {
                text_id += 1;
            }
            if &text[i..i + pattern.len()] == pattern {
                text_ids_expected.push(PieceId::from(text_id));
            }
        }
        let mut text_ids_actual = fm_index
            .search(pattern)
            .iter_matches()
            .into_iter()
            .map(|m| m.piece_id())
            .collect::<Vec<_>>();
        text_ids_actual.sort();
        assert_eq!(text_ids_expected, text_ids_actual, "text = {:?}, pattern = {:?}", text, pattern);
    });
}

/// The suffix array of `text`, by sorting its suffixes.
fn naive_suffix_array(text: &[u8]) -> Vec<usize> {
    let n = text.len();
    let mut sa = (0..n).collect::<Vec<_>>();
    sa.sort_by_key(|&i| &text[i..n]);
    sa
}

#[test]
fn test_get_piece_id() {
    let text = "foo\0bar\0baz\0".as_bytes();
    let suffix_array = naive_suffix_array(text);
    let backend =
        FMIndexMultiPiecesBackend::<u8, SuffixOrderSampledArray>::new(&Text::new(text.to_vec()), 0).unwrap();
    for (i, &char_pos) in suffix_array.iter().enumerate() {
        let piece_id_expected = PieceId::from(text[..char_pos].iter().filter(|&&c| c == 0).count());
        let piece_id_actual = backend.piece_id(i);
        assert_eq!(
            piece_id_expected, piece_id_actual,
            "the piece ID of a character at position {} ({} in suffix array) must be {:?}",
            char_pos, i, piece_id_expected
        );
    }
}

#[test]
fn test_get_piece_id_random() {
    let text_size = 512;
    let mut rng = StdRng::seed_from_u64(0);
    for _ in 0..100 {
        let text = build_text(|| rng.gen::<u8>() % 8, text_size);
        let suffix_array = naive_suffix_array(&text);
        let backend =
            FMIndexMultiPiecesBackend::<u8, SuffixOrderSampledArray>::new(&Text::new(text.clone()), 0).unwrap();
        for (i, &char_pos) in suffix_array.iter().enumerate() {
            let piece_id_expected = PieceId::from(text[..char_pos].iter().filter(|&&c| c == 0).count());
            assert_eq!(piece_id_expected, backend.piece_id(i), "text={:?}", text);
        }
    }
}

#[test]
fn test_pieces_search_prefix_suffix_exact() {
    let text = "foo\0bar\0foobar\0bar\0".as_bytes().to_vec();
    let index = FMIndexMultiPiecesWithLocate::new(&Text::new(text), 0).unwrap();

    let mut prefix = index.search_prefix(b"foo").iter_matches().iter().map(|m| m.locate()).collect::<Vec<_>>();
    prefix.sort();
    assert_eq!(prefix, vec![0, 8]);

    let suffix = index.search_suffix(b"bar");
    assert_eq!(suffix.count(), 3);
    let mut suffix_pos = suffix.iter_matches().iter().map(|m| m.locate()).collect::<Vec<_>>();
    suffix_pos.sort();
    assert_eq!(suffix_pos, vec![4, 11, 15]);

    let exact = index.search_exact(b"bar");
    let mut exact_pos = exact.iter_matches().iter().map(|m| m.locate()).collect::<Vec<_>>();
    exact_pos.sort();
    assert_eq!(exact_pos, vec![4, 15]);
    let mut ids = exact.iter_matches().iter().map(|m| m.piece_id().value()).collect::<Vec<_>>();
    ids.sort();
    assert_eq!(ids, vec![1, 3]);

    assert_eq!(index.search_exact(b"foobar").iter_matches().len(), 1);
    assert_eq!(index.search_exact(b"oob").iter_matches().len(), 0);
}

#[test]
fn test_pieces_count_only() {
    let text = "ab\0ba\0ab\0".as_bytes().to_vec();
    let index = FMIndexMultiPieces::new(&Text::new(text)).unwrap();
    assert_eq!(index.len(), 9);
    assert_eq!(index.search(b"ab").count(), 2);
    assert_eq!(index.search(b"a").count(), 3);
    assert_eq!(index.search_prefix(b"a").iter_matches().len(), 2);
    assert_eq!(index.search_suffix(b"a").count(), 1);
    assert_eq!(index.search_exact(b"ab").iter_matches().len(), 2);
}

#[test]
fn test_pieces_invalid_text() {
    assert!(FMIndexMultiPieces::new(&Text::new(b"ab\0\0ba\0".to_vec())).is_err());
    assert!(FMIndexMultiPieces::new(&Text::new(b"ab".to_vec())).is_err());
}

#[test]
fn test_lf_map_random() {
    let text_size = 512;
    let mut rng = StdRng::seed_from_u64(0);
    for _ in 0..100 {
        let text = build_text(|| rng.gen::<u8>() % 8, text_size);
        let suffix_array = naive_suffix_array(&text);
        let mut inv_suffix_array = vec![0; text_size];
        for (p, &i) in suffix_array.iter().enumerate() {
            inv_suffix_array[i] = p;
        }
        let backend =
            FMIndexMultiPiecesBackend::<u8, SuffixOrderSampledArray>::new(&Text::new(text.clone()), 0).unwrap();
        let mut lf_map_expected = vec![0; text_size];
        let mut lf_map_actual = vec![0; text_size];
        for i in 0..text_size {
            let k = (suffix_array[i] + text_size - 1) % text_size;
            lf_map_expected[i] = inv_suffix_array[k];
            lf_map_actual[i] = backend.lf_map(i);
        }
        assert_eq!(lf_map_expected, lf_map_actual);
    }
}

#[test]
fn test_prefix_count_counts_piece_starts() {
    let index = FMIndexMultiPieces::new(&Text::new(b"ab\0ba\0".to_vec())).unwrap();
    assert_eq!(index.search_prefix(b"a").count(), 1);
    assert_eq!(index.search_prefix(b"a").iter_matches().len(), 1);
    assert_eq!(index.search(b"a").count(), 2);
    assert_eq!(index.search_exact(b"ba").count(), 1);
    assert_eq!(index.search_exact(b"b").count(), 0);
}
