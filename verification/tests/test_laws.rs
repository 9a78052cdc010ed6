use fm_index::backend::{DiscardedSuffixArray, SearchIndexBackend};
use fm_index::fm_index::FMIndexBackend;
use fm_index::multi_pieces::FMIndexMultiPiecesBackend;
use fm_index::rlfmi::RLFMIndexBackend;
use fm_index::sais::sais;
use fm_index::suffix_array::build_suffix_array;
use fm_index::{FMIndex, FMIndexMultiPiecesWithLocate, FMIndexWithLocate, RLFMIndexWithLocate, Text};

fn occurrences(text: &[u8], pattern: &[u8]) -> Vec<usize> {
    (0..=text.len() - pattern.len()).filter(|&i| &text[i..i + pattern.len()] == pattern).collect()
}

#[test]
fn test_count_is_number_of_occurrences() {
    let text = b"abracadabra\0".to_vec();
    let index = FMIndex::new(&Text::new(text.clone())).unwrap();
    for pattern in [&b"a"[..], b"abra", b"bra", b"cad", b"ra", b"x", b"aa", b"abracadabra"] {
        assert_eq!(index.search(pattern).count(), occurrences(&text, pattern).len(), "pattern {:?}", pattern);
    }
}

#[test]
fn test_locate_gives_each_occurrence_once() {
    let text = b"abracadabra\0".to_vec();
    let index = FMIndexWithLocate::new(&Text::new(text.clone()), 1).unwrap();
    for pattern in [&b"a"[..], b"abra", b"bra", b"cad", b"x"] {
        let mut positions = index.search(pattern).iter_matches().iter().map(|m| m.locate()).collect::<Vec<_>>();
        positions.sort();
        assert_eq!(positions, occurrences(&text, pattern));
    }
}

#[test]
fn test_refining_is_searching_the_longer_pattern() {
    let text = b"mississippi\0".to_vec();
    let index = FMIndex::new(&Text::new(text)).unwrap();
    assert_eq!(index.search(b"ss").search(b"i").get_range(), index.search(b"iss").get_range());
    assert_eq!(index.search(b"i").search(b"ss").get_range(), index.search(b"ssi").get_range());
    assert_eq!(index.search(b"p").search(b"").get_range(), index.search(b"p").get_range());
    // both empty
    assert_eq!(index.search(b"zz").search(b"m").count(), 0);
    assert_eq!(index.search(b"mzz").count(), 0);
}

#[test]
fn test_suffix_array_is_unique() {
    let text = b"banana\0".to_vec();
    let codes = text.iter().map(|&c| c as u64).collect::<Vec<_>>();
    let a = build_suffix_array(&Text::new(text)).unwrap();
    let b = sais(&codes, 255);
    assert_eq!(a, b);
    assert_eq!(a, vec![6, 5, 3, 1, 0, 4, 2]);
}

#[test]
fn test_fl_map_undoes_lf_map() {
    let text = Text::new(b"mississippi\0".to_vec());
    let fm = FMIndexBackend::<u8, DiscardedSuffixArray>::new(&text, 0).unwrap();
    let rl = RLFMIndexBackend::<u8, DiscardedSuffixArray>::new(&text, 0).unwrap();
    let mp = FMIndexMultiPiecesBackend::<u8, DiscardedSuffixArray>::new(&text, 0).unwrap();
    for i in 0..fm.len() {
        assert_eq!(fm.lf_map(fm.fl_map(i).unwrap()), i);
        assert_eq!(rl.lf_map(rl.fl_map(i).unwrap()), i);
        assert_eq!(fm.fl_map(fm.lf_map(i)).unwrap(), i);
        if let Some(j) = mp.fl_map(i) {
            assert_eq!(mp.lf_map(j), i);
        }
    }
}

#[test]
fn test_chars_around_a_match_read_the_text() {
    let text = b"the quick brown fox\0".to_vec();
    let index = FMIndexWithLocate::new(&Text::new(text.clone()), 0).unwrap();
    let search = index.search(b"brown");
    let m = &search.iter_matches()[0];
    let p = m.locate();
    assert_eq!(p, 10);
    let forward = m.iter_chars_forward(9);
    assert_eq!(forward, b"brown fox".to_vec());
    let mut backward = m.iter_chars_backward(4);
    backward.reverse();
    assert_eq!(backward, b"ick ".to_vec());
    // read cyclically past the start of the text
    let mut wrapped = index.search(b"the").iter_matches()[0].iter_chars_backward(2);
    wrapped.reverse();
    assert_eq!(wrapped, b"x\0".to_vec());
}

#[test]
fn test_error_text() {
    let err = FMIndex::new(&Text::new(b"no terminator".to_vec())).err().unwrap();
    assert_eq!(err.to_string(), "invalid text: the text must end with a single zero and hold no consecutive zeros");
    assert_eq!(err.message(), "the text must end with a single zero and hold no consecutive zeros");
}

#[test]
fn test_multi_text_example() {
    let text = [
        "Twinkle, twinkle, little star,\n",
        "How I wonder what you are!\n",
        "Up above the world so high,\n",
        "Like a diamond in the sky.\n",
        "Twinkle, twinkle, little star,\n",
        "How I wonder what you are!\n\0",
        "When the blazing sun is gone,\n",
        "When he nothing shines upon,\n",
        "Then you show your little light,\n",
        "Twinkle, twinkle, all the night.\n",
        "Twinkle, twinkle, little star,\n",
        "How I wonder what you are!\n\0",
        "Then the traveller in the dark,\n",
        "Thanks you for your tiny spark;\n",
        "He could not see which way to go,\n",
        "If you did not twinkle so.\n",
        "Twinkle, twinkle, little star,\n",
        "How I wonder what you are!\n\0",
    ]
    .concat();
    let index = FMIndexMultiPiecesWithLocate::new(&Text::new(text.as_bytes().to_vec()), 2).unwrap();
    assert_eq!(4, index.search(b"star").count());
    let mut ids = index.search(b"How I wonder").iter_matches().iter().map(|m| m.piece_id().value()).collect::<Vec<_>>();
    ids.sort();
    assert_eq!(vec![0, 0, 1, 2], ids);
    let preceding = index
        .search(b" in the dark")
        .iter_matches()
        .iter()
        .map(|m| m.iter_chars_backward(9))
        .collect::<Vec<_>>();
    assert_eq!(vec![b"rellevart".to_vec()], preceding);
    let mut succeeding = index
        .search(b"ing ")
        .iter_matches()
        .iter()
        .map(|m| m.iter_chars_forward(15))
        .collect::<Vec<_>>();
    succeeding.sort();
    assert_eq!(vec![b"ing shines upon".to_vec(), b"ing sun is gone".to_vec()], succeeding);
    let mut with_suffix = index
        .search_suffix(b"what you are!\n")
        .iter_matches()
        .iter()
        .map(|m| m.piece_id().value())
        .collect::<Vec<_>>();
    with_suffix.sort();
    assert_eq!(vec![0, 1, 2], with_suffix);
}

#[test]
fn test_variants_agree() {
    let text = Text::new(b"abracadabra mississippi abra\0".to_vec());
    let fm = FMIndexWithLocate::new(&text, 1).unwrap();
    let rl = RLFMIndexWithLocate::new(&text, 2).unwrap();
    let mp = FMIndexMultiPiecesWithLocate::new(&text, 0).unwrap();
    for pattern in [&b"a"[..], b"abra", b"ssi", b"bra m", b"zz", b" "] {
        let mut p1 = fm.search(pattern).iter_matches().iter().map(|m| m.locate()).collect::<Vec<_>>();
        let mut p2 = rl.search(pattern).iter_matches().iter().map(|m| m.locate()).collect::<Vec<_>>();
        let mut p3 = mp.search(pattern).iter_matches().iter().map(|m| m.locate()).collect::<Vec<_>>();
        assert_eq!(fm.search(pattern).count(), rl.search(pattern).count());
        assert_eq!(fm.search(pattern).count(), mp.search(pattern).count());
        assert_eq!(fm.search(pattern).get_range(), rl.search(pattern).get_range());
        p1.sort();
        p2.sort();
        p3.sort();
        assert_eq!(p1, p2);
        assert_eq!(p1, p3);
    }
}

#[test]
fn test_text_builder_joins_texts() {
    let mut builder = fm_index::TextBuilder::<u8>::new();
    assert!(builder.build().is_empty());
    let mut builder = fm_index::TextBuilder::<u8>::new();
    let texts: [&[u8]; 4] = [b"foo", b"", b"bar", b"bazz"];
    for (k, t) in texts.iter().enumerate() {
        assert_eq!(builder.add_text(t).value(), k);
    }
    let built = builder.build();
    assert_eq!(built, b"foo\0\0bar\0bazz\0".to_vec());
    assert_eq!(built.len(), 3 + 0 + 3 + 4 + 4);
}
