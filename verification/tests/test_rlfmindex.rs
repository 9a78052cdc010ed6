use fm_index::backend::{DiscardedSuffixArray, SearchIndexBackend};
use fm_index::fm_index::FMIndexBackend;
use fm_index::rlfmi::RLFMIndexBackend;
use fm_index::sample::SuffixOrderSampledArray;
use fm_index::{RLFMIndex, RLFMIndexWithLocate, Text};

const LOREM: &str = "Lorem ipsum dolor sit amet, consectetur adipiscing elit, sed do eiusmod tempor incididunt ut labore et dolore magna aliqua.\0";

fn mississippi() -> RLFMIndexBackend<u8, DiscardedSuffixArray> {
    RLFMIndexBackend::new(&Text::new(b"mississippi\0".to_vec()), 0).unwrap()
}

#[test]
fn test_count() {
    let text = "mississippi\0".to_string().into_bytes();
    let ans = vec![
        ("m", 1),
        ("mi", 1),
        ("i", 4),
        ("iss", 2),
        ("ss", 2),
        ("p", 2),
        ("ppi", 1),
        ("z", 0),
        ("pps", 0),
    ];
    let rlfmi = RLFMIndex::new(&Text::with_max_character(text, b'z')).unwrap();
    for (pattern, expected) in ans {
        let search = rlfmi.search(pattern.as_bytes());
        let actual = search.count();
        assert_eq!(expected, actual, "pattern \"{}\" must occur {} times, but {}", pattern, expected, actual,);
    }
}

#[test]
fn test_locate() {
    let text = "mississippi\0".to_string().into_bytes();
    let ans = vec![
        ("m", vec![0]),
        ("mi", vec![0]),
        ("i", vec![1, 4, 7, 10]),
        ("iss", vec![1, 4]),
        ("ss", vec![2, 5]),
        ("p", vec![8, 9]),
        ("ppi", vec![8]),
        ("z", vec![]),
        ("pps", vec![]),
    ];
    let fm_index = RLFMIndexWithLocate::new(&Text::with_max_character(text, b'z'), 2).unwrap();
    for (pattern, positions) in ans {
        let search = fm_index.search(pattern.as_bytes());
        let expected = positions.len();
        let actual = search.count();
        let mut res = search.iter_matches().iter().map(|m| m.locate()).collect::<Vec<_>>();
        assert_eq!(expected, actual, "pattern \"{}\" must occur {} times, but {}: {:?}", pattern, expected, actual, res);
        res.sort();
        assert_eq!(res, positions);
    }
}

#[test]
fn test_rlfmindex_test_iter_backward() {
    let text = LOREM.as_bytes().to_vec();
    let index = RLFMIndex::new(&Text::with_max_character(text, b'~')).unwrap();
    let search = index.search(b"sit ");
    let mut prev_seq = search.iter_matches()[0].iter_chars_backward(6);
    prev_seq.reverse();
    assert_eq!(prev_seq, b"dolor ".to_owned());
}

#[test]
fn test_rlfmindex_test_iter_forward() {
    let text = LOREM.as_bytes().to_vec();
    let index = RLFMIndex::new(&Text::with_max_character(text, b'~')).unwrap();
    let search = index.search(b"sit ");
    let next_seq = search.iter_matches()[0].iter_chars_forward(10);
    assert_eq!(next_seq, b"sit amet, ".to_owned());
}

#[test]
fn test_get_l() {
    let rlfmi = mississippi();
    let ans = "ipssm\0pissii".to_string().into_bytes();
    for (i, a) in ans.into_iter().enumerate() {
        assert_eq!(rlfmi.get_l(i), a as u64);
    }
}

#[test]
fn rlfmi_test_lf_map() {
    let ans = vec![1, 6, 7, 2, 8, 10, 3, 9, 11, 4, 5, 0];
    let rlfmi = mississippi();
    let mut i = 0;
    for a in ans {
        let next_i = rlfmi.lf_map(i);
        assert_eq!(next_i, a, "should be lf_map({}) == {}", i, a);
        i = next_i;
    }
}

#[test]
fn test_lf_map2() {
    let ans = vec![(b'\0', (0, 1)), (b'i', (1, 5)), (b'm', (5, 6)), (b'p', (6, 8)), (b's', (8, 12))];
    let rlfmi = mississippi();
    let n = rlfmi.len();
    for (c, r) in ans {
        let s = rlfmi.lf_map2(c as u64, 0);
        let e = rlfmi.lf_map2(c as u64, n);
        assert_eq!((s, e), r, "character {:?}: (s, e) should be {:?}, actual: {:?}", c as char, r, (s, e));
    }
}

#[test]
fn rlfmi_test_search_backward() {
    let ans = vec![("iss", (3, 5)), ("ppi", (7, 8)), ("si", (8, 10)), ("ssi", (10, 12))];
    let index = RLFMIndex::new(&Text::new(b"mississippi\0".to_vec())).unwrap();
    for (s, r) in ans {
        let search = index.search(s.as_bytes());
        assert_eq!(search.get_range(), r);
    }
}

#[test]
fn test_get_f() {
    let text = "mississippi\0".as_bytes();
    let mut ans = text.to_vec();
    ans.sort();
    let rlfmi = mississippi();
    for (i, a) in ans.into_iter().enumerate() {
        assert_eq!(rlfmi.get_f(i), a as u64);
    }
}

#[test]
fn rlfmi_test_fl_map() {
    let rlfmi = mississippi();
    let cases = vec![5usize, 0, 7, 10, 11, 4, 1, 6, 2, 3, 8, 9];
    for (i, expected) in cases.into_iter().enumerate() {
        assert_eq!(rlfmi.fl_map(i).unwrap(), expected);
    }
}

#[test]
fn fm_index_test_lf_map() {
    let ans = vec![1, 6, 7, 2, 8, 10, 3, 9, 11, 4, 5, 0];
    let fm_index =
        FMIndexBackend::<u8, SuffixOrderSampledArray>::new(&Text::new(b"mississippi\0".to_vec()), 2).unwrap();
    let mut i = 0;
    for a in ans {
        i = fm_index.lf_map(i);
        assert_eq!(i, a);
    }
}

#[test]
fn fm_index_test_fl_map() {
    let fm_index =
        FMIndexBackend::<u8, SuffixOrderSampledArray>::new(&Text::new(b"mississippi\0".to_vec()), 2).unwrap();
    let cases = vec![5usize, 0, 7, 10, 11, 4, 1, 6, 2, 3, 8, 9];
    for (i, expected) in cases.into_iter().enumerate() {
        assert_eq!(fm_index.fl_map(i).unwrap(), expected);
    }
}

#[test]
fn test_rlfm_agrees_with_fm_on_multi_zero_text() {
    // the transform of a text with several pieces, stored by runs
    let text = b"abracadabra\0abra\0cadabra\0".to_vec();
    let fm = FMIndexBackend::<u8, DiscardedSuffixArray>::new(&Text::new(text.clone()), 0).unwrap();
    let rl = RLFMIndexBackend::<u8, DiscardedSuffixArray>::new(&Text::new(text.clone()), 0).unwrap();
    assert_eq!(fm.len(), rl.len());
    for i in 0..fm.len() {
        assert_eq!(fm.get_l(i), rl.get_l(i));
        assert_eq!(fm.get_f(i), rl.get_f(i));
        assert_eq!(fm.lf_map(i), rl.lf_map(i));
    }
    for c in 0..=(b'z' as u64) {
        for i in 0..=fm.len() {
            assert_eq!(fm.lf_map2(c, i), rl.lf_map2(c, i), "c = {}, i = {}", c, i);
        }
    }
}

#[test]
fn test_rlfm_invalid_text() {
    assert!(RLFMIndex::new(&Text::new(b"abc".to_vec())).is_err());
    assert!(RLFMIndex::new(&Text::new(b"ab\0\0".to_vec())).is_err());
}
