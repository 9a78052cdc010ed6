use fm_index::{FMIndex, FMIndexWithLocate, Text};
use rand::rngs::StdRng;
use rand::{Rng, SeedableRng};

const LOREM: &str = "Lorem ipsum dolor sit amet, consectetur adipiscing elit, sed do eiusmod tempor incididunt ut labore et dolore magna aliqua.\
Ut enim ad minim veniam, quis nostrud exercitation ullamco laboris nisi ut aliquip ex ea commodo consequat.\
Duis aute irure dolor in reprehenderit in voluptate velit esse cillum dolore eu fugiat nulla pariatur.\
Excepteur sint occaecat cupidatat non proident, sunt in culpa qui officia deserunt mollit anim id est laborum.\
\0";

#[test]
fn test_readme_example() {
    let text = Text::new(LOREM.as_bytes().to_vec());
    let index = FMIndexWithLocate::new(&text, 2).unwrap();
    let search = index.search(b"dolor");
    assert_eq!(search.count(), 4);
    let positions = search.iter_matches().iter().map(|m| m.locate()).collect::<Vec<_>>();
    assert_eq!(positions, vec![246, 12, 300, 103]);
    let mut prefix = search.iter_matches()[0].iter_chars_backward(16);
    prefix.reverse();
    assert_eq!(prefix, b"Duis aute irure ".to_owned());
    let postfix = search.iter_matches()[3].iter_chars_forward(20);
    assert_eq!(postfix, b"dolore magna aliqua.".to_owned());
}

#[test]
fn fm_index_frontend_test_small() {
    let text = "mississippi\0".to_string().into_bytes();
    let ans = vec![
        ("m", vec![0]),
        ("mi", vec![0]),
        ("i", vec![1, 4, 7, 10]),
        ("iss", vec![1, 4]),
        ("ss", vec![2, 5]),
        ("p", vec![8, 9]),
        ("ppi", vec![8]),
        ("z", vec![]),
        ("pps", vec![]),
    ];
    let fm_index = FMIndexWithLocate::new(&Text::with_max_character(text, b'z'), 2).unwrap();
    for (pattern, positions) in ans {
        let search = fm_index.search(pattern.as_bytes());
        let expected = positions.len();
        let actual = search.count();
        assert_eq!(expected, actual, "pattern \"{}\" must occur {} times, but {}", pattern, expected, actual);
        let mut res = search.iter_matches().iter().map(|m| m.locate()).collect::<Vec<_>>();
        res.sort();
        assert_eq!(res, positions);
    }
}

#[test]
fn test_small_contain_null() {
    let text = "miss\0issippi\0".to_string().into_bytes();
    let fm_index = FMIndex::new(&Text::with_max_character(text, b'z')).unwrap();
    assert_eq!(fm_index.search(b"m").count(), 1);
    assert_eq!(fm_index.search(b"ssi").count(), 1);
    assert_eq!(fm_index.search(b"iss").count(), 2);
    assert_eq!(fm_index.search(b"p").count(), 2);
    assert_eq!(fm_index.search(b"\0").count(), 2);
    assert_eq!(fm_index.search(b"\0i").count(), 1);
}

#[test]
fn test_utf8() {
    let text = "みんなみんなきれいだな\0".chars().map(|c| c as u32).collect::<Vec<u32>>();
    let ans = vec![("み", vec![0, 3]), ("みん", vec![0, 3]), ("な", vec![2, 5, 10])];
    let fm_index = FMIndexWithLocate::new(&Text::with_max_character(text, 'ん' as u32), 2).unwrap();
    for (pattern, positions) in ans {
        let pattern: Vec<u32> = pattern.chars().map(|c| c as u32).collect();
        let search = fm_index.search(&pattern);
        assert_eq!(search.count(), positions.len());
        let mut res = search.iter_matches().iter().map(|m| m.locate()).collect::<Vec<_>>();
        res.sort();
        assert_eq!(res, positions);
    }
}

#[test]
fn fm_index_frontend_test_search_backward() {
    let text = LOREM.as_bytes().to_vec();
    let word_pairs = vec![("ipsum", " dolor"), ("sit", " amet"), ("sed", " do")];
    let fm_index = FMIndexWithLocate::new(&Text::with_max_character(text, b'~'), 2).unwrap();
    for (fst, snd) in word_pairs {
        let search1 = fm_index.search(snd.as_bytes()).search(fst.as_bytes());
        let concat = fst.to_owned() + snd;
        let search2 = fm_index.search(concat.as_bytes());
        assert!(search1.count() > 0);
        assert_eq!(search1.count(), search2.count());
        let l1 = search1.iter_matches().iter().map(|m| m.locate()).collect::<Vec<_>>();
        let l2 = search2.iter_matches().iter().map(|m| m.locate()).collect::<Vec<_>>();
        assert_eq!(l1, l2);
    }
}

#[test]
fn fm_index_frontend_test_iter_backward() {
    let text = LOREM.as_bytes().to_vec();
    let index = FMIndex::new(&Text::with_max_character(text, b'~')).unwrap();
    let search = index.search(b"sit ");
    let mut prev_seq = search.iter_matches()[0].iter_chars_backward(6);
    prev_seq.reverse();
    assert_eq!(prev_seq, b"dolor ".to_owned());
}

#[test]
fn fm_index_frontend_test_iter_forward() {
    let text = LOREM.as_bytes().to_vec();
    let index = FMIndex::new(&Text::with_max_character(text, b'~')).unwrap();
    let search = index.search(b"sit ");
    let next_seq = search.iter_matches()[0].iter_chars_forward(10);
    assert_eq!(next_seq, b"sit amet, ".to_owned());
}

#[test]
fn test_invalid_text_is_refused() {
    assert!(FMIndex::new(&Text::new(b"no terminator".to_vec())).is_err());
    assert!(FMIndexWithLocate::new(&Text::new(b"ab\0\0".to_vec()), 1).is_err());
}

/// Build a text for tests using a generator function `gen`: no two
/// consecutive zeros, not starting with a zero, ending with a single zero.
fn build_text<F: FnMut() -> u8>(mut gen: F, len: usize) -> Vec<u8> {
    let mut text = vec![0u8; len];
    let mut prev_zero = true;
    for t in text.iter_mut().take(len - 1) {
        let mut c = gen();
        if prev_zero {
            while c == 0 {
                c = gen();
            }
        }
        prev_zero = c == 0;
        *t = c;
    }
    while text[len - 2] == 0 {
        text[len - 2] = gen();
    }
    text
}

/// The positions at which `pattern` occurs in `text`.
fn naive_search(text: &[u8], pattern: &[u8]) -> Vec<usize> {
    (0..text.len() - pattern.len() + 1).filter(|&i| &text[i..i + pattern.len()] == pattern).collect()
}

/// Run `run_test` on 100 random texts of `text_size` characters without
/// inner zeros, with 100 random patterns each.
fn run_random<R>(text_size: usize, run_test: R)
where
    R: Fn(&FMIndexWithLocate<u8>, &[u8], &[u8]),
{
    let alphabet_size: u8 = 8;
    let level_max: usize = 3;
    let pattern_size_max: usize = 10;
    let mut rng = StdRng::seed_from_u64(0);
    for _ in 0..100 {
        let text = build_text(|| rng.gen::<u8>() % alphabet_size + 1, text_size);
        let level = rng.gen::<usize>() % (level_max + 1);
        let fm_index = FMIndexWithLocate::new(&Text::new(text.clone()), level).unwrap();
        for _ in 0..100 {
            let pattern_size = rng.gen::<usize>() % (pattern_size_max - 1) + 1;
            let pattern = (0..pattern_size).map(|_| rng.gen::<u8>() % (alphabet_size - 1) + 1).collect::<Vec<_>>();
            run_test(&fm_index, &text, &pattern);
        }
    }
}

#[test]
fn test_fmindex_test_search_count() {
    run_random(1024, |fm_index, text, pattern| {
        let count_expected = naive_search(text, pattern).len();
        let count_actual = fm_index.search(pattern).count();
        assert_eq!(count_expected, count_actual, "text = {:?}, pattern = {:?}", text, pattern);
    });
}

#[test]
fn test_fmindex_test_search_locate() {
    run_random(100, |fm_index, text, pattern| {
        let positions_expected = naive_search(text, pattern);
        let mut positions_actual = fm_index.search(pattern).iter_matches().iter().map(|m| m.locate()).collect::<Vec<_>>();
        positions_actual.sort();
        assert_eq!(positions_expected, positions_actual, "text = {:?}, pattern = {:?}", text, pattern);
    });
}
