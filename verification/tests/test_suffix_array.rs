use fm_index::suffix_array::{build_suffix_array, count_chars, get_bucket_end_pos, get_bucket_start_pos};
use fm_index::Text;

/// Compute the suffix array of the given text in a naive way.
fn build_expected_suffix_array<T: Ord + Copy>(text: &[T]) -> Vec<usize> {
    let n = text.len();
    let suffixes = (0..n).map(|i| &text[i..n]).collect::<Vec<_>>();
    let mut sa = (0..suffixes.len()).collect::<Vec<_>>();
    sa.sort_by_key(|i| suffixes[*i]);
    sa
}

#[test]
fn sais_test_get_bucket_start_pos() {
    let text = Text::new(b"mmiissiissiippii\0".to_vec());
    let occs = count_chars(&text);
    let bucket_start_pos = get_bucket_start_pos(&occs);
    let sa_expected = vec![(b'\0', 0), (b'i', 1), (b'm', 9), (b'p', 11), (b's', 13)];
    for (c, expected) in sa_expected {
        let actual = bucket_start_pos[c as usize];
        assert_eq!(
            actual, expected,
            "bucket_start_pos['{}'] should be {} but {}",
            c as char, expected, actual
        );
    }
}

#[test]
fn sais_test_get_bucket_end_pos() {
    let text = Text::new(b"mmiissiissiippii\0".to_vec());
    let sa_expected = vec![(b'\0', 1), (b'i', 9), (b'm', 11), (b'p', 13), (b's', 17)];
    let occs = count_chars(&text);
    let bucket_end_pos = get_bucket_end_pos(&occs);
    for (c, expected) in sa_expected {
        let actual = bucket_end_pos[c as usize];
        assert_eq!(
            actual, expected,
            "bucket_end_pos['{}'] should be {} but {}",
            c as char, expected, actual
        );
    }
}

#[test]
fn test_length_1() {
    let text = vec![0u8];
    let sa_actual = build_suffix_array(&Text::with_max_character(text.clone(), 3)).unwrap();
    let sa_expected = build_expected_suffix_array(&text);
    assert_eq!(sa_actual, sa_expected);
}

#[test]
fn test_length_2() {
    let text = vec![3u8, 0];
    let sa_actual = build_suffix_array(&Text::with_max_character(text.clone(), 3)).unwrap();
    let sa_expected = build_expected_suffix_array(&text);
    assert_eq!(sa_actual, sa_expected);
}

#[test]
fn test_length_4() {
    let text = vec![3u8, 2, 1, 0];
    let sa_actual = build_suffix_array(&Text::with_max_character(text.clone(), 3)).unwrap();
    let sa_expected = build_expected_suffix_array(&text);
    assert_eq!(sa_actual, sa_expected);
}

#[test]
fn test_nulls() {
    let text = b"mm\0ii\0s\0sii\0ssii\0ppii\0".to_vec();
    let sa_actual = build_suffix_array(&Text::with_max_character(text.clone(), b'z')).unwrap();
    let sa_expected = build_expected_suffix_array(&text);
    assert_eq!(sa_actual, sa_expected);
}

#[test]
fn sais_test_small() {
    let mut text = "mmiissiissiippii".to_string().into_bytes();
    text.push(0);
    let sa_actual = build_suffix_array(&Text::with_max_character(text.clone(), b'z')).unwrap();
    let sa_expected = build_expected_suffix_array(&text);
    assert_eq!(sa_actual, sa_expected, "text: {:?}", text);
}

#[test]
fn test_invalid_texts_are_refused() {
    assert!(build_suffix_array(&Text::new(b"nozero".to_vec())).is_err());
    assert!(build_suffix_array(&Text::new(b"toomanyzeros\0\0".to_vec())).is_err());
    assert!(build_suffix_array(&Text::new(b"mm\0\0ii\0s\0\0\0sii\0ssii\0ppii\0".to_vec())).is_err());
    assert!(build_suffix_array(&Text::new(Vec::<u8>::new())).is_err());
}

#[test]
fn test_count_chars_exact() {
    let text = Text::with_max_character(b"abca\0".to_vec(), b'd');
    let occs = count_chars(&text);
    assert_eq!(occs.len(), (b'd' as usize) + 1);
    assert_eq!(occs[0], 1);
    assert_eq!(occs[b'a' as usize], 2);
    assert_eq!(occs[b'b' as usize], 1);
    assert_eq!(occs[b'c' as usize], 1);
    assert_eq!(occs[b'd' as usize], 0);
}
