use fm_index::sais::{get_types, sais, sais_codes};
use fm_index::suffix_array::{build_suffix_array, check_suffix_array};
use fm_index::Text;
use rand::rngs::StdRng;
use rand::{Rng, SeedableRng};

/// The suffix array of `text`, by sorting its suffixes.
fn get_suffix_array<T: Ord + Copy>(text: &[T]) -> Vec<usize> {
    let n = text.len();
    let suffixes = (0..n).map(|i| &text[i..n]).collect::<Vec<_>>();
    let mut sa = (0..n).collect::<Vec<_>>();
    sa.sort_by_key(|i| suffixes[*i]);
    sa
}

/// Build a text for tests using a generator function `gen`: no two
/// consecutive zeros, not starting with a zero, ending with a single zero.
fn build_text<F: FnMut() -> u8>(mut gen: F, len: usize) -> Vec<u8> {
    let mut text = vec![0u8; len];
    let mut prev_zero = true;
    for t in text.iter_mut().take(len - 1) {
        let mut c = gen();
        if prev_zero {
            while c == 0 {
                c = gen();
            }
        }
        prev_zero = c == 0;
        *t = c;
    }
    while text[len - 2] == 0 {
        text[len - 2] = gen();
    }
    text
}

fn codes(text: &[u8]) -> Vec<u64> {
    text.iter().map(|&c| c as u64).collect()
}

/// SA-IS alone (without the fallback) gives the suffix array.
fn assert_sais_alone(text: &[u8], max: u8) {
    let expected = get_suffix_array(text);
    let fast = sais_codes(&codes(text), max as u64).expect("SA-IS gave up");
    assert_eq!(fast, expected, "text: {:?}", text);
}

#[test]
fn test_sais1() {
    let mut text = "mmiissiissiippii".to_string().into_bytes();
    text.push(0);
    let sa = sais(&codes(&text), b'z' as u64);
    let ans = get_suffix_array(&text);
    assert_eq!(sa.len(), ans.len());
    for (i, (actual, expected)) in sa.into_iter().zip(ans.into_iter()).enumerate() {
        assert_eq!(actual, expected, "wrong at {}-th pos: expected {}, but actual {}", i, expected, actual);
    }
    assert_sais_alone(&text, b'z');
}

#[test]
fn test_sais2() {
    let text = [2u64, 2, 1, 0];
    let sa = sais(&text.to_vec(), 3);
    let ans = get_suffix_array(&text);
    assert_eq!(sa.len(), ans.len());
    for (i, (actual, expected)) in sa.into_iter().zip(ans.into_iter()).enumerate() {
        assert_eq!(actual, expected, "wrong at {}-th pos: expected {}, but actual {}", i, expected, actual);
    }
    assert_eq!(sais_codes(&text.to_vec(), 3), Some(vec![3, 2, 1, 0]));
}

#[test]
fn test_sais_rand() {
    let len = 100_000;
    let prob = 1.0 / 4.0;
    let mut rng: StdRng = SeedableRng::from_seed([0; 32]);
    let mut text = (0..len).map(|_| if rng.gen_bool(prob) { b'a' } else { b'b' }).collect::<Vec<_>>();
    text.push(0);
    let sa = sais(&codes(&text), b'b' as u64);
    let ans = get_suffix_array(&text);
    assert_eq!(sa.len(), ans.len());
    for (i, (actual, expected)) in sa.into_iter().zip(ans.into_iter()).enumerate() {
        assert_eq!(actual, expected, "wrong at {}-th pos: expected {}, but actual {}", i, expected, actual);
    }
    assert!(sais_codes(&codes(&text), b'b' as u64).is_some());
}

#[test]
fn test_rand_alphabets() {
    let len = 1000;
    let mut rng: StdRng = SeedableRng::from_seed([0; 32]);
    for _ in 0..1000 {
        let text = build_text(|| rng.gen::<u8>() % (b'z' - b'a') + b'a', len);
        let sa_actual = build_suffix_array(&Text::with_max_character(text.clone(), b'z')).unwrap();
        let sa_expected = get_suffix_array(&text);
        assert_eq!(sa_actual, sa_expected, "text: {:?}", text);
        assert_sais_alone(&text, b'z');
    }
}

#[test]
fn test_rand_binary_alphabets() {
    let len = 1000;
    let prob = 1.0 / 4.0;
    let mut rng: StdRng = SeedableRng::from_seed([0; 32]);
    for _ in 0..1000 {
        let text = build_text(|| if rng.gen_bool(prob) { b'a' } else { b'b' }, len);
        let sa_actual = build_suffix_array(&Text::with_max_character(text.clone(), b'b')).unwrap();
        let sa_expected = get_suffix_array(&text);
        assert_eq!(sa_actual, sa_expected, "text: {:?}", text);
        assert_sais_alone(&text, b'b');
    }
}

#[test]
fn test_rand_binary_zero_one() {
    let len = 1000;
    let mut rng: StdRng = SeedableRng::from_seed([0; 32]);
    for _ in 0..1000 {
        let text = build_text(|| rng.gen::<u8>() % 2, len);
        let sa_actual = build_suffix_array(&Text::new(text.clone())).unwrap();
        let sa_expected = get_suffix_array(&text);
        assert_eq!(sa_actual, sa_expected, "text: {:?}", text);
        assert_sais_alone(&text, 255);
    }
}

#[test]
fn test_rand_bytes() {
    let len = 1000;
    let mut rng: StdRng = SeedableRng::from_seed([0; 32]);
    for _ in 0..1000 {
        let text = build_text(|| rng.gen::<u8>(), len);
        let sa_actual = build_suffix_array(&Text::new(text.clone())).unwrap();
        let sa_expected = get_suffix_array(&text);
        assert_eq!(sa_actual, sa_expected, "text: {:?}", text);
        assert_sais_alone(&text, 255);
    }
}

#[test]
fn test_check_suffix_array() {
    let text = vec![2u64, 1, 2, 1, 0];
    assert!(check_suffix_array(&text, &vec![4, 3, 1, 2, 0]));
    assert!(!check_suffix_array(&text, &vec![4, 1, 3, 2, 0]));
    assert!(!check_suffix_array(&text, &vec![4, 3, 1, 2]));
    assert!(!check_suffix_array(&text, &vec![4, 3, 1, 2, 5]));
}

#[test]
fn test_sais_any_text() {
    // texts that are not index texts still get their suffix array
    let text = vec![1u64, 0, 0, 2];
    assert_eq!(sais(&text, 2), get_suffix_array(&text));
    assert_eq!(sais(&vec![], 0), Vec::<usize>::new());
}

fn marks_to_lms(s: &str) -> Vec<usize> {
    s.as_bytes()
        .iter()
        .enumerate()
        .filter(|(_, &c)| c == b'*')
        .map(|(i, _)| i)
        .rev()
        .collect::<Vec<_>>()
}

fn types_of(text: &str) -> (String, Vec<usize>) {
    let codes = text.as_bytes().iter().map(|&c| c as u64).collect::<Vec<_>>();
    let (types, lms) = get_types(&codes);
    let letters = (0..codes.len())
        .map(|i| if types.is_bit_set(i).unwrap() { 'S' } else { 'L' })
        .collect::<String>();
    (letters, lms)
}

#[test]
fn sais_test_get_types() {
    let (types_actual, lms) = types_of("mmiissiissiippii\0");
    assert_eq!("LLSSLLSSLLSSLLLLS", types_actual);
    assert_eq!(marks_to_lms("  *   *   *     *"), lms);
}

#[test]
fn test_get_types_zeros() {
    let (types_actual, lms) = types_of("m\0\0a\0");
    assert_eq!("LSSLS".to_string(), types_actual);
    assert_eq!(marks_to_lms(" *  *"), lms);
}

#[test]
fn test_get_types_single() {
    let (types_actual, lms) = types_of("\0");
    assert_eq!("S", types_actual);
    assert!(lms.is_empty());
}
