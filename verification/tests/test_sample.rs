use fm_index::sample::SuffixOrderSampledArray;

#[test]
fn test_empty() {
    let ssa = SuffixOrderSampledArray::sample(&vec![], 2);
    assert_eq!(ssa.get(0), None);
}

#[test]
fn test_regular() {
    let cases = [(1, 10), (1, 25), (2, 8), (2, 9), (2, 10), (2, 25), (3, 24), (3, 25)];
    for &(level, n) in cases.iter() {
        let sa = (0..n).collect::<Vec<usize>>();
        let ssa = SuffixOrderSampledArray::sample(&sa, level);
        for i in 0..n {
            let v = ssa.get(i);
            if i & ((1 << level) - 1) == 0 {
                assert_eq!(v, Some(i), "ssa[{}] should be Some({})", i, i);
            } else {
                assert_eq!(v, None, "ssa[{}] should be None", i);
            }
        }
    }
}

#[test]
fn test_not_sampled() {
    let sa = (0..10).collect::<Vec<usize>>();
    let ssa = SuffixOrderSampledArray::sample(&sa, 4);
    for i in 0..10 {
        let v = ssa.get(i);
        assert_eq!(v, Some(i), "ssa[{}] should be Some({})", i, i);
    }
}

#[test]
fn test_sampled_values_and_out_of_range() {
    let sa = vec![6usize, 5, 3, 1, 0, 4, 2];
    let ssa = SuffixOrderSampledArray::sample(&sa, 1);
    assert_eq!(ssa.get(0), Some(6));
    assert_eq!(ssa.get(1), None);
    assert_eq!(ssa.get(2), Some(3));
    assert_eq!(ssa.get(4), Some(0));
    assert_eq!(ssa.get(6), Some(2));
    assert_eq!(ssa.get(7), None);
    let empty = SuffixOrderSampledArray::default();
    assert_eq!(empty.get(0), None);
}
