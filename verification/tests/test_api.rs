// Tests that exercise the public API through its traits.

use fm_index::{
    FMIndex, FMIndexMultiPieces, FMIndexMultiPiecesWithLocate, FMIndexWithLocate, HeapSize, RLFMIndex, RLFMIndexWithLocate, Search, SearchIndex,
    SearchIndexWithMultiPieces, Text,
};

fn len<T: SearchIndex<u8>>(index: T) -> usize {
    index.len()
}

fn size<T: HeapSize>(t: &T) -> usize {
    t.heap_size()
}

fn count_of<T: SearchIndex<u8>>(index: T, pattern: &[u8]) -> usize {
    SearchIndex::search(index, pattern).count()
}

fn refined_count<S: Search<u8>>(search: &S, pattern: &[u8]) -> usize {
    Search::search(search, pattern).count()
}

#[test]
fn test_fm_index_backend_trait_fm_index_suffix_array() {
    let index = FMIndexWithLocate::new(&Text::new("text\0".as_bytes().to_vec()), 2).unwrap();
    assert_eq!(len(&index), 5);
}

#[test]
fn test_fm_index_backend_trait_fm_index_count_only() {
    let index = FMIndex::new(&Text::new("text\0".as_bytes().to_vec())).unwrap();
    assert_eq!(len(&index), 5);
}

#[test]
fn test_fm_index_backend_trait_rlfm_index_suffix_array() {
    let index = RLFMIndexWithLocate::new(&Text::new("text\0".as_bytes().to_vec()), 2).unwrap();
    assert_eq!(len(&index), 5);
}

#[test]
fn test_fm_index_backend_trait_rlfm_index_count_only() {
    let index = RLFMIndex::new(&Text::new("text\0".as_bytes().to_vec())).unwrap();
    assert_eq!(len(&index), 5);
}

#[test]
fn test_search_through_traits() {
    let text = Text::new(b"mississippi\0".to_vec());
    let fm = FMIndex::new(&text).unwrap();
    let rlfm = RLFMIndex::new(&text).unwrap();
    assert_eq!(count_of(&fm, b"ssi"), 2);
    assert_eq!(count_of(&rlfm, b"ssi"), 2);
    assert_eq!(count_of(&fm, b"pps"), 0);
    let search = SearchIndex::search(&fm, b"si");
    assert_eq!(refined_count(&search, b"s"), 2);
    assert_eq!(refined_count(&search, b"is"), 2);
    assert_eq!(refined_count(&search, b"mis"), 1);
    assert_eq!(Search::iter_matches(&search).len(), 2);
}

#[test]
fn test_pieces_search_through_traits() {
    let text = Text::new(b"foo\0bar\0foobar\0".to_vec());
    let index = FMIndexMultiPieces::new(&text).unwrap();
    assert_eq!(SearchIndexWithMultiPieces::search_prefix(&index, b"foo").iter_matches().len(), 2);
    assert_eq!(SearchIndexWithMultiPieces::search_suffix(&index, b"bar").count(), 2);
    assert_eq!(SearchIndexWithMultiPieces::search_exact(&index, b"foo").count(), 1);
    assert_eq!(SearchIndexWithMultiPieces::search_exact(&index, b"fo").count(), 0);
}

#[test]
fn test_heap_size_trait_fm_index_suffix_array() {
    let index = FMIndexWithLocate::new(&Text::new("text\0".as_bytes().to_vec()), 2).unwrap();
    assert!(size(&index) > 0);
}

#[test]
fn test_heap_size_trait_fm_index_count_only() {
    let index = FMIndex::new(&Text::new("text\0".as_bytes().to_vec())).unwrap();
    assert!(size(&index) > 0);
}

#[test]
fn test_heap_size_trait_rlfm_index_suffix_array() {
    let index = RLFMIndexWithLocate::new(&Text::new("text\0".as_bytes().to_vec()), 2).unwrap();
    assert!(size(&index) > 0);
}

#[test]
fn test_heap_size_trait_rlfm_index_count_only() {
    let index = RLFMIndex::new(&Text::new("text\0".as_bytes().to_vec())).unwrap();
    assert!(size(&index) > 0);
}

#[test]
fn test_heap_size_through_search_index() {
    let text = Text::new(b"foo\0bar\0baz\0".to_vec());
    let count_only = FMIndexMultiPieces::new(&text).unwrap();
    let with_locate = FMIndexMultiPiecesWithLocate::new(&text, 0).unwrap();
    assert!(SearchIndex::heap_size(&count_only) > 0);
    assert!(SearchIndex::heap_size(&with_locate) > SearchIndex::heap_size(&count_only));
}
