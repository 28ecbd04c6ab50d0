use print_typeset::page_cache::{
    prefetch_neighbours, quantize_percent, CacheKey, CachedPage, DocumentId, DocumentSource, ViewerState,
};

fn key(doc: u64, page: usize) -> CacheKey {
    CacheKey {
        doc: DocumentId(doc),
        page,
        zoom: 100,
    }
}

fn page(n: usize) -> CachedPage {
    CachedPage {
        rgba_data: vec![n as u8],
        width: n,
        height: 1,
    }
}

#[test]
fn least_recently_used_pages_are_evicted_first() {
    let mut v = ViewerState::new();
    for i in 0..60 {
        v.add_to_cache(key(1, i), page(i));
    }
    // The ten oldest are gone, the newest fifty stay.
    for i in 0..10 {
        assert!(v.get_from_cache(&key(1, i)).is_none());
    }
    for i in 10..60 {
        assert_eq!(v.get_from_cache(&key(1, i)).map(|p| p.width), Some(i));
    }
}

#[test]
fn reading_a_page_protects_it_from_eviction() {
    let mut v = ViewerState::new();
    for i in 0..50 {
        v.add_to_cache(key(1, i), page(i));
    }
    assert!(v.get_from_cache(&key(1, 0)).is_some());
    v.add_to_cache(key(1, 50), page(50));
    assert!(v.get_from_cache(&key(1, 0)).is_some());
    assert!(v.get_from_cache(&key(1, 1)).is_none());
}

#[test]
fn storing_a_key_again_replaces_its_page() {
    let mut v = ViewerState::new();
    v.add_to_cache(key(1, 3), page(3));
    v.add_to_cache(key(1, 3), page(7));
    assert_eq!(v.get_from_cache(&key(1, 3)).map(|p| p.width), Some(7));
}

#[test]
fn forgetting_a_document_drops_its_pages_and_source() {
    let mut v = ViewerState::new();
    let a = v.next_id();
    let b = v.next_id();
    assert_eq!(a, DocumentId(0));
    assert_eq!(b, DocumentId(1));
    v.add_document(a, "/tmp/a.pdf".to_string());
    v.add_document_bytes(b, vec![1, 2, 3]);
    v.add_to_cache(key(0, 0), page(0));
    v.add_to_cache(key(1, 0), page(1));
    v.remove_document(a);
    assert!(v.get_document(a).is_none());
    assert!(matches!(v.get_document(b), Some(DocumentSource::Bytes(bytes)) if bytes == &vec![1, 2, 3]));
    assert!(v.get_from_cache(&key(0, 0)).is_none());
    assert!(v.get_from_cache(&key(1, 0)).is_some());
}

#[test]
fn registering_a_document_again_replaces_its_source() {
    let mut v = ViewerState::new();
    let a = v.next_id();
    v.add_document(a, "/tmp/a.pdf".to_string());
    v.add_document(a, "/tmp/b.pdf".to_string());
    assert!(matches!(v.get_document(a), Some(DocumentSource::File(p)) if p == "/tmp/b.pdf"));
}

#[test]
fn prefetch_takes_the_neighbours_that_exist() {
    assert_eq!(prefetch_neighbours(0, 10), vec![1, 2]);
    assert_eq!(prefetch_neighbours(4, 10), vec![3, 5, 6]);
    assert_eq!(prefetch_neighbours(8, 10), vec![7, 9]);
    assert_eq!(prefetch_neighbours(9, 10), vec![8]);
    assert_eq!(prefetch_neighbours(0, 1), Vec::<usize>::new());
    assert_eq!(prefetch_neighbours(0, 0), Vec::<usize>::new());
}

#[test]
fn zoom_percentages_snap_to_cache_steps() {
    assert_eq!(quantize_percent(-40), 25);
    assert_eq!(quantize_percent(10), 25);
    assert_eq!(quantize_percent(37), 25);
    assert_eq!(quantize_percent(38), 50);
    assert_eq!(quantize_percent(100), 100);
    assert_eq!(quantize_percent(112), 100);
    assert_eq!(quantize_percent(125), 150);
    assert_eq!(quantize_percent(390), 400);
    assert_eq!(quantize_percent(5000), 400);
    // Quantizing a step again keeps it.
    for p in [25, 50, 75, 100, 150, 200, 250, 300, 350, 400] {
        assert_eq!(quantize_percent(p as i32), p);
    }
}

#[test]
fn a_stored_page_survives_fewer_than_the_limit_of_other_operations() {
    let mut v = ViewerState::new();
    for i in 0..50 {
        v.add_to_cache(key(2, i), page(i));
    }
    v.add_to_cache(key(1, 7), page(7));
    // Forty-nine operations on other keys, reads and stores mixed.
    for i in 0..25 {
        assert!(v.get_from_cache(&key(2, 49 - i)).is_some());
    }
    for i in 100..124 {
        v.add_to_cache(key(3, i), page(i));
    }
    assert_eq!(v.get_from_cache(&key(1, 7)).map(|p| p.width), Some(7));
    // Fifty stores of other keys after that read evict it.
    for i in 200..250 {
        v.add_to_cache(key(3, i), page(i));
    }
    assert!(v.get_from_cache(&key(1, 7)).is_none());
}
