use print_typeset::source_cache::SourceCache;

fn paths(v: &[&str]) -> Vec<String> {
    v.iter().map(|s| s.to_string()).collect()
}

#[test]
fn sources_are_reused_only_for_the_same_paths() {
    let mut cache: SourceCache<Vec<u32>> = SourceCache::new();
    assert_eq!(cache.get(&paths(&["a.pdf"])), None);
    cache.store(paths(&["a.pdf", "b.pdf"]), vec![1, 2]);
    assert_eq!(cache.get(&paths(&["a.pdf", "b.pdf"])), Some(&vec![1, 2]));
    assert_eq!(cache.get(&paths(&["b.pdf", "a.pdf"])), None);
    assert_eq!(cache.get(&paths(&["a.pdf"])), None);
    cache.store(paths(&["c.pdf"]), vec![3]);
    assert_eq!(cache.get(&paths(&["a.pdf", "b.pdf"])), None);
    assert_eq!(cache.get(&paths(&["c.pdf"])), Some(&vec![3]));
}
