use cross_file::cache::MetadataCache;
use cross_file::types::CrossFileMetadata;
use cross_file::uri::FileUri;

fn test_uri(name: &str) -> FileUri {
    FileUri::from_bytes(format!("file:///{}", name).into_bytes())
}

#[test]
fn test_metadata_cache() {
    let mut cache = MetadataCache::new();
    let uri = test_uri("test.R");
    let meta = CrossFileMetadata::default();

    cache.insert(uri.clone(), meta);
    assert!(cache.get(&uri).is_some());

    cache.remove(&uri);
    assert!(cache.get(&uri).is_none());
}

#[test]
fn test_metadata_cache_lru_eviction() {
    let mut cache = MetadataCache::with_capacity(3);
    let uri1 = test_uri("a.R");
    let uri2 = test_uri("b.R");
    let uri3 = test_uri("c.R");
    let uri4 = test_uri("d.R");

    cache.insert(uri1.clone(), CrossFileMetadata::default());
    cache.insert(uri2.clone(), CrossFileMetadata::default());
    cache.insert(uri3.clone(), CrossFileMetadata::default());

    // All three should be present
    assert!(cache.get(&uri1).is_some());
    assert!(cache.get(&uri2).is_some());
    assert!(cache.get(&uri3).is_some());

    // Inserting a 4th evicts the LRU (uri1, oldest by insertion time)
    cache.insert(uri4.clone(), CrossFileMetadata::default());
    assert!(cache.get(&uri1).is_none(), "LRU entry should be evicted");
    assert!(cache.get(&uri2).is_some());
    assert!(cache.get(&uri3).is_some());
    assert!(cache.get(&uri4).is_some());
}

#[test]
fn test_metadata_cache_resize() {
    let mut cache = MetadataCache::with_capacity(5);
    for i in 0..5 {
        cache.insert(test_uri(&format!("{}.R", i)), CrossFileMetadata::default());
    }

    // Shrink to 2 - oldest 3 entries evicted
    cache.resize(2);
    // Only the 2 most recently inserted (3.R, 4.R) should remain
    assert!(cache.get(&test_uri("0.R")).is_none());
    assert!(cache.get(&test_uri("1.R")).is_none());
    assert!(cache.get(&test_uri("2.R")).is_none());
    assert!(cache.get(&test_uri("3.R")).is_some());
    assert!(cache.get(&test_uri("4.R")).is_some());
}

#[test]
fn test_metadata_cache_invalidate_many() {
    let mut cache = MetadataCache::new();
    let uri1 = test_uri("test1.R");
    let uri2 = test_uri("test2.R");
    let uri3 = test_uri("test3.R");
    let uri4 = test_uri("test4.R"); // Not in cache

    // Insert some entries
    cache.insert(uri1.clone(), CrossFileMetadata::default());
    cache.insert(uri2.clone(), CrossFileMetadata::default());
    cache.insert(uri3.clone(), CrossFileMetadata::default());

    // Verify all are present
    assert!(cache.get(&uri1).is_some());
    assert!(cache.get(&uri2).is_some());
    assert!(cache.get(&uri3).is_some());

    // Invalidate uri1 and uri2 (and uri4 which doesn't exist)
    let uris_to_invalidate = vec![uri1.clone(), uri2.clone(), uri4.clone()];
    let count = cache.invalidate_many(&uris_to_invalidate);

    // Should have invalidated 2 entries (uri1 and uri2, not uri4)
    assert_eq!(count, 2);

    // uri1 and uri2 should be gone
    assert!(cache.get(&uri1).is_none());
    assert!(cache.get(&uri2).is_none());

    // uri3 should still be present
    assert!(cache.get(&uri3).is_some());
}

#[test]
fn test_metadata_cache_invalidate_many_empty() {
    let mut cache = MetadataCache::new();
    let uri1 = test_uri("test1.R");

    cache.insert(uri1.clone(), CrossFileMetadata::default());

    // Invalidate with empty iterator
    let count = cache.invalidate_many(&Vec::<FileUri>::new());
    assert_eq!(count, 0);

    // Entry should still be present
    assert!(cache.get(&uri1).is_some());
}

#[test]
fn test_metadata_cache_zero_capacity_falls_back() {
    let mut cache = MetadataCache::with_capacity(0);
    let uri = test_uri("test.R");
    cache.insert(uri.clone(), CrossFileMetadata::default());
    assert!(cache.get(&uri).is_some());
}

#[test]
fn test_metadata_cache_roundtrips_contents() {
    // An insert followed by a get returns the parsed metadata intact,
    // which would fail if the stored bytes were handed back unchanged
    // or mangled by the codec.
    let mut cache = MetadataCache::new();
    let uri = test_uri("meta.R");
    let text = b"# @lsp-sourced-by helpers/util.R line=5\n# @lsp-working-directory wd";
    let meta = cross_file::directive::parse_directives(text);
    cache.insert(uri.clone(), meta);
    let back = cache.get(&uri).expect("entry should be present");
    assert_eq!(back.sourced_by.len(), 1);
    assert_eq!(back.sourced_by[0].path, b"helpers/util.R".to_vec());
    assert_eq!(back.working_directory, Some(b"wd".to_vec()));
}
