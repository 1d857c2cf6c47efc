use skin_builder::cache::directory_hash;
use skin_builder::{BuildCache, CacheEntry, CommonDependencyCache};

fn s(x: &str) -> String {
    x.to_string()
}

fn from_hex(hex: &str) -> Vec<u8> {
    (0..hex.len() / 2).map(|i| u8::from_str_radix(&hex[2 * i..2 * i + 2], 16).unwrap()).collect()
}

fn abc_digest() -> Vec<u8> {
    from_hex("ba7816bf8f01cfea414140de5dae2223b00361a396177a9cb410ff61f20015ad")
}

#[test]
fn directory_hash_is_sha256_of_length_prefixed_records() {
    // 8-byte little-endian length of "ab", "ab", length of "c", "c".
    let h = directory_hash(vec![(s("ab"), b"c".to_vec())]);
    assert_eq!(h, from_hex("43ee655579de01ca739b3f95c1c2d3f46d353b2c0df818064ea594506cdb2617"));
}

#[test]
fn directory_hash_ignores_listing_order() {
    let a = vec![(s("values/colors.xml"), b"red".to_vec()), (s("drawable/icon.png"), b"png".to_vec())];
    let b = vec![(s("drawable/icon.png"), b"png".to_vec()), (s("values/colors.xml"), b"red".to_vec())];
    assert_eq!(directory_hash(a), directory_hash(b));
}

#[test]
fn directory_hash_tells_path_from_content() {
    // Same bytes when path and content are run together; different trees.
    assert_ne!(directory_hash(vec![(s("a"), b"bc".to_vec())]), directory_hash(vec![(s("ab"), b"c".to_vec())]));
    assert_ne!(
        directory_hash(vec![(s("b"), b"c".to_vec()), (s("a"), b"".to_vec())]),
        directory_hash(vec![(s("ab"), b"c".to_vec())])
    );
}

#[test]
fn directory_hash_changes_with_content_and_files() {
    let base = directory_hash(vec![(s("values/a.xml"), b"1".to_vec())]);
    assert_ne!(base, directory_hash(vec![(s("values/a.xml"), b"2".to_vec())]));
    assert_ne!(
        base,
        directory_hash(vec![(s("values/a.xml"), b"1".to_vec()), (s("values/b.xml"), b"x".to_vec())])
    );
    assert_ne!(base, directory_hash(vec![]));
}

#[test]
fn file_cache_round_trip() {
    let mut cache = BuildCache::new(s("/tmp/cache/com.app"));
    let file = s("/res/values/colors.xml");
    let content = b"<resources/>".to_vec();
    assert!(cache.needs_recompile(&file, true, &content));
    assert_eq!(cache.get_cached_flat_file(&file), None);

    cache.update_entry(&file, &s("/out/values_colors.arsc.flat"), &content, 100);
    assert!(!cache.needs_recompile(&file, true, &content));
    assert_eq!(cache.get_cached_flat_file(&file), Some(s("/out/values_colors.arsc.flat")));
    // Artifact deleted.
    assert!(cache.needs_recompile(&file, false, &content));
    // Content changed.
    assert!(cache.needs_recompile(&file, true, &b"<resources></resources>".to_vec()));

    // Updating again overwrites rather than adding.
    cache.update_entry(&file, &s("/out/other.flat"), &content, 200);
    assert_eq!(cache.get_all_cached_flat_files(), vec![s("/out/other.flat")]);
    assert_eq!(cache.cached_entries()[0].timestamp, 200);
    assert_eq!(cache.cached_entries()[0].hash.len(), 32);

    cache.clear();
    assert!(cache.get_all_cached_flat_files().is_empty());
    assert_eq!(cache.cache_dir(), "/tmp/cache/com.app");
}

#[test]
fn file_cache_stores_sha256_of_content() {
    let mut cache = BuildCache::new(s("/c"));
    cache.update_entry(&s("f"), &s("f.flat"), &b"abc".to_vec(), 1);
    assert_eq!(cache.cached_entries()[0].hash, abc_digest());
}

#[test]
fn restore_rejects_other_versions_and_duplicates() {
    let entry = |src: &str| CacheEntry { source: s(src), hash: vec![1, 2], timestamp: 5, flat_file: s("x.flat") };
    let kept = BuildCache::restore(s("/c"), &s("1.0"), vec![entry("a"), entry("b")]);
    assert_eq!(kept.cached_entries().len(), 2);
    let old_version = BuildCache::restore(s("/c"), &s("0.9"), vec![entry("a")]);
    assert!(old_version.cached_entries().is_empty());
    let duplicated = BuildCache::restore(s("/c"), &s("1.0"), vec![entry("a"), entry("a")]);
    assert!(duplicated.cached_entries().is_empty());
}

#[test]
fn common_dependency_cache_round_trip() {
    let mut cache = CommonDependencyCache::new(s("/c"));
    let dir = s("./base/res");
    let files = || vec![(s("values/colors.xml"), b"red".to_vec())];
    assert!(cache.needs_recompile(&dir, true, files()));
    cache.update_entry(&dir, vec![s("/out/values_colors.arsc.flat")], files(), 9);
    assert!(!cache.needs_recompile(&dir, true, files()));
    assert!(cache.needs_recompile(&dir, false, files()));
    assert!(cache.needs_recompile(&dir, true, vec![(s("values/colors.xml"), b"blue".to_vec())]));
    assert_eq!(cache.get_cached_flat_files(&dir), Some(vec![s("/out/values_colors.arsc.flat")]));
    assert_eq!(cache.get_cached_flat_files(&s("./other/res")), None);
    assert_eq!(cache.reusable_artifacts(&dir, true, files()), Some(vec![s("/out/values_colors.arsc.flat")]));
    assert_eq!(cache.reusable_artifacts(&dir, false, files()), None);
    assert_eq!(cache.reusable_artifacts(&dir, true, vec![]), None);
    assert_eq!(cache.reusable_artifacts(&s("./other/res"), true, files()), None);
    cache.clear();
    assert!(cache.cached_entries().is_empty());
}
