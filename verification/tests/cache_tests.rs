use opencli::cache::CacheManager;

#[test]
fn cache_file_lives_under_base_dir() {
    let c = CacheManager::new("/home/u/.config/opencli");
    assert_eq!(c.cache_file, "/home/u/.config/opencli/cache.txt");
}

#[test]
fn append_then_lookup_round_trip() {
    let c = CacheManager::new("/base");
    let text = c.append_entry("", "pawncc-3.10", "h1");
    let text = c.append_entry(text.as_str(), "pawncc-3.11", "h2");
    assert_eq!(text, "pawncc-3.10\nargon2:h1\npawncc-3.11\nargon2:h2\n");
    assert_eq!(c.lookup_hash(text.as_str(), "pawncc-3.10"), Some(String::from("h1")));
    assert_eq!(c.lookup_hash(text.as_str(), "pawncc-3.11"), Some(String::from("h2")));
    assert_eq!(c.lookup_hash(text.as_str(), "pawncc-9.99"), None);
}

#[test]
fn parse_entries_pairs_names_and_hashes() {
    let c = CacheManager::new("/base");
    let entries = c.parse_entries("a\nargon2:h1\n\nb\nargon2:h2\n");
    assert_eq!(
        entries,
        vec![
            (String::from("a"), String::from("h1")),
            (String::from("b"), String::from("h2")),
        ]
    );
}

#[test]
fn parse_entries_drops_orphan_lines() {
    let c = CacheManager::new("/base");
    // a hash with no preceding name, and a name with no following hash
    let entries = c.parse_entries("argon2:stray\nlonely\n");
    assert!(entries.is_empty());
}

#[test]
fn remove_entry_rewrites_without_the_name() {
    let c = CacheManager::new("/base");
    let text = "a\nargon2:h1\nb\nargon2:h2\n";
    assert_eq!(c.remove_entry(text, "a"), "b\nargon2:h2\n");
    assert_eq!(c.remove_entry(text, "b"), "a\nargon2:h1\n");
    assert_eq!(c.remove_entry(text, "zz"), text);
}
