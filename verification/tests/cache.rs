use muse::cache::{DirCache, DirStat, MetaCache, Stamped, Store};

#[test]
fn dir_stats_fresh_only_while_mtime_matches() {
    let mut c = DirCache::new();
    assert!(!c.dirty);
    assert_eq!(c.get_fresh("/m/a", Some(5)), None);
    c.insert("/m/a".to_string(), 3, 300, Some(5));
    assert!(c.dirty);
    assert_eq!(c.get_fresh("/m/a", Some(5)), Some((3, 300)));
    assert_eq!(c.get_fresh("/m/a", Some(6)), None);
    assert_eq!(c.get_fresh("/m/a", None), None);
    c.insert("/m/a".to_string(), 4, 400, Some(6));
    assert_eq!(c.get_fresh("/m/a", Some(6)), Some((4, 400)));
    // An unreadable mtime records nothing.
    c.insert("/m/b".to_string(), 1, 1, None);
    assert_eq!(c.get_fresh("/m/b", Some(0)), None);
    assert_eq!(c.stats.entries().len(), 1);
}

#[test]
fn loaded_dir_cache_keeps_last_duplicate() {
    let c = DirCache::from_entries(vec![
        ("/x".to_string(), DirStat { count: 1, size: 1, mtime: 1 }),
        ("/y".to_string(), DirStat { count: 2, size: 2, mtime: 2 }),
        ("/x".to_string(), DirStat { count: 9, size: 9, mtime: 1 }),
    ]);
    assert!(!c.dirty);
    assert_eq!(c.get_fresh("/x", Some(1)), Some((9, 9)));
    assert_eq!(c.get_fresh("/y", Some(2)), Some((2, 2)));
    assert_eq!(c.stats.entries().len(), 2);
}

#[test]
fn meta_cache_checks_size_and_mtime() {
    let mut c: MetaCache<String> = MetaCache::new();
    c.put("/a.flac".to_string(), 10, 20, "Title".to_string());
    assert!(c.dirty);
    assert_eq!(c.get("/a.flac", 10, 20), Some(&"Title".to_string()));
    assert_eq!(c.get("/a.flac", 11, 20), None);
    assert_eq!(c.get("/a.flac", 10, 21), None);
    assert_eq!(c.get("/b.flac", 10, 20), None);
    let loaded = MetaCache::from_entries(vec![("/z".to_string(), Stamped { size: 1, mtime: 2, meta: 7u8 })]);
    assert_eq!(loaded.get("/z", 1, 2), Some(&7u8));
}

#[test]
fn store_replaces() {
    let mut s: Store<u32> = Store::new();
    s.insert("k".to_string(), 1);
    s.insert("j".to_string(), 2);
    s.insert("k".to_string(), 3);
    assert_eq!(s.get("k"), Some(&3));
    assert_eq!(s.get("j"), Some(&2));
    assert_eq!(s.get("q"), None);
    assert_eq!(s.entries().len(), 2);
}
