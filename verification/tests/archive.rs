use muse::archive::{ancestors, is_archive, kind_of, norm_inner, split_virtual, ArchiveStore, Kind, RawEntry};

fn kind(name: &str) -> Option<Kind> {
    kind_of(name)
}

#[test]
fn extension_classification() {
    assert!(kind("a.zip") == Some(Kind::Zip));
    assert!(kind("a.7z") == Some(Kind::SevenZ));
    assert!(kind("a.tar") == Some(Kind::Tar));
    assert!(kind("a.tar.gz") == Some(Kind::TarGz) && kind("a.tgz") == Some(Kind::TarGz));
    assert!(kind("a.tar.bz2") == Some(Kind::TarBz2) && kind("a.tbz2") == Some(Kind::TarBz2));
    // case-insensitive, and non-archives reject
    assert!(kind("A.ZIP") == Some(Kind::Zip));
    assert!(kind("song.mp3").is_none() && kind("folder").is_none());
}

#[test]
fn norm_inner_strips_prefixes() {
    assert_eq!(norm_inner("./a/b.mp3"), "a/b.mp3");
    assert_eq!(norm_inner("/a/b.mp3"), "a/b.mp3");
    assert_eq!(norm_inner("a\\b.mp3"), "a/b.mp3");
}

#[test]
fn kind_of_more_suffixes() {
    assert!(kind("x.tbz") == Some(Kind::TarBz2));
    assert!(kind("/music/Album.TAR.GZ") == Some(Kind::TarGz));
    assert!(kind("/music/dir/") .is_none());
    assert!(is_archive("/m/a.7z"));
    assert!(!is_archive("/m/a.flac"));
}

#[test]
fn ancestors_deepest_first() {
    let a = ancestors("/tmp/x/Album.zip/disc1/01.flac");
    assert_eq!(a, vec!["/tmp/x/Album.zip/disc1", "/tmp/x/Album.zip", "/tmp/x", "/tmp"]);
}

#[test]
fn split_virtual_resolves_against_flags() {
    let entry = "/tmp/x/Album.zip/disc1/01 - Track.flac";
    let anc = ancestors(entry);
    let flags: Vec<bool> = anc.iter().map(|a| a == "/tmp/x/Album.zip").collect();
    assert_eq!(
        split_virtual(entry, &flags),
        Some(("/tmp/x/Album.zip".to_string(), "disc1/01 - Track.flac".to_string()))
    );
    // The container itself is not an entry.
    let anc2 = ancestors("/tmp/x/Album.zip");
    let flags2: Vec<bool> = anc2.iter().map(|_| false).collect();
    assert_eq!(split_virtual("/tmp/x/Album.zip", &flags2), None);
    // An archive-named ancestor that is not a file on disk does not count.
    let none: Vec<bool> = anc.iter().map(|_| false).collect();
    assert_eq!(split_virtual(entry, &none), None);
    // A plain file is not virtual.
    let anc3 = ancestors("/tmp/x/loose.mp3");
    let flags3: Vec<bool> = anc3.iter().map(|_| true).collect();
    assert_eq!(split_virtual("/tmp/x/loose.mp3", &flags3), None);
}

fn raw(name: &str, size: u64, is_file: bool) -> RawEntry {
    RawEntry { name: name.to_string(), size, is_file }
}

#[test]
fn list_audio_filters_and_caches() {
    let mut store = ArchiveStore::new();
    let listing = vec![
        raw("./disc1/01.flac", 10, true),
        raw("disc1/", 0, false),
        raw("cover.jpg", 5, true),
        raw("\\disc2\\02.MP3", 20, true),
    ];
    let entries = store.list_audio("/m/a.zip", Some(listing));
    let names: Vec<(String, u64)> = entries.iter().map(|e| (e.inner.clone(), e.size)).collect();
    assert_eq!(names, vec![("disc1/01.flac".to_string(), 10), ("disc2/02.MP3".to_string(), 20)]);
    // Served from the cache afterwards, whatever listing is offered.
    let again = store.list_audio("/m/a.zip", None);
    assert_eq!(again.len(), 2);
    assert!(store.cached_index("/m/a.zip").is_some());
    // A failed listing yields nothing.
    let failed = store.list_audio("/m/b.zip", None);
    assert!(failed.is_empty());
}

#[test]
fn read_returns_inserted_bytes_and_close_forgets() {
    let mut store = ArchiveStore::new();
    let got = store.read("/m/a.zip", "01.flac", Some(vec![1, 2, 3]));
    assert_eq!(got.as_deref(), Some(&vec![1u8, 2, 3]));
    // Cached: no decompressed bytes needed the second time.
    let again = store.read("/m/a.zip", "01.flac", None);
    assert_eq!(again.as_deref(), Some(&vec![1u8, 2, 3]));
    assert!(store.read("/m/a.zip", "02.flac", None).is_none());
    store.list_audio("/m/a.zip", Some(vec![raw("01.flac", 3, true)]));
    store.close("/m/a.zip");
    assert!(store.cached_read("/m/a.zip", "01.flac").is_none());
    assert!(store.cached_index("/m/a.zip").is_none());
}

#[test]
fn decompressed_bytes_stay_bounded() {
    let mut store = ArchiveStore::new();
    let big = 140 * 1024 * 1024;
    assert!(store.read("/m/a.zip", "1.flac", Some(vec![1u8; big])).is_some());
    assert!(store.read("/m/a.zip", "2.flac", Some(vec![2u8; big])).is_some());
    // Over the cap: the least recently used entry went.
    assert!(store.cached_read("/m/a.zip", "1.flac").is_none());
    let kept = store.cached_read("/m/a.zip", "2.flac").unwrap();
    assert_eq!(kept.len(), big);
    // A single entry beyond the cap is still kept.
    let huge = 300 * 1024 * 1024;
    drop(kept);
    assert!(store.read("/m/b.zip", "x.flac", Some(vec![0u8; huge])).is_some());
    assert!(store.cached_read("/m/a.zip", "2.flac").is_none());
    assert!(store.cached_read("/m/b.zip", "x.flac").is_some());
}

#[test]
fn eviction_spares_recently_read_entries() {
    let mut store = ArchiveStore::new();
    let mb100 = 100 * 1024 * 1024;
    store.read("/m/a.zip", "a.flac", Some(vec![0u8; mb100]));
    store.read("/m/a.zip", "b.flac", Some(vec![0u8; mb100]));
    // Touch `a`: `b` becomes the least recently used.
    assert!(store.cached_read("/m/a.zip", "a.flac").is_some());
    store.read("/m/a.zip", "c.flac", Some(vec![0u8; mb100]));
    assert!(store.cached_read("/m/a.zip", "b.flac").is_none());
    assert!(store.cached_read("/m/a.zip", "a.flac").is_some());
    assert!(store.cached_read("/m/a.zip", "c.flac").is_some());
}

#[test]
fn a_read_hit_counts_as_recent_use() {
    let mut store = ArchiveStore::new();
    let mb100 = 100 * 1024 * 1024;
    store.read("/m/a.zip", "a.flac", Some(vec![0u8; mb100]));
    store.read("/m/a.zip", "b.flac", Some(vec![0u8; mb100]));
    // A read that finds `a` cached touches it: `b` is now the oldest.
    assert!(store.read("/m/a.zip", "a.flac", None).is_some());
    store.read("/m/a.zip", "c.flac", Some(vec![0u8; mb100]));
    assert!(store.cached_read("/m/a.zip", "b.flac").is_none());
    assert!(store.cached_read("/m/a.zip", "a.flac").is_some());
}

#[test]
fn listing_reads_back_until_close() {
    let mut store = ArchiveStore::new();
    let first = store.list_audio("/m/a.zip", Some(vec![raw("01.flac", 3, true)]));
    store.list_audio("/m/b.zip", Some(vec![raw("x.mp3", 1, true)]));
    store.read("/m/a.zip", "01.flac", Some(vec![9]));
    // A different listing offered later is ignored: the cached one comes back.
    let again = store.list_audio("/m/a.zip", Some(vec![raw("02.flac", 4, true)]));
    assert_eq!(again.len(), 1);
    assert_eq!(again[0].inner, first[0].inner);
    store.close("/m/a.zip");
    let fresh = store.list_audio("/m/a.zip", Some(vec![raw("02.flac", 4, true)]));
    assert_eq!(fresh[0].inner, "02.flac");
}

#[test]
fn closing_one_archive_keeps_the_others_listing() {
    let mut store = ArchiveStore::new();
    store.list_audio("/m/a.zip", Some(vec![raw("01.flac", 3, true)]));
    store.list_audio("/m/b.zip", Some(vec![raw("x.mp3", 1, true)]));
    store.close("/m/b.zip");
    let a = store.list_audio("/m/a.zip", None);
    assert_eq!(a.len(), 1);
    assert_eq!(a[0].inner, "01.flac");
    assert!(store.cached_index("/m/b.zip").is_none());
}
