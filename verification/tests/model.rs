use muse::archive::ArchiveEntry;
use muse::media::Registry;
use muse::model::{DirEntryInfo, StatEntry, TreeModel};

fn ent(path: &str, is_dir: bool, size: u64) -> DirEntryInfo {
    DirEntryInfo { path: path.to_string(), is_dir, size }
}

fn names(m: &TreeModel) -> Vec<String> {
    m.visible.iter().map(|&id| m.node(id).name.clone()).collect()
}

#[test]
fn scan_candidates_order_and_filter() {
    let reg = Registry::new();
    let listing = vec![
        DirEntryInfo { path: "/m/b.mp3".to_string(), is_dir: false, size: 1 },
        DirEntryInfo { path: "/m/.hidden".to_string(), is_dir: true, size: 0 },
        DirEntryInfo { path: "/m/zdir".to_string(), is_dir: true, size: 0 },
        DirEntryInfo { path: "/m/a.txt".to_string(), is_dir: false, size: 1 },
        DirEntryInfo { path: "/m/A.flac".to_string(), is_dir: false, size: 1 },
        DirEntryInfo { path: "/m/list.m3u".to_string(), is_dir: false, size: 1 },
        DirEntryInfo { path: "/m/adir".to_string(), is_dir: true, size: 0 },
        DirEntryInfo { path: "/m/set.zip".to_string(), is_dir: false, size: 1 },
    ];
    let out: Vec<String> = TreeModel::scan_candidates(listing, &reg).into_iter().map(|e| e.path).collect();
    assert_eq!(out, vec!["/m/adir", "/m/zdir", "/m/A.flac", "/m/b.mp3", "/m/list.m3u", "/m/set.zip"]);
}

#[test]
fn new_tree_prunes_empty_dirs_and_lists_children() {
    let reg = Registry::new();
    let listing = vec![
        ent("/m/set.zip", false, 50),
        ent("/m/A.flac", false, 100),
        ent("/m/.hidden.mp3", false, 7),
        ent("/m/empty", true, 0),
        ent("/m/notes.txt", false, 3),
        ent("/m/list.m3u", false, 10),
        ent("/m/adir", true, 0),
    ];
    // Stats per candidate, in display order: adir, empty, A.flac, list.m3u, set.zip.
    let stats = vec![(2, 300), (0, 0), (0, 0), (0, 0), (0, 0)];
    let m = TreeModel::new("/m", listing, stats, &reg);
    assert_eq!(m.node(m.root).name, "m");
    assert_eq!(names(&m), vec!["adir", "A.flac", "list.m3u"]);
    let adir = m.node(m.visible[0]);
    assert!(adir.is_dir && !adir.expanded && adir.children.is_none());
    assert_eq!((adir.count, adir.size), (2, 300));
    let flac = m.node(m.visible[1]);
    assert!(flac.is_media && flac.size == 100 && flac.depth == 1);
    let list = m.node(m.visible[2]);
    assert!(!list.is_media && !list.is_dir);
}

#[test]
fn expanding_shows_scanned_children() {
    let reg = Registry::new();
    let mut m = TreeModel::new("/m", vec![ent("/m/d", true, 0)], vec![(1, 5)], &reg);
    let d = m.visible[0];
    m.scan(d, vec![ent("/m/d/x.ogg", false, 5)], vec![(0, 0)], &reg);
    assert_eq!(names(&m), vec!["d"]);
    m.nodes[d].expanded = true;
    m.rebuild_visible();
    assert_eq!(names(&m), vec!["d", "x.ogg"]);
    assert_eq!(m.node(m.visible[1]).depth, 2);
    assert_eq!(m.node(m.visible[1]).parent, Some(d));
    // A second scan does nothing.
    m.scan(d, vec![ent("/m/d/y.ogg", false, 5)], Vec::new(), &reg);
    m.rebuild_visible();
    assert_eq!(names(&m), vec!["d", "x.ogg"]);
}

#[test]
fn archive_subtree_with_totals() {
    let reg = Registry::new();
    let mut m = TreeModel::new("/m", vec![ent("/m/set.zip", false, 50)], vec![(3, 60)], &reg);
    let a = m.visible[0];
    assert!(m.node(a).is_archive && m.node(a).is_dir);
    let entries = vec![
        ArchiveEntry { inner: "disc2/02.flac".to_string(), size: 20 },
        ArchiveEntry { inner: "disc1/01.flac".to_string(), size: 10 },
        ArchiveEntry { inner: "00.mp3".to_string(), size: 30 },
    ];
    m.scan_archive(a, &entries);
    m.nodes[a].expanded = true;
    m.rebuild_visible();
    assert_eq!(names(&m), vec!["set.zip", "disc1", "01.flac", "disc2", "02.flac", "00.mp3"]);
    let disc1 = m.node(m.visible[1]);
    assert!(disc1.is_dir && disc1.expanded);
    assert_eq!((disc1.count, disc1.size), (1, 10));
    assert_eq!(m.node(m.visible[2]).path, "/m/set.zip/disc1/01.flac");
    assert_eq!(m.node(m.visible[1]).path, "/m/set.zip/disc1");
    assert_eq!((m.node(a).count, m.node(a).size), (3, 60));
}

#[test]
fn directory_stats_sum_media() {
    let reg = Registry::new();
    let entries = vec![
        StatEntry { path: "/d/a.mp3".to_string(), is_dir: false, size: 10, sub_count: 0, sub_size: 0 },
        StatEntry { path: "/d/.b.mp3".to_string(), is_dir: false, size: 99, sub_count: 0, sub_size: 0 },
        StatEntry { path: "/d/sub".to_string(), is_dir: true, size: 0, sub_count: 4, sub_size: 40 },
        StatEntry { path: "/d/x.zip".to_string(), is_dir: false, size: 7, sub_count: 2, sub_size: 5 },
        StatEntry { path: "/d/notes.txt".to_string(), is_dir: false, size: 3, sub_count: 0, sub_size: 0 },
    ];
    assert_eq!(TreeModel::dir_stats(&entries, &reg), (7, 55));
}

#[test]
fn scan_hides_dotfiles_and_orders_dirs_first() {
    let reg = Registry::new();
    let listing = vec![ent("/r/z.mp3", false, 1), ent("/r/.hidden.mp3", false, 1), ent("/r/sub", true, 0)];
    let m = TreeModel::new("/r", listing, vec![(4, 9), (0, 0)], &reg);
    assert_eq!(names(&m), vec!["sub", "z.mp3"]);
    assert_eq!((m.node(m.visible[0]).count, m.node(m.visible[0]).size), (4, 9));
}
