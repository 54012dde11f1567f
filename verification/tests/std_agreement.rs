use std::path::{Path, PathBuf};

use muse::archive::{ancestors, kind_of, norm_inner, split_virtual, Kind};
use muse::media::{file_name_str, Registry};
use muse::model::{DirEntryInfo, TreeModel};
use muse::playlist::m3u_entries;
use muse::search::strip_root;

struct Gen(u64);

impl Gen {
    fn next(&mut self) -> u64 {
        self.0 ^= self.0 << 13;
        self.0 ^= self.0 >> 7;
        self.0 ^= self.0 << 17;
        self.0
    }
    fn pick<'a>(&mut self, xs: &[&'a str]) -> &'a str {
        xs[(self.next() % xs.len() as u64) as usize]
    }
}

#[test]
fn m3u_lines_match_lines_and_trim() {
    let alphabet = [
        "a", "/", "#", " ", "\t", "\r", "\n", "\n", "\u{a0}", "\u{2003}", "\u{3000}", "\u{85}", "\u{200b}", "x.mp3",
        "\u{b}", "\u{c}", "\u{1680}", "\u{2028}", "\u{feff}",
    ];
    let mut g = Gen(0x1234_5678_9abc_def1);
    for _ in 0..500 {
        let mut txt = String::new();
        let n = g.next() % 40;
        for _ in 0..n {
            txt.push_str(g.pick(&alphabet));
        }
        let base = if g.next() % 2 == 0 { "/lists" } else { "" };
        let mut expect: Vec<String> = Vec::new();
        for line in txt.lines() {
            let line = line.trim();
            if line.is_empty() || line.starts_with('#') {
                continue;
            }
            let p = PathBuf::from(line);
            let p = if p.is_absolute() { p } else { PathBuf::from(base).join(p) };
            expect.push(p.to_string_lossy().into_owned());
        }
        assert_eq!(m3u_entries(&txt, base), expect, "text {txt:?}");
    }
}

#[test]
fn file_names_match_path() {
    let parts = ["a", "b.mp3", ".", "..", "", "/", "//", "c d", ".hidden"];
    let mut g = Gen(42);
    for _ in 0..500 {
        let mut p = String::new();
        for _ in 0..(g.next() % 5) {
            p.push_str(g.pick(&parts));
            if g.next() % 2 == 0 {
                p.push('/');
            }
        }
        let expect = Path::new(&p).file_name().map(|s| s.to_string_lossy().into_owned()).unwrap_or_default();
        assert_eq!(file_name_str(&p), expect, "path {p:?}");
    }
}

fn kind_model(p: &str) -> Option<Kind> {
    let name = Path::new(p).file_name()?.to_str()?.to_ascii_lowercase();
    if name.ends_with(".tar.gz") || name.ends_with(".tgz") {
        Some(Kind::TarGz)
    } else if name.ends_with(".tar.bz2") || name.ends_with(".tbz2") || name.ends_with(".tbz") {
        Some(Kind::TarBz2)
    } else if name.ends_with(".tar") {
        Some(Kind::Tar)
    } else if name.ends_with(".zip") {
        Some(Kind::Zip)
    } else if name.ends_with(".7z") {
        Some(Kind::SevenZ)
    } else {
        None
    }
}

#[test]
fn archive_kinds_match_model() {
    let parts = ["a", ".tar", ".gz", ".TGZ", ".bz2", ".tbz", ".zip", ".7Z", "/", ".", "x"];
    let mut g = Gen(7);
    for _ in 0..1000 {
        let mut p = String::new();
        for _ in 0..(g.next() % 6) {
            p.push_str(g.pick(&parts));
        }
        assert_eq!(kind_of(&p), kind_model(&p), "path {p:?}");
    }
}

#[test]
fn inner_names_match_model() {
    let parts = ["./", "/", "\\", "a", ".", "b.mp3"];
    let mut g = Gen(99);
    for _ in 0..1000 {
        let mut name = String::new();
        for _ in 0..(g.next() % 7) {
            name.push_str(g.pick(&parts));
        }
        let s = name.replace('\\', "/");
        let expect = s.trim_start_matches("./").trim_start_matches('/').to_string();
        assert_eq!(norm_inner(&name), expect, "name {name:?}");
    }
}

#[test]
fn strip_root_matches_strip_prefix() {
    let parts = ["m", "music", "a", "b.mp3"];
    let mut g = Gen(5);
    for _ in 0..500 {
        let mut root = String::from("/");
        for d in 0..(g.next() % 3) {
            if d > 0 {
                root.push('/');
            }
            root.push_str(g.pick(&parts));
        }
        let mut p = String::from("/");
        for d in 0..(1 + g.next() % 4) {
            if d > 0 {
                p.push('/');
            }
            p.push_str(g.pick(&parts));
        }
        let expect = Path::new(&p)
            .strip_prefix(&root)
            .map(|r| r.to_string_lossy().into_owned())
            .unwrap_or_else(|_| p.clone());
        assert_eq!(strip_root(&p, &root), expect, "path {p:?} root {root:?}");
    }
}

#[test]
fn supported_matches_extension_rule() {
    let reg = Registry::new();
    let exts = ["mp3", "FLAC", "wav", "Ogg", "oga", "opus", "m4a", "aac", "aiff", "aif", "alac", "wv", "txt", "m3u", ""];
    let mut g = Gen(11);
    for _ in 0..300 {
        let name = format!("/d/{}.{}", g.pick(&["a", ".x", "b.c"]), g.pick(&exts));
        let expect = Path::new(&name)
            .extension()
            .and_then(|e| e.to_str())
            .map(|e| {
                matches!(
                    e.to_ascii_lowercase().as_str(),
                    "mp3" | "flac" | "wav" | "ogg" | "oga" | "opus" | "m4a" | "aac" | "aiff" | "aif" | "alac" | "wv"
                )
            })
            .unwrap_or(false);
        assert_eq!(reg.is_supported(&name), expect, "path {name:?}");
    }
}

fn split_model(path: &str, files: &[String]) -> Option<(String, String)> {
    let p = Path::new(path);
    for anc in p.ancestors().skip(1) {
        if anc.as_os_str().is_empty() {
            break;
        }
        let a = anc.to_string_lossy().into_owned();
        if kind_of(&a).is_some() && files.contains(&a) {
            let inner = p.strip_prefix(anc).ok()?;
            let s = inner.to_string_lossy().replace('\\', "/");
            if s.is_empty() {
                return None;
            }
            return Some((a, s));
        }
    }
    None
}

#[test]
fn split_virtual_matches_ancestor_walk() {
    let parts = ["m", "A.zip", "b.tar.gz", "c", "d.flac", "x.7z"];
    let mut g = Gen(2024);
    for _ in 0..1000 {
        let mut p = String::new();
        if g.next() % 4 != 0 {
            p.push('/');
        }
        for d in 0..(1 + g.next() % 5) {
            if d > 0 {
                p.push('/');
            }
            p.push_str(g.pick(&parts));
        }
        let anc = ancestors(&p);
        let flags: Vec<bool> = anc.iter().map(|_| g.next() % 3 != 0).collect();
        let files: Vec<String> = anc.iter().zip(flags.iter()).filter(|(_, f)| **f).map(|(a, _)| a.clone()).collect();
        assert_eq!(split_virtual(&p, &flags), split_model(&p, &files), "path {p:?} files {files:?}");
    }
}

fn fuzzy_model(needle: &str, haystack: &str) -> Option<i32> {
    if needle.is_empty() {
        return Some(0);
    }
    let hay: Vec<char> = haystack.chars().collect();
    let mut hi = 0usize;
    let mut score = 0i32;
    let mut last: Option<usize> = None;
    for nc in needle.chars() {
        let mut found = None;
        while hi < hay.len() {
            if hay[hi].eq_ignore_ascii_case(&nc) {
                found = Some(hi);
                break;
            }
            hi += 1;
        }
        let idx = found?;
        score += match last {
            Some(lm) => (idx - lm) as i32,
            None => idx as i32,
        };
        last = Some(idx);
        hi = idx + 1;
    }
    Some(score)
}

#[test]
fn fuzzy_matches_model() {
    let alphabet = ["a", "B", "c", "/", "é", "É", " ", "1"];
    let mut g = Gen(77);
    for _ in 0..2000 {
        let mut n = String::new();
        for _ in 0..(g.next() % 4) {
            n.push_str(g.pick(&alphabet));
        }
        let mut h = String::new();
        for _ in 0..(g.next() % 12) {
            h.push_str(g.pick(&alphabet));
        }
        assert_eq!(muse::util::fuzzy_score(&n, &h), fuzzy_model(&n, &h), "needle {n:?} hay {h:?}");
    }
}

#[test]
fn ranking_matches_model() {
    let parts = ["Abc", "abc", "x", "ÉTÉ", "b-c", "a"];
    let mut g = Gen(31);
    for _ in 0..200 {
        let root = "/m";
        let mut index: Vec<String> = Vec::new();
        for _ in 0..(g.next() % 8) {
            let mut p = String::from("/m");
            for _ in 0..(1 + g.next() % 3) {
                p.push('/');
                p.push_str(g.pick(&parts));
            }
            index.push(p);
        }
        let query = g.pick(&["", "a", "bc", "ÉT", "ac", "zz"]).to_string();
        let q = query.to_lowercase();
        let paths: Vec<PathBuf> = index.iter().map(PathBuf::from).collect();
        let mut scored: Vec<(i32, &PathBuf)> = paths
            .iter()
            .filter_map(|p| {
                let hay = p.strip_prefix(root).unwrap_or(p).to_string_lossy().to_lowercase();
                fuzzy_model(&q, &hay).map(|s| (s, p))
            })
            .collect();
        scored.sort_by(|a, b| a.0.cmp(&b.0).then_with(|| a.1.cmp(b.1)));
        let expect: Vec<String> = scored.into_iter().map(|(_, p)| p.to_string_lossy().into_owned()).collect();
        assert_eq!(muse::search::rank_matches(&query, &index, root), expect, "query {query:?} index {index:?}");
    }
}

#[test]
fn listing_order_matches_model() {
    let names = ["b.mp3", "A.flac", "a.flac", "é.ogg", "z", "Z", ".h", "x.zip", "l.m3u", "t.txt", "ä"];
    let reg = Registry::new();
    let mut g = Gen(555);
    for _ in 0..200 {
        let mut listing: Vec<DirEntryInfo> = Vec::new();
        for _ in 0..(g.next() % 8) {
            let name = g.pick(&names);
            let is_dir = g.next() % 3 == 0;
            listing.push(DirEntryInfo { path: format!("/m/{name}"), is_dir, size: 1 });
        }
        let mut expect: Vec<(PathBuf, bool)> = listing
            .iter()
            .filter(|e| {
                let p = Path::new(&e.path);
                let hidden = p.file_name().and_then(|s| s.to_str()).map(|n| n.starts_with('.')).unwrap_or(false);
                !hidden && (e.is_dir || reg.is_visible(&e.path) || kind_of(&e.path).is_some())
            })
            .map(|e| (PathBuf::from(&e.path), e.is_dir))
            .collect();
        expect.sort_by(|a, b| b.1.cmp(&a.1).then_with(|| a.0.file_name().cmp(&b.0.file_name())));
        let expect: Vec<(String, bool)> = expect.into_iter().map(|(p, d)| (p.to_string_lossy().into_owned(), d)).collect();
        let got: Vec<(String, bool)> = TreeModel::scan_candidates(listing, &reg).into_iter().map(|e| (e.path, e.is_dir)).collect();
        assert_eq!(got, expect);
    }
}

#[test]
fn split_virtual_matches_ancestor_walk_on_noisy_paths() {
    let parts = ["m", "A.zip", "b.tar.gz", ".", "..", "", "c", "d.flac", "x.7z", ".z.zip"];
    let mut g = Gen(77);
    for _ in 0..3000 {
        let mut p = String::new();
        match g.next() % 4 {
            0 => {}
            1 => p.push_str("./"),
            _ => p.push('/'),
        }
        for d in 0..(1 + g.next() % 6) {
            if d > 0 {
                p.push('/');
                if g.next() % 5 == 0 {
                    p.push('/');
                }
            }
            p.push_str(g.pick(&parts));
        }
        if g.next() % 4 == 0 {
            p.push_str(g.pick(&["/", "/.", "//", "/./"]));
        }
        let anc = ancestors(&p);
        let expect: Vec<String> = Path::new(&p)
            .ancestors()
            .skip(1)
            .map(|a| a.to_string_lossy().into_owned())
            .take_while(|a| !a.is_empty() && a != "/")
            .collect();
        assert_eq!(anc, expect, "ancestors of {p:?}");
        let flags: Vec<bool> = anc.iter().map(|_| g.next() % 3 != 0).collect();
        let files: Vec<String> = anc.iter().zip(flags.iter()).filter(|(_, f)| **f).map(|(a, _)| a.clone()).collect();
        assert_eq!(split_virtual(&p, &flags), split_model(&p, &files), "path {p:?} files {files:?}");
    }
}
