use muse::search::{rank_hays, rank_matches, sort_paths, strip_root};

fn s(v: &[&str]) -> Vec<String> {
    v.iter().map(|x| x.to_string()).collect()
}

#[test]
fn strip_is_component_wise() {
    assert_eq!(strip_root("/music/a/b.mp3", "/music"), "a/b.mp3");
    assert_eq!(strip_root("/music/a/b.mp3", "/music/"), "a/b.mp3");
    assert_eq!(strip_root("/musicx/a.mp3", "/music"), "/musicx/a.mp3");
    assert_eq!(strip_root("/music", "/music"), "");
    assert_eq!(strip_root("rel/a.mp3", "/music"), "rel/a.mp3");
}

#[test]
fn ranks_by_score_then_path() {
    let idx = s(&["/m/zeta/abc.mp3", "/m/abc.flac", "/m/xyz.ogg", "/m/a/b/c.mp3", "/m/ABC.wav"]);
    let r = rank_matches("ABC", &idx, "/m");
    // "abc.flac" and "ABC.wav" match at the front (score 2); path order breaks the tie.
    assert_eq!(r, s(&["/m/ABC.wav", "/m/abc.flac", "/m/a/b/c.mp3", "/m/zeta/abc.mp3"]));
    assert_eq!(rank_matches("", &idx, "/m").len(), 5);
    assert!(rank_matches("qqq", &idx, "/m").is_empty());
}

#[test]
fn unicode_query_is_lowercased() {
    let idx = s(&["/m/ÉTÉ.mp3", "/m/other.mp3"]);
    assert_eq!(rank_matches("été", &idx, "/m"), s(&["/m/ÉTÉ.mp3"]));
}

#[test]
fn paths_sort_by_component() {
    let v = s(&["/m/a-b.mp3", "/m/a/b.mp3", "/m/B.mp3", "/m/a.mp3", "rel.mp3"]);
    // "/m/a" < "/m/a-b.mp3" component-wise, although '-' < '/' as characters.
    assert_eq!(sort_paths(v), s(&["/m/B.mp3", "/m/a/b.mp3", "/m/a-b.mp3", "/m/a.mp3", "rel.mp3"]));
}

#[test]
fn path_order_agrees_with_pathbuf() {
    let parts = ["a", "A", "a-b", "a.b", "b", "ä", "z9", "Ω"];
    let mut v: Vec<String> = Vec::new();
    let mut x: u32 = 12345;
    for _ in 0..300 {
        let mut p = String::new();
        x ^= x << 13;
        x ^= x >> 17;
        x ^= x << 5;
        if x % 3 != 0 {
            p.push('/');
        }
        let depth = 1 + (x % 4);
        for d in 0..depth {
            if d > 0 {
                p.push('/');
            }
            p.push_str(parts[((x >> (3 * d)) % 8) as usize]);
        }
        v.push(p);
    }
    let mut expect: Vec<std::path::PathBuf> = v.iter().map(std::path::PathBuf::from).collect();
    expect.sort();
    let expect: Vec<String> = expect.iter().map(|p| p.to_string_lossy().into_owned()).collect();
    assert_eq!(sort_paths(v), expect);
}

#[test]
fn path_order_agrees_with_pathbuf_on_dot_components() {
    let parts = ["a", "b", ".", "..", "", "a.b", "..a", ".z"];
    let mut v: Vec<String> = Vec::new();
    let mut x: u32 = 987;
    for _ in 0..400 {
        let mut p = String::new();
        x ^= x << 13;
        x ^= x >> 17;
        x ^= x << 5;
        match x % 3 {
            0 => p.push('/'),
            1 => p.push_str("./"),
            _ => {}
        }
        let depth = 1 + (x % 4);
        for d in 0..depth {
            if d > 0 {
                p.push('/');
            }
            p.push_str(parts[((x >> (3 * d + 2)) % 8) as usize]);
        }
        v.push(p);
    }
    let mut expect: Vec<std::path::PathBuf> = v.iter().map(std::path::PathBuf::from).collect();
    expect.sort();
    let expect: Vec<String> = expect.iter().map(|p| p.to_string_lossy().into_owned()).collect();
    assert_eq!(sort_paths(v), expect);
}

#[test]
fn dot_components_order_before_names() {
    let v = s(&["/m/b", "/m/../x", "m", "/m/./a", "./m", "../m", "/"]);
    assert_eq!(sort_paths(v), s(&["/", "/m/../x", "/m/./a", "/m/b", "./m", "../m", "m"]));
}

#[test]
fn ranks_lowered_haystacks_as_given() {
    let idx = s(&["/m/One.mp3", "/m/two.mp3", "/m/three.mp3"]);
    let hays = s(&["one.mp3", "two.mp3", "three.mp3"]);
    assert_eq!(rank_hays("t", &idx, &hays), s(&["/m/three.mp3", "/m/two.mp3"]));
    assert_eq!(rank_hays("", &idx, &hays).len(), 3);
    // Nothing is lower-cased here: beyond ASCII, case must already agree.
    let idx = s(&["/m/ÉTÉ.mp3"]);
    let hays = s(&["été.mp3"]);
    assert!(rank_hays("É", &idx, &hays).is_empty());
    assert_eq!(rank_hays("é", &idx, &hays), s(&["/m/ÉTÉ.mp3"]));
}
