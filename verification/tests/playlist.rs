use muse::media::Registry;
use muse::playlist::{keep_supported, m3u_entries, m3u_text};

fn s(v: &[&str]) -> Vec<String> {
    v.iter().map(|x| x.to_string()).collect()
}

#[test]
fn export_format() {
    let q = s(&["/m/a.flac", "/m/b c.mp3"]);
    assert_eq!(m3u_text(&q), "#EXTM3U\n/m/a.flac\n/m/b c.mp3\n");
    assert_eq!(m3u_text(&Vec::new()), "#EXTM3U\n");
}

#[test]
fn import_resolves_and_skips() {
    let txt = "#EXTM3U\n#EXTINF:123,Artist - Title\n  /abs/one.flac  \r\n\nrel/two.mp3\r\n   \n./three.ogg";
    assert_eq!(
        m3u_entries(txt, "/lists"),
        s(&["/abs/one.flac", "/lists/rel/two.mp3", "/lists/./three.ogg"])
    );
    assert_eq!(m3u_entries("", "/x"), Vec::<String>::new());
    assert_eq!(m3u_entries("a.mp3", "/x/"), s(&["/x/a.mp3"]));
    assert_eq!(m3u_entries("a.mp3", ""), s(&["a.mp3"]));
}

#[test]
fn unicode_whitespace_is_trimmed() {
    assert_eq!(m3u_entries("\u{3000}/a.mp3\u{a0}\u{2009}", "/x"), s(&["/a.mp3"]));
}

#[test]
fn round_trip_of_absolute_queue() {
    let q = s(&["/m/01 - Intro.flac", "/m/disc 2/Track #2.mp3", "/Música/ñ.ogg"]);
    assert_eq!(m3u_entries(&m3u_text(&q), "/anywhere"), q);
}

#[test]
fn supported_filter_keeps_order() {
    let reg = Registry::new();
    let v = s(&["/a.flac", "/b.txt", "/c.MP3", "/d.m3u"]);
    assert_eq!(keep_supported(&reg, v), s(&["/a.flac", "/c.MP3"]));
}
