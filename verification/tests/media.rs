use muse::media::{add_field, counted, file_name_str, selection_title, tag_title_or_filename, AudioProvider, Registry};
use muse::mem_source::{MemSource, SeekError, SeekPos};
use std::sync::Arc;

#[test]
fn registry_classifies() {
    let reg = Registry::new();
    assert!(reg.is_supported("/m/a.FLAC"));
    assert!(reg.is_supported("x.opus"));
    assert!(!reg.is_supported("/m/a.txt"));
    assert!(!reg.is_supported("/m/flac"));
    assert!(reg.is_playlist("/m/l.M3U8"));
    assert!(reg.is_visible("/m/l.m3u"));
    assert!(!reg.is_visible("/m/cover.jpg"));
    assert!(reg.for_path("/a.wv").is_some());
    assert_eq!(AudioProvider.id(), "audio");
    assert!(AudioProvider.is_playable());
}

#[test]
fn fields_skip_empty_values() {
    let mut f: Vec<(String, String)> = Vec::new();
    add_field(&mut f, "codec", "FLAC".to_string());
    add_field(&mut f, "bitrate", String::new());
    assert_eq!(f, vec![("codec".to_string(), "FLAC".to_string())]);
}

#[test]
fn titles() {
    assert_eq!(file_name_str("/m/a b.mp3"), "a b.mp3");
    assert_eq!(file_name_str("/"), "");
    assert_eq!(tag_title_or_filename(Some("Song"), "/m/a.mp3"), "Song");
    assert_eq!(tag_title_or_filename(Some(""), "/m/a.mp3"), "a.mp3");
    assert_eq!(tag_title_or_filename(None, "/m/a.mp3"), "a.mp3");
    assert_eq!(selection_title(None, true, "/m/a.mp3"), "reading tags\u{2026}");
    assert_eq!(selection_title(None, false, "/m/dir"), "dir");
    assert_eq!(selection_title(Some("T"), true, "/m/a.mp3"), "T");
}

#[test]
fn mem_source_reads_and_seeks() {
    let mut m = MemSource::new(Arc::new(vec![1u8, 2, 3, 4, 5]));
    assert_eq!(m.byte_len(), 5);
    let mut buf = [0u8; 3];
    assert_eq!(m.read(&mut buf), 3);
    assert_eq!(buf, [1, 2, 3]);
    assert_eq!(m.read(&mut buf), 2);
    assert_eq!(buf, [4, 5, 3]);
    assert_eq!(m.read(&mut buf), 0);
    assert_eq!(m.seek(SeekPos::End(-2)), Ok(3));
    assert_eq!(m.read(&mut buf), 2);
    assert_eq!(buf, [4, 5, 3]);
    assert_eq!(m.seek(SeekPos::Current(-10)), Err(SeekError::BeforeStart));
    assert_eq!(m.seek(SeekPos::Start(100)), Ok(100));
    // A read past the end leaves the position at the end.
    assert_eq!(m.read(&mut buf), 0);
    assert_eq!(m.seek(SeekPos::Current(-99)), Err(SeekError::BeforeStart));
    assert_eq!(m.seek(SeekPos::Current(-4)), Ok(1));
    assert_eq!(m.read(&mut buf), 3);
    assert_eq!(buf, [2, 3, 4]);
}

#[test]
fn track_numbers() {
    assert_eq!(counted(Some(3), Some(12)), "3/12");
    assert_eq!(counted(Some(7), None), "7");
    assert_eq!(counted(None, Some(12)), "");
    assert_eq!(counted(None, None), "");
}
