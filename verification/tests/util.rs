use muse::text::trim_pieces_left;
use muse::util::{fmt_size, fmt_time, fmt_time_precise, fuzzy_score, noise};

#[test]
fn time_formats() {
    assert_eq!(fmt_time(0), "0:00");
    assert_eq!(fmt_time(59), "0:59");
    assert_eq!(fmt_time(61), "1:01");
    assert_eq!(fmt_time(3600), "60:00");
    assert_eq!(fmt_time_precise(61, 5), "1:01.005");
    assert_eq!(fmt_time_precise(0, 1000), "0:00.999");
    assert_eq!(fmt_time_precise(125, 999), "2:05.999");
}

fn float_size(bytes: u64) -> String {
    const UNITS: [&str; 5] = ["B", "KB", "MB", "GB", "TB"];
    if bytes < 1024 {
        return format!("{bytes} B");
    }
    let mut v = bytes as f64;
    let mut u = 0;
    while v >= 1024.0 && u < UNITS.len() - 1 {
        v /= 1024.0;
        u += 1;
    }
    let t = format!("{v:.1}");
    let t = t.strip_suffix(".0").unwrap_or(&t).to_string();
    format!("{t} {}", UNITS[u])
}

#[test]
fn size_formats() {
    assert_eq!(fmt_size(0), "0 B");
    assert_eq!(fmt_size(900), "900 B");
    assert_eq!(fmt_size(1023), "1023 B");
    assert_eq!(fmt_size(1024), "1 KB");
    assert_eq!(fmt_size(512 * 1024), "512 KB");
    assert_eq!(fmt_size(4_404_019), "4.2 MB");
    assert_eq!(fmt_size(1u64 << 40), "1 TB");
    assert_eq!(fmt_size(1u64 << 50), "1024 TB");
}

#[test]
fn size_format_agrees_with_floating_point() {
    let mut samples: Vec<u64> = vec![1024, 1280, 1331, 1945, 10_000, 1_048_575, 1_048_576, 123_456_789, u64::MAX];
    let mut x: u64 = 0x9E37_79B9_7F4A_7C15;
    for _ in 0..2000 {
        x ^= x << 13;
        x ^= x >> 7;
        x ^= x << 17;
        samples.push(x >> (x % 60));
    }
    for k in 0..64 {
        samples.push(1u64 << k);
        samples.push((1u64 << k).wrapping_add(1));
        samples.push((1u64 << k).wrapping_sub(1));
    }
    for b in samples {
        assert_eq!(fmt_size(b), float_size(b), "bytes = {b}");
    }
}

#[test]
fn fuzzy_scores() {
    assert_eq!(fuzzy_score("", "anything"), Some(0));
    assert_eq!(fuzzy_score("abc", "abc"), Some(2));
    assert_eq!(fuzzy_score("ABC", "xaxbxc"), Some(5));
    assert_eq!(fuzzy_score("ac", "abc"), Some(2));
    assert_eq!(fuzzy_score("cab", "abc"), None);
    assert_eq!(fuzzy_score("a", ""), None);
    // earlier, tighter matches score lower
    assert!(fuzzy_score("ab", "ab---").unwrap() < fuzzy_score("ab", "--a-b").unwrap());
}

#[test]
fn noise_values() {
    assert_eq!(noise(0, 0), 0);
    assert_eq!(noise(1, 2), 3792824159);
    assert_eq!(noise(123456, 789), 2397089131);
    assert_eq!(noise(u32::MAX, u32::MAX), 731167729);
}

#[test]
fn row_pieces_cut_from_the_left() {
    let pieces: Vec<String> = vec!["  ".to_string(), "\u{25b8} ".to_string(), "Album".to_string()];
    assert_eq!(
        trim_pieces_left(&pieces, 0),
        vec![(0, "  ".to_string()), (1, "\u{25b8} ".to_string()), (2, "Album".to_string())]
    );
    assert_eq!(trim_pieces_left(&pieces, 3), vec![(1, " ".to_string()), (2, "Album".to_string())]);
    assert_eq!(trim_pieces_left(&pieces, 4), vec![(2, "Album".to_string())]);
    assert_eq!(trim_pieces_left(&pieces, 6), vec![(2, "bum".to_string())]);
    assert_eq!(trim_pieces_left(&pieces, 50), Vec::<(usize, String)>::new());
}

#[test]
fn fuzzy_longer_needle_scores_higher_or_fails() {
    let h = "abcabc";
    let s = fuzzy_score("ab", h).unwrap();
    assert_eq!(s, 1);
    assert_eq!(fuzzy_score("abc", h), Some(2));
    assert_eq!(fuzzy_score("abb", h), Some(4));
    assert_eq!(fuzzy_score("abz", h), None);
}

#[test]
fn fuzzy_score_ignores_appended_text() {
    assert_eq!(fuzzy_score("ac", "xaxc"), Some(3));
    assert_eq!(fuzzy_score("ac", "xaxcac"), Some(3));
    assert_eq!(fuzzy_score("", "abc"), fuzzy_score("", "abcdef"));
}

#[test]
fn noise_separates_seeds() {
    let mut seen = std::collections::HashSet::new();
    for a in 0..2000u32 {
        assert!(seen.insert(noise(a, 7)));
    }
    let mut seen = std::collections::HashSet::new();
    for b in 0..2000u32 {
        assert!(seen.insert(noise(u32::MAX - 3, b)));
    }
}
