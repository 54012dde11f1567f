//! Media-type seam: which paths the library treats as playable media or as
//! playlists. Audio is the only provider; tag reading lives with the I/O code.
use vstd::prelude::*;
use crate::path::{extension, extension_of, file_name, file_name_of};
use crate::text::{chars_of, lower_seq, push_char, string_of, to_lower_vec, vec_eq};
use crate::util::{dec_of, push_dec};

verus! {

/// File extensions (lower-case) of the audio formats the player decodes.
pub open spec fn audio_exts() -> Seq<Seq<char>> {
    seq![
        "mp3"@, "flac"@, "wav"@, "ogg"@, "oga"@, "opus"@, "m4a"@, "aac"@, "aiff"@, "aif"@,
        "alac"@, "wv"@,
    ]
}

/// Whether a path names a supported audio file: its extension, lower-cased,
/// is one of `audio_exts`.
pub open spec fn is_audio_path(p: Seq<char>) -> bool {
    match extension_of(p) {
        Some(e) => audio_exts().contains(lower_seq(e)),
        None => false,
    }
}

/// Whether a path names a playlist (`m3u` / `m3u8`, any case).
pub open spec fn is_playlist_path(p: Seq<char>) -> bool {
    match extension_of(p) {
        Some(e) => lower_seq(e) == "m3u"@ || lower_seq(e) == "m3u8"@,
        None => false,
    }
}

/// Whether `e` equals the characters of the literal `lit`.
fn eq_lit(e: &Vec<char>, lit: &str) -> (r: bool)
    ensures
        r == (e@ == lit@),
{
    let l = chars_of(lit);
    vec_eq(e, &l)
}

/// Whether the lower-case extension `e` is an audio extension.
fn is_audio_ext(e: &Vec<char>) -> (r: bool)
    ensures
        r == audio_exts().contains(e@),
{
    let r = eq_lit(e, "mp3") || eq_lit(e, "flac") || eq_lit(e, "wav") || eq_lit(e, "ogg")
        || eq_lit(e, "oga") || eq_lit(e, "opus") || eq_lit(e, "m4a") || eq_lit(e, "aac")
        || eq_lit(e, "aiff") || eq_lit(e, "aif") || eq_lit(e, "alac") || eq_lit(e, "wv");
    proof {
        let x = audio_exts();
        if r {
            if e@ == "mp3"@ { assert(x[0] == e@); }
            if e@ == "flac"@ { assert(x[1] == e@); }
            if e@ == "wav"@ { assert(x[2] == e@); }
            if e@ == "ogg"@ { assert(x[3] == e@); }
            if e@ == "oga"@ { assert(x[4] == e@); }
            if e@ == "opus"@ { assert(x[5] == e@); }
            if e@ == "m4a"@ { assert(x[6] == e@); }
            if e@ == "aac"@ { assert(x[7] == e@); }
            if e@ == "aiff"@ { assert(x[8] == e@); }
            if e@ == "aif"@ { assert(x[9] == e@); }
            if e@ == "alac"@ { assert(x[10] == e@); }
            if e@ == "wv"@ { assert(x[11] == e@); }
        } else {
            assert(!x.contains(e@)) by {
                if x.contains(e@) {
                    let i = choose|i: int| 0 <= i < x.len() && x[i] == e@;
                    assert(0 <= i < 12);
                }
            }
        }
    }
    r
}

/// The audio provider: supports the extensions in `audio_exts`.
pub struct AudioProvider;

impl AudioProvider {
    /// The provider's identifier.
    pub fn id(&self) -> (r: &'static str)
        ensures
            r@ == "audio"@,
    {
        "audio"
    }

    /// Whether this provider handles `path` (see `is_audio_path`).
    pub fn supports(&self, path: &str) -> (r: bool)
        ensures
            r == is_audio_path(path@),
    {
        let p = chars_of(path);
        match extension(&p) {
            Some(e) => {
                let l = to_lower_vec(&e);
                is_audio_ext(&l)
            },
            None => false,
        }
    }

    /// Audio can be played.
    pub fn is_playable(&self) -> (r: bool)
        ensures
            r,
    {
        true
    }
}

/// The provider registry. The audio provider is the only registered one.
pub struct Registry {
    audio: AudioProvider,
}

impl Registry {
    pub fn new() -> (r: Self) {
        Registry { audio: AudioProvider }
    }

    /// The provider that supports `path`, if any.
    pub fn for_path(&self, path: &str) -> (r: Option<&AudioProvider>)
        ensures
            r is Some == is_audio_path(path@),
    {
        if self.audio.supports(path) {
            Some(&self.audio)
        } else {
            None
        }
    }

    /// Whether some provider supports `path`.
    pub fn is_supported(&self, path: &str) -> (r: bool)
        ensures
            r == is_audio_path(path@),
    {
        self.for_path(path).is_some()
    }

    /// A playlist file (m3u/m3u8): shown in the tree and loadable, but not
    /// itself decodable media.
    pub fn is_playlist(&self, path: &str) -> (r: bool)
        ensures
            r == is_playlist_path(path@),
    {
        let p = chars_of(path);
        match extension(&p) {
            Some(e) => {
                let l = to_lower_vec(&e);
                eq_lit(&l, "m3u") || eq_lit(&l, "m3u8")
            },
            None => false,
        }
    }

    /// Whether the tree should show this path: playable media or a playlist.
    pub fn is_visible(&self, path: &str) -> (r: bool)
        ensures
            r == (is_audio_path(path@) || is_playlist_path(path@)),
    {
        self.is_supported(path) || self.is_playlist(path)
    }
}

/// Pushes `(key, value)` only when `value` is non-empty, so absent tags don't
/// render as blank rows.
pub fn add_field(fields: &mut Vec<(String, String)>, key: &str, value: String)
    ensures
        value@.len() == 0 ==> final(fields)@ == old(fields)@,
        value@.len() > 0 ==> final(fields)@.len() == old(fields)@.len() + 1
            && final(fields)@.take(old(fields)@.len() as int) == old(fields)@
            && final(fields)@.last().0@ == key@
            && final(fields)@.last().1@ == value@,
{
    if !value.as_str().is_empty() {
        fields.push((key.to_owned(), value));
        assert(fields@.take(old(fields)@.len() as int) =~= old(fields)@);
    }
}

/// A path's final component, or nothing when it has none.
pub open spec fn file_name_text(p: Seq<char>) -> Seq<char> {
    match file_name_of(p) {
        Some(n) => n,
        None => seq![],
    }
}

/// A path's final component as a `String` (empty if it has none).
pub fn file_name_str(p: &str) -> (r: String)
    ensures
        r@ == file_name_text(p@),
{
    let c = chars_of(p);
    match file_name(&c) {
        Some(n) => string_of(&n),
        None => String::new(),
    }
}

/// The now-playing title row: the tag title when present and non-empty, else
/// the file name.
pub open spec fn title_of(title: Option<Seq<char>>, p: Seq<char>) -> Seq<char> {
    match title {
        Some(t) => if t.len() > 0 {
            t
        } else {
            file_name_text(p)
        },
        None => file_name_text(p),
    }
}

pub fn tag_title_or_filename(title: Option<&str>, p: &str) -> (r: String)
    ensures
        r@ == title_of(match title { Some(t) => Some(t@), None => None }, p@),
{
    match title {
        Some(t) => if !t.is_empty() {
            t.to_owned()
        } else {
            file_name_str(p)
        },
        None => file_name_str(p),
    }
}

/// The selection title row: the tag title when tags are loaded and it is
/// non-empty; a "reading tags" note while a playable file's tags load; else
/// the file name. `title` is `None` while no tags are cached.
pub open spec fn selection_title_of(title: Option<Seq<char>>, supported: bool, p: Seq<char>) -> Seq<char> {
    match title {
        Some(t) => if t.len() > 0 {
            t
        } else {
            file_name_text(p)
        },
        None => if supported {
            "reading tags\u{2026}"@
        } else {
            file_name_text(p)
        },
    }
}

pub fn selection_title(title: Option<&str>, supported: bool, p: &str) -> (r: String)
    ensures
        r@ == selection_title_of(match title { Some(t) => Some(t@), None => None }, supported, p@),
{
    match title {
        Some(t) => if !t.is_empty() {
            t.to_owned()
        } else {
            file_name_str(p)
        },
        None => if supported {
            "reading tags\u{2026}".to_owned()
        } else {
            file_name_str(p)
        },
    }
}

/// A track or disc number as shown in the tag panel: `n/total`, `n`, or
/// nothing without a number.
pub open spec fn counted_of(n: Option<u32>, total: Option<u32>) -> Seq<char> {
    match (n, total) {
        (Some(n), Some(t)) => dec_of(n as nat) + seq!['/'] + dec_of(t as nat),
        (Some(n), None) => dec_of(n as nat),
        _ => seq![],
    }
}

pub fn counted(n: Option<u32>, total: Option<u32>) -> (r: String)
    ensures
        r@ == counted_of(n, total),
{
    let mut out = String::new();
    match n {
        Some(n) => {
            push_dec(&mut out, n as u128);
            match total {
                Some(t) => {
                    push_char(&mut out, '/');
                    push_dec(&mut out, t as u128);
                },
                None => {},
            }
        },
        None => {},
    }
    out
}

} // verus!
