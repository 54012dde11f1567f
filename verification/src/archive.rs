//! In-memory archive VFS: which paths are archive containers, how an entry of
//! an archive is addressed by a *virtual path* `<archive-on-disk>/<inner>`,
//! and the bounded in-memory store of archive listings and decompressed
//! entries. Opening and decompressing the containers is done by the caller,
//! which hands the raw listing or the entry bytes to this module.
use std::sync::Arc;
use vstd::prelude::*;
use crate::media::is_audio_path;
use crate::path::{slice_vec, file_name, file_name_of, trim_start_seps, trim_right_of, trim_left_of, lemma_trim_right_prefix, trim_right_len, trim_left_start};
use crate::text::{
    chars_of, ends_with_str, find_last, last_index_of, lemma_last_index_of_bounds, lower_seq,
    replace_char, replace_vec, seq_ends_with, seq_starts_with, string_of, string_of_range,
    to_lower_vec,
};

verus! {

/// Decompressed entry bytes kept in memory at most (beyond the newest entry).
pub const ARCHIVE_BYTES_CAP: usize = 256 * 1024 * 1024;

/// Container formats, recognised by file-name suffix.
#[derive(Clone, Copy, PartialEq, Eq, Structural, Debug)]
pub enum Kind {
    Zip,
    Tar,
    TarGz,
    TarBz2,
    SevenZ,
}

/// The container kind named by a lower-case file name.
pub open spec fn kind_of_lower_name(n: Seq<char>) -> Option<Kind> {
    if seq_ends_with(n, ".tar.gz"@) || seq_ends_with(n, ".tgz"@) {
        Some(Kind::TarGz)
    } else if seq_ends_with(n, ".tar.bz2"@) || seq_ends_with(n, ".tbz2"@) || seq_ends_with(n, ".tbz"@) {
        Some(Kind::TarBz2)
    } else if seq_ends_with(n, ".tar"@) {
        Some(Kind::Tar)
    } else if seq_ends_with(n, ".zip"@) {
        Some(Kind::Zip)
    } else if seq_ends_with(n, ".7z"@) {
        Some(Kind::SevenZ)
    } else {
        None
    }
}

/// The container kind of a path: from its file name, ASCII case-insensitively.
pub open spec fn kind_of_path(p: Seq<char>) -> Option<Kind> {
    match file_name_of(p) {
        Some(n) => kind_of_lower_name(lower_seq(n)),
        None => None,
    }
}

/// The container kind of `path`, if its file name names an archive.
pub fn kind_of(path: &str) -> (r: Option<Kind>)
    ensures
        r == kind_of_path(path@),
{
    let p = chars_of(path);
    kind_of_chars(&p)
}

fn kind_of_chars(p: &Vec<char>) -> (r: Option<Kind>)
    ensures
        r == kind_of_path(p@),
{
    let name = match file_name(p) {
        Some(n) => n,
        None => return None,
    };
    let n = to_lower_vec(&name);
    if ends_with_str(&n, ".tar.gz") || ends_with_str(&n, ".tgz") {
        Some(Kind::TarGz)
    } else if ends_with_str(&n, ".tar.bz2") || ends_with_str(&n, ".tbz2") || ends_with_str(&n, ".tbz") {
        Some(Kind::TarBz2)
    } else if ends_with_str(&n, ".tar") {
        Some(Kind::Tar)
    } else if ends_with_str(&n, ".zip") {
        Some(Kind::Zip)
    } else if ends_with_str(&n, ".7z") {
        Some(Kind::SevenZ)
    } else {
        None
    }
}

/// Whether `path` names an archive container (by extension).
pub fn is_archive(path: &str) -> (r: bool)
    ensures
        r == (kind_of_path(path@) is Some),
{
    kind_of(path).is_some()
}

/// `s` without its leading `./` pairs.
pub open spec fn trim_dot_slash(s: Seq<char>) -> Seq<char>
    decreases s.len(),
{
    if seq_starts_with(s, seq!['.', '/']) {
        trim_dot_slash(s.subrange(2, s.len() as int))
    } else {
        s
    }
}

proof fn lemma_trim_dot_slash_step(s: Seq<char>, i: int)
    requires
        0 <= i,
        i + 2 <= s.len(),
        s[i] == '.',
        s[i + 1] == '/',
    ensures
        trim_dot_slash(s.subrange(i, s.len() as int)) == trim_dot_slash(s.subrange(i + 2, s.len() as int)),
{
    let cur = s.subrange(i, s.len() as int);
    assert(cur.subrange(0, 2) =~= seq!['.', '/']);
    assert(cur.subrange(2, cur.len() as int) =~= s.subrange(i + 2, s.len() as int));
}

proof fn lemma_trim_dot_slash_stop(s: Seq<char>, i: int)
    requires
        0 <= i <= s.len(),
        !(i < s.len() && s.len() - i >= 2 && s[i] == '.' && s[i + 1] == '/'),
    ensures
        trim_dot_slash(s.subrange(i, s.len() as int)) == s.subrange(i, s.len() as int),
{
    let cur = s.subrange(i, s.len() as int);
    if seq_starts_with(cur, seq!['.', '/']) {
        assert(cur.subrange(0, 2)[0] == cur[0]);
        assert(cur.subrange(0, 2)[1] == cur[1]);
    }
}

/// An archive entry name in inner-path form: backslashes become `/`, then
/// leading `./` pairs and then leading `/` are removed.
pub open spec fn norm_inner_of(name: Seq<char>) -> Seq<char> {
    trim_start_seps(trim_dot_slash(replace_char(name, '\\', '/')))
}

/// Normalizes an archive entry name to the inner-path form (see `norm_inner_of`).
pub fn norm_inner(name: &str) -> (r: String)
    ensures
        r@ == norm_inner_of(name@),
{
    let raw = chars_of(name);
    let s = replace_vec(&raw, '\\', '/');
    let mut i: usize = 0;
    assert(s@.subrange(0, s@.len() as int) =~= s@);
    while i < s.len() && s.len() - i >= 2 && s[i] == '.' && s[i + 1] == '/'
        invariant
            i <= s.len(),
            trim_dot_slash(s@.subrange(i as int, s@.len() as int)) == trim_dot_slash(s@),
        decreases s.len() - i,
    {
        proof { lemma_trim_dot_slash_step(s@, i as int); }
        i += 2;
    }
    let ghost cur = s@.subrange(i as int, s@.len() as int);
    proof { lemma_trim_dot_slash_stop(s@, i as int); }
    assert(trim_dot_slash(cur) == cur);
    while i < s.len() && s[i] == '/'
        invariant
            i <= s.len(),
            trim_start_seps(s@.subrange(i as int, s@.len() as int)) == norm_inner_of(name@),
        decreases s.len() - i,
    {
        assert(s@.subrange(i as int, s@.len() as int).drop_first() =~= s@.subrange(i + 1, s@.len() as int));
        i += 1;
    }
    string_of_range(&s, i, s.len())
}

/// The proper ancestors of `p[..end]` (deepest first), as `Path::parent`
/// gives them: cut before the last separator, then trailing separators and
/// `.` segments dropped; stopping before the empty path and the root.
pub open spec fn ancestors_from(p: Seq<char>, end: int) -> Seq<Seq<char>>
    decreases end,
{
    if end <= 0 || end > p.len() {
        seq![]
    } else {
        let i = last_index_of(p.take(end), '/');
        if i <= 0 {
            seq![]
        } else {
            proof {
                lemma_last_index_of_bounds(p.take(end), '/');
                lemma_trim_right_prefix(p.take(i));
            }
            let a = trim_right_of(p.take(i));
            if a.len() == 0 || a == seq!['/'] {
                seq![]
            } else {
                seq![a] + ancestors_from(p, a.len() as int)
            }
        }
    }
}

/// The proper ancestors of path `p` (deepest first); see `ancestors_from`.
pub open spec fn proper_ancestors(p: Seq<char>) -> Seq<Seq<char>> {
    ancestors_from(trim_right_of(p), trim_right_of(p).len() as int)
}

/// The resolution of a virtual path, searching the ancestors of `p[..end]`
/// from the `j`-th on; `is_file[k]` tells whether the `k`-th proper ancestor
/// is an existing file on disk. The inner entry is the rest of the path after
/// the archive, leading separators and `.` segments dropped.
pub open spec fn split_from(p: Seq<char>, is_file: Seq<bool>, end: int, j: int) -> Option<(Seq<char>, Seq<char>)>
    decreases end,
{
    if end <= 0 || end > p.len() {
        None
    } else {
        let i = last_index_of(p.take(end), '/');
        if i <= 0 {
            None
        } else {
            proof {
                lemma_last_index_of_bounds(p.take(end), '/');
                lemma_trim_right_prefix(p.take(i));
            }
            let anc = trim_right_of(p.take(i));
            if anc.len() == 0 || anc == seq!['/'] {
                None
            } else if kind_of_path(anc) is Some && 0 <= j < is_file.len() && is_file[j] {
                let inner = replace_char(trim_left_of(p.subrange(anc.len() as int, p.len() as int)), '\\', '/');
                if inner.len() == 0 {
                    None
                } else {
                    Some((anc, inner))
                }
            } else {
                split_from(p, is_file, anc.len() as int, j + 1)
            }
        }
    }
}

/// `(archive-on-disk, inner-entry)` for a virtual path: the deepest proper
/// ancestor that is archive-named and an existing file, and the rest of the path.
pub open spec fn split_virtual_of(p: Seq<char>, is_file: Seq<bool>) -> Option<(Seq<char>, Seq<char>)> {
    split_from(trim_right_of(p), is_file, trim_right_of(p).len() as int, 0)
}

/// The proper ancestors of `path`, deepest first (see `proper_ancestors`).
/// The caller reports for each whether it is an existing file, in the same
/// order, to `split_virtual`.
pub fn ancestors(path: &str) -> (r: Vec<String>)
    ensures
        r@.len() == proper_ancestors(path@).len(),
        forall|k: int| 0 <= k < r@.len() ==> #[trigger] r@[k]@ == proper_ancestors(path@)[k],
{
    let p0 = chars_of(path);
    let e = trim_right_len(&p0, p0.len());
    assert(p0@.take(p0@.len() as int) =~= p0@);
    let ghost t = trim_right_of(p0@);
    let mut out: Vec<String> = Vec::new();
    let mut end = e;
    assert(t.take(e as int) =~= t);
    loop
        invariant
            end <= e <= p0.len(),
            t == p0@.take(e as int),
            forall|k: int| 0 <= k < out@.len() ==> #[trigger] out@[k]@ == proper_ancestors(path@)[k],
            proper_ancestors(path@) == out@.map_values(|s: String| s@) + ancestors_from(t, end as int),
        decreases end,
    {
        let ghost old_out = out@;
        assert(t.take(end as int) =~= p0@.take(end as int));
        match find_last(&p0, end, '/') {
            Some(i) => {
                if i == 0 {
                    assert(ancestors_from(t, end as int) == Seq::<Seq<char>>::empty());
                    assert(out@.map_values(|s: String| s@) + ancestors_from(t, end as int) =~= out@.map_values(|s: String| s@));
                    return out;
                }
                let a = trim_right_len(&p0, i);
                proof {
                    assert(t.take(i as int) =~= p0@.take(i as int));
                    lemma_trim_right_prefix(p0@.take(i as int));
                    assert(t.take(a as int) =~= p0@.take(a as int));
                }
                if a == 0 || (a == 1 && p0[0] == '/') {
                    proof {
                        if a == 1 {
                            assert(t.take(a as int)[0] == p0@[0]);
                            assert(t.take(a as int) =~= seq!['/']);
                        }
                    }
                    assert(ancestors_from(t, end as int) == Seq::<Seq<char>>::empty());
                    assert(out@.map_values(|s: String| s@) + ancestors_from(t, end as int) =~= out@.map_values(|s: String| s@));
                    return out;
                }
                assert(t.take(a as int) != seq!['/']) by {
                    if a == 1 {
                        assert(t.take(a as int)[0] == p0@[0]);
                    } else {
                        assert(t.take(a as int).len() != seq!['/'].len());
                    }
                }
                let s = string_of_range(&p0, 0, a);
                assert(s@ =~= t.take(a as int));
                out.push(s);
                proof {
                    assert(ancestors_from(t, end as int) == seq![t.take(a as int)] + ancestors_from(t, a as int));
                    assert(out@.map_values(|s: String| s@) =~= old_out.map_values(|s: String| s@).push(t.take(a as int)));
                    assert(out@.map_values(|s: String| s@) + ancestors_from(t, a as int) =~= old_out.map_values(|s: String| s@) + ancestors_from(t, end as int));
                    assert forall|k: int| 0 <= k < out@.len() implies #[trigger] out@[k]@ == proper_ancestors(path@)[k] by {
                        if k < old_out.len() {
                            assert(out@[k] == old_out[k]);
                        } else {
                            assert(proper_ancestors(path@)[k] == (out@.map_values(|s: String| s@) + ancestors_from(t, a as int))[k]);
                        }
                    }
                }
                end = a;
            },
            None => {
                assert(out@.map_values(|s: String| s@) + ancestors_from(t, end as int) =~= out@.map_values(|s: String| s@));
                return out;
            },
        }
    }
}

/// Resolves a virtual path into `(archive-on-disk, inner-entry)`, or `None`
/// for a plain disk file or an archive container itself. `is_file[k]` says
/// whether the `k`-th of `ancestors(path)` is an existing file; missing flags
/// count as `false`. Nested archives are not supported.
pub fn split_virtual(path: &str, is_file: &Vec<bool>) -> (r: Option<(String, String)>)
    ensures
        match r {
            Some((a, i)) => split_virtual_of(path@, is_file@) == Some((a@, i@)),
            None => split_virtual_of(path@, is_file@) is None,
        },
{
    let p0 = chars_of(path);
    let e = trim_right_len(&p0, p0.len());
    assert(p0@.take(p0@.len() as int) =~= p0@);
    let ghost t = trim_right_of(p0@);
    let mut end = e;
    let mut j: usize = 0;
    assert(t.take(e as int) =~= t);
    loop
        invariant
            end <= e <= p0.len(),
            j + end <= e,
            t == p0@.take(e as int),
            split_virtual_of(path@, is_file@) == split_from(t, is_file@, end as int, j as int),
        decreases end,
    {
        assert(t.take(end as int) =~= p0@.take(end as int));
        let i = match find_last(&p0, end, '/') {
            Some(i) => i,
            None => return None,
        };
        if i == 0 {
            return None;
        }
        let a = trim_right_len(&p0, i);
        proof {
            assert(t.take(i as int) =~= p0@.take(i as int));
            lemma_trim_right_prefix(p0@.take(i as int));
            assert(t.take(a as int) =~= p0@.take(a as int));
        }
        if a == 0 || (a == 1 && p0[0] == '/') {
            proof {
                if a == 1 {
                    assert(t.take(a as int)[0] == p0@[0]);
                    assert(t.take(a as int) =~= seq!['/']);
                }
            }
            return None;
        }
        assert(t.take(a as int) != seq!['/']) by {
            if a == 1 {
                assert(t.take(a as int)[0] == p0@[0]);
            } else {
                assert(t.take(a as int).len() != seq!['/'].len());
            }
        }
        let anc = string_of_range(&p0, 0, a);
        assert(anc@ =~= t.take(a as int));
        let file = j < is_file.len() && is_file[j];
        if file && is_archive(anc.as_str()) {
            let k = trim_left_start(&p0, a, e);
            assert(t.subrange(a as int, t.len() as int) =~= p0@.subrange(a as int, e as int));
            let rest = slice_vec(&p0, k, e);
            let inner_chars = replace_vec(&rest, '\\', '/');
            if inner_chars.len() == 0 {
                return None;
            }
            let inner = string_of(&inner_chars);
            return Some((anc, inner));
        }
        end = a;
        j += 1;
    }
}


/// One file inside an archive.
pub struct ArchiveEntry {
    /// Inner path within the archive, '/'-separated (e.g. `disc1/01 - Track.flac`).
    pub inner: String,
    /// Uncompressed size in bytes (0 if the format doesn't report it).
    pub size: u64,
}

impl View for ArchiveEntry {
    type V = (Seq<char>, u64);

    open spec fn view(&self) -> (Seq<char>, u64) {
        (self.inner@, self.size)
    }
}

/// One member of a container as its format lists it, before filtering.
pub struct RawEntry {
    /// The member's name as stored in the container.
    pub name: String,
    /// Uncompressed size in bytes (0 if unknown).
    pub size: u64,
    /// Whether the member is a regular file with data (not a directory).
    pub is_file: bool,
}

/// The views of a sequence of entries.
pub open spec fn entries_view(es: Seq<ArchiveEntry>) -> Seq<(Seq<char>, u64)> {
    es.map_values(|e: ArchiveEntry| e@)
}

/// The listing of a container: its file members, in order, with normalized names.
pub open spec fn entries_of_raw(raw: Seq<RawEntry>) -> Seq<(Seq<char>, u64)>
    decreases raw.len(),
{
    if raw.len() == 0 {
        seq![]
    } else {
        let rest = entries_of_raw(raw.drop_last());
        let r = raw.last();
        if r.is_file {
            rest.push((norm_inner_of(r.name@), r.size))
        } else {
            rest
        }
    }
}

/// The audio entries of a listing, in order.
pub open spec fn audio_entries(es: Seq<(Seq<char>, u64)>) -> Seq<(Seq<char>, u64)>
    decreases es.len(),
{
    if es.len() == 0 {
        seq![]
    } else {
        let rest = audio_entries(es.drop_last());
        if is_audio_path(es.last().0) {
            rest.push(es.last())
        } else {
            rest
        }
    }
}

/// The entries of a raw container listing: file members only, names normalized.
pub fn index_from_raw(raw: &Vec<RawEntry>) -> (out: Vec<ArchiveEntry>)
    ensures
        entries_view(out@) == entries_of_raw(raw@),
{
    let mut out: Vec<ArchiveEntry> = Vec::new();
    let mut i: usize = 0;
    while i < raw.len()
        invariant
            i <= raw.len(),
            entries_view(out@) == entries_of_raw(raw@.take(i as int)),
        decreases raw.len() - i,
    {
        let ghost before = out@;
        assert(raw@.take(i + 1).drop_last() =~= raw@.take(i as int));
        if raw[i].is_file {
            let e = ArchiveEntry { inner: norm_inner(raw[i].name.as_str()), size: raw[i].size };
            out.push(e);
            assert(entries_view(out@) =~= entries_view(before).push(e@));
        }
        i += 1;
    }
    assert(raw@.take(raw@.len() as int) =~= raw@);
    out
}

/// The audio entries of `es`, in order.
fn keep_audio(es: Vec<ArchiveEntry>) -> (out: Vec<ArchiveEntry>)
    ensures
        entries_view(out@) == audio_entries(entries_view(es@)),
{
    let reg = crate::media::Registry::new();
    let mut out: Vec<ArchiveEntry> = Vec::new();
    let mut rest = es;
    let ghost all = rest@;
    // Walk from the front by reversing ownership order: drain into a stack.
    let mut stack: Vec<ArchiveEntry> = Vec::new();
    while rest.len() > 0
        invariant
            all == rest@ + stack@.reverse(),
        decreases rest.len(),
    {
        let ghost r0 = rest@;
        let ghost s0 = stack@;
        let e = rest.pop().unwrap();
        stack.push(e);
        assert(r0 =~= rest@.push(e));
        assert(stack@.reverse() =~= seq![e] + s0.reverse());
        assert(all =~= rest@ + stack@.reverse());
    }
    assert(all =~= stack@.reverse());
    let ghost n = stack@.len();
    assert(all.subrange(0, n as int) =~= all);
    while stack.len() > 0
        invariant
            stack@.len() <= n,
            stack@.reverse() == all.subrange(n - stack@.len(), n as int),
            all.len() == n,
            entries_view(out@) == audio_entries(entries_view(all.subrange(0, n - stack@.len()))),
        decreases stack.len(),
    {
        let ghost k = n - stack@.len();
        let ghost s0 = stack@;
        let e = stack.pop().unwrap();
        proof {
            assert(s0.reverse()[0] == e);
            assert(all.subrange(k, n as int)[0] == all[k]);
            assert(all[k] == e);
            assert(stack@.reverse() =~= s0.reverse().drop_first());
            assert(stack@.reverse() =~= all.subrange(n - stack@.len(), n as int));
            assert(entries_view(all.subrange(0, k + 1)).drop_last() =~= entries_view(all.subrange(0, k)));
        }
        let ghost before = out@;
        if reg.is_supported(e.inner.as_str()) {
            out.push(e);
            assert(entries_view(out@) =~= entries_view(before).push(all[k]@));
        }
    }
    assert(all.subrange(0, n as int) =~= all);
    out
}


/// One cached decompressed entry, as the store's model sees it:
/// `(archive, inner, bytes)`.
pub type CachedView = (Seq<char>, Seq<char>, Seq<u8>);

/// Total size of the cached bytes.
pub open spec fn total_len(s: Seq<CachedView>) -> nat
    decreases s.len(),
{
    if s.len() == 0 {
        0
    } else {
        total_len(s.drop_last()) + s.last().2.len()
    }
}

/// Oldest-first eviction: drop the oldest entry while the total exceeds the
/// cap and more than one entry remains.
pub open spec fn evict_of(s: Seq<CachedView>) -> Seq<CachedView>
    decreases s.len(),
{
    if total_len(s) <= ARCHIVE_BYTES_CAP || s.len() <= 1 {
        s
    } else {
        evict_of(s.drop_first())
    }
}

/// Index of the first cached entry for `(a, i)`, or -1.
pub open spec fn key_index(s: Seq<CachedView>, a: Seq<char>, i: Seq<char>) -> int
    decreases s.len(),
{
    if s.len() == 0 {
        -1
    } else if s[0].0 == a && s[0].1 == i {
        0
    } else {
        let r = key_index(s.drop_first(), a, i);
        if r < 0 {
            -1
        } else {
            r + 1
        }
    }
}

/// Index of the first listing for archive `a`, or -1.
pub open spec fn listing_index(s: Seq<(Seq<char>, Seq<(Seq<char>, u64)>)>, a: Seq<char>) -> int
    decreases s.len(),
{
    if s.len() == 0 {
        -1
    } else if s[0].0 == a {
        0
    } else {
        let r = listing_index(s.drop_first(), a);
        if r < 0 {
            -1
        } else {
            r + 1
        }
    }
}

/// The cached entries that do not belong to archive `a`, in order.
pub open spec fn without_archive(s: Seq<CachedView>, a: Seq<char>) -> Seq<CachedView>
    decreases s.len(),
{
    if s.len() == 0 {
        seq![]
    } else {
        let rest = without_archive(s.drop_last(), a);
        if s.last().0 == a {
            rest
        } else {
            rest.push(s.last())
        }
    }
}

/// The listings that do not belong to archive `a`, in order.
pub open spec fn without_listing(s: Seq<(Seq<char>, Seq<(Seq<char>, u64)>)>, a: Seq<char>) -> Seq<(Seq<char>, Seq<(Seq<char>, u64)>)>
    decreases s.len(),
{
    if s.len() == 0 {
        seq![]
    } else {
        let rest = without_listing(s.drop_last(), a);
        if s.last().0 == a {
            rest
        } else {
            rest.push(s.last())
        }
    }
}

pub proof fn lemma_key_index(s: Seq<CachedView>, a: Seq<char>, i: Seq<char>, k: int)
    requires
        -1 <= k < s.len(),
        k >= 0 ==> s[k].0 == a && s[k].1 == i,
        forall|j: int| 0 <= j < s.len() && (k < 0 || j < k) ==> !(#[trigger] s[j].0 == a && s[j].1 == i),
    ensures
        key_index(s, a, i) == k,
    decreases s.len(),
{
    if s.len() > 0 && !(s[0].0 == a && s[0].1 == i) {
        assert forall|j: int| 0 <= j < s.drop_first().len() && (k - 1 < 0 || j < k - 1) implies !(#[trigger] s.drop_first()[j].0 == a && s.drop_first()[j].1 == i) by {
            assert(s.drop_first()[j] == s[j + 1]);
        }
        if k > 0 {
            lemma_key_index(s.drop_first(), a, i, k - 1);
        } else {
            if k == 0 {
                assert(false);
            }
            lemma_key_index(s.drop_first(), a, i, -1);
        }
    } else if s.len() > 0 {
        if k < 0 || k > 0 {
            assert(!(s[0].0 == a && s[0].1 == i));
        }
    }
}

pub proof fn lemma_listing_index(s: Seq<(Seq<char>, Seq<(Seq<char>, u64)>)>, a: Seq<char>, k: int)
    requires
        -1 <= k < s.len(),
        k >= 0 ==> s[k].0 == a,
        forall|j: int| 0 <= j < s.len() && (k < 0 || j < k) ==> #[trigger] s[j].0 != a,
    ensures
        listing_index(s, a) == k,
    decreases s.len(),
{
    if s.len() > 0 && s[0].0 != a {
        assert forall|j: int| 0 <= j < s.drop_first().len() && (k - 1 < 0 || j < k - 1) implies #[trigger] s.drop_first()[j].0 != a by {
            assert(s.drop_first()[j] == s[j + 1]);
        }
        if k > 0 {
            lemma_listing_index(s.drop_first(), a, k - 1);
        } else {
            lemma_listing_index(s.drop_first(), a, -1);
        }
    }
}

pub proof fn lemma_total_len_prefix(s: Seq<CachedView>, n: int)
    requires
        0 <= n <= s.len(),
    ensures
        total_len(s.take(n)) <= total_len(s),
    decreases s.len() - n,
{
    if n < s.len() {
        lemma_total_len_prefix(s, n + 1);
        assert(s.take(n + 1).drop_last() =~= s.take(n));
    } else {
        assert(s.take(n) =~= s);
    }
}

/// Eviction keeps a non-empty suffix of a non-empty cache.
pub proof fn lemma_evict_suffix(s: Seq<CachedView>)
    requires
        s.len() > 0,
    ensures
        exists|n: int| 0 <= n < s.len() && #[trigger] s.skip(n) == evict_of(s),
    decreases s.len(),
{
    if total_len(s) <= ARCHIVE_BYTES_CAP || s.len() <= 1 {
        assert(s.skip(0) =~= s);
    } else {
        lemma_evict_suffix(s.drop_first());
        let n = choose|n: int| 0 <= n < s.drop_first().len() && #[trigger] s.drop_first().skip(n) == evict_of(s.drop_first());
        assert(s.skip(n + 1) =~= s.drop_first().skip(n));
    }
}

/// `Arc::clone`: the contract claims the new handle points to the same value.
#[verifier::external_body]
fn share<T>(a: &Arc<T>) -> (r: Arc<T>)
    ensures
        r == *a,
{
    Arc::clone(a)
}

/// One decompressed entry held in memory.
struct CachedEntry {
    archive: String,
    inner: String,
    data: Arc<Vec<u8>>,
}

/// The in-memory store: audio listings per archive, and decompressed entry
/// bytes in least-recently-used order (oldest first), bounded by
/// `ARCHIVE_BYTES_CAP` beyond the newest entry.
pub struct ArchiveStore {
    index: Vec<(String, Arc<Vec<ArchiveEntry>>)>,
    bytes: Vec<CachedEntry>,
}

impl ArchiveStore {
    /// The cached listings: `(archive, audio entries)`.
    pub closed spec fn listings(&self) -> Seq<(Seq<char>, Seq<(Seq<char>, u64)>)> {
        self.index@.map_values(|e: (String, Arc<Vec<ArchiveEntry>>)| (e.0@, entries_view(e.1@)))
    }

    /// The cached decompressed entries, oldest first.
    pub closed spec fn cached(&self) -> Seq<CachedView> {
        self.bytes@.map_values(|e: CachedEntry| (e.archive@, e.inner@, e.data@))
    }

    /// An empty store.
    pub fn new() -> (r: Self)
        ensures
            r.listings().len() == 0,
            r.cached().len() == 0,
    {
        let r = ArchiveStore { index: Vec::new(), bytes: Vec::new() };
        assert(r.listings() =~= Seq::empty());
        assert(r.cached() =~= Seq::empty());
        r
    }

    fn find_listing(&self, archive: &String) -> (r: Option<usize>)
        ensures
            match r {
                Some(k) => listing_index(self.listings(), archive@) == k as int && k < self.index.len()
                    && self.listings()[k as int].0 == archive@,
                None => listing_index(self.listings(), archive@) == -1,
            },
    {
        let mut k: usize = 0;
        while k < self.index.len()
            invariant
                k <= self.index.len(),
                forall|j: int| 0 <= j < k ==> #[trigger] self.listings()[j].0 != archive@,
            decreases self.index.len() - k,
        {
            if self.index[k].0 == *archive {
                proof { lemma_listing_index(self.listings(), archive@, k as int); }
                return Some(k);
            }
            k += 1;
        }
        proof { lemma_listing_index(self.listings(), archive@, -1); }
        None
    }

    fn find_bytes(&self, archive: &String, inner: &String) -> (r: Option<usize>)
        ensures
            match r {
                Some(k) => key_index(self.cached(), archive@, inner@) == k as int && k < self.bytes.len(),
                None => key_index(self.cached(), archive@, inner@) == -1,
            },
    {
        let mut k: usize = 0;
        while k < self.bytes.len()
            invariant
                k <= self.bytes.len(),
                forall|j: int| 0 <= j < k ==> !(#[trigger] self.cached()[j].0 == archive@ && self.cached()[j].1 == inner@),
            decreases self.bytes.len() - k,
        {
            if self.bytes[k].archive == *archive && self.bytes[k].inner == *inner {
                proof { lemma_key_index(self.cached(), archive@, inner@, k as int); }
                return Some(k);
            }
            k += 1;
        }
        proof { lemma_key_index(self.cached(), archive@, inner@, -1); }
        None
    }

    /// The cached audio listing of `archive`, if it was listed before.
    pub fn cached_index(&self, archive: &str) -> (r: Option<Arc<Vec<ArchiveEntry>>>)
        ensures
            ({
                let k = listing_index(self.listings(), archive@);
                match r {
                    Some(v) => k >= 0 && entries_view(v@) == self.listings()[k].1,
                    None => k == -1,
                }
            }),
    {
        let a = archive.to_owned();
        match self.find_listing(&a) {
            Some(k) => Some(share(&self.index[k].1)),
            None => None,
        }
    }

    /// The audio entries inside `archive`, cached. On a cache miss they are
    /// built from `listing`, the container's raw listing (`None` when it could
    /// not be read, which lists nothing), and cached.
    pub fn list_audio(&mut self, archive: &str, listing: Option<Vec<RawEntry>>) -> (r: Arc<Vec<ArchiveEntry>>)
        ensures
            final(self).cached() == old(self).cached(),
            listing_of(final(self).listings(), archive@) == Some(entries_view(r@)),
            ({
                let k = listing_index(old(self).listings(), archive@);
                if k >= 0 {
                    &&& entries_view(r@) == old(self).listings()[k].1
                    &&& final(self).listings() == old(self).listings()
                } else {
                    let raw = match listing {
                        Some(l) => l@,
                        None => Seq::empty(),
                    };
                    &&& entries_view(r@) == audio_entries(entries_of_raw(raw))
                    &&& final(self).listings() == old(self).listings().push((archive@, entries_view(r@)))
                }
            }),
    {
        let a = archive.to_owned();
        match self.find_listing(&a) {
            Some(k) => {
                let r = share(&self.index[k].1);
                assert(entries_view(r@) == self.listings()[k as int].1);
                r
            },
            None => {
                let raw = match listing {
                    Some(l) => l,
                    None => Vec::new(),
                };
                assert(raw@ == match listing { Some(l) => l@, None => Seq::<RawEntry>::empty() });
                let entries = keep_audio(index_from_raw(&raw));
                let arc = Arc::new(entries);
                let ghost before = self.listings();
                self.index.push((a, share(&arc)));
                assert(self.listings() =~= before.push((archive@, entries_view(arc@))));
                proof {
                    law_listing_read_back(before, archive@, entries_view(arc@), (archive@, entries_view(arc@)));
                }
                arc
            },
        }
    }

    /// The cached bytes of one entry, touching it as most recently used.
    pub fn cached_read(&mut self, archive: &str, inner: &str) -> (r: Option<Arc<Vec<u8>>>)
        ensures
            final(self).listings() == old(self).listings(),
            ({
                let s = old(self).cached();
                let k = key_index(s, archive@, inner@);
                match r {
                    Some(d) => k >= 0 && d@ == s[k].2
                        && final(self).cached() == s.remove(k).push(s[k]),
                    None => k == -1 && final(self).cached() == s,
                }
            }),
    {
        let a = archive.to_owned();
        let i = inner.to_owned();
        match self.find_bytes(&a, &i) {
            Some(k) => {
                let ghost s = self.cached();
                let e = self.bytes.remove(k);
                let d = share(&e.data);
                self.bytes.push(e);
                assert(self.cached() =~= s.remove(k as int).push(s[k as int]));
                Some(d)
            },
            None => None,
        }
    }

    /// Whether the cached bytes exceed the cap.
    fn over_cap(&self) -> (r: bool)
        ensures
            r == (total_len(self.cached()) > ARCHIVE_BYTES_CAP),
    {
        let mut sum: u128 = 0;
        let mut k: usize = 0;
        while k < self.bytes.len()
            invariant
                k <= self.bytes.len(),
                sum == total_len(self.cached().take(k as int)),
                sum <= ARCHIVE_BYTES_CAP,
            decreases self.bytes.len() - k,
        {
            assert(self.cached().take(k + 1).drop_last() =~= self.cached().take(k as int));
            sum = sum + self.bytes[k].data.len() as u128;
            if sum > ARCHIVE_BYTES_CAP as u128 {
                proof { lemma_total_len_prefix(self.cached(), k + 1); }
                return true;
            }
            k += 1;
        }
        assert(self.cached().take(k as int) =~= self.cached());
        false
    }

    /// Completes a read of `(archive, inner)` once the entry was decompressed
    /// (`decompressed`, `None` on error): an entry cached meanwhile wins and is
    /// touched as most recently used; otherwise the new bytes are cached as the most recent entry and the
    /// oldest entries are evicted while the total exceeds the cap.
    pub fn read(&mut self, archive: &str, inner: &str, decompressed: Option<Vec<u8>>) -> (r: Option<Arc<Vec<u8>>>)
        ensures
            final(self).listings() == old(self).listings(),
            ({
                let s = old(self).cached();
                let k = key_index(s, archive@, inner@);
                if k >= 0 {
                    r is Some && r->0@ == s[k].2 && final(self).cached() == s.remove(k).push(s[k])
                } else {
                    match decompressed {
                        None => r is None && final(self).cached() == s,
                        Some(d) => r is Some && r->0@ == d@
                            && final(self).cached() == evict_of(s.push((archive@, inner@, d@))),
                    }
                }
            }),
    {
        if let Some(d) = self.cached_read(archive, inner) {
            return Some(d);
        }
        let a = archive.to_owned();
        let i = inner.to_owned();
        let data = match decompressed {
            Some(d) => d,
            None => return None,
        };
        let arc = Arc::new(data);
        let ghost s = self.cached();
        self.bytes.push(CachedEntry { archive: a, inner: i, data: share(&arc) });
        assert(self.cached() =~= s.push((archive@, inner@, arc@)));
        let ghost target = evict_of(self.cached());
        loop
            invariant
                evict_of(self.cached()) == target,
                self.bytes.len() >= 1,
                self.listings() == old(self).listings(),
            ensures
                self.cached() == target,
                self.listings() == old(self).listings(),
            decreases self.bytes.len(),
        {
            let over = self.over_cap();
            if !over || self.bytes.len() <= 1 {
                break;
            }
            let ghost c = self.cached();
            let _old_entry = self.bytes.remove(0);
            assert(self.cached() =~= c.drop_first());
        }
        Some(arc)
    }

    /// Wipes all cached memory for `archive`: its listing and every
    /// decompressed entry of it.
    pub fn close(&mut self, archive: &str)
        ensures
            final(self).listings() == without_listing(old(self).listings(), archive@),
            final(self).cached() == without_archive(old(self).cached(), archive@),
    {
        let a = archive.to_owned();
        let mut idx: Vec<(String, Arc<Vec<ArchiveEntry>>)> = Vec::new();
        let ghost ls = self.listings();
        let mut k: usize = 0;
        while k < self.index.len()
            invariant
                k <= self.index.len(),
                ls == self.listings(),
                a@ == archive@,
                idx@.map_values(|e: (String, Arc<Vec<ArchiveEntry>>)| (e.0@, entries_view(e.1@)))
                    == without_listing(ls.take(k as int), archive@),
            decreases self.index.len() - k,
        {
            let ghost before = idx@;
            assert(ls.take(k + 1).drop_last() =~= ls.take(k as int));
            assert(ls.take(k + 1).last() == ls[k as int]);
            assert(ls[k as int] == (self.index@[k as int].0@, entries_view(self.index@[k as int].1@)));
            if !(self.index[k].0 == a) {
                let e = (self.index[k].0.clone(), share(&self.index[k].1));
                assert(e.0@ == ls[k as int].0);
                assert(entries_view(e.1@) == ls[k as int].1);
                assert(ls[k as int].0 != archive@);
                assert(without_listing(ls.take(k + 1), archive@) == without_listing(ls.take(k as int), archive@).push(ls[k as int]));
                idx.push(e);
                assert(idx@.map_values(|e: (String, Arc<Vec<ArchiveEntry>>)| (e.0@, entries_view(e.1@)))
                    =~= before.map_values(|e: (String, Arc<Vec<ArchiveEntry>>)| (e.0@, entries_view(e.1@))).push(ls[k as int]));
            }
            else {
                assert(ls[k as int].0 == archive@);
                assert(without_listing(ls.take(k + 1), archive@) == without_listing(ls.take(k as int), archive@));
            }
            k += 1;
        }
        assert(ls.take(ls.len() as int) =~= ls);
        let mut kept: Vec<CachedEntry> = Vec::new();
        let ghost cs = self.cached();
        let mut k: usize = 0;
        while k < self.bytes.len()
            invariant
                k <= self.bytes.len(),
                cs == self.cached(),
                a@ == archive@,
                kept@.map_values(|e: CachedEntry| (e.archive@, e.inner@, e.data@))
                    == without_archive(cs.take(k as int), archive@),
            decreases self.bytes.len() - k,
        {
            let ghost before = kept@;
            assert(cs.take(k + 1).drop_last() =~= cs.take(k as int));
            assert(cs.take(k + 1).last() == cs[k as int]);
            assert(cs[k as int] == (self.bytes@[k as int].archive@, self.bytes@[k as int].inner@, self.bytes@[k as int].data@));
            if !(self.bytes[k].archive == a) {
                let e = CachedEntry {
                    archive: self.bytes[k].archive.clone(),
                    inner: self.bytes[k].inner.clone(),
                    data: share(&self.bytes[k].data),
                };
                kept.push(e);
                assert(kept@.map_values(|e: CachedEntry| (e.archive@, e.inner@, e.data@))
                    =~= before.map_values(|e: CachedEntry| (e.archive@, e.inner@, e.data@)).push(cs[k as int]));
            }
            k += 1;
        }
        assert(cs.take(cs.len() as int) =~= cs);
        self.index = idx;
        self.bytes = kept;
    }
}


proof fn lemma_listing_index_props(s: Seq<(Seq<char>, Seq<(Seq<char>, u64)>)>, a: Seq<char>)
    ensures
        -1 <= listing_index(s, a) < s.len(),
        listing_index(s, a) >= 0 ==> s[listing_index(s, a)].0 == a,
        forall|j: int| 0 <= j < s.len() && (listing_index(s, a) < 0 || j < listing_index(s, a)) ==> #[trigger] s[j].0 != a,
    decreases s.len(),
{
    if s.len() > 0 && s[0].0 != a {
        let t = s.drop_first();
        lemma_listing_index_props(t, a);
        assert forall|j: int| 0 <= j < s.len() && (listing_index(s, a) < 0 || j < listing_index(s, a)) implies #[trigger] s[j].0 != a by {
            if j > 0 {
                assert(s[j] == t[j - 1]);
            }
        }
        if listing_index(s, a) >= 0 {
            assert(s[listing_index(s, a)] == t[listing_index(t, a)]);
        }
    }
}

/// An archive's listing reads back: once `list_audio` has cached it (on a
/// miss it becomes the last entry), listing other archives keeps it where it
/// is, so later calls return it until `close` forgets it.
pub proof fn law_listing_read_back(
    ls: Seq<(Seq<char>, Seq<(Seq<char>, u64)>)>,
    a: Seq<char>,
    v: Seq<(Seq<char>, u64)>,
    e: (Seq<char>, Seq<(Seq<char>, u64)>),
)
    ensures
        listing_index(ls, a) == -1 ==> listing_index(ls.push((a, v)), a) == ls.len()
            && ls.push((a, v))[ls.len() as int].1 == v,
        listing_index(ls, a) >= 0 ==> listing_index(ls.push(e), a) == listing_index(ls, a)
            && ls.push(e)[listing_index(ls, a)] == ls[listing_index(ls, a)],
{
    lemma_listing_index_props(ls, a);
    let k = listing_index(ls, a);
    if k == -1 {
        let t = ls.push((a, v));
        assert forall|j: int| 0 <= j < t.len() && j < ls.len() implies #[trigger] t[j].0 != a by {
            assert(t[j] == ls[j]);
        }
        lemma_listing_index(t, a, ls.len() as int);
    } else {
        let t = ls.push(e);
        assert forall|j: int| 0 <= j < t.len() && j < k implies #[trigger] t[j].0 != a by {
            assert(t[j] == ls[j]);
        }
        assert(t[k] == ls[k]);
        lemma_listing_index(t, a, k);
    }
}

/// The cached listing of archive `a` in `ls`, the one `list_audio` hands back.
pub open spec fn listing_of(ls: Seq<(Seq<char>, Seq<(Seq<char>, u64)>)>, a: Seq<char>) -> Option<Seq<(Seq<char>, u64)>> {
    if listing_index(ls, a) >= 0 {
        Some(ls[listing_index(ls, a)].1)
    } else {
        None
    }
}

proof fn lemma_listing_of_push(ls: Seq<(Seq<char>, Seq<(Seq<char>, u64)>)>, x: (Seq<char>, Seq<(Seq<char>, u64)>), a: Seq<char>)
    ensures
        listing_of(ls.push(x), a) == if listing_of(ls, a) is Some {
            listing_of(ls, a)
        } else if x.0 == a {
            Some(x.1)
        } else {
            None
        },
{
    lemma_listing_index_props(ls, a);
    let t = ls.push(x);
    if listing_index(ls, a) >= 0 {
        law_listing_read_back(ls, a, x.1, x);
    } else if x.0 == a {
        law_listing_read_back(ls, a, x.1, x);
        assert(t == ls.push((a, x.1)));
    } else {
        assert forall|j: int| 0 <= j < t.len() implies #[trigger] t[j].0 != a by {
            if j < ls.len() {
                assert(t[j] == ls[j]);
            }
        }
        lemma_listing_index(t, a, -1);
    }
}

/// Closing one archive keeps every other archive's cached listing as it was.
pub proof fn law_close_keeps_other_listings(ls: Seq<(Seq<char>, Seq<(Seq<char>, u64)>)>, a: Seq<char>, b: Seq<char>)
    requires
        a != b,
    ensures
        listing_of(without_listing(ls, b), a) == listing_of(ls, a),
    decreases ls.len(),
{
    if ls.len() > 0 {
        let s = ls.drop_last();
        let x = ls.last();
        law_close_keeps_other_listings(s, a, b);
        assert(ls == s.push(x));
        lemma_listing_of_push(s, x, a);
        if x.0 != b {
            lemma_listing_of_push(without_listing(s, b), x, a);
        }
    }
}

/// A read that cached freshly decompressed bytes makes them the newest entry:
/// the next lookup of the same entry finds exactly those bytes.
pub proof fn law_read_returns_inserted(s: Seq<CachedView>, a: Seq<char>, i: Seq<char>, d: Seq<u8>)
    requires
        key_index(s, a, i) == -1,
    ensures
        ({
            let n = evict_of(s.push((a, i, d)));
            &&& key_index(n, a, i) == n.len() - 1
            &&& n[n.len() - 1].2 == d
        }),
{
    let t = s.push((a, i, d));
    lemma_evict_suffix(t);
    let m = choose|m: int| 0 <= m < t.len() && #[trigger] t.skip(m) == evict_of(t);
    let n = evict_of(t);
    assert forall|j: int| 0 <= j < s.len() implies !(#[trigger] s[j].0 == a && s[j].1 == i) by {
        if s[j].0 == a && s[j].1 == i {
            lemma_key_index_first(s, a, i, j);
        }
    }
    assert forall|j: int| 0 <= j < n.len() && (n.len() - 1 < 0 || j < n.len() - 1) implies !(#[trigger] n[j].0 == a && n[j].1 == i) by {
        assert(n[j] == t[m + j]);
        assert(t[m + j] == s[m + j]);
    }
    assert(n[n.len() - 1] == t[t.len() - 1]);
    lemma_key_index(n, a, i, n.len() - 1);
}

proof fn lemma_key_index_first(s: Seq<CachedView>, a: Seq<char>, i: Seq<char>, j: int)
    requires
        0 <= j < s.len(),
        s[j].0 == a && s[j].1 == i,
    ensures
        key_index(s, a, i) >= 0,
    decreases j,
{
    if j > 0 && !(s[0].0 == a && s[0].1 == i) {
        assert(s.drop_first()[j - 1] == s[j]);
        lemma_key_index_first(s.drop_first(), a, i, j - 1);
    }
}

/// The cache stays within its cap after every insertion, unless only the
/// newest entry is left.
pub proof fn law_cache_bounded(s: Seq<CachedView>)
    ensures
        total_len(evict_of(s)) <= ARCHIVE_BYTES_CAP || evict_of(s).len() <= 1,
    decreases s.len(),
{
    if !(total_len(s) <= ARCHIVE_BYTES_CAP || s.len() <= 1) {
        law_cache_bounded(s.drop_first());
    }
}

proof fn lemma_without_archive_contains(s: Seq<CachedView>, a: Seq<char>, j: int)
    requires
        0 <= j < without_archive(s, a).len(),
    ensures
        without_archive(s, a)[j].0 != a,
    decreases s.len(),
{
    let rest = without_archive(s.drop_last(), a);
    if s.last().0 == a {
        lemma_without_archive_contains(s.drop_last(), a, j);
    } else if j < rest.len() {
        lemma_without_archive_contains(s.drop_last(), a, j);
    }
}

proof fn lemma_without_listing_contains(s: Seq<(Seq<char>, Seq<(Seq<char>, u64)>)>, a: Seq<char>, j: int)
    requires
        0 <= j < without_listing(s, a).len(),
    ensures
        without_listing(s, a)[j].0 != a,
    decreases s.len(),
{
    let rest = without_listing(s.drop_last(), a);
    if s.last().0 == a {
        lemma_without_listing_contains(s.drop_last(), a, j);
    } else if j < rest.len() {
        lemma_without_listing_contains(s.drop_last(), a, j);
    }
}

/// Closing an archive releases it: afterwards neither its listing nor any of
/// its decompressed entries is cached.
pub proof fn law_close_forgets(
    l: Seq<(Seq<char>, Seq<(Seq<char>, u64)>)>,
    s: Seq<CachedView>,
    a: Seq<char>,
    i: Seq<char>,
)
    ensures
        listing_index(without_listing(l, a), a) == -1,
        key_index(without_archive(s, a), a, i) == -1,
{
    let wl = without_listing(l, a);
    assert forall|j: int| 0 <= j < wl.len() implies #[trigger] wl[j].0 != a by {
        lemma_without_listing_contains(l, a, j);
    }
    lemma_listing_index(wl, a, -1);
    let ws = without_archive(s, a);
    assert forall|j: int| 0 <= j < ws.len() implies !(#[trigger] ws[j].0 == a && ws[j].1 == i) by {
        lemma_without_archive_contains(s, a, j);
    }
    lemma_key_index(ws, a, i, -1);
}

} // verus!
