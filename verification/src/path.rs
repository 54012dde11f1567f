//! The path model used across the library: a path is a `/`-separated
//! character sequence. `file_name`, `extension` and `join` follow the rules of
//! `std::path::Path` for such paths (trailing separators and `.` components do
//! not name a file; `..` has no file name; a leading dot is not an extension).
use vstd::prelude::*;
use crate::text::{last_index_of, lemma_last_index_of_bounds, find_last};

verus! {

/// `s` without its trailing `/` characters.
pub open spec fn trim_end_seps(s: Seq<char>) -> Seq<char>
    decreases s.len(),
{
    if s.len() > 0 && s.last() == '/' {
        trim_end_seps(s.drop_last())
    } else {
        s
    }
}

/// `s` without its leading `/` characters.
pub open spec fn trim_start_seps(s: Seq<char>) -> Seq<char>
    decreases s.len(),
{
    if s.len() > 0 && s[0] == '/' {
        trim_start_seps(s.drop_first())
    } else {
        s
    }
}

pub proof fn lemma_trim_end_seps(s: Seq<char>)
    ensures
        trim_end_seps(s).len() <= s.len(),
        trim_end_seps(s) == s.take(trim_end_seps(s).len() as int),
        trim_end_seps(s).len() > 0 ==> trim_end_seps(s).last() != '/',
        forall|j: int| trim_end_seps(s).len() <= j < s.len() ==> s[j] == '/',
    decreases s.len(),
{
    if s.len() > 0 && s.last() == '/' {
        lemma_trim_end_seps(s.drop_last());
        let t = trim_end_seps(s);
        assert(t == s.drop_last().take(t.len() as int));
        assert(t =~= s.take(t.len() as int));
        assert forall|j: int| t.len() <= j < s.len() implies s[j] == '/' by {
            if j < s.len() - 1 {
                assert(s[j] == s.drop_last()[j]);
            }
        }
    } else {
        assert(s.take(s.len() as int) =~= s);
    }
}

/// Characterisation of `trim_end_seps` on a prefix: cutting at `e` where
/// everything in `[e, end)` is a separator and `e` is 0 or ends on a non-separator.
pub proof fn lemma_trim_end_seps_at(s: Seq<char>, end: int, e: int)
    requires
        0 <= e <= end <= s.len(),
        forall|j: int| e <= j < end ==> s[j] == '/',
        e == 0 || s[e - 1] != '/',
    ensures
        trim_end_seps(s.take(end)) == s.take(e),
    decreases end,
{
    if end > e {
        assert(s.take(end).drop_last() =~= s.take(end - 1));
        lemma_trim_end_seps_at(s, end - 1, e);
    } else {
        if e > 0 {
            assert(s.take(end).last() == s[e - 1]);
        }
    }
}

/// The final component of a path, as `Path::file_name` gives it.
pub open spec fn file_name_of(p: Seq<char>) -> Option<Seq<char>>
    decreases p.len(),
{
    let t = trim_end_seps(p);
    if t.len() == 0 {
        None
    } else {
        let k = last_index_of(t, '/') + 1;
        let comp = t.subrange(k, t.len() as int);
        if comp == seq!['.'] {
            if k <= 0 {
                None
            } else {
                proof {
                    lemma_trim_end_seps(p);
                    lemma_last_index_of_bounds(t, '/');
                }
                file_name_of(t.take(k))
            }
        } else if comp == seq!['.', '.'] {
            None
        } else {
            Some(comp)
        }
    }
}

/// The extension of a file name (`Path::extension` applied to that name): the
/// text after the last `.`, unless there is no dot, the only dot leads the
/// name, or the name is `..`.
pub open spec fn extension_of_name(name: Seq<char>) -> Option<Seq<char>> {
    let d = last_index_of(name, '.');
    if name == seq!['.', '.'] || d <= 0 {
        None
    } else {
        Some(name.subrange(d + 1, name.len() as int))
    }
}

/// The extension of a path: that of its file name.
pub open spec fn extension_of(p: Seq<char>) -> Option<Seq<char>> {
    match file_name_of(p) {
        Some(n) => extension_of_name(n),
        None => None,
    }
}

/// `base` joined with `rel`, as `Path::join` does: an absolute `rel` replaces
/// `base`; otherwise one separator is inserted when `base` lacks a trailing one.
pub open spec fn join_of(base: Seq<char>, rel: Seq<char>) -> Seq<char> {
    if rel.len() > 0 && rel[0] == '/' {
        rel
    } else if base.len() > 0 && base.last() != '/' {
        base + seq!['/'] + rel
    } else {
        base + rel
    }
}

/// The final component of `p` (see `file_name_of`).
pub fn file_name(p: &Vec<char>) -> (r: Option<Vec<char>>)
    ensures
        match r {
            Some(v) => file_name_of(p@) == Some(v@),
            None => file_name_of(p@) is None,
        },
{
    let mut end: usize = p.len();
    assert(p@.take(end as int) =~= p@);
    loop
        invariant
            end <= p.len(),
            file_name_of(p@.take(end as int)) == file_name_of(p@),
        decreases end,
    {
        let ghost old_end = end;
        while end > 0 && p[end - 1] == '/'
            invariant
                end <= old_end <= p.len(),
                forall|j: int| end <= j < old_end ==> p@[j] == '/',
            decreases end,
        {
            end -= 1;
        }
        proof {
            lemma_trim_end_seps_at(p@, old_end as int, end as int);
            assert(p@.take(old_end as int).take(end as int) =~= p@.take(end as int));
        }
        let ghost t = p@.take(end as int);
        assert(trim_end_seps(p@.take(old_end as int)) == t);
        if end == 0 {
            return None;
        }
        let k: usize = match find_last(p, end, '/') {
            Some(i) => i + 1,
            None => 0,
        };
        assert(last_index_of(t, '/') + 1 == k);
        let n = end - k;
        let is_dot = n == 1 && p[k] == '.';
        let is_dotdot = n == 2 && p[k] == '.' && p[k + 1] == '.';
        let ghost comp = t.subrange(k as int, t.len() as int);
        assert(comp.len() == end - k);
        assert(is_dot == (comp == seq!['.'])) by {
            if comp == seq!['.'] {
                assert(comp[0] == p@[k as int]);
            }
            if is_dot {
                assert(comp =~= seq!['.']);
            }
        }
        assert(is_dotdot == (comp == seq!['.', '.'])) by {
            if comp == seq!['.', '.'] {
                assert(comp.len() == end - k);
                assert(comp[0] == p@[k as int]);
                assert(comp[1] == p@[k + 1]);
            }
            if is_dotdot {
                assert(comp =~= seq!['.', '.']);
            }
        }
        if is_dot {
            if k == 0 {
                return None;
            }
            assert(t.take(k as int) =~= p@.take(k as int));
            end = k;
        } else if is_dotdot {
            return None;
        } else {
            let out = slice_vec(p, k, end);
            assert(out@ =~= comp);
            return Some(out);
        }
    }
}

/// The characters `v[start..end]` as a new vector.
pub fn slice_vec(v: &Vec<char>, start: usize, end: usize) -> (out: Vec<char>)
    requires
        start <= end <= v.len(),
    ensures
        out@ == v@.subrange(start as int, end as int),
{
    let mut out: Vec<char> = Vec::new();
    let mut i = start;
    while i < end
        invariant
            start <= i <= end <= v.len(),
            out@ == v@.subrange(start as int, i as int),
        decreases end - i,
    {
        out.push(v[i]);
        i += 1;
        assert(out@ =~= v@.subrange(start as int, i as int));
    }
    out
}

/// The extension of a file name (see `extension_of_name`).
pub fn extension_of_file_name(name: &Vec<char>) -> (r: Option<Vec<char>>)
    ensures
        match r {
            Some(v) => extension_of_name(name@) == Some(v@),
            None => extension_of_name(name@) is None,
        },
{
    assert(name@.take(name.len() as int) =~= name@);
    let is_dotdot = name.len() == 2 && name[0] == '.' && name[1] == '.';
    assert(is_dotdot == (name@ == seq!['.', '.'])) by {
        if name@ == seq!['.', '.'] {
            assert(name@[0] == '.' && name@[1] == '.');
        }
        if is_dotdot {
            assert(name@ =~= seq!['.', '.']);
        }
    }
    if is_dotdot {
        return None;
    }
    match find_last(name, name.len(), '.') {
        Some(d) => {
            if d == 0 {
                None
            } else {
                Some(slice_vec(name, d + 1, name.len()))
            }
        },
        None => None,
    }
}

/// The extension of a path (see `extension_of`).
pub fn extension(p: &Vec<char>) -> (r: Option<Vec<char>>)
    ensures
        match r {
            Some(v) => extension_of(p@) == Some(v@),
            None => extension_of(p@) is None,
        },
{
    match file_name(p) {
        Some(n) => extension_of_file_name(&n),
        None => None,
    }
}

/// `base` joined with `rel` (see `join_of`).
pub fn join(base: &Vec<char>, rel: &Vec<char>) -> (out: Vec<char>)
    ensures
        out@ == join_of(base@, rel@),
{
    if rel.len() > 0 && rel[0] == '/' {
        return rel.clone();
    }
    let mut out = base.clone();
    if base.len() > 0 && base[base.len() - 1] != '/' {
        out.push('/');
    }
    let mut i: usize = 0;
    let ghost pre = out@;
    while i < rel.len()
        invariant
            i <= rel.len(),
            out@ == pre + rel@.take(i as int),
        decreases rel.len() - i,
    {
        out.push(rel[i]);
        i += 1;
        assert(out@ =~= pre + rel@.take(i as int));
    }
    assert(rel@.take(rel.len() as int) =~= rel@);
    assert(out@ =~= join_of(base@, rel@));
    out
}


/// Where a path's body starts: after a leading `/`, or after a leading `.`
/// segment of a relative path. `Path` never trims into what comes before it.
pub open spec fn body_start(p: Seq<char>) -> int {
    if p.len() > 0 && (p[0] == '/' || (p[0] == '.' && (p.len() == 1 || p[1] == '/'))) {
        1
    } else {
        0
    }
}

/// `p` ends with a separator or a `.` segment, which `Path` normalizes away.
pub open spec fn trailing_noise(p: Seq<char>) -> bool {
    p.len() > 0 && (p.last() == '/' || (p.last() == '.' && (p.len() == 1 || p[p.len() - 2] == '/')))
}

/// `p` without trailing separators and `.` segments, as `Path` reads it (the
/// end of `Path::parent`'s result).
pub open spec fn trim_right_of(p: Seq<char>) -> Seq<char>
    decreases p.len(),
{
    if p.len() > body_start(p) && trailing_noise(p) {
        trim_right_of(p.drop_last())
    } else {
        p
    }
}

/// `s` without leading separators and `.` segments (the start of
/// `Path::strip_prefix`'s result).
pub open spec fn trim_left_of(s: Seq<char>) -> Seq<char>
    decreases s.len(),
{
    if s.len() > 0 && (s[0] == '/' || (s[0] == '.' && (s.len() == 1 || s[1] == '/'))) {
        trim_left_of(s.drop_first())
    } else {
        s
    }
}

/// `trim_right_of` only cuts the end off.
pub proof fn lemma_trim_right_prefix(p: Seq<char>)
    ensures
        trim_right_of(p).len() <= p.len(),
        trim_right_of(p) == p.take(trim_right_of(p).len() as int),
    decreases p.len(),
{
    if p.len() > body_start(p) && trailing_noise(p) {
        lemma_trim_right_prefix(p.drop_last());
        assert(p.drop_last().take(trim_right_of(p).len() as int) =~= p.take(trim_right_of(p).len() as int));
    } else {
        assert(p.take(p.len() as int) =~= p);
    }
}

/// The length of `trim_right_of(p[..end])`.
pub fn trim_right_len(p: &Vec<char>, end: usize) -> (e: usize)
    requires
        end <= p.len(),
    ensures
        e <= end,
        p@.take(e as int) == trim_right_of(p@.take(end as int)),
{
    let mut e = end;
    loop
        invariant
            e <= end <= p.len(),
            trim_right_of(p@.take(e as int)) == trim_right_of(p@.take(end as int)),
        ensures
            e <= end,
            p@.take(e as int) == trim_right_of(p@.take(end as int)),
        decreases e,
    {
        let ghost q = p@.take(e as int);
        let bs: usize = if e > 0 && (p[0] == '/' || (p[0] == '.' && (e == 1 || p[1] == '/'))) { 1 } else { 0 };
        let noise = e > 0 && (p[e - 1] == '/' || (p[e - 1] == '.' && (e == 1 || p[e - 2] == '/')));
        proof {
            if e > 0 {
                assert(q[0] == p@[0]);
                assert(q.last() == p@[e - 1]);
                if e > 1 {
                    assert(q[1] == p@[1]);
                    assert(q[q.len() - 2] == p@[e - 2]);
                }
            }
            assert(bs as int == body_start(q));
            assert(noise == trailing_noise(q));
        }
        if e > bs && noise {
            assert(q.drop_last() =~= p@.take(e - 1));
            e -= 1;
        } else {
            break;
        }
    }
    e
}

/// The start of `trim_left_of(p[start..end])`.
pub fn trim_left_start(p: &Vec<char>, start: usize, end: usize) -> (k: usize)
    requires
        start <= end <= p.len(),
    ensures
        start <= k <= end,
        p@.subrange(k as int, end as int) == trim_left_of(p@.subrange(start as int, end as int)),
{
    let mut k = start;
    loop
        invariant
            start <= k <= end <= p.len(),
            trim_left_of(p@.subrange(k as int, end as int)) == trim_left_of(p@.subrange(start as int, end as int)),
        ensures
            start <= k <= end,
            p@.subrange(k as int, end as int) == trim_left_of(p@.subrange(start as int, end as int)),
        decreases end - k,
    {
        let ghost q = p@.subrange(k as int, end as int);
        let skip = k < end && (p[k] == '/' || (p[k] == '.' && (k + 1 == end || p[k + 1] == '/')));
        proof {
            if k < end {
                assert(q[0] == p@[k as int]);
                if k + 1 < end {
                    assert(q[1] == p@[k + 1]);
                }
            }
        }
        if skip {
            assert(q.drop_first() =~= p@.subrange(k + 1, end as int));
            k += 1;
        } else {
            break;
        }
    }
    k
}

/// The non-empty `/`-separated components of `s`, in order.
pub open spec fn comps_of(s: Seq<char>) -> Seq<Seq<char>>
    decreases s.len(),
{
    let i = last_index_of(s, '/');
    proof { lemma_last_index_of_bounds(s, '/'); }
    let last = s.subrange(i + 1, s.len() as int);
    let init = if i >= 0 { comps_of(s.take(i)) } else { seq![] };
    if last.len() > 0 {
        init.push(last)
    } else {
        init
    }
}

/// The non-empty `/`-separated components of `s` (see `comps_of`).
pub fn components(s: &Vec<char>) -> (out: Vec<Vec<char>>)
    ensures
        out@.len() == comps_of(s@).len(),
        forall|k: int| 0 <= k < out@.len() ==> #[trigger] out@[k]@ == comps_of(s@)[k],
{
    let mut rev: Vec<Vec<char>> = Vec::new();
    let mut end: usize = s.len();
    assert(s@.take(end as int) =~= s@);
    loop
        invariant_except_break
            end <= s.len(),
            comps_of(s@) == comps_of(s@.take(end as int)) + Seq::new(rev@.len(), |k: int| rev@[rev@.len() - 1 - k]@),
        ensures
            comps_of(s@) == Seq::new(rev@.len(), |k: int| rev@[rev@.len() - 1 - k]@),
        decreases end,
    {
        let ghost t = s@.take(end as int);
        let ghost r0 = rev@;
        match find_last(s, end, '/') {
            Some(i) => {
                assert(t.subrange(i + 1, t.len() as int) =~= s@.subrange(i + 1, end as int));
                assert(t.take(i as int) =~= s@.take(i as int));
                if i + 1 < end {
                    let c = slice_vec(s, i + 1, end);
                    rev.push(c);
                    assert(comps_of(t) == comps_of(s@.take(i as int)).push(c@));
                    assert(comps_of(s@.take(i as int)).push(c@) + Seq::new(r0.len(), |k: int| r0[r0.len() - 1 - k]@)
                        =~= comps_of(s@.take(i as int)) + Seq::new(rev@.len(), |k: int| rev@[rev@.len() - 1 - k]@));
                } else {
                    assert(comps_of(t) == comps_of(s@.take(i as int)));
                }
                end = i;
            },
            None => {
                if end > 0 {
                    let c = slice_vec(s, 0, end);
                    rev.push(c);
                    assert(t.subrange(0, t.len() as int) =~= c@);
                    assert(comps_of(t) == Seq::<Seq<char>>::empty().push(c@));
                    assert(comps_of(s@) =~= Seq::new(rev@.len(), |k: int| rev@[rev@.len() - 1 - k]@));
                } else {
                    assert(comps_of(t) =~= Seq::<Seq<char>>::empty());
                    assert(comps_of(s@) =~= Seq::new(rev@.len(), |k: int| rev@[rev@.len() - 1 - k]@));
                }
                break;
            },
        }
    }
    let ghost full = Seq::new(rev@.len(), |k: int| rev@[rev@.len() - 1 - k]@);
    let mut out: Vec<Vec<char>> = Vec::new();
    let ghost n = rev@.len();
    while rev.len() > 0
        invariant
            rev@.len() <= n,
            full.len() == n,
            forall|k: int| 0 <= k < rev@.len() ==> #[trigger] rev@[k]@ == full[n - 1 - k],
            out@.len() == n - rev@.len(),
            forall|k: int| 0 <= k < out@.len() ==> #[trigger] out@[k]@ == full[k],
        decreases rev.len(),
    {
        let c = rev.pop().unwrap();
        out.push(c);
    }
    assert(full == comps_of(s@));
    out
}

} // verus!
