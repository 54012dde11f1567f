//! Character-sequence helpers shared by the path, archive and formatting code.
//! Text is handled as `Vec<char>` / `Seq<char>`, the view of a `String`.
use vstd::prelude::*;

verus! {

/// ASCII lower-casing of one character (other characters are unchanged).
pub open spec fn lower_char(c: char) -> char {
    if 'A' <= c && c <= 'Z' {
        ((c as u32) + 32) as char
    } else {
        c
    }
}

/// ASCII lower-casing of a character sequence.
pub open spec fn lower_seq(s: Seq<char>) -> Seq<char> {
    s.map_values(|c: char| lower_char(c))
}

/// Whether `s` ends with `suffix`.
pub open spec fn seq_ends_with(s: Seq<char>, suffix: Seq<char>) -> bool {
    s.len() >= suffix.len() && s.subrange(s.len() - suffix.len(), s.len() as int) == suffix
}

/// Whether `s` starts with `prefix`.
pub open spec fn seq_starts_with(s: Seq<char>, prefix: Seq<char>) -> bool {
    s.len() >= prefix.len() && s.subrange(0, prefix.len() as int) == prefix
}

/// Index of the last occurrence of `c` in `s`, or -1.
pub open spec fn last_index_of(s: Seq<char>, c: char) -> int
    decreases s.len(),
{
    if s.len() == 0 {
        -1
    } else if s.last() == c {
        s.len() - 1
    } else {
        last_index_of(s.drop_last(), c)
    }
}

pub proof fn lemma_last_index_of_bounds(s: Seq<char>, c: char)
    ensures
        -1 <= last_index_of(s, c) < s.len(),
        last_index_of(s, c) >= 0 ==> s[last_index_of(s, c)] == c,
        forall|j: int| last_index_of(s, c) < j < s.len() ==> s[j] != c,
    decreases s.len(),
{
    if s.len() > 0 && s.last() != c {
        lemma_last_index_of_bounds(s.drop_last(), c);
        assert forall|j: int| last_index_of(s, c) < j < s.len() implies s[j] != c by {
            if j < s.len() - 1 {
                assert(s[j] == s.drop_last()[j]);
            }
        }
    }
}

/// `last_index_of` is characterised by: the found index holds `c` and no later one does.
pub proof fn lemma_last_index_of_char(s: Seq<char>, c: char, i: int)
    requires
        -1 <= i < s.len(),
        i >= 0 ==> s[i] == c,
        forall|j: int| i < j < s.len() ==> s[j] != c,
    ensures
        last_index_of(s, c) == i,
    decreases s.len(),
{
    if s.len() > 0 && s.last() != c {
        lemma_last_index_of_char(s.drop_last(), c, i);
    }
}

/// Replaces every `from` character by `to`.
pub open spec fn replace_char(s: Seq<char>, from: char, to: char) -> Seq<char> {
    s.map_values(|c: char| if c == from { to } else { c })
}

/// `String::push`: the contract claims the string afterwards holds its old
/// characters followed by `c`.
#[verifier::external_body]
pub(crate) fn push_char(s: &mut String, c: char)
    ensures
        final(s)@ == old(s)@.push(c),
{
    s.push(c);
}

/// The characters of `s`, in order.
pub fn chars_of(s: &str) -> (out: Vec<char>)
    ensures
        out@ == s@,
{
    let mut out: Vec<char> = Vec::new();
    for c in it: s.chars()
        invariant
            out@ == it.seq().take(it.index() as int),
            it.seq() == s@,
    {
        out.push(c);
    }
    out
}

/// A `String` holding exactly the characters of `v[start..end]`.
pub fn string_of_range(v: &Vec<char>, start: usize, end: usize) -> (out: String)
    requires
        start <= end <= v.len(),
    ensures
        out@ == v@.subrange(start as int, end as int),
{
    let mut out = String::new();
    let mut i = start;
    while i < end
        invariant
            start <= i <= end <= v.len(),
            out@ == v@.subrange(start as int, i as int),
        decreases end - i,
    {
        push_char(&mut out, v[i]);
        i += 1;
        assert(out@ =~= v@.subrange(start as int, i as int));
    }
    out
}

/// A `String` holding exactly the characters of `v`.
pub fn string_of(v: &Vec<char>) -> (out: String)
    ensures
        out@ == v@,
{
    let out = string_of_range(v, 0, v.len());
    assert(v@.subrange(0, v@.len() as int) =~= v@);
    out
}

/// ASCII lower-casing of one character.
pub fn to_lower_char(c: char) -> (r: char)
    ensures
        r == lower_char(c),
{
    if 'A' <= c && c <= 'Z' {
        let b: u8 = (c as u8) + 32;
        b as char
    } else {
        c
    }
}

/// ASCII lower-casing of a character vector.
pub fn to_lower_vec(v: &Vec<char>) -> (out: Vec<char>)
    ensures
        out@ == lower_seq(v@),
{
    let mut out: Vec<char> = Vec::new();
    let mut i: usize = 0;
    while i < v.len()
        invariant
            i <= v.len(),
            out@ == lower_seq(v@.take(i as int)),
        decreases v.len() - i,
    {
        out.push(to_lower_char(v[i]));
        i += 1;
        assert(out@ =~= lower_seq(v@.take(i as int)));
    }
    assert(v@.take(v@.len() as int) =~= v@);
    out
}

/// Whether `a[a_start..a_start+n] == b[b_start..b_start+n]`.
pub fn range_eq(a: &Vec<char>, a_start: usize, b: &Vec<char>, b_start: usize, n: usize) -> (r: bool)
    requires
        a_start + n <= a.len(),
        b_start + n <= b.len(),
    ensures
        r == (a@.subrange(a_start as int, a_start + n) == b@.subrange(b_start as int, b_start + n)),
{
    let mut k: usize = 0;
    while k < n
        invariant
            k <= n,
            a_start + n <= a.len(),
            b_start + n <= b.len(),
            forall|j: int| 0 <= j < k ==> #[trigger] a@.subrange(a_start as int, a_start + n)[j] == b@.subrange(b_start as int, b_start + n)[j],
        decreases n - k,
    {
        if a[a_start + k] != b[b_start + k] {
            assert(a@.subrange(a_start as int, a_start + n)[k as int] != b@.subrange(b_start as int, b_start + n)[k as int]);
            return false;
        }
        k += 1;
    }
    assert(a@.subrange(a_start as int, a_start + n) =~= b@.subrange(b_start as int, b_start + n));
    true
}

/// Whether the two character vectors are equal.
pub fn vec_eq(a: &Vec<char>, b: &Vec<char>) -> (r: bool)
    ensures
        r == (a@ == b@),
{
    if a.len() != b.len() {
        return false;
    }
    let r = range_eq(a, 0, b, 0, a.len());
    assert(a@.subrange(0, a@.len() as int) =~= a@);
    assert(b@.subrange(0, b@.len() as int) =~= b@);
    r
}

/// Whether `s` ends with `suffix`.
pub fn ends_with(s: &Vec<char>, suffix: &Vec<char>) -> (r: bool)
    ensures
        r == seq_ends_with(s@, suffix@),
{
    if s.len() < suffix.len() {
        return false;
    }
    let r = range_eq(s, s.len() - suffix.len(), suffix, 0, suffix.len());
    assert(suffix@.subrange(0, suffix@.len() as int) =~= suffix@);
    r
}

/// Whether `s` ends with the characters of the literal `suffix`.
pub fn ends_with_str(s: &Vec<char>, suffix: &str) -> (r: bool)
    ensures
        r == seq_ends_with(s@, suffix@),
{
    let suf = chars_of(suffix);
    ends_with(s, &suf)
}

/// Index of the last `c` in `v[..end]`.
pub fn find_last(v: &Vec<char>, end: usize, c: char) -> (r: Option<usize>)
    requires
        end <= v.len(),
    ensures
        match r {
            Some(i) => i < end && last_index_of(v@.take(end as int), c) == i,
            None => last_index_of(v@.take(end as int), c) == -1,
        },
{
    let mut i = end;
    while i > 0
        invariant
            i <= end <= v.len(),
            forall|j: int| i <= j < end ==> v@[j] != c,
        decreases i,
    {
        if v[i - 1] == c {
            proof {
                lemma_last_index_of_char(v@.take(end as int), c, i - 1);
            }
            return Some(i - 1);
        }
        i -= 1;
    }
    proof {
        lemma_last_index_of_char(v@.take(end as int), c, -1);
    }
    None
}

/// A string with the characters of `v` where every `from` becomes `to`.
pub fn replace_vec(v: &Vec<char>, from: char, to: char) -> (out: Vec<char>)
    ensures
        out@ == replace_char(v@, from, to),
{
    let mut out: Vec<char> = Vec::new();
    let mut i: usize = 0;
    while i < v.len()
        invariant
            i <= v.len(),
            out@ == replace_char(v@.take(i as int), from, to),
        decreases v.len() - i,
    {
        let c = v[i];
        out.push(if c == from { to } else { c });
        i += 1;
        assert(out@ =~= replace_char(v@.take(i as int), from, to));
    }
    assert(v@.take(v@.len() as int) =~= v@);
    out
}

/// Styled pieces `ps[k..]` with their first `n` characters cut away: pieces
/// used up entirely are dropped, the piece the cut falls in keeps its tail.
/// Each kept piece is paired with its index, so its style can follow it.
pub open spec fn trim_from(ps: Seq<Seq<char>>, k: int, n: int) -> Seq<(int, Seq<char>)>
    decreases ps.len() - k,
{
    if k < 0 || k >= ps.len() {
        seq![]
    } else if n <= 0 {
        seq![(k, ps[k])] + trim_from(ps, k + 1, 0)
    } else if ps[k].len() <= n {
        trim_from(ps, k + 1, n - ps[k].len())
    } else {
        seq![(k, ps[k].skip(n))] + trim_from(ps, k + 1, 0)
    }
}

/// The characters of pieces `ps[k..]`, in order.
pub open spec fn flatten_from(ps: Seq<Seq<char>>, k: int) -> Seq<char>
    decreases ps.len() - k,
{
    if k < 0 || k >= ps.len() {
        seq![]
    } else {
        ps[k] + flatten_from(ps, k + 1)
    }
}

/// The characters of kept pieces, in order.
pub open spec fn flatten_kept(ks: Seq<(int, Seq<char>)>) -> Seq<char>
    decreases ks.len(),
{
    if ks.len() == 0 {
        seq![]
    } else {
        ks[0].1 + flatten_kept(ks.drop_first())
    }
}

/// Cutting pieces is cutting their concatenation: what is kept reads as the
/// whole text without its first `n` characters.
pub proof fn law_trim_from_is_skip(ps: Seq<Seq<char>>, k: int, n: int)
    requires
        0 <= k <= ps.len(),
        n >= 0,
    ensures
        flatten_kept(trim_from(ps, k, n)) == (if n <= flatten_from(ps, k).len() {
            flatten_from(ps, k).skip(n)
        } else {
            seq![]
        }),
    decreases ps.len() - k,
{
    if k < ps.len() {
        law_trim_from_is_skip(ps, k + 1, if n <= 0 { 0 } else if ps[k].len() <= n { n - ps[k].len() } else { 0 });
        let rest = flatten_from(ps, k + 1);
        let whole = flatten_from(ps, k);
        assert(whole == ps[k] + rest);
        if n <= 0 {
            let t = trim_from(ps, k, n);
            assert(t.drop_first() == trim_from(ps, k + 1, 0));
            assert(rest.skip(0) =~= rest);
            assert(whole.skip(0) =~= whole);
        } else if ps[k].len() <= n {
            if n <= whole.len() {
                assert(whole.skip(n) =~= rest.skip(n - ps[k].len()));
            }
        } else {
            let t = trim_from(ps, k, n);
            assert(t.drop_first() == trim_from(ps, k + 1, 0));
            assert(rest.skip(0) =~= rest);
            assert(whole.skip(n) =~= ps[k].skip(n) + rest);
        }
    } else {
        assert(flatten_from(ps, k).len() == 0);
        if n == 0 {
            assert(flatten_from(ps, k).skip(0) =~= Seq::<char>::empty());
        }
    }
}

/// Cuts the first `n` characters off a row of styled pieces (see `trim_from`);
/// each kept piece comes with its index.
pub fn trim_pieces_left(pieces: &Vec<String>, n: usize) -> (r: Vec<(usize, String)>)
    ensures
        r@.map_values(|e: (usize, String)| (e.0 as int, e.1@)) == trim_from(pieces.deep_view(), 0, n as int),
{
    let ghost ps = pieces.deep_view();
    let mut out: Vec<(usize, String)> = Vec::new();
    let mut left = n;
    let mut k: usize = 0;
    while k < pieces.len()
        invariant
            k <= pieces@.len(),
            ps == pieces.deep_view(),
            out@.map_values(|e: (usize, String)| (e.0 as int, e.1@)) + trim_from(ps, k as int, left as int)
                == trim_from(ps, 0, n as int),
        decreases pieces.len() - k,
    {
        let ghost o0 = out@.map_values(|e: (usize, String)| (e.0 as int, e.1@));
        let c = chars_of(pieces[k].as_str());
        assert(ps[k as int] == pieces@[k as int]@);
        if left == 0 {
            out.push((k, pieces[k].clone()));
            assert(out@.map_values(|e: (usize, String)| (e.0 as int, e.1@)) =~= o0.push((k as int, ps[k as int])));
            assert(trim_from(ps, k as int, 0) == seq![(k as int, ps[k as int])] + trim_from(ps, k + 1, 0));
            assert(o0 + trim_from(ps, k as int, 0) =~= o0.push((k as int, ps[k as int])) + trim_from(ps, k + 1, 0));
        } else if c.len() <= left {
            left = left - c.len();
        } else {
            let tail = string_of_range(&c, left, c.len());
            assert(tail@ =~= ps[k as int].skip(left as int));
            out.push((k, tail));
            assert(out@.map_values(|e: (usize, String)| (e.0 as int, e.1@)) =~= o0.push((k as int, ps[k as int].skip(left as int))));
            assert(o0 + trim_from(ps, k as int, left as int)
                =~= o0.push((k as int, ps[k as int].skip(left as int))) + trim_from(ps, k + 1, 0));
            left = 0;
        }
        k += 1;
    }
    assert(trim_from(ps, k as int, left as int) == Seq::<(int, Seq<char>)>::empty());
    assert(out@.map_values(|e: (usize, String)| (e.0 as int, e.1@)) =~= trim_from(ps, 0, n as int));
    out
}

} // verus!
