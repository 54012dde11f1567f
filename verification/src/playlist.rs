//! `.m3u` playlists: the text a queue is exported as, and the tracks an
//! imported playlist names. Reading and writing the files is the caller's part.
use vstd::prelude::*;
use crate::text::chars_of;
use crate::text::push_char;
use crate::text::last_index_of;
use crate::text::lemma_last_index_of_bounds;
use crate::text::lemma_last_index_of_char;
use crate::path::join_of;
use crate::path::join;
use crate::media::Registry;
use crate::media::is_audio_path;

verus! {

/// The exported playlist: an `#EXTM3U` header line, then one path per line.
pub open spec fn m3u_of(q: Seq<Seq<char>>) -> Seq<char>
    decreases q.len(),
{
    if q.len() == 0 {
        "#EXTM3U\n"@
    } else {
        m3u_of(q.drop_last()) + q.last() + seq!['\n']
    }
}

/// Appends the characters of `s` to `out`.
fn push_all(out: &mut String, s: &Vec<char>)
    ensures
        final(out)@ == old(out)@ + s@,
{
    let ghost o = out@;
    let mut i: usize = 0;
    while i < s.len()
        invariant
            i <= s.len(),
            out@ == o + s@.take(i as int),
        decreases s.len() - i,
    {
        push_char(out, s[i]);
        i += 1;
        assert(out@ =~= o + s@.take(i as int));
    }
    assert(s@.take(i as int) =~= s@);
}

/// The `.m3u` text of a queue (`m3u_of`).
pub fn m3u_text(queue: &Vec<String>) -> (r: String)
    ensures
        r@ == m3u_of(queue.deep_view()),
{
    let mut out = String::new();
    push_all(&mut out, &chars_of("#EXTM3U\n"));
    let ghost q = queue.deep_view();
    let mut i: usize = 0;
    while i < queue.len()
        invariant
            i <= queue.len(),
            q == queue.deep_view(),
            out@ == m3u_of(q.take(i as int)),
        decreases queue.len() - i,
    {
        push_all(&mut out, &chars_of(queue[i].as_str()));
        push_char(&mut out, '\n');
        i += 1;
        assert(q.take(i as int).drop_last() =~= q.take(i as int - 1));
        assert(out@ =~= m3u_of(q.take(i as int)));
    }
    assert(q.take(i as int) =~= q);
    out
}

// ---------------------------------------------------------------- reading

/// The pieces of `s` between `\n` separators (at least one, possibly empty).
pub open spec fn pieces(s: Seq<char>) -> Seq<Seq<char>>
    decreases s.len(),
{
    let i = last_index_of(s, '\n');
    proof {
        lemma_last_index_of_bounds(s, '\n');
    }
    if i < 0 {
        seq![s]
    } else {
        pieces(s.take(i)).push(s.skip(i + 1))
    }
}

/// Unicode white space, as `char::is_whitespace` classifies it.
pub open spec fn is_ws(c: char) -> bool {
    ('\u{9}' <= c && c <= '\u{d}') || c == ' ' || c == '\u{85}' || c == '\u{a0}' || c == '\u{1680}'
        || ('\u{2000}' <= c && c <= '\u{200a}') || c == '\u{2028}' || c == '\u{2029}'
        || c == '\u{202f}' || c == '\u{205f}' || c == '\u{3000}'
}

/// `s` without leading white space.
pub open spec fn trim_start_of(s: Seq<char>) -> Seq<char>
    decreases s.len(),
{
    if s.len() > 0 && is_ws(s[0]) {
        trim_start_of(s.drop_first())
    } else {
        s
    }
}

/// `s` without trailing white space.
pub open spec fn trim_end_of(s: Seq<char>) -> Seq<char>
    decreases s.len(),
{
    if s.len() > 0 && is_ws(s.last()) {
        trim_end_of(s.drop_last())
    } else {
        s
    }
}

/// `s` without leading and trailing white space (`str::trim`).
pub open spec fn trim_of(s: Seq<char>) -> Seq<char> {
    trim_end_of(trim_start_of(s))
}

/// The tracks named by the lines `ps`: each trimmed; blank lines and `#`
/// comments skipped; relative entries resolved against `base`.
pub open spec fn entries_from(ps: Seq<Seq<char>>, base: Seq<char>) -> Seq<Seq<char>>
    decreases ps.len(),
{
    if ps.len() == 0 {
        seq![]
    } else {
        let rest = entries_from(ps.drop_last(), base);
        let t = trim_of(ps.last());
        if t.len() == 0 || t[0] == '#' {
            rest
        } else {
            rest.push(join_of(base, t))
        }
    }
}

/// The tracks a playlist text names, relative ones resolved against `base`
/// (the playlist's directory).
pub open spec fn m3u_entries_of(txt: Seq<char>, base: Seq<char>) -> Seq<Seq<char>> {
    entries_from(pieces(txt), base)
}

proof fn lemma_pieces_push(t: Seq<char>, c: char)
    ensures
        c == '\n' ==> pieces(t.push(c)) == pieces(t).push(seq![]),
        c != '\n' ==> pieces(t.push(c)) == pieces(t).update(
            pieces(t).len() - 1,
            pieces(t).last().push(c),
        ),
        pieces(t).len() >= 1,
    decreases t.len(),
{
    let s = t.push(c);
    lemma_last_index_of_bounds(t, '\n');
    lemma_last_index_of_bounds(s, '\n');
    let i = last_index_of(t, '\n');
    if c == '\n' {
        lemma_last_index_of_char(s, '\n', t.len() as int);
        assert(s.take(t.len() as int) =~= t);
        assert(s.skip(t.len() as int + 1) =~= Seq::<char>::empty());
    } else {
        lemma_last_index_of_char(s, '\n', i);
        if i < 0 {
            assert(pieces(s) == seq![s]);
            assert(pieces(t) == seq![t]);
            assert(pieces(t).update(0, t.push(c)) =~= seq![s]);
        } else {
            assert(s.take(i) =~= t.take(i));
            assert(s.skip(i + 1) =~= t.skip(i + 1).push(c));
            assert(pieces(t) == pieces(t.take(i)).push(t.skip(i + 1)));
            assert(pieces(s) =~= pieces(t).update(pieces(t).len() - 1, pieces(t).last().push(c)));
        }
    }
    if i >= 0 {
        lemma_pieces_len(t.take(i));
    }
}

proof fn lemma_pieces_len(t: Seq<char>)
    ensures
        pieces(t).len() >= 1,
    decreases t.len(),
{
    lemma_last_index_of_bounds(t, '\n');
    let i = last_index_of(t, '\n');
    if i >= 0 {
        lemma_pieces_len(t.take(i));
    }
}

fn is_ws_char(c: char) -> (r: bool)
    ensures
        r == is_ws(c),
{
    ('\u{9}' <= c && c <= '\u{d}') || c == ' ' || c == '\u{85}' || c == '\u{a0}' || c == '\u{1680}'
        || ('\u{2000}' <= c && c <= '\u{200a}') || c == '\u{2028}' || c == '\u{2029}'
        || c == '\u{202f}' || c == '\u{205f}' || c == '\u{3000}'
}

proof fn lemma_trim_start_at(s: Seq<char>, k: int)
    requires
        0 <= k <= s.len(),
        forall|j: int| 0 <= j < k ==> is_ws(s[j]),
        k == s.len() || !is_ws(s[k]),
    ensures
        trim_start_of(s) == s.skip(k),
    decreases k,
{
    if k > 0 {
        lemma_trim_start_at(s.drop_first(), k - 1);
        assert(s.drop_first().skip(k - 1) =~= s.skip(k));
    } else {
        assert(s.skip(0) =~= s);
    }
}

proof fn lemma_trim_end_at(s: Seq<char>, k: int)
    requires
        0 <= k <= s.len(),
        forall|j: int| k <= j < s.len() ==> is_ws(s[j]),
        k == 0 || !is_ws(s[k - 1]),
    ensures
        trim_end_of(s) == s.take(k),
    decreases s.len() - k,
{
    if k < s.len() {
        lemma_trim_end_at(s.drop_last(), k);
        assert(s.drop_last().take(k) =~= s.take(k));
    } else {
        assert(s.take(k) =~= s);
    }
}

/// `line` trimmed (`trim_of`).
fn trim_line(line: &Vec<char>) -> (r: Vec<char>)
    ensures
        r@ == trim_of(line@),
{
    let n = line.len();
    let mut a: usize = 0;
    while a < n && is_ws_char(line[a])
        invariant
            a <= n == line@.len(),
            forall|j: int| 0 <= j < a ==> is_ws(line@[j]),
        decreases n - a,
    {
        a += 1;
    }
    proof {
        lemma_trim_start_at(line@, a as int);
    }
    let ghost t = line@.skip(a as int);
    let mut b: usize = n;
    while b > a && is_ws_char(line[b - 1])
        invariant
            a <= b <= n == line@.len(),
            forall|j: int| b <= j < n ==> is_ws(line@[j]),
        decreases b,
    {
        b -= 1;
    }
    proof {
        assert forall|j: int| b - a <= j < t.len() implies is_ws(t[j]) by {
            assert(t[j] == line@[j + a]);
        }
        if b > a {
            assert(t[b - a - 1] == line@[b - 1]);
        }
        lemma_trim_end_at(t, b - a);
    }
    let mut out: Vec<char> = Vec::new();
    let mut i = a;
    while i < b
        invariant
            a <= i <= b <= n == line@.len(),
            out@ == line@.subrange(a as int, i as int),
        decreases b - i,
    {
        out.push(line[i]);
        i += 1;
        assert(out@ =~= line@.subrange(a as int, i as int));
    }
    assert(out@ =~= t.take(b - a));
    out
}

/// Adds the entry for one finished line to `out` (see `entries_from`).
fn take_line(out: &mut Vec<String>, line: &Vec<char>, base: &Vec<char>)
    ensures
        final(out).deep_view() == {
            let t = trim_of(line@);
            if t.len() == 0 || t[0] == '#' {
                old(out).deep_view()
            } else {
                old(out).deep_view().push(join_of(base@, t))
            }
        },
{
    let t = trim_line(line);
    if t.len() == 0 || t[0] == '#' {
        return;
    }
    let p = join(base, &t);
    let mut s = String::new();
    push_all(&mut s, &p);
    let ghost before = out.deep_view();
    out.push(s);
    assert(out.deep_view() =~= before.push(join_of(base@, t@)));
}

/// The tracks a playlist names (`m3u_entries_of`): lines trimmed, blank lines
/// and `#` comments skipped, relative entries resolved against `base`.
pub fn m3u_entries(txt: &str, base: &str) -> (r: Vec<String>)
    ensures
        r.deep_view() == m3u_entries_of(txt@, base@),
{
    let c = chars_of(txt);
    let b = chars_of(base);
    let mut out: Vec<String> = Vec::new();
    let mut cur: Vec<char> = Vec::new();
    let mut i: usize = 0;
    proof {
        assert(c@.take(0) =~= Seq::<char>::empty());
        lemma_last_index_of_bounds(Seq::<char>::empty(), '\n');
        assert(pieces(Seq::<char>::empty()) == seq![Seq::<char>::empty()]);
    }
    while i < c.len()
        invariant
            i <= c.len(),
            c@ == txt@,
            b@ == base@,
            pieces(c@.take(i as int)).len() >= 1,
            pieces(c@.take(i as int)).last() == cur@,
            out.deep_view() == entries_from(pieces(c@.take(i as int)).drop_last(), base@),
        decreases c.len() - i,
    {
        let ghost t = c@.take(i as int);
        proof {
            lemma_pieces_push(t, c@[i as int]);
            assert(c@.take(i + 1) =~= t.push(c@[i as int]));
        }
        if c[i] == '\n' {
            take_line(&mut out, &cur, &b);
            cur = Vec::new();
            proof {
                let ps = pieces(t);
                assert(ps.push(seq![]).drop_last() =~= ps);
                assert(ps.drop_last().push(ps.last()) =~= ps);
            }
        } else {
            cur.push(c[i]);
            proof {
                let ps = pieces(t);
                assert(ps.update(ps.len() - 1, ps.last().push(c@[i as int])).drop_last() =~= ps.drop_last());
            }
        }
        i += 1;
    }
    take_line(&mut out, &cur, &b);
    proof {
        let ps = pieces(c@.take(i as int));
        assert(c@.take(i as int) =~= txt@);
        assert(ps.drop_last().push(ps.last()) =~= ps);
    }
    out
}

/// The tracks of `items` the registry can play, order kept.
pub fn keep_supported(reg: &Registry, items: Vec<String>) -> (r: Vec<String>)
    ensures
        r.deep_view() == items.deep_view().filter(|p: Seq<char>| is_audio_path(p)),
{
    let mut out: Vec<String> = Vec::new();
    let ghost v = items.deep_view();
    let mut i: usize = 0;
    while i < items.len()
        invariant
            i <= items.len(),
            v == items.deep_view(),
            out.deep_view() == v.take(i as int).filter(|p: Seq<char>| is_audio_path(p)),
        decreases items.len() - i,
    {
        proof {
            reveal(Seq::filter);
            assert(v.take(i + 1).drop_last() =~= v.take(i as int));
        }
        if reg.is_supported(items[i].as_str()) {
            let ghost before = out.deep_view();
            out.push(items[i].clone());
            assert(out.deep_view() =~= before.push(v[i as int]));
        }
        i += 1;
    }
    assert(v.take(i as int) =~= v);
    out
}

// ---------------------------------------------------------------- round trip

/// A queue entry that survives export and import unchanged: non-empty, on one
/// line, without surrounding white space, and not read as a comment.
pub open spec fn clean_entry(e: Seq<char>) -> bool {
    &&& e.len() > 0
    &&& forall|j: int| 0 <= j < e.len() ==> e[j] != '\n'
    &&& !is_ws(e[0])
    &&& !is_ws(e.last())
    &&& e[0] != '#'
}

proof fn lemma_pieces_append(x: Seq<char>, e: Seq<char>)
    requires
        forall|j: int| 0 <= j < e.len() ==> e[j] != '\n',
    ensures
        pieces(x + e) == pieces(x).update(pieces(x).len() - 1, pieces(x).last() + e),
        pieces(x).len() >= 1,
    decreases e.len(),
{
    lemma_pieces_len(x);
    if e.len() == 0 {
        assert(x + e =~= x);
        assert(pieces(x).last() + e =~= pieces(x).last());
        assert(pieces(x).update(pieces(x).len() - 1, pieces(x).last()) =~= pieces(x));
    } else {
        let e0 = e.drop_last();
        let c = e.last();
        lemma_pieces_append(x, e0);
        assert(x + e =~= (x + e0).push(c));
        lemma_pieces_push(x + e0, c);
        let ps = pieces(x);
        assert(e =~= e0.push(c));
        assert((ps.last() + e0).push(c) =~= ps.last() + e);
        assert(ps.update(ps.len() - 1, ps.last() + e0).update(ps.len() - 1, (ps.last() + e0).push(c))
            =~= ps.update(ps.len() - 1, ps.last() + e));
    }
}

proof fn lemma_header_pieces()
    ensures
        pieces("#EXTM3U\n"@) == seq!["#EXTM3U"@, Seq::<char>::empty()],
        trim_of("#EXTM3U"@).len() > 0 && trim_of("#EXTM3U"@)[0] == '#',
{
    reveal_strlit("#EXTM3U\n");
    reveal_strlit("#EXTM3U");
    let h = "#EXTM3U"@;
    assert(h.len() == 7);
    assert(h[0] == '#' && h[1] == 'E' && h[2] == 'X' && h[3] == 'T' && h[4] == 'M' && h[5] == '3' && h[6] == 'U');
    assert("#EXTM3U\n"@ =~= h.push('\n'));
    let empty = Seq::<char>::empty();
    lemma_last_index_of_bounds(empty, '\n');
    assert(pieces(empty) == seq![empty]);
    lemma_pieces_append(empty, h);
    assert(empty + h =~= h);
    assert(seq![empty].update(0, empty + h) =~= seq![h]);
    lemma_pieces_push(h, '\n');
    lemma_trim_start_at(h, 0);
    assert(h.skip(0) =~= h);
    lemma_trim_end_at(h, 7);
    assert(h.take(7) =~= h);
}

proof fn lemma_m3u_pieces(q: Seq<Seq<char>>)
    requires
        forall|k: int| 0 <= k < q.len() ==> clean_entry(#[trigger] q[k]),
    ensures
        pieces(m3u_of(q)) == seq!["#EXTM3U"@] + q + seq![Seq::<char>::empty()],
    decreases q.len(),
{
    if q.len() == 0 {
        lemma_header_pieces();
        assert(seq!["#EXTM3U"@] + q + seq![Seq::<char>::empty()] =~= seq!["#EXTM3U"@, Seq::<char>::empty()]);
    } else {
        let q0 = q.drop_last();
        let e = q.last();
        assert(clean_entry(q[q.len() - 1]));
        lemma_m3u_pieces(q0);
        let x = m3u_of(q0);
        lemma_pieces_append(x, e);
        lemma_pieces_push(x + e, '\n');
        assert(m3u_of(q) =~= (x + e).push('\n'));
        let ps = seq!["#EXTM3U"@] + q0 + seq![Seq::<char>::empty()];
        assert(Seq::<char>::empty() + e =~= e);
        assert(ps.update(ps.len() - 1, ps.last() + e).push(Seq::<char>::empty())
            =~= seq!["#EXTM3U"@] + q + seq![Seq::<char>::empty()]);
    }
}

proof fn lemma_entries_of_lines(q: Seq<Seq<char>>, base: Seq<char>)
    requires
        forall|k: int| 0 <= k < q.len() ==> clean_entry(#[trigger] q[k]),
    ensures
        entries_from(seq!["#EXTM3U"@] + q, base) == q.map_values(|e: Seq<char>| join_of(base, e)),
    decreases q.len(),
{
    if q.len() == 0 {
        lemma_header_pieces();
        let ps = seq!["#EXTM3U"@] + q;
        assert(ps =~= seq!["#EXTM3U"@]);
        assert(ps.drop_last() =~= Seq::<Seq<char>>::empty());
        assert(ps.last() == "#EXTM3U"@);
        assert(entries_from(Seq::<Seq<char>>::empty(), base) == Seq::<Seq<char>>::empty());
        assert(entries_from(ps, base) == entries_from(ps.drop_last(), base));
        assert(q.map_values(|e: Seq<char>| join_of(base, e)) =~= Seq::<Seq<char>>::empty());
    } else {
        let q0 = q.drop_last();
        let e = q.last();
        assert(clean_entry(q[q.len() - 1]));
        lemma_entries_of_lines(q0, base);
        let ps = seq!["#EXTM3U"@] + q;
        assert(ps.drop_last() =~= seq!["#EXTM3U"@] + q0);
        lemma_trim_start_at(e, 0);
        assert(e.skip(0) =~= e);
        lemma_trim_end_at(e, e.len() as int);
        assert(e.take(e.len() as int) =~= e);
        assert(trim_of(e) == e);
        assert(ps.last() == e);
        assert(ps.len() > 0);
        assert(entries_from(ps, base) == entries_from(ps.drop_last(), base).push(join_of(base, e)));
        assert(q.map_values(|e: Seq<char>| join_of(base, e)) =~= q0.map_values(|e: Seq<char>| join_of(base, e)).push(join_of(base, e)));
    }
}

/// Exporting a queue and importing the file gives the queue back (entries
/// resolved against the playlist's directory, so absolute entries come back
/// verbatim), for entries that are non-empty single lines without surrounding
/// white space and not starting with `#`.
pub proof fn law_m3u_round_trip(q: Seq<Seq<char>>, base: Seq<char>)
    requires
        forall|k: int| 0 <= k < q.len() ==> clean_entry(#[trigger] q[k]),
    ensures
        m3u_entries_of(m3u_of(q), base) == q.map_values(|e: Seq<char>| join_of(base, e)),
        (forall|k: int| 0 <= k < q.len() ==> (#[trigger] q[k])[0] == '/') ==> m3u_entries_of(m3u_of(q), base) == q,
{
    lemma_m3u_pieces(q);
    lemma_entries_of_lines(q, base);
    let ps = seq!["#EXTM3U"@] + q + seq![Seq::<char>::empty()];
    assert(ps.drop_last() =~= seq!["#EXTM3U"@] + q);
    lemma_trim_start_at(Seq::<char>::empty(), 0);
    lemma_trim_end_at(Seq::<char>::empty(), 0);
    if forall|k: int| 0 <= k < q.len() ==> (#[trigger] q[k])[0] == '/' {
        assert(q.map_values(|e: Seq<char>| join_of(base, e)) =~= q);
    }
}

} // verus!
