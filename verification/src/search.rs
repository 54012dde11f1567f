//! The fuzzy finder: scores every indexed track against the query and ranks
//! the matches, best first.
use vstd::prelude::*;
use crate::text::chars_of;
use crate::text::push_char;
use crate::path::comps_of;
use crate::path::components;
use crate::order::chars_lt;
use crate::order::chars_less;
use crate::order::lemma_chars_lt_irrefl;
use crate::order::lemma_chars_lt_trans;
use crate::util::fuzzy_of;
use crate::util::fuzzy_score;

verus! {

/// Unicode lower-casing of `s`, as `str::to_lowercase` computes it.
pub uninterp spec fn lowercase_of(s: Seq<char>) -> Seq<char>;

/// `str::to_lowercase`: its result is named `lowercase_of` of the input; the
/// Unicode case tables are not restated here.
#[verifier::external_body]
fn lowercase(s: &str) -> (r: String)
    ensures
        r@ == lowercase_of(s@),
{
    s.to_lowercase()
}

/// Whether `p` is an absolute path.
pub open spec fn is_abs(p: Seq<char>) -> bool {
    p.len() > 0 && p[0] == '/'
}

/// Components joined by single separators, without a leading one.
pub open spec fn joined(cs: Seq<Seq<char>>) -> Seq<char>
    decreases cs.len(),
{
    if cs.len() == 0 {
        seq![]
    } else if cs.len() == 1 {
        cs[0]
    } else {
        joined(cs.drop_last()) + seq!['/'] + cs.last()
    }
}

/// `p` relative to `root` when `root`'s components lead `p`'s (and both are
/// absolute or both relative), else `p` unchanged.
pub open spec fn strip_of(p: Seq<char>, root: Seq<char>) -> Seq<char> {
    let pc = comps_of(p);
    let rc = comps_of(root);
    if is_abs(p) == is_abs(root) && rc.len() <= pc.len() && pc.take(rc.len() as int) == rc {
        joined(pc.skip(rc.len() as int))
    } else {
        p
    }
}

/// `c` without its `.` components.
pub open spec fn drop_dots(c: Seq<Seq<char>>) -> Seq<Seq<char>>
    decreases c.len(),
{
    if c.len() == 0 {
        c
    } else if c.last() == seq!['.'] {
        drop_dots(c.drop_last())
    } else {
        drop_dots(c.drop_last()).push(c.last())
    }
}

/// A path's components as `Path::components` yields them: `/` for the root;
/// a `.` only as the first component of a relative path that starts with a
/// `.` segment, every other `.` dropped; `..` and names as they stand.
pub open spec fn std_comps(p: Seq<char>) -> Seq<Seq<char>> {
    let c = comps_of(p);
    if is_abs(p) {
        seq![seq!['/']] + drop_dots(c)
    } else if c.len() > 0 && c[0] == seq!['.'] {
        seq![c[0]] + drop_dots(c.drop_first())
    } else {
        drop_dots(c)
    }
}

/// The kind of a component, in `Path`'s order: root, `.`, `..`, a name.
pub open spec fn comp_rank(x: Seq<char>) -> int {
    if x == seq!['/'] {
        0
    } else if x == seq!['.'] {
        1
    } else if x == seq!['.', '.'] {
        2
    } else {
        3
    }
}

/// Component order: by kind, names in code-point order.
pub open spec fn comp_lt(x: Seq<char>, y: Seq<char>) -> bool {
    comp_rank(x) < comp_rank(y) || (comp_rank(x) == 3 && comp_rank(y) == 3 && chars_lt(x, y))
}

/// Strict lexicographic order of component lists (see `comp_lt`).
pub open spec fn comps_lt(a: Seq<Seq<char>>, b: Seq<Seq<char>>) -> bool
    decreases a.len(),
{
    if a.len() == 0 {
        b.len() > 0
    } else if b.len() == 0 {
        false
    } else if a[0] != b[0] {
        comp_lt(a[0], b[0])
    } else {
        comps_lt(a.drop_first(), b.drop_first())
    }
}

/// Path order as `Path`'s: component by component (an absolute path's root
/// sorts before any other first component).
pub open spec fn path_lt(a: Seq<char>, b: Seq<char>) -> bool {
    comps_lt(std_comps(a), std_comps(b))
}

/// A scored match: `(score, path)`.
pub type Scored = (int, Seq<char>);

/// Whether match `a` ranks strictly before `b`: lower score first, then path order.
pub open spec fn ranked_before(a: Scored, b: Scored) -> bool {
    a.0 < b.0 || (a.0 == b.0 && path_lt(a.1, b.1))
}

/// Where `x` goes among the ranked `r`: before the first entry it ranks before.
pub open spec fn rank_pos(r: Seq<Scored>, x: Scored) -> int
    decreases r.len(),
{
    if r.len() == 0 {
        0
    } else if ranked_before(x, r[0]) {
        0
    } else {
        1 + rank_pos(r.drop_first(), x)
    }
}

/// Stable insertion sort of the matches by rank.
pub open spec fn ranked(s: Seq<Scored>) -> Seq<Scored>
    decreases s.len(),
{
    if s.len() == 0 {
        s
    } else {
        let r = ranked(s.drop_last());
        r.insert(rank_pos(r, s.last()), s.last())
    }
}

/// The haystack a track is matched in: its path below `root`, lower-cased.
pub open spec fn hay_of(p: Seq<char>, root: Seq<char>) -> Seq<char> {
    lowercase_of(strip_of(p, root))
}

/// The matches among `idx` for the lower-cased query `q`, in index order.
/// A haystack longer than `i32::MAX` characters is not scored.
pub open spec fn scored_of(q: Seq<char>, idx: Seq<Seq<char>>, root: Seq<char>) -> Seq<Scored>
    decreases idx.len(),
{
    if idx.len() == 0 {
        seq![]
    } else {
        let rest = scored_of(q, idx.drop_last(), root);
        let p = idx.last();
        let h = hay_of(p, root);
        if h.len() <= i32::MAX {
            match fuzzy_of(q, h) {
                Some(s) => rest.push((s, p)),
                None => rest,
            }
        } else {
            rest
        }
    }
}

/// The finder's result list for `query`: the matching tracks, best first.
pub open spec fn ranked_matches_of(query: Seq<char>, idx: Seq<Seq<char>>, root: Seq<char>) -> Seq<Seq<char>> {
    ranked(scored_of(lowercase_of(query), idx, root)).map_values(|e: Scored| e.1)
}

/// The matches among `idx` for the query `q`, in index order, where `hays[i]`
/// is the text that track `idx[i]` is matched in. A haystack longer than
/// `i32::MAX` characters is not scored.
pub open spec fn scored_hays(q: Seq<char>, idx: Seq<Seq<char>>, hays: Seq<Seq<char>>) -> Seq<Scored>
    decreases idx.len(),
{
    if idx.len() == 0 {
        seq![]
    } else {
        let rest = scored_hays(q, idx.drop_last(), hays.drop_last());
        let h = hays.last();
        if h.len() <= i32::MAX {
            match fuzzy_of(q, h) {
                Some(s) => rest.push((s, idx.last())),
                None => rest,
            }
        } else {
            rest
        }
    }
}

/// The finder's haystacks: each track's path below `root`, lower-cased.
pub open spec fn hays_of(idx: Seq<Seq<char>>, root: Seq<char>) -> Seq<Seq<char>> {
    idx.map_values(|p: Seq<char>| hay_of(p, root))
}

proof fn lemma_scored_hays(q: Seq<char>, idx: Seq<Seq<char>>, root: Seq<char>)
    ensures
        scored_hays(q, idx, hays_of(idx, root)) == scored_of(q, idx, root),
    decreases idx.len(),
{
    if idx.len() > 0 {
        assert(hays_of(idx, root).drop_last() =~= hays_of(idx.drop_last(), root));
        lemma_scored_hays(q, idx.drop_last(), root);
    }
}

fn string_from(v: &Vec<char>) -> (s: String)
    ensures
        s@ == v@,
{
    let mut s = String::new();
    let mut i: usize = 0;
    while i < v.len()
        invariant
            i <= v.len(),
            s@ == v@.take(i as int),
        decreases v.len() - i,
    {
        push_char(&mut s, v[i]);
        i += 1;
        assert(s@ =~= v@.take(i as int));
    }
    assert(v@.take(i as int) =~= v@);
    s
}

fn joined_of(cs: &Vec<Vec<char>>, from: usize) -> (r: Vec<char>)
    requires
        from <= cs@.len(),
    ensures
        r@ == joined(cs@.map_values(|c: Vec<char>| c@).skip(from as int)),
{
    let ghost all = cs@.map_values(|c: Vec<char>| c@);
    let mut out: Vec<char> = Vec::new();
    let mut i = from;
    assert(all.skip(from as int).take(0) =~= Seq::<Seq<char>>::empty());
    while i < cs.len()
        invariant
            from <= i <= cs@.len(),
            all == cs@.map_values(|c: Vec<char>| c@),
            out@ == joined(all.skip(from as int).take(i - from)),
        decreases cs.len() - i,
    {
        let ghost before = out@;
        let ghost part = all.skip(from as int).take(i + 1 - from);
        assert(part.drop_last() =~= all.skip(from as int).take(i - from));
        assert(part.last() == cs@[i as int]@);
        if i > from {
            out.push('/');
        }
        let c = &cs[i];
        let mut j: usize = 0;
        let ghost mid = out@;
        while j < c.len()
            invariant
                j <= c@.len(),
                out@ == mid + c@.take(j as int),
            decreases c.len() - j,
        {
            out.push(c[j]);
            j += 1;
            assert(out@ =~= mid + c@.take(j as int));
        }
        assert(c@.take(j as int) =~= c@);
        proof {
            if i == from {
                assert(part.len() == 1);
                assert(before == joined(Seq::<Seq<char>>::empty()));
                assert(out@ =~= part[0]);
            } else {
                assert(out@ =~= before + seq!['/'] + part.last());
            }
        }
        i += 1;
    }
    assert(all.skip(from as int).take(i - from) =~= all.skip(from as int));
    out
}

/// `p` relative to `root` (see `strip_of`).
pub fn strip_root(p: &str, root: &str) -> (r: String)
    ensures
        r@ == strip_of(p@, root@),
{
    let pv = chars_of(p);
    let rv = chars_of(root);
    let pc = components(&pv);
    let rc = components(&rv);
    let ghost pcs = pc@.map_values(|c: Vec<char>| c@);
    let ghost rcs = rc@.map_values(|c: Vec<char>| c@);
    assert(pcs =~= comps_of(p@));
    assert(rcs =~= comps_of(root@));
    let pa = pv.len() > 0 && pv[0] == '/';
    let ra = rv.len() > 0 && rv[0] == '/';
    if pa != ra || rc.len() > pc.len() {
        return string_from(&pv);
    }
    let mut k: usize = 0;
    while k < rc.len()
        invariant
            k <= rc@.len() <= pc@.len(),
            pv@ == p@,
            pcs == pc@.map_values(|c: Vec<char>| c@),
            rcs == rc@.map_values(|c: Vec<char>| c@),
            pcs == comps_of(p@),
            rcs == comps_of(root@),
            pa == is_abs(p@),
            ra == is_abs(root@),
            pa == ra,
            forall|j: int| 0 <= j < k ==> pc@[j]@ == rc@[j]@,
        decreases rc.len() - k,
    {
        if !crate::text::vec_eq(&pc[k], &rc[k]) {
            proof {
                assert(pcs.take(rc@.len() as int)[k as int] != rcs[k as int]);
            }
            return string_from(&pv);
        }
        k += 1;
    }
    assert(pcs.take(rc@.len() as int) =~= rcs);
    let j = joined_of(&pc, rc.len());
    string_from(&j)
}

/// Component-list order (see `comps_lt`).
fn comps_less(a: &Vec<Vec<char>>, b: &Vec<Vec<char>>) -> (r: bool)
    ensures
        r == comps_lt(a@.map_values(|c: Vec<char>| c@), b@.map_values(|c: Vec<char>| c@)),
{
    let ghost av = a@.map_values(|c: Vec<char>| c@);
    let ghost bv = b@.map_values(|c: Vec<char>| c@);
    let mut i: usize = 0;
    assert(av.skip(0) =~= av);
    assert(bv.skip(0) =~= bv);
    while i < a.len() && i < b.len() && crate::text::vec_eq(&a[i], &b[i])
        invariant
            i <= a@.len(),
            i <= b@.len(),
            av == a@.map_values(|c: Vec<char>| c@),
            bv == b@.map_values(|c: Vec<char>| c@),
            comps_lt(av.skip(i as int), bv.skip(i as int)) == comps_lt(av, bv),
        decreases a.len() - i,
    {
        assert(av.skip(i as int).drop_first() =~= av.skip(i + 1));
        assert(bv.skip(i as int).drop_first() =~= bv.skip(i + 1));
        assert(av.skip(i as int)[0] == av[i as int]);
        assert(bv.skip(i as int)[0] == bv[i as int]);
        i += 1;
    }
    if i == a.len() {
        assert(av.skip(i as int).len() == 0);
        i < b.len()
    } else if i == b.len() {
        assert(bv.skip(i as int).len() == 0);
        false
    } else {
        assert(av.skip(i as int)[0] == av[i as int]);
        assert(bv.skip(i as int)[0] == bv[i as int]);
        comp_less(&a[i], &b[i])
    }
}

fn comp_rank_of(x: &Vec<char>) -> (r: u8)
    ensures
        r as int == comp_rank(x@),
{
    if x.len() == 1 && x[0] == '/' {
        assert(x@ =~= seq!['/']);
        0
    } else if x.len() == 1 && x[0] == '.' {
        assert(x@ =~= seq!['.']);
        1
    } else if x.len() == 2 && x[0] == '.' && x[1] == '.' {
        assert(x@ =~= seq!['.', '.']);
        2
    } else {
        proof {
            if x@ == seq!['/'] || x@ == seq!['.'] {
                assert(x@[0] == x[0]);
            }
            if x@ == seq!['.', '.'] {
                assert(x@[0] == x[0] && x@[1] == x[1]);
            }
        }
        3
    }
}

/// Component order (see `comp_lt`).
fn comp_less(x: &Vec<char>, y: &Vec<char>) -> (r: bool)
    ensures
        r == comp_lt(x@, y@),
{
    let rx = comp_rank_of(x);
    let ry = comp_rank_of(y);
    if rx != ry {
        rx < ry
    } else if rx == 3 {
        chars_less(x, y)
    } else {
        false
    }
}

/// The components of `pv` as `Path` yields them (see `std_comps`).
fn std_components(pv: &Vec<char>) -> (out: Vec<Vec<char>>)
    ensures
        out@.map_values(|c: Vec<char>| c@) == std_comps(pv@),
{
    let comps = components(pv);
    let ghost c = comps_of(pv@);
    assert(comps@.map_values(|x: Vec<char>| x@) =~= c);
    let abs = pv.len() > 0 && pv[0] == '/';
    let mut out: Vec<Vec<char>> = Vec::new();
    let mut k: usize = 0;
    let ghost head: Seq<Seq<char>> = seq![];
    if abs {
        let r = vec!['/'];
        assert(r@ =~= seq!['/']);
        out.push(r);
        proof { head = seq![seq!['/']]; }
    } else if comps.len() > 0 && comps[0].len() == 1 && comps[0][0] == '.' {
        let d = vec!['.'];
        assert(d@ =~= seq!['.']);
        assert(comps@[0]@ =~= seq!['.']);
        out.push(d);
        proof { head = seq![c[0]]; }
        k = 1;
    }
    proof {
        assert(out@.map_values(|x: Vec<char>| x@) =~= head);
        if !abs {
            if c.len() > 0 && c[0] == seq!['.'] {
                assert(comps@[0]@ == c[0]);
                assert(comps@[0]@.len() == 1 && comps@[0]@[0] == '.');
            } else if k == 1 {
                assert(comps@[0]@ =~= seq!['.']);
            }
        }
        assert(is_abs(pv@) == abs);
    }
    let ghost k0 = k;
    let ghost rest = c.skip(k0 as int);
    assert(std_comps(pv@) == head + drop_dots(rest)) by {
        if !abs && k0 == 1 {
            assert(rest =~= c.drop_first());
        } else {
            assert(rest =~= c);
        }
    }
    while k < comps.len()
        invariant
            k0 <= k <= comps@.len(),
            comps@.len() == c.len(),
            forall|j: int| 0 <= j < c.len() ==> #[trigger] comps@[j]@ == c[j],
            rest == c.skip(k0 as int),
            out@.map_values(|x: Vec<char>| x@) == head + drop_dots(rest.take(k - k0)),
        decreases comps.len() - k,
    {
        let ghost before = out@.map_values(|x: Vec<char>| x@);
        assert(rest.take(k + 1 - k0).drop_last() =~= rest.take(k - k0));
        assert(rest.take(k + 1 - k0).last() == c[k as int]);
        let x = &comps[k];
        let dot = x.len() == 1 && x[0] == '.';
        proof {
            if dot {
                assert(x@ =~= seq!['.']);
            } else if x@ == seq!['.'] {
                assert(x@[0] == x[0]);
            }
        }
        if !dot {
            out.push(x.clone());
            assert(out@.map_values(|y: Vec<char>| y@) =~= before.push(c[k as int]));
        }
        k += 1;
    }
    assert(rest.take(k - k0) =~= rest);
    out
}

/// One scored match with its path's components for ordering.
struct Hit {
    score: i32,
    path: String,
    comps: Vec<Vec<char>>,
}

impl View for Hit {
    type V = Scored;

    closed spec fn view(&self) -> Scored {
        (self.score as int, self.path@)
    }
}

spec fn hit_ok(h: Hit) -> bool {
    h.comps@.map_values(|c: Vec<char>| c@) == std_comps(h.path@)
}

fn hit_less(a: &Hit, b: &Hit) -> (r: bool)
    requires
        hit_ok(*a),
        hit_ok(*b),
    ensures
        r == ranked_before(a@, b@),
{
    if a.score != b.score {
        return a.score < b.score;
    }
    comps_less(&a.comps, &b.comps)
}

fn make_hit(score: i32, path: String) -> (h: Hit)
    ensures
        hit_ok(h),
        h@ == (score as int, path@),
{
    let pv = chars_of(path.as_str());
    let comps = std_components(&pv);
    Hit { score, path, comps }
}

proof fn lemma_rank_pos(r: Seq<Scored>, x: Scored, p: int)
    requires
        0 <= p <= r.len(),
        forall|j: int| 0 <= j < p ==> !ranked_before(x, #[trigger] r[j]),
        p < r.len() ==> ranked_before(x, r[p]),
    ensures
        rank_pos(r, x) == p,
    decreases r.len(),
{
    if r.len() > 0 && p > 0 {
        assert forall|j: int| 0 <= j < p - 1 implies !ranked_before(x, #[trigger] r.drop_first()[j]) by {
            assert(r.drop_first()[j] == r[j + 1]);
        }
        if p - 1 < r.drop_first().len() {
            assert(r.drop_first()[p - 1] == r[p]);
        }
        lemma_rank_pos(r.drop_first(), x, p - 1);
    }
}

spec fn hits_view(s: Seq<Hit>) -> Seq<Scored> {
    s.map_values(|h: Hit| h@)
}

/// The paths of `hits`, best ranked first (stable insertion sort by rank).
fn rank_hits(hits: Vec<Hit>) -> (res: Vec<String>)
    requires
        forall|k: int| 0 <= k < hits@.len() ==> hit_ok(#[trigger] hits@[k]),
    ensures
        res.deep_view() == ranked(hits_view(hits@)).map_values(|e: Scored| e.1),
{
    let mut hits = hits;
    let ghost all = hits_view(hits@);
    let mut rev: Vec<Hit> = Vec::new();
    while hits.len() > 0
        invariant
            all == hits_view(hits@) + hits_view(rev@).reverse(),
            forall|k: int| 0 <= k < hits@.len() ==> hit_ok(#[trigger] hits@[k]),
            forall|k: int| 0 <= k < rev@.len() ==> hit_ok(#[trigger] rev@[k]),
        decreases hits.len(),
    {
        let ghost s0 = hits@;
        let ghost r0 = rev@;
        let x = hits.pop().unwrap();
        assert(hit_ok(s0[s0.len() - 1]));
        rev.push(x);
        assert(hits_view(s0) =~= hits_view(hits@).push(x@));
        assert(hits_view(rev@).reverse() =~= seq![x@] + hits_view(r0).reverse());
        assert(all =~= hits_view(hits@) + hits_view(rev@).reverse());
    }
    assert(all =~= hits_view(rev@).reverse());
    let ghost n = rev@.len();
    let mut out: Vec<Hit> = Vec::new();
    assert(all.take(0) =~= Seq::<Scored>::empty());
    while rev.len() > 0
        invariant
            rev@.len() <= n,
            all.len() == n,
            hits_view(rev@).reverse() == all.subrange(n - rev@.len(), n as int),
            hits_view(out@) == ranked(all.take(n - rev@.len())),
            forall|k: int| 0 <= k < rev@.len() ==> hit_ok(#[trigger] rev@[k]),
            forall|k: int| 0 <= k < out@.len() ==> hit_ok(#[trigger] out@[k]),
        decreases rev.len(),
    {
        let ghost k = n - rev@.len();
        let ghost r0 = rev@;
        let x = rev.pop().unwrap();
        proof {
            assert(hit_ok(r0[r0.len() - 1]));
            assert(hits_view(r0).reverse()[0] == x@);
            assert(all.subrange(k, n as int)[0] == all[k]);
            assert(hits_view(rev@).reverse() =~= hits_view(r0).reverse().drop_first());
            assert(hits_view(rev@).reverse() =~= all.subrange(n - rev@.len(), n as int));
            assert(all.take(k + 1).drop_last() =~= all.take(k));
            assert(all.take(k + 1).last() == x@);
        }
        let mut p: usize = 0;
        while p < out.len() && !hit_less(&x, &out[p])
            invariant
                p <= out@.len(),
                hit_ok(x),
                forall|k: int| 0 <= k < out@.len() ==> hit_ok(#[trigger] out@[k]),
                forall|j: int| 0 <= j < p ==> !ranked_before(x@, #[trigger] hits_view(out@)[j]),
            decreases out.len() - p,
        {
            p += 1;
        }
        proof {
            lemma_rank_pos(hits_view(out@), x@, p as int);
        }
        let ghost o0 = out@;
        out.insert(p, x);
        assert(hits_view(out@) =~= hits_view(o0).insert(p as int, x@));
        assert forall|j: int| 0 <= j < out@.len() implies hit_ok(#[trigger] out@[j]) by {
            if j < p {
                assert(out@[j] == o0[j]);
            } else if j > p {
                assert(out@[j] == o0[j - 1]);
            }
        }
    }
    assert(all.take(n as int) =~= all);
    // The paths, in rank order.
    let mut res: Vec<String> = Vec::new();
    let mut j: usize = 0;
    while j < out.len()
        invariant
            j <= out@.len(),
            res.deep_view() == hits_view(out@).map_values(|e: Scored| e.1).take(j as int),
        decreases out.len() - j,
    {
        let ghost before = res.deep_view();
        assert(hits_view(out@)[j as int] == out@[j as int]@);
        let c = out[j].path.clone();
        assert(c@ == out@[j as int].path@);
        res.push(c);
        assert(res.deep_view() =~= before.push(out@[j as int].path@));
        j += 1;
        assert(res.deep_view() =~= hits_view(out@).map_values(|e: Scored| e.1).take(j as int));
    }
    assert(hits_view(out@).map_values(|e: Scored| e.1).take(j as int) =~= hits_view(out@).map_values(|e: Scored| e.1));
    res
}

/// Ranks the tracks of `index` that match `query`, best first: `hays[i]` is
/// the text track `index[i]` is matched in, and `query` and the haystacks are
/// compared as given (the finder lower-cases both beforehand).
pub fn rank_hays(query: &str, index: &Vec<String>, hays: &Vec<String>) -> (r: Vec<String>)
    requires
        hays@.len() == index@.len(),
    ensures
        r.deep_view() == ranked(scored_hays(query@, index.deep_view(), hays.deep_view())).map_values(|e: Scored| e.1),
{
    let ghost idx = index.deep_view();
    let ghost hs = hays.deep_view();
    // Score in index order.
    let mut hits: Vec<Hit> = Vec::new();
    let mut i: usize = 0;
    while i < index.len()
        invariant
            i <= index@.len(),
            hays@.len() == index@.len(),
            idx == index.deep_view(),
            hs == hays.deep_view(),
            hits_view(hits@) == scored_hays(query@, idx.take(i as int), hs.take(i as int)),
            forall|k: int| 0 <= k < hits@.len() ==> hit_ok(#[trigger] hits@[k]),
        decreases index.len() - i,
    {
        proof {
            assert(idx.take(i + 1).drop_last() =~= idx.take(i as int));
            assert(hs.take(i + 1).drop_last() =~= hs.take(i as int));
            assert(idx.take(i + 1).last() == index@[i as int]@);
            assert(hs.take(i + 1).last() == hays@[i as int]@);
        }
        let hc = chars_of(hays[i].as_str());
        if hc.len() <= 0x7fff_ffff {
            match fuzzy_score(query, hays[i].as_str()) {
                Some(s) => {
                    let h = make_hit(s, index[i].clone());
                    let ghost before = hits@;
                    hits.push(h);
                    assert(hits_view(hits@) =~= hits_view(before).push(h@));
                },
                None => {},
            }
        }
        i += 1;
    }
    assert(idx.take(i as int) =~= idx);
    assert(hs.take(i as int) =~= hs);
    rank_hits(hits)
}

/// The finder's result list (`ranked_matches_of`): every indexed track whose
/// path below `root` contains the query's characters in order (ignoring ASCII
/// case, after lower-casing both), ranked by score, then by path.
pub fn rank_matches(query: &str, index: &Vec<String>, root: &str) -> (r: Vec<String>)
    ensures
        r.deep_view() == ranked_matches_of(query@, index.deep_view(), root@),
{
    let q = lowercase(query);
    let ghost idx = index.deep_view();
    let mut hays: Vec<String> = Vec::new();
    let mut i: usize = 0;
    while i < index.len()
        invariant
            i <= index@.len(),
            idx == index.deep_view(),
            hays.deep_view() == hays_of(idx, root@).take(i as int),
        decreases index.len() - i,
    {
        let stripped = strip_root(index[i].as_str(), root);
        let hay = lowercase(stripped.as_str());
        let ghost before = hays.deep_view();
        hays.push(hay);
        assert(hays.deep_view() =~= before.push(hay_of(idx[i as int], root@)));
        assert(hays_of(idx, root@).take(i + 1) =~= hays_of(idx, root@).take(i as int).push(hay_of(idx[i as int], root@)));
        i += 1;
    }
    assert(hays_of(idx, root@).take(i as int) =~= hays_of(idx, root@));
    proof {
        lemma_scored_hays(q@, idx, root@);
    }
    rank_hays(q.as_str(), index, &hays)
}

proof fn lemma_comp_lt_irrefl(x: Seq<char>)
    ensures
        !comp_lt(x, x),
{
    lemma_chars_lt_irrefl(x);
}

proof fn lemma_comp_lt_trans(x: Seq<char>, y: Seq<char>, z: Seq<char>)
    requires
        comp_lt(x, y),
        comp_lt(y, z),
    ensures
        comp_lt(x, z),
{
    if comp_rank(x) == 3 && comp_rank(y) == 3 && comp_rank(z) == 3 {
        lemma_chars_lt_trans(x, y, z);
    }
}

proof fn lemma_comps_lt_irrefl(a: Seq<Seq<char>>)
    ensures
        !comps_lt(a, a),
    decreases a.len(),
{
    if a.len() > 0 {
        lemma_comps_lt_irrefl(a.drop_first());
    }
}

proof fn lemma_comps_lt_trans(a: Seq<Seq<char>>, b: Seq<Seq<char>>, c: Seq<Seq<char>>)
    requires
        comps_lt(a, b),
        comps_lt(b, c),
    ensures
        comps_lt(a, c),
    decreases a.len(),
{
    if a.len() > 0 {
        if a[0] == b[0] && b[0] == c[0] {
            lemma_comps_lt_trans(a.drop_first(), b.drop_first(), c.drop_first());
        } else if a[0] != b[0] && b[0] != c[0] {
            lemma_comp_lt_trans(a[0], b[0], c[0]);
            if a[0] == c[0] {
                lemma_comp_lt_irrefl(a[0]);
            }
        }
    }
}

proof fn lemma_ranked_before_trans(a: Scored, b: Scored, c: Scored)
    requires
        ranked_before(a, b),
        ranked_before(b, c),
    ensures
        ranked_before(a, c),
{
    if a.0 == b.0 && b.0 == c.0 {
        lemma_comps_lt_trans(std_comps(a.1), std_comps(b.1), std_comps(c.1));
    }
}

proof fn lemma_ranked_before_irrefl(a: Scored)
    ensures
        !ranked_before(a, a),
{
    lemma_comps_lt_irrefl(std_comps(a.1));
}

proof fn lemma_rank_pos_props(r: Seq<Scored>, x: Scored)
    ensures
        0 <= rank_pos(r, x) <= r.len(),
        forall|j: int| 0 <= j < rank_pos(r, x) ==> !ranked_before(x, #[trigger] r[j]),
        rank_pos(r, x) < r.len() ==> ranked_before(x, r[rank_pos(r, x)]),
    decreases r.len(),
{
    if r.len() > 0 && !ranked_before(x, r[0]) {
        lemma_rank_pos_props(r.drop_first(), x);
        assert forall|j: int| 0 <= j < rank_pos(r, x) implies !ranked_before(x, #[trigger] r[j]) by {
            if j > 0 {
                assert(r[j] == r.drop_first()[j - 1]);
            }
        }
    }
}

/// The finder's ranking is best first: no match ranks strictly before one
/// placed ahead of it (lower score first, then path order), and it holds
/// exactly the matches it was given.
pub proof fn law_ranked_sorted(s: Seq<Scored>)
    ensures
        forall|i: int, j: int| 0 <= i < j < ranked(s).len() ==> !ranked_before(#[trigger] ranked(s)[j], #[trigger] ranked(s)[i]),
        ranked(s).to_multiset() == s.to_multiset(),
    decreases s.len(),
{
    broadcast use vstd::seq_lib::group_to_multiset_ensures;
    if s.len() > 0 {
        let r = ranked(s.drop_last());
        let x = s.last();
        law_ranked_sorted(s.drop_last());
        lemma_rank_pos_props(r, x);
        let p = rank_pos(r, x);
        let t = r.insert(p, x);
        assert(ranked(s) == t);
        assert forall|i: int, j: int| 0 <= i < j < t.len() implies !ranked_before(#[trigger] t[j], #[trigger] t[i]) by {
            if j < p {
                assert(t[i] == r[i] && t[j] == r[j]);
            } else if j == p {
                assert(t[i] == r[i] && t[j] == x);
            } else if i == p {
                assert(t[i] == x && t[j] == r[j - 1]);
                if ranked_before(r[j - 1], x) {
                    if j - 1 == p {
                        lemma_ranked_before_trans(x, r[p], x);
                        lemma_ranked_before_irrefl(x);
                    } else {
                        lemma_ranked_before_trans(r[j - 1], x, r[p]);
                        assert(!ranked_before(r[j - 1], r[p]));
                    }
                }
            } else if i < p {
                assert(t[i] == r[i] && t[j] == r[j - 1]);
            } else {
                assert(t[i] == r[i - 1] && t[j] == r[j - 1]);
            }
        }
        assert(s =~= s.drop_last().push(x));
        vstd::seq_lib::to_multiset_insert(r, p, x);
    }
}

/// The paths of scored matches.
pub open spec fn paths_of(s: Seq<Scored>) -> Seq<Seq<char>> {
    s.map_values(|e: Scored| e.1)
}

proof fn lemma_ranked_paths(s: Seq<Scored>)
    ensures
        paths_of(ranked(s)).to_multiset() == paths_of(s).to_multiset(),
    decreases s.len(),
{
    broadcast use vstd::seq_lib::group_to_multiset_ensures;
    if s.len() > 0 {
        let r = ranked(s.drop_last());
        let x = s.last();
        lemma_ranked_paths(s.drop_last());
        lemma_rank_pos_props(r, x);
        let p = rank_pos(r, x);
        assert(paths_of(r.insert(p, x)) =~= paths_of(r).insert(p, x.1));
        vstd::seq_lib::to_multiset_insert(paths_of(r), p, x.1);
        assert(paths_of(s) =~= paths_of(s.drop_last()).push(x.1));
    }
}

/// The finder lists exactly the matching tracks, each as often as it is
/// indexed: its result is a permutation of the matches in index order.
pub proof fn law_rank_matches_permutation(query: Seq<char>, idx: Seq<Seq<char>>, root: Seq<char>)
    ensures
        ranked_matches_of(query, idx, root).to_multiset() == paths_of(scored_of(lowercase_of(query), idx, root)).to_multiset(),
{
    let s = scored_of(lowercase_of(query), idx, root);
    lemma_ranked_paths(s);
    assert(ranked_matches_of(query, idx, root) =~= paths_of(ranked(s)));
}

/// Paths in path order (component by component), equal paths kept in input order.
pub open spec fn path_sorted_of(v: Seq<Seq<char>>) -> Seq<Seq<char>> {
    ranked(v.map_values(|p: Seq<char>| (0int, p))).map_values(|e: Scored| e.1)
}

/// Sorts paths as `PathBuf`'s order does: component by component.
pub fn sort_paths(v: Vec<String>) -> (r: Vec<String>)
    ensures
        r.deep_view() == path_sorted_of(v.deep_view()),
{
    let ghost src = v.deep_view();
    let mut hits: Vec<Hit> = Vec::new();
    let mut i: usize = 0;
    while i < v.len()
        invariant
            i <= v@.len(),
            src == v.deep_view(),
            hits_view(hits@) == src.take(i as int).map_values(|p: Seq<char>| (0int, p)),
            forall|k: int| 0 <= k < hits@.len() ==> hit_ok(#[trigger] hits@[k]),
        decreases v.len() - i,
    {
        let c = v[i].clone();
        assert(c@ == src[i as int]);
        let h = make_hit(0, c);
        let ghost before = hits@;
        let ghost hv = h@;
        hits.push(h);
        assert(hits_view(hits@) =~= hits_view(before).push(hv));
        assert(src.take(i + 1) =~= src.take(i as int).push(src[i as int]));
        i += 1;
        assert(hits_view(hits@) =~= src.take(i as int).map_values(|p: Seq<char>| (0int, p)));
    }
    assert(src.take(i as int) =~= src);
    rank_hits(hits)
}

} // verus!
