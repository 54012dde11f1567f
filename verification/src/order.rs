//! Listing order: directories first, then by name in code-point order (the
//! order `String`'s `Ord` gives), keeping the input order among equal keys.
use vstd::prelude::*;

verus! {

/// Strict lexicographic order of character sequences by code point.
pub open spec fn chars_lt(a: Seq<char>, b: Seq<char>) -> bool
    decreases a.len(),
{
    if a.len() == 0 {
        b.len() > 0
    } else if b.len() == 0 {
        false
    } else if a[0] != b[0] {
        (a[0] as u32) < (b[0] as u32)
    } else {
        chars_lt(a.drop_first(), b.drop_first())
    }
}

/// The sort key of a listing row: `(is_dir, has_name, name, payload)`.
pub type KeyView = (bool, bool, Seq<char>, usize);

/// Whether row `a` sorts strictly before row `b`: directories first, then a
/// missing name before any name, then names in code-point order.
pub open spec fn key_before(a: KeyView, b: KeyView) -> bool {
    if a.0 != b.0 {
        a.0
    } else if a.1 != b.1 {
        !a.1
    } else {
        chars_lt(a.2, b.2)
    }
}

/// Where `x` goes in the sorted `r`: before the first row it sorts before.
pub open spec fn insert_pos(r: Seq<KeyView>, x: KeyView) -> int
    decreases r.len(),
{
    if r.len() == 0 {
        0
    } else if key_before(x, r[0]) {
        0
    } else {
        1 + insert_pos(r.drop_first(), x)
    }
}

/// Stable insertion sort of the rows.
pub open spec fn sorted_keys(s: Seq<KeyView>) -> Seq<KeyView>
    decreases s.len(),
{
    if s.len() == 0 {
        s
    } else {
        let r = sorted_keys(s.drop_last());
        r.insert(insert_pos(r, s.last()), s.last())
    }
}

/// One row to sort.
pub struct SortKey {
    pub dir: bool,
    pub has_name: bool,
    pub name: Vec<char>,
    pub id: usize,
}

impl View for SortKey {
    type V = KeyView;

    open spec fn view(&self) -> KeyView {
        (self.dir, self.has_name, self.name@, self.id)
    }
}

pub open spec fn keys_view(s: Seq<SortKey>) -> Seq<KeyView> {
    s.map_values(|k: SortKey| k@)
}

/// Code-point order on character vectors.
pub fn chars_less(a: &Vec<char>, b: &Vec<char>) -> (r: bool)
    ensures
        r == chars_lt(a@, b@),
{
    let mut i: usize = 0;
    assert(a@.skip(0) =~= a@);
    assert(b@.skip(0) =~= b@);
    while i < a.len() && i < b.len() && a[i] == b[i]
        invariant
            i <= a.len(),
            i <= b.len(),
            chars_lt(a@.skip(i as int), b@.skip(i as int)) == chars_lt(a@, b@),
        decreases a.len() - i,
    {
        assert(a@.skip(i as int).drop_first() =~= a@.skip(i + 1));
        assert(b@.skip(i as int).drop_first() =~= b@.skip(i + 1));
        assert(a@.skip(i as int)[0] == a@[i as int]);
        assert(b@.skip(i as int)[0] == b@[i as int]);
        i += 1;
    }
    if i == a.len() {
        assert(a@.skip(i as int).len() == 0);
        i < b.len()
    } else if i == b.len() {
        assert(b@.skip(i as int).len() == 0);
        false
    } else {
        assert(a@.skip(i as int)[0] == a@[i as int]);
        assert(b@.skip(i as int)[0] == b@[i as int]);
        (a[i] as u32) < (b[i] as u32)
    }
}

/// Whether row `a` sorts strictly before row `b` (see `key_before`).
pub fn key_less(a: &SortKey, b: &SortKey) -> (r: bool)
    ensures
        r == key_before(a@, b@),
{
    if a.dir != b.dir {
        a.dir
    } else if a.has_name != b.has_name {
        !a.has_name
    } else {
        chars_less(&a.name, &b.name)
    }
}

proof fn lemma_insert_pos(r: Seq<KeyView>, x: KeyView, p: int)
    requires
        0 <= p <= r.len(),
        forall|j: int| 0 <= j < p ==> !key_before(x, #[trigger] r[j]),
        p < r.len() ==> key_before(x, r[p]),
    ensures
        insert_pos(r, x) == p,
    decreases r.len(),
{
    if r.len() > 0 && p > 0 {
        assert forall|j: int| 0 <= j < p - 1 implies !key_before(x, #[trigger] r.drop_first()[j]) by {
            assert(r.drop_first()[j] == r[j + 1]);
        }
        if p - 1 < r.drop_first().len() {
            assert(r.drop_first()[p - 1] == r[p]);
        }
        lemma_insert_pos(r.drop_first(), x, p - 1);
    }
}

/// Stable sort of the rows (see `sorted_keys`).
pub fn sort_keys(keys: Vec<SortKey>) -> (out: Vec<SortKey>)
    ensures
        keys_view(out@) == sorted_keys(keys_view(keys@)),
{
    let ghost all = keys_view(keys@);
    let mut src = keys;
    let mut rev: Vec<SortKey> = Vec::new();
    // Reverse into `rev` so that popping yields the rows in input order.
    while src.len() > 0
        invariant
            all == keys_view(src@) + keys_view(rev@).reverse(),
        decreases src.len(),
    {
        let ghost s0 = src@;
        let ghost r0 = rev@;
        let x = src.pop().unwrap();
        rev.push(x);
        assert(keys_view(s0) =~= keys_view(src@).push(x@));
        assert(keys_view(rev@).reverse() =~= seq![x@] + keys_view(r0).reverse());
        assert(all =~= keys_view(src@) + keys_view(rev@).reverse());
    }
    assert(all =~= keys_view(rev@).reverse());
    let ghost n = rev@.len();
    let mut out: Vec<SortKey> = Vec::new();
    assert(all.take(0) =~= Seq::<KeyView>::empty());
    while rev.len() > 0
        invariant
            rev@.len() <= n,
            all.len() == n,
            keys_view(rev@).reverse() == all.subrange(n - rev@.len(), n as int),
            keys_view(out@) == sorted_keys(all.take(n - rev@.len())),
        decreases rev.len(),
    {
        let ghost k = n - rev@.len();
        let ghost r0 = rev@;
        let x = rev.pop().unwrap();
        proof {
            assert(keys_view(r0).reverse()[0] == x@);
            assert(all.subrange(k, n as int)[0] == all[k]);
            assert(keys_view(rev@).reverse() =~= keys_view(r0).reverse().drop_first());
            assert(keys_view(rev@).reverse() =~= all.subrange(n - rev@.len(), n as int));
            assert(all.take(k + 1).drop_last() =~= all.take(k));
            assert(all.take(k + 1).last() == x@);
        }
        let mut p: usize = 0;
        while p < out.len() && !key_less(&x, &out[p])
            invariant
                p <= out.len(),
                forall|j: int| 0 <= j < p ==> !key_before(x@, #[trigger] keys_view(out@)[j]),
            decreases out.len() - p,
        {
            p += 1;
        }
        proof {
            lemma_insert_pos(keys_view(out@), x@, p as int);
        }
        let ghost o0 = out@;
        out.insert(p, x);
        assert(keys_view(out@) =~= keys_view(o0).insert(p as int, x@));
    }
    assert(all.take(n as int) =~= all);
    out
}


/// Sorting keeps the rows: same length, and every output row is an input row.
pub proof fn lemma_sorted_keys_rows(s: Seq<KeyView>)
    ensures
        sorted_keys(s).len() == s.len(),
        forall|i: int| 0 <= i < s.len() ==> s.contains(#[trigger] sorted_keys(s)[i]),
    decreases s.len(),
{
    if s.len() > 0 {
        let r = sorted_keys(s.drop_last());
        lemma_sorted_keys_rows(s.drop_last());
        lemma_insert_pos_bounds(r, s.last());
        let p = insert_pos(r, s.last());
        let t = r.insert(p, s.last());
        assert forall|i: int| 0 <= i < s.len() implies s.contains(#[trigger] sorted_keys(s)[i]) by {
            assert(sorted_keys(s) == t);
            if i < p {
                assert(t[i] == r[i]);
                assert(s.drop_last().contains(r[i]));
                let j = choose|j: int| 0 <= j < s.drop_last().len() && s.drop_last()[j] == r[i];
                assert(s[j] == r[i]);
            } else if i == p {
                assert(t[i] == s[s.len() - 1]);
            } else {
                assert(t[i] == r[i - 1]);
                assert(s.drop_last().contains(r[i - 1]));
                let j = choose|j: int| 0 <= j < s.drop_last().len() && s.drop_last()[j] == r[i - 1];
                assert(s[j] == r[i - 1]);
            }
        }
    }
}

proof fn lemma_insert_pos_bounds(r: Seq<KeyView>, x: KeyView)
    ensures
        0 <= insert_pos(r, x) <= r.len(),
    decreases r.len(),
{
    if r.len() > 0 && !key_before(x, r[0]) {
        lemma_insert_pos_bounds(r.drop_first(), x);
    }
}

/// No sequence sorts before itself.
pub proof fn lemma_chars_lt_irrefl(a: Seq<char>)
    ensures
        !chars_lt(a, a),
    decreases a.len(),
{
    if a.len() > 0 {
        lemma_chars_lt_irrefl(a.drop_first());
    }
}

/// Code-point order is transitive.
pub proof fn lemma_chars_lt_trans(a: Seq<char>, b: Seq<char>, c: Seq<char>)
    requires
        chars_lt(a, b),
        chars_lt(b, c),
    ensures
        chars_lt(a, c),
    decreases a.len(),
{
    if a.len() > 0 && a[0] == b[0] && b[0] == c[0] {
        lemma_chars_lt_trans(a.drop_first(), b.drop_first(), c.drop_first());
    }
}

proof fn lemma_key_before_trans(a: KeyView, b: KeyView, c: KeyView)
    requires
        key_before(a, b),
        key_before(b, c),
    ensures
        key_before(a, c),
{
    if a.0 == b.0 && b.0 == c.0 && a.1 == b.1 && b.1 == c.1 {
        lemma_chars_lt_trans(a.2, b.2, c.2);
    }
}

proof fn lemma_key_before_irrefl(a: KeyView)
    ensures
        !key_before(a, a),
{
    lemma_chars_lt_irrefl(a.2);
}

proof fn lemma_insert_pos_props(r: Seq<KeyView>, x: KeyView)
    ensures
        0 <= insert_pos(r, x) <= r.len(),
        forall|j: int| 0 <= j < insert_pos(r, x) ==> !key_before(x, #[trigger] r[j]),
        insert_pos(r, x) < r.len() ==> key_before(x, r[insert_pos(r, x)]),
    decreases r.len(),
{
    if r.len() > 0 && !key_before(x, r[0]) {
        lemma_insert_pos_props(r.drop_first(), x);
        assert forall|j: int| 0 <= j < insert_pos(r, x) implies !key_before(x, #[trigger] r[j]) by {
            if j > 0 {
                assert(r[j] == r.drop_first()[j - 1]);
            }
        }
    }
}

/// The listing order is sorted: no row sorts strictly before a row placed
/// ahead of it (directories first, then names in code-point order).
pub proof fn law_sorted_keys_sorted(s: Seq<KeyView>)
    ensures
        forall|i: int, j: int| 0 <= i < j < sorted_keys(s).len() ==> !key_before(#[trigger] sorted_keys(s)[j], #[trigger] sorted_keys(s)[i]),
    decreases s.len(),
{
    if s.len() > 0 {
        let r = sorted_keys(s.drop_last());
        let x = s.last();
        law_sorted_keys_sorted(s.drop_last());
        lemma_insert_pos_props(r, x);
        let p = insert_pos(r, x);
        let t = r.insert(p, x);
        assert(sorted_keys(s) == t);
        assert forall|i: int, j: int| 0 <= i < j < t.len() implies !key_before(#[trigger] t[j], #[trigger] t[i]) by {
            if j < p {
                assert(t[i] == r[i] && t[j] == r[j]);
            } else if j == p {
                assert(t[i] == r[i] && t[j] == x);
            } else if i == p {
                assert(t[i] == x && t[j] == r[j - 1]);
                if key_before(r[j - 1], x) {
                    if j - 1 == p {
                        lemma_key_before_trans(x, r[p], x);
                        lemma_key_before_irrefl(x);
                    } else {
                        lemma_key_before_trans(r[j - 1], x, r[p]);
                        assert(!key_before(r[j - 1], r[p]));
                    }
                }
            } else if i < p {
                assert(t[i] == r[i] && t[j] == r[j - 1]);
            } else {
                assert(t[i] == r[i - 1] && t[j] == r[j - 1]);
            }
        }
    }
}

} // verus!
