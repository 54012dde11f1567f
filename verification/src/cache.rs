//! Persistent caches keyed by path: recursive directory stats validated by the
//! directory's mtime, and per-file tags validated by the file's size and mtime.
//! Stamps are read from disk, and the caches loaded and saved, by the caller.
use vstd::prelude::*;

verus! {

/// The value stored under `k` in an association list with distinct keys.
pub open spec fn lookup<V>(s: Seq<(Seq<char>, V)>, k: Seq<char>) -> Option<V>
    decreases s.len(),
{
    if s.len() == 0 {
        None
    } else if s.last().0 == k {
        Some(s.last().1)
    } else {
        lookup(s.drop_last(), k)
    }
}

/// No key occurs twice.
pub open spec fn keys_distinct<V>(s: Seq<(Seq<char>, V)>) -> bool {
    forall|i: int, j: int| 0 <= i < j < s.len() ==> s[i].0 != s[j].0
}

proof fn lemma_lookup_at<V>(s: Seq<(Seq<char>, V)>, i: int)
    requires
        keys_distinct(s),
        0 <= i < s.len(),
    ensures
        lookup(s, s[i].0) == Some(s[i].1),
    decreases s.len(),
{
    if i < s.len() - 1 {
        assert(s.last().0 != s[i].0);
        lemma_lookup_at(s.drop_last(), i);
        assert(s.drop_last()[i] == s[i]);
    }
}

proof fn lemma_lookup_absent<V>(s: Seq<(Seq<char>, V)>, k: Seq<char>)
    requires
        forall|i: int| 0 <= i < s.len() ==> s[i].0 != k,
    ensures
        lookup(s, k) is None,
    decreases s.len(),
{
    if s.len() > 0 {
        lemma_lookup_absent(s.drop_last(), k);
    }
}

proof fn lemma_lookup_update<V>(s: Seq<(Seq<char>, V)>, i: int, v: V, k: Seq<char>)
    requires
        keys_distinct(s),
        0 <= i < s.len(),
    ensures
        lookup(s.update(i, (s[i].0, v)), k) == if k == s[i].0 { Some(v) } else { lookup(s, k) },
    decreases s.len(),
{
    let t = s.update(i, (s[i].0, v));
    if i == s.len() - 1 {
        assert(t.drop_last() =~= s.drop_last());
    } else {
        assert(t.drop_last() =~= s.drop_last().update(i, (s[i].0, v)));
        assert(t.last() == s.last());
        lemma_lookup_update(s.drop_last(), i, v, k);
        if k == s[i].0 {
            assert(s.last().0 != s[i].0);
        }
    }
}

/// Values keyed by path strings, each path at most once.
pub struct Store<V> {
    entries: Vec<(String, V)>,
}

impl<V> Store<V> {
    /// The entries, as `(path, value)` pairs.
    pub closed spec fn pairs(&self) -> Seq<(Seq<char>, V)> {
        self.entries@.map_values(|e: (String, V)| (e.0@, e.1))
    }

    pub closed spec fn wf(&self) -> bool {
        keys_distinct(self.pairs())
    }

    /// The value stored for path `k`.
    pub open spec fn get_spec(&self, k: Seq<char>) -> Option<V> {
        lookup(self.pairs(), k)
    }

    pub fn new() -> (r: Self)
        ensures
            r.wf(),
            forall|k: Seq<char>| r.get_spec(k) is None,
    {
        let r = Store { entries: Vec::new() };
        proof {
            assert forall|k: Seq<char>| r.get_spec(k) is None by {
                assert(r.pairs().len() == 0);
            }
        }
        r
    }

    fn find(&self, key: &str) -> (r: Option<usize>)
        requires
            self.wf(),
        ensures
            match r {
                Some(i) => i < self.pairs().len() && self.pairs()[i as int].0 == key@,
                None => forall|i: int| 0 <= i < self.pairs().len() ==> self.pairs()[i].0 != key@,
            },
    {
        let ks = key.to_owned();
        let mut i: usize = 0;
        while i < self.entries.len()
            invariant
                i <= self.entries@.len(),
                ks@ == key@,
                forall|j: int| 0 <= j < i ==> self.pairs()[j].0 != key@,
            decreases self.entries@.len() - i,
        {
            assert(self.pairs()[i as int] == (self.entries@[i as int].0@, self.entries@[i as int].1));
            if self.entries[i].0 == ks {
                return Some(i);
            }
            i += 1;
        }
        None
    }

    /// The value stored for `key`, if any.
    pub fn get(&self, key: &str) -> (r: Option<&V>)
        requires
            self.wf(),
        ensures
            match r {
                Some(v) => self.get_spec(key@) == Some(*v),
                None => self.get_spec(key@) is None,
            },
    {
        match self.find(key) {
            Some(i) => {
                proof {
                    lemma_lookup_at(self.pairs(), i as int);
                }
                Some(&self.entries[i].1)
            },
            None => {
                proof {
                    lemma_lookup_absent(self.pairs(), key@);
                }
                None
            },
        }
    }

    /// Store `v` under `key`, replacing an earlier value.
    pub fn insert(&mut self, key: String, v: V)
        requires
            old(self).wf(),
        ensures
            final(self).wf(),
            forall|k: Seq<char>| #[trigger] final(self).get_spec(k) == if k == key@ {
                Some(v)
            } else {
                old(self).get_spec(k)
            },
    {
        let ghost p0 = self.pairs();
        match self.find(key.as_str()) {
            Some(i) => {
                let ghost kv = key@;
                self.entries.set(i, (key, v));
                proof {
                    assert(self.pairs() =~= p0.update(i as int, (p0[i as int].0, v)));
                    assert forall|k: Seq<char>| #[trigger] self.get_spec(k) == if k == kv {
                        Some(v)
                    } else {
                        lookup(p0, k)
                    } by {
                        lemma_lookup_update(p0, i as int, v, k);
                    }
                }
            },
            None => {
                let ghost kv = key@;
                self.entries.push((key, v));
                proof {
                    assert(self.pairs() =~= p0.push((kv, v)));
                    assert(self.pairs().drop_last() =~= p0);
                }
            },
        }
    }

    /// The entries in storage order (for saving).
    pub fn entries(&self) -> (r: &Vec<(String, V)>)
        ensures
            r@.map_values(|e: (String, V)| (e.0@, e.1)) == self.pairs(),
    {
        &self.entries
    }

    /// A store holding `items`; a path listed twice keeps its last value.
    pub fn from_entries(items: Vec<(String, V)>) -> (r: Self)
        ensures
            r.wf(),
            forall|k: Seq<char>| #[trigger] r.get_spec(k) == lookup(items@.map_values(|e: (String, V)| (e.0@, e.1)), k),
    {
        let ghost src = items@.map_values(|e: (String, V)| (e.0@, e.1));
        let mut s = Store::new();
        let mut items = items;
        let mut rest: Vec<(String, V)> = Vec::new();
        // Reverse so that popping yields the items in the order given.
        while items.len() > 0
            invariant
                rest@.len() + items@.len() == src.len(),
                forall|i: int| 0 <= i < items@.len() ==> (#[trigger] items@[i]).0@ == src[i].0 && items@[i].1 == src[i].1,
                forall|i: int| 0 <= i < rest@.len() ==> (#[trigger] rest@[i]).0@ == src[src.len() - 1 - i].0
                    && rest@[i].1 == src[src.len() - 1 - i].1,
            decreases items@.len(),
        {
            let e = items.pop().unwrap();
            rest.push(e);
        }
        let n = rest.len();
        while rest.len() > 0
            invariant
                s.wf(),
                rest@.len() <= n == src.len(),
                forall|i: int| 0 <= i < rest@.len() ==> (#[trigger] rest@[i]).0@ == src[src.len() - 1 - i].0
                    && rest@[i].1 == src[src.len() - 1 - i].1,
                forall|k: Seq<char>| #[trigger] s.get_spec(k) == lookup(src.take(n - rest@.len()), k),
            decreases rest@.len(),
        {
            let ghost done = n - rest@.len();
            let (k, v) = rest.pop().unwrap();
            let ghost kv = k@;
            let ghost vv = v;
            s.insert(k, v);
            proof {
                assert(src.take(done + 1).drop_last() =~= src.take(done));
                assert(src.take(done + 1).last() == src[done]);
                assert forall|q: Seq<char>| #[trigger] s.get_spec(q) == lookup(src.take(n - rest@.len()), q) by {
                    assert(src[done].0 == kv && src[done].1 == vv);
                }
            }
        }
        assert(src.take(n as int) =~= src);
        s
    }
}

// ---------------------------------------------------------------- directories

/// A directory's cached recursive media `(count, size)` and the mtime it was
/// computed at.
#[derive(Clone, Copy, PartialEq, Eq, Structural, Debug)]
pub struct DirStat {
    pub count: usize,
    pub size: u64,
    pub mtime: u64,
}

/// Recursive per-directory media stats, valid while the directory's mtime is
/// unchanged. A directory's mtime only moves when its immediate children
/// change, so a deep edit can leave an entry stale until the next rescan.
pub struct DirCache {
    pub stats: Store<DirStat>,
    /// Set when an entry changes, so an unchanged cache is not rewritten.
    pub dirty: bool,
}

/// The cached stats for a directory whose current mtime is `mtime` (`None`
/// when it cannot be read): present only while the stored mtime matches.
pub open spec fn fresh_of(stored: Option<DirStat>, mtime: Option<u64>) -> Option<(usize, u64)> {
    match (stored, mtime) {
        (Some(e), Some(m)) => if m == e.mtime {
            Some((e.count, e.size))
        } else {
            None
        },
        _ => None,
    }
}

impl DirCache {
    pub fn new() -> (r: Self)
        ensures
            r.stats.wf(),
            !r.dirty,
            forall|k: Seq<char>| r.stats.get_spec(k) is None,
    {
        DirCache { stats: Store::new(), dirty: false }
    }

    /// A cache loaded from saved entries (not dirty).
    pub fn from_entries(items: Vec<(String, DirStat)>) -> (r: Self)
        ensures
            r.stats.wf(),
            !r.dirty,
            forall|k: Seq<char>| #[trigger] r.stats.get_spec(k) == lookup(items@.map_values(|e: (String, DirStat)| (e.0@, e.1)), k),
    {
        DirCache { stats: Store::from_entries(items), dirty: false }
    }

    /// Cached `(count, size)` for `path` if its current `mtime` still matches.
    pub fn get_fresh(&self, path: &str, mtime: Option<u64>) -> (r: Option<(usize, u64)>)
        requires
            self.stats.wf(),
        ensures
            r == fresh_of(self.stats.get_spec(path@), mtime),
    {
        let e = match self.stats.get(path) {
            Some(e) => *e,
            None => return None,
        };
        match mtime {
            Some(m) => if m == e.mtime {
                Some((e.count, e.size))
            } else {
                None
            },
            None => None,
        }
    }

    /// Record freshly computed stats stamped with the directory's current
    /// mtime; nothing is recorded when the mtime cannot be read.
    pub fn insert(&mut self, path: String, count: usize, size: u64, mtime: Option<u64>)
        requires
            old(self).stats.wf(),
        ensures
            final(self).stats.wf(),
            mtime is None ==> final(self).stats.get_spec(path@) == old(self).stats.get_spec(path@)
                && final(self).dirty == old(self).dirty,
            forall|k: Seq<char>| k != path@ ==> #[trigger] final(self).stats.get_spec(k) == old(self).stats.get_spec(k),
            mtime matches Some(m) ==> final(self).stats.get_spec(path@) == Some(DirStat { count, size, mtime: m })
                && final(self).dirty,
    {
        match mtime {
            Some(m) => {
                self.stats.insert(path, DirStat { count, size, mtime: m });
                self.dirty = true;
            },
            None => {},
        }
    }
}

/// Stats recorded for a directory at mtime `m` are read back while its mtime is
/// still `m`, and not once it changed; other directories are unaffected.
pub proof fn law_dir_stats_read_back(
    before: DirCache,
    after: DirCache,
    path: Seq<char>,
    count: usize,
    size: u64,
    m: u64,
    other: Seq<char>,
    now: Option<u64>,
)
    requires
        after.stats.get_spec(path) == Some(DirStat { count, size, mtime: m }),
        forall|k: Seq<char>| k != path ==> #[trigger] after.stats.get_spec(k) == before.stats.get_spec(k),
    ensures
        fresh_of(after.stats.get_spec(path), Some(m)) == Some((count, size)),
        now != Some(m) ==> fresh_of(after.stats.get_spec(path), now) is None,
        other != path ==> fresh_of(after.stats.get_spec(other), now) == fresh_of(before.stats.get_spec(other), now),
{
}

// ---------------------------------------------------------------- file tags

/// A file's cached tags with the size and mtime they were read at.
pub struct Stamped<V> {
    pub size: u64,
    pub mtime: u64,
    pub meta: V,
}

/// Per-file tags, valid while the file's size and mtime are unchanged.
pub struct MetaCache<V> {
    pub entries: Store<Stamped<V>>,
    /// Set when an entry is added or replaced.
    pub dirty: bool,
}

/// The tags a stored entry yields for a file now stamped `(size, mtime)`.
pub open spec fn valid_of<V>(e: Option<Stamped<V>>, size: u64, mtime: u64) -> Option<V> {
    match e {
        Some(e) => if e.size == size && e.mtime == mtime {
            Some(e.meta)
        } else {
            None
        },
        None => None,
    }
}

impl<V> MetaCache<V> {
    pub fn new() -> (r: Self)
        ensures
            r.entries.wf(),
            !r.dirty,
            forall|k: Seq<char>| r.entries.get_spec(k) is None,
    {
        MetaCache { entries: Store::new(), dirty: false }
    }

    /// A cache loaded from saved entries (not dirty).
    pub fn from_entries(items: Vec<(String, Stamped<V>)>) -> (r: Self)
        ensures
            r.entries.wf(),
            !r.dirty,
            forall|k: Seq<char>| #[trigger] r.entries.get_spec(k) == lookup(items@.map_values(|e: (String, Stamped<V>)| (e.0@, e.1)), k),
    {
        MetaCache { entries: Store::from_entries(items), dirty: false }
    }

    /// The cached tags for `path` if present and still matching `(size, mtime)`.
    pub fn get(&self, path: &str, size: u64, mtime: u64) -> (r: Option<&V>)
        requires
            self.entries.wf(),
        ensures
            match r {
                Some(v) => valid_of(self.entries.get_spec(path@), size, mtime) == Some(*v),
                None => valid_of(self.entries.get_spec(path@), size, mtime) is None,
            },
    {
        match self.entries.get(path) {
            Some(e) => if e.size == size && e.mtime == mtime {
                Some(&e.meta)
            } else {
                None
            },
            None => None,
        }
    }

    /// Store `meta` for `path`, stamped with `(size, mtime)`.
    pub fn put(&mut self, path: String, size: u64, mtime: u64, meta: V)
        requires
            old(self).entries.wf(),
        ensures
            final(self).entries.wf(),
            final(self).dirty,
            forall|k: Seq<char>| #[trigger] final(self).entries.get_spec(k) == if k == path@ {
                Some(Stamped { size, mtime, meta })
            } else {
                old(self).entries.get_spec(k)
            },
    {
        self.entries.insert(path, Stamped { size, mtime, meta });
        self.dirty = true;
    }
}

/// Tags put for a file are read back while its size and mtime are the ones
/// they were put with; an edited file (other size or mtime) reads nothing, and
/// other files are unaffected.
pub proof fn law_meta_read_back<V>(
    before: MetaCache<V>,
    after: MetaCache<V>,
    path: Seq<char>,
    size: u64,
    mtime: u64,
    meta: V,
    other: Seq<char>,
    now_size: u64,
    now_mtime: u64,
)
    requires
        forall|k: Seq<char>| #[trigger] after.entries.get_spec(k) == if k == path {
            Some(Stamped { size, mtime, meta })
        } else {
            before.entries.get_spec(k)
        },
    ensures
        valid_of(after.entries.get_spec(path), size, mtime) == Some(meta),
        (now_size != size || now_mtime != mtime) ==> valid_of(after.entries.get_spec(path), now_size, now_mtime) is None,
        other != path ==> valid_of(after.entries.get_spec(other), now_size, now_mtime)
            == valid_of(before.entries.get_spec(other), now_size, now_mtime),
{
    assert(after.entries.get_spec(path) == Some(Stamped { size, mtime, meta }));
    assert(other != path ==> after.entries.get_spec(other) == before.entries.get_spec(other));
}

} // verus!
