//! Building an archive node's inner subtree from its in-memory listing.
//! Entry paths are split into virtual directories and media leaves;
//! intermediate directories are created once and pre-expanded.
use vstd::prelude::*;
use crate::archive::{entries_view, ArchiveEntry};
use crate::model::{
    walk_kids, lemma_walk_node_after, same_but_totals,
    walk_node, lemma_agrees_node, lemma_agrees_wf,
    agrees, gets_totals, kids_of, nodes_wf, stats_kids, stats_node, Node, NodeId, TreeModel,
};
use crate::order::{keys_view, lemma_sorted_keys_rows, sort_keys, sorted_keys, KeyView, SortKey};
use crate::path::{comps_of, components, join, join_of};
use crate::text::{chars_of, string_of};

verus! {

/// A node the archive scan creates: `(name, inner path, is_dir, level below
/// the archive, parent id, size)`.
pub type ANode = (Seq<char>, Seq<char>, bool, int, int, u64);

/// Scan state: created nodes, and the inner directory prefixes with their ids.
pub type AState = (Seq<ANode>, Seq<(Seq<char>, int)>);

/// Index of the first directory entry for prefix `p`, or -1.
pub open spec fn find_dir(dirs: Seq<(Seq<char>, int)>, p: Seq<char>) -> int
    decreases dirs.len(),
{
    if dirs.len() == 0 {
        -1
    } else if dirs[0].0 == p {
        0
    } else {
        let r = find_dir(dirs.drop_first(), p);
        if r < 0 {
            -1
        } else {
            r + 1
        }
    }
}

/// Adds the path with components `c[i..]` below `parent` (whose inner prefix
/// is `prefix`) for entry `e = (inner, size)`: a directory per component not
/// seen before, then the media leaf.
pub open spec fn add_path(st: AState, base: int, c: Seq<Seq<char>>, i: int, parent: int, prefix: Seq<char>, e: (Seq<char>, u64)) -> AState
    decreases c.len() - i,
{
    if i < 0 || i >= c.len() {
        st
    } else if i == c.len() - 1 {
        (st.0.push((c[i], e.0, false, i + 1, parent, e.1)), st.1)
    } else {
        let p2 = if i == 0 { c[0] } else { prefix + seq!['/'] + c[i] };
        let d = find_dir(st.1, p2);
        if 0 <= d < st.1.len() {
            add_path(st, base, c, i + 1, st.1[d].1, p2, e)
        } else {
            let nid = base + st.0.len();
            add_path((st.0.push((c[i], p2, true, i + 1, parent, 0)), st.1.push((p2, nid))), base, c, i + 1, nid, p2, e)
        }
    }
}

/// The nodes built for the listing `es` of archive node `id`, numbered from `base`.
pub open spec fn build_archive(es: Seq<(Seq<char>, u64)>, base: int, id: int) -> AState
    decreases es.len(),
{
    if es.len() == 0 {
        (seq![], seq![])
    } else {
        let st = build_archive(es.drop_last(), base, id);
        let c = comps_of(es.last().0);
        if c.len() == 0 {
            st
        } else {
            add_path(st, base, c, 0, id, seq![], es.last())
        }
    }
}

/// Ids (numbered from `base`) of the created nodes whose parent is `p`, in creation order.
pub open spec fn child_ids(an: Seq<ANode>, base: int, p: int) -> Seq<NodeId>
    decreases an.len(),
{
    if an.len() == 0 {
        seq![]
    } else {
        let r = child_ids(an.drop_last(), base, p);
        if an.last().4 == p {
            r.push((base + an.len() - 1) as NodeId)
        } else {
            r
        }
    }
}

/// The sort row of created node `x`.
pub open spec fn kid_key(an: Seq<ANode>, base: int, x: NodeId) -> KeyView {
    (an[x - base].2, true, an[x - base].0, x)
}

/// The children of `p` in display order: directories first, then by name.
pub open spec fn sorted_kids(an: Seq<ANode>, base: int, p: int) -> Seq<NodeId> {
    sorted_keys(child_ids(an, base, p).map_values(|x: NodeId| kid_key(an, base, x))).map_values(|k: KeyView| k.3)
}

/// The tree node for created node `a` of archive `arch` at `base_depth`.
pub open spec fn archive_node_ok(n: Node, a: ANode, arch: Seq<char>, base_depth: int) -> bool {
    &&& n.path@ == join_of(arch, a.1)
    &&& n.name@ == a.0
    &&& n.is_dir == a.2
    &&& !n.is_archive
    &&& n.is_media == !a.2
    &&& n.depth == base_depth + a.3
    &&& n.parent == Some(a.4 as NodeId)
    &&& n.expanded == a.2
    &&& n.children is Some
    &&& (!a.2 ==> n.size == a.5 && n.count == 0)
}

/// Created nodes are numbered after their parent, which is the archive or an
/// earlier created directory; the directory table points at created directories.
pub open spec fn astate_ok(an: Seq<ANode>, dirs: Seq<(Seq<char>, int)>, base: int, id: int) -> bool {
    &&& 0 <= id < base
    &&& forall|x: int| 0 <= x < an.len() ==> {
        let p = #[trigger] an[x].4;
        &&& (p == id || (base <= p < base + x && an[p - base].2))
        &&& an[x].3 >= 1
        &&& (an[x].2 ==> an[x].5 == 0)
    }
    &&& forall|d: int| 0 <= d < dirs.len() ==> {
        let q = #[trigger] dirs[d].1;
        base <= q < base + an.len() && an[q - base].2
    }
}

pub proof fn lemma_find_dir(dirs: Seq<(Seq<char>, int)>, p: Seq<char>, k: int)
    requires
        -1 <= k < dirs.len(),
        k >= 0 ==> dirs[k].0 == p,
        forall|j: int| 0 <= j < dirs.len() && (k < 0 || j < k) ==> #[trigger] dirs[j].0 != p,
    ensures
        find_dir(dirs, p) == k,
    decreases dirs.len(),
{
    if dirs.len() > 0 && dirs[0].0 != p {
        assert forall|j: int| 0 <= j < dirs.drop_first().len() && (k - 1 < 0 || j < k - 1) implies #[trigger] dirs.drop_first()[j].0 != p by {
            assert(dirs.drop_first()[j] == dirs[j + 1]);
        }
        if k > 0 {
            lemma_find_dir(dirs.drop_first(), p, k - 1);
        } else {
            lemma_find_dir(dirs.drop_first(), p, -1);
        }
    }
}

pub proof fn lemma_child_ids_push(an: Seq<ANode>, base: int, p: int, a: ANode)
    ensures
        child_ids(an.push(a), base, p) == if a.4 == p {
            child_ids(an, base, p).push((base + an.len()) as NodeId)
        } else {
            child_ids(an, base, p)
        },
{
    assert(an.push(a).drop_last() =~= an);
}

pub proof fn lemma_child_ids_range(an: Seq<ANode>, base: int, p: int)
    requires
        0 <= base,
        base + an.len() <= usize::MAX,
    ensures
        forall|k: int| 0 <= k < child_ids(an, base, p).len() ==> {
            let x = #[trigger] child_ids(an, base, p)[k];
            &&& base <= x < base + an.len()
            &&& an[x - base].4 == p
        },
    decreases an.len(),
{
    if an.len() > 0 {
        lemma_child_ids_range(an.drop_last(), base, p);
        let r = child_ids(an.drop_last(), base, p);
        assert forall|k: int| 0 <= k < child_ids(an, base, p).len() implies {
            let x = #[trigger] child_ids(an, base, p)[k];
            &&& base <= x < base + an.len()
            &&& an[x - base].4 == p
        } by {
            let x = child_ids(an, base, p)[k];
            if k < r.len() {
                assert(x == r[k]);
                assert(an[x - base] == an.drop_last()[x - base]);
            } else {
                assert(x == (base + an.len() - 1) as NodeId);
            }
        }
    }
}


pub open spec fn dirs_view(d: Seq<(Vec<char>, NodeId)>) -> Seq<(Seq<char>, int)> {
    d.map_values(|x: (Vec<char>, NodeId)| (x.0@, x.1 as int))
}

/// The tail of the node table holds the created nodes, childless so far.
pub open spec fn table_matches(nodes: Seq<Node>, n0: int, an: Seq<ANode>, arch: Seq<char>, bd: int) -> bool {
    &&& nodes.len() == n0 + an.len()
    &&& forall|x: int| 0 <= x < an.len() ==> {
        let n = #[trigger] nodes[n0 + x];
        &&& archive_node_ok(n, an[x], arch, bd)
        &&& kids_of(n).len() == 0
        &&& n.size == an[x].5
        &&& n.count == 0
    }
}

fn find_dir_exec(dirs: &Vec<(Vec<char>, NodeId)>, p: &Vec<char>) -> (r: Option<usize>)
    ensures
        match r {
            Some(d) => d < dirs.len() && find_dir(dirs_view(dirs@), p@) == d as int,
            None => find_dir(dirs_view(dirs@), p@) == -1,
        },
{
    let mut k: usize = 0;
    while k < dirs.len()
        invariant
            k <= dirs.len(),
            forall|j: int| 0 <= j < k ==> #[trigger] dirs_view(dirs@)[j].0 != p@,
        decreases dirs.len() - k,
    {
        if crate::text::vec_eq(&dirs[k].0, p) {
            proof { lemma_find_dir(dirs_view(dirs@), p@, k as int); }
            return Some(k);
        }
        k += 1;
    }
    proof { lemma_find_dir(dirs_view(dirs@), p@, -1); }
    None
}

/// No created node names as parent a node not created yet.
pub proof fn lemma_child_ids_fresh(an: Seq<ANode>, n0: int, id: int, q: int)
    requires
        astate_ok(an, seq![], n0, id),
        q >= n0 + an.len(),
    ensures
        child_ids(an, n0, q).len() == 0,
    decreases an.len(),
{
    if an.len() > 0 {
        let a2 = an.drop_last();
        assert(astate_ok(a2, seq![], n0, id)) by {
            assert forall|x: int| 0 <= x < a2.len() implies {
                let p = #[trigger] a2[x].4;
                &&& (p == id || (n0 <= p < n0 + x && a2[p - n0].2))
                &&& a2[x].3 >= 1
                &&& (a2[x].2 ==> a2[x].5 == 0)
            } by {
                assert(a2[x] == an[x]);
                let p = an[x].4;
                if p != id {
                    assert(a2[p - n0] == an[p - n0]);
                }
            }
        }
        lemma_child_ids_fresh(a2, n0, id, q);
        let l = an.len() - 1;
        assert(an[l].4 == an[l].4);
    }
}

/// The display-ordered children of a container come after it and inside the table.
pub proof fn lemma_sorted_kids_range(an: Seq<ANode>, n0: int, id: int, cid: int, k: int)
    requires
        astate_ok(an, seq![], n0, id),
        0 <= n0,
        n0 + an.len() <= usize::MAX,
        cid == id || n0 <= cid,
        0 <= k < sorted_kids(an, n0, cid).len(),
    ensures
        cid < sorted_kids(an, n0, cid)[k] < n0 + an.len(),
        n0 <= sorted_kids(an, n0, cid)[k],
{
    lemma_child_ids_range(an, n0, cid);
    let ids = child_ids(an, n0, cid);
    let keys = ids.map_values(|x: NodeId| kid_key(an, n0, x));
    lemma_sorted_keys_rows(keys);
    let sk = sorted_keys(keys);
    assert(sorted_kids(an, n0, cid)[k] == sk[k].3);
    assert(keys.contains(sk[k]));
    let w = choose|w: int| 0 <= w < keys.len() && keys[w] == sk[k];
    let x = ids[w];
    assert(keys[w] == kid_key(an, n0, x));
    assert(sk[k].3 == x);
    assert(n0 <= x < n0 + an.len());
    assert(an[x - n0].4 == cid);
    let i = x - n0;
    assert(an[i].4 == cid);
}

impl TreeModel {
    /// Media count and total size of `id`'s subtree (see `stats_node`), or
    /// `None` when either does not fit its integer type.
    fn stats_checked(&self, id: NodeId) -> (r: Option<(usize, u64)>)
        requires
            self.wf(),
            id < self.nodes.len(),
        ensures
            match r {
                Some((c, s)) => c as nat == stats_node(self.nodes@, id as int).0 && s as nat == stats_node(self.nodes@, id as int).1,
                None => stats_node(self.nodes@, id as int).0 > usize::MAX || stats_node(self.nodes@, id as int).1 > u64::MAX,
            },
        decreases self.nodes@.len() - id,
    {
        let kids: &Vec<NodeId> = match &self.nodes[id].children {
            Some(c) => c,
            None => {
                return if self.nodes[id].is_media { Some((1, self.nodes[id].size)) } else { Some((0, 0)) };
            },
        };
        if kids.len() == 0 {
            return if self.nodes[id].is_media { Some((1, self.nodes[id].size)) } else { Some((0, 0)) };
        }
        let ghost ks = kids@;
        assert(ks == kids_of(self.nodes@[id as int]));
        let mut c: usize = 0;
        let mut s: u64 = 0;
        let mut k: usize = 0;
        while k < kids.len()
            invariant
                self.wf(),
                id < self.nodes.len(),
                kids@ == ks,
                ks == kids_of(self.nodes@[id as int]),
                k <= kids.len(),
                c as nat + stats_kids(self.nodes@, id as int, ks, k as int).0 == stats_node(self.nodes@, id as int).0,
                s as nat + stats_kids(self.nodes@, id as int, ks, k as int).1 == stats_node(self.nodes@, id as int).1,
            decreases kids.len() - k,
        {
            let ch = kids[k];
            assert(kids_of(self.nodes@[id as int])[k as int] == ch);
            match self.stats_checked(ch) {
                Some((kc, kz)) => {
                    match (c.checked_add(kc), s.checked_add(kz)) {
                        (Some(c2), Some(s2)) => {
                            c = c2;
                            s = s2;
                        },
                        _ => return None,
                    }
                },
                None => return None,
            }
            k += 1;
        }
        Some((c, s))
    }
}


/// Keeps the build invariants when node `a` (numbered `n0 + an.len()`) is created.
proof fn lemma_astate_push(st: AState, n0: int, id: int, a: ANode, dir_entry: bool, p2: Seq<char>)
    requires
        astate_ok(st.0, st.1, n0, id),
        a.4 == id || (n0 <= a.4 < n0 + st.0.len() && st.0[a.4 - n0].2),
        a.3 >= 1,
        a.2 ==> a.5 == 0,
        dir_entry ==> a.2,
    ensures
        astate_ok(st.0.push(a), if dir_entry { st.1.push((p2, n0 + st.0.len())) } else { st.1 }, n0, id),
{
    let an = st.0.push(a);
    let ds = if dir_entry { st.1.push((p2, n0 + st.0.len())) } else { st.1 };
    assert forall|x: int| 0 <= x < an.len() implies {
        let p = #[trigger] an[x].4;
        &&& (p == id || (n0 <= p < n0 + x && an[p - n0].2))
        &&& an[x].3 >= 1
    } by {
        if x < st.0.len() {
            assert(an[x] == st.0[x]);
            let p = st.0[x].4;
            if p != id {
                assert(an[p - n0] == st.0[p - n0]);
            }
        } else {
            if a.4 != id {
                assert(an[a.4 - n0] == st.0[a.4 - n0]);
            }
        }
    }
    assert forall|d: int| 0 <= d < ds.len() implies {
        let q = #[trigger] ds[d].1;
        n0 <= q < n0 + an.len() && an[q - n0].2
    } by {
        if d < st.1.len() {
            let q = st.1[d].1;
            assert(ds[d] == st.1[d]);
            assert(an[q - n0] == st.0[q - n0]);
        }
    }
}

impl TreeModel {
    /// Builds an archive node's inner subtree from its audio listing
    /// `entries`: each entry's path is split into components; a directory
    /// node is created once per inner directory (pre-expanded), a media leaf
    /// per entry; every container's children are ordered directories first,
    /// then by name; finally track counts and sizes are rolled up onto the
    /// directories when they fit their integer types. Does nothing unless
    /// `id` is an unscanned archive node.
    pub fn scan_archive(&mut self, id: NodeId, entries: &Vec<ArchiveEntry>)
        requires
            old(self).wf(),
            id < old(self).nodes.len(),
            forall|k: int| 0 <= k < entries@.len() ==>
                old(self).nodes@[id as int].depth + comps_of(#[trigger] entries@[k].inner@).len() <= usize::MAX,
        ensures
            final(self).wf(),
            final(self).root == old(self).root,
            final(self).visible == old(self).visible,
            ({
                let o = old(self).nodes@[id as int];
                if o.children is Some || !o.is_archive {
                    final(self).nodes == old(self).nodes
                } else {
                    let n0 = old(self).nodes@.len() as int;
                    let an = build_archive(entries_view(entries@), n0, id as int).0;
                    let f = final(self).nodes@;
                    let fits = stats_node(f, id as int).0 <= usize::MAX && stats_node(f, id as int).1 <= u64::MAX;
                    &&& f.len() == n0 + an.len()
                    &&& forall|j: int| 0 <= j < n0 && j != id ==> #[trigger] f[j] == old(self).nodes@[j]
                    &&& f[id as int].children is Some
                    &&& kids_of(f[id as int]) == sorted_kids(an, n0, id as int)
                    &&& forall|x: int| 0 <= x < an.len() ==> {
                        &&& archive_node_ok(#[trigger] f[n0 + x], an[x], o.path@, o.depth as int)
                        &&& kids_of(f[n0 + x]) == sorted_kids(an, n0, n0 + x)
                    }
                    &&& forall|j: int| (j == id || n0 <= j < f.len()) ==> {
                        let n = #[trigger] f[j];
                        if fits && gets_totals(n) && walk_node(f, id as int, true).contains(j as NodeId) {
                            n.count as nat == stats_node(f, j).0 && n.size as nat == stats_node(f, j).1
                        } else if j == id {
                            n.count == o.count && n.size == o.size
                        } else {
                            n.is_dir ==> n.count == 0 && n.size == 0
                        }
                    }
                }
            }),
    {
        if self.nodes[id].children.is_some() || !self.nodes[id].is_archive {
            return;
        }
        let ghost o = self.nodes@;
        let n0 = self.nodes.len();
        let arch = chars_of(self.nodes[id].path.as_str());
        let base_depth = self.nodes[id].depth;
        let ghost es = entries_view(entries@);
        let mut dirs: Vec<(Vec<char>, NodeId)> = Vec::new();
        let mut kt: Vec<Vec<NodeId>> = Vec::new();
        kt.push(Vec::new());
        let ghost mut st: AState = (seq![], seq![]);
        assert(dirs_view(dirs@) =~= st.1);
        let mut ei: usize = 0;
        while ei < entries.len()
            invariant
                ei <= entries.len(),
                es == entries_view(entries@),
                o == old(self).nodes@,
                nodes_wf(o),
                n0 == o.len(),
                id < n0,
                o[id as int].children is None,
                arch@ == o[id as int].path@,
                base_depth == o[id as int].depth,
                forall|k: int| 0 <= k < entries@.len() ==> base_depth + comps_of(#[trigger] entries@[k].inner@).len() <= usize::MAX,
                self.root == old(self).root,
                self.visible == old(self).visible,
                self.root < n0,
                st == build_archive(es.take(ei as int), n0 as int, id as int),
                astate_ok(st.0, st.1, n0 as int, id as int),
                forall|j: int| 0 <= j < n0 ==> #[trigger] self.nodes@[j] == o[j],
                table_matches(self.nodes@, n0 as int, st.0, arch@, base_depth as int),
                dirs_view(dirs@) == st.1,
                kt@.len() == st.0.len() + 1,
                kt@[0]@ == child_ids(st.0, n0 as int, id as int),
                forall|x: int| 0 <= x < st.0.len() ==> (#[trigger] kt@[x + 1])@ == child_ids(st.0, n0 as int, n0 + x),
            decreases entries.len() - ei,
        {
            let e = &entries[ei];
            let inner = chars_of(e.inner.as_str());
            let comps = components(&inner);
            let ghost c = comps_of(inner@);
            assert(comps@.len() == c.len());
            proof {
                assert(es.take(ei + 1).drop_last() =~= es.take(ei as int));
                assert(es.take(ei + 1).last() == e@);
                assert(entries@[ei as int] == *e);
            }
            if comps.len() > 0 {
                let ghost target = add_path(st, n0 as int, c, 0, id as int, seq![], e@);
                let mut parent: NodeId = id;
                let mut prefix: Vec<char> = Vec::new();
                let mut i: usize = 0;
                while i < comps.len()
                    invariant
                        i <= comps@.len(),
                        comps@.len() == c.len(),
                        c.len() > 0,
                        forall|k: int| 0 <= k < comps@.len() ==> #[trigger] comps@[k]@ == c[k],
                        base_depth + c.len() <= usize::MAX,
                        e@.0 == inner@,
                        self.root == old(self).root,
                        self.visible == old(self).visible,
                        add_path(st, n0 as int, c, i as int, parent as int, prefix@, e@) == target,
                        parent == id || (n0 <= parent < n0 + st.0.len() && st.0[parent - n0].2),
                        o == old(self).nodes@,
                        nodes_wf(o),
                        n0 == o.len(),
                        id < n0,
                        arch@ == o[id as int].path@,
                        base_depth == o[id as int].depth,
                        astate_ok(st.0, st.1, n0 as int, id as int),
                        forall|j: int| 0 <= j < n0 ==> #[trigger] self.nodes@[j] == o[j],
                        table_matches(self.nodes@, n0 as int, st.0, arch@, base_depth as int),
                        dirs_view(dirs@) == st.1,
                        kt@.len() == st.0.len() + 1,
                        kt@[0]@ == child_ids(st.0, n0 as int, id as int),
                        forall|x: int| 0 <= x < st.0.len() ==> (#[trigger] kt@[x + 1])@ == child_ids(st.0, n0 as int, n0 + x),
                    decreases comps@.len() - i,
                {
                    let depth = base_depth + i + 1;
                    let pidx: usize = if parent == id { 0 } else { parent - n0 + 1 };
                    let nid = self.nodes.len();
                    if i + 1 == comps.len() {
                        let ghost a: ANode = (c[i as int], e@.0, false, i + 1, parent as int, e.size);
                        let ghost an0 = st.0;
                        let ghost nodes0 = self.nodes@;
                        let ghost kt0 = kt@;
                        self.nodes.push(Node {
                            path: string_of(&join(&arch, &inner)),
                            name: string_of(&comps[i]),
                            is_dir: false,
                            is_archive: false,
                            is_media: true,
                            depth,
                            parent: Some(parent),
                            children: Some(Vec::new()),
                            expanded: false,
                            size: e.size,
                            count: 0,
                        });
                        kt.push(Vec::new());
                        kt[pidx].push(nid);
                        proof {
                            lemma_astate_push(st, n0 as int, id as int, a, false, seq![]);
                            let an1 = an0.push(a);
                            assert forall|q: int| true implies child_ids(an1, n0 as int, q) == if a.4 == q {
                                child_ids(an0, n0 as int, q).push((n0 + an0.len()) as NodeId)
                            } else {
                                child_ids(an0, n0 as int, q)
                            } by {
                                lemma_child_ids_push(an0, n0 as int, q, a);
                            }
                            st = (an1, st.1);
                            assert(add_path(st, n0 as int, c, i + 1, parent as int, prefix@, e@) == st);
                            assert forall|j: int| 0 <= j < n0 implies #[trigger] self.nodes@[j] == o[j] by {
                                assert(self.nodes@[j] == nodes0[j]);
                            }
                            assert forall|x: int| 0 <= x < an1.len() implies {
                                let n = #[trigger] self.nodes@[n0 + x];
                                &&& archive_node_ok(n, an1[x], arch@, base_depth as int)
                                &&& kids_of(n).len() == 0
                                &&& n.size == an1[x].5
                                &&& n.count == 0
                            } by {
                                if x < an0.len() {
                                    assert(self.nodes@[n0 + x] == nodes0[n0 + x]);
                                }
                            }
                            assert(kt@[0]@ == child_ids(an1, n0 as int, id as int)) by {
                                if pidx != 0 {
                                    assert(kt@[0] == kt0[0]);
                                }
                            }
                            assert forall|x: int| 0 <= x < an1.len() implies (#[trigger] kt@[x + 1])@ == child_ids(an1, n0 as int, n0 + x) by {
                                if x < an0.len() {
                                    if x + 1 != pidx {
                                        assert(kt@[x + 1] == kt0[x + 1]);
                                        if parent as int == n0 + x {
                                            assert(false);
                                        }
                                    } else {
                                        assert(parent as int == n0 + x);
                                    }
                                } else {
                                    assert(x == an0.len());
                                    lemma_child_ids_fresh(an1, n0 as int, id as int, n0 + x + 1);
                                    lemma_child_ids_fresh(an0, n0 as int, id as int, n0 + x);
                                    assert(kt@[x + 1]@.len() == 0);
                                    assert(kt@[x + 1]@ =~= child_ids(an1, n0 as int, n0 + x));
                                }
                            }
                        }
                    } else {
                        let p2: Vec<char> = if i == 0 {
                            comps[0].clone()
                        } else {
                            let mut t = prefix.clone();
                            t.push('/');
                            let ci = &comps[i];
                            let mut q: usize = 0;
                            let ghost t0 = t@;
                            while q < ci.len()
                                invariant
                                    q <= ci.len(),
                                    t@ == t0 + ci@.take(q as int),
                                decreases ci.len() - q,
                            {
                                t.push(ci[q]);
                                q += 1;
                                assert(t@ =~= t0 + ci@.take(q as int));
                            }
                            assert(ci@.take(ci.len() as int) =~= ci@);
                            t
                        };
                        assert(p2@ == (if i == 0 { c[0] } else { prefix@ + seq!['/'] + c[i as int] })) by {
                            if i > 0 {
                                assert(p2@ =~= prefix@ + seq!['/'] + c[i as int]);
                            }
                        }
                        match find_dir_exec(&dirs, &p2) {
                            Some(d) => {
                                assert(dirs_view(dirs@)[d as int] == (dirs@[d as int].0@, dirs@[d as int].1 as int));
                                parent = dirs[d].1;
                            },
                            None => {
                                let ghost a: ANode = (c[i as int], p2@, true, i + 1, parent as int, 0);
                                let ghost an0 = st.0;
                                let ghost nodes0 = self.nodes@;
                                let ghost kt0 = kt@;
                                let ghost d0 = dirs@;
                                self.nodes.push(Node {
                                    path: string_of(&join(&arch, &p2)),
                                    name: string_of(&comps[i]),
                                    is_dir: true,
                                    is_archive: false,
                                    is_media: false,
                                    depth,
                                    parent: Some(parent),
                                    children: Some(Vec::new()),
                                    expanded: true,
                                    size: 0,
                                    count: 0,
                                });
                                kt.push(Vec::new());
                                kt[pidx].push(nid);
                                dirs.push((p2.clone(), nid));
                                proof {
                                    lemma_astate_push(st, n0 as int, id as int, a, true, p2@);
                                    let an1 = an0.push(a);
                                    assert forall|q: int| true implies child_ids(an1, n0 as int, q) == if a.4 == q {
                                        child_ids(an0, n0 as int, q).push((n0 + an0.len()) as NodeId)
                                    } else {
                                        child_ids(an0, n0 as int, q)
                                    } by {
                                        lemma_child_ids_push(an0, n0 as int, q, a);
                                    }
                                    assert(dirs_view(dirs@) =~= st.1.push((p2@, n0 + an0.len())));
                                    st = (an1, st.1.push((p2@, n0 + an0.len())));
                                    assert forall|j: int| 0 <= j < n0 implies #[trigger] self.nodes@[j] == o[j] by {
                                        assert(self.nodes@[j] == nodes0[j]);
                                    }
                                    assert forall|x: int| 0 <= x < an1.len() implies {
                                        let n = #[trigger] self.nodes@[n0 + x];
                                        &&& archive_node_ok(n, an1[x], arch@, base_depth as int)
                                        &&& kids_of(n).len() == 0
                                        &&& n.size == an1[x].5
                                        &&& n.count == 0
                                    } by {
                                        if x < an0.len() {
                                            assert(self.nodes@[n0 + x] == nodes0[n0 + x]);
                                        }
                                    }
                                    assert(kt@[0]@ == child_ids(an1, n0 as int, id as int)) by {
                                        if pidx != 0 {
                                            assert(kt@[0] == kt0[0]);
                                        }
                                    }
                                    assert forall|x: int| 0 <= x < an1.len() implies (#[trigger] kt@[x + 1])@ == child_ids(an1, n0 as int, n0 + x) by {
                                        if x < an0.len() {
                                            if x + 1 != pidx {
                                                assert(kt@[x + 1] == kt0[x + 1]);
                                                if parent as int == n0 + x {
                                                    assert(false);
                                                }
                                            } else {
                                                assert(parent as int == n0 + x);
                                            }
                                        } else {
                                            assert(x == an0.len());
                                            lemma_child_ids_fresh(an0, n0 as int, id as int, n0 + x);
                                            assert(kt@[x + 1]@.len() == 0);
                                            assert(kt@[x + 1]@ =~= child_ids(an1, n0 as int, n0 + x));
                                        }
                                    }
                                }
                                parent = nid;
                            },
                        }
                        prefix = p2;
                    }
                    i += 1;
                }
                proof {
                    assert(st == target);
                }
            } else {
                assert(build_archive(es.take(ei + 1), n0 as int, id as int) == st);
            }
            ei += 1;
        }
        assert(es.take(entries@.len() as int) =~= es);
        let ghost an = st.0;
        let total = self.nodes.len();
        assert(total == n0 + an.len());
        assert(self.nodes@.take(n0 as int) =~= o);
        let ghost mid = self.nodes@;
        self.assign_children(id, n0, &kt, Ghost(an), Ghost(arch@), Ghost(base_depth as int));
        let ghost pre = self.nodes@;
        proof {
            assert forall|x: int| 0 <= x < an.len() && (#[trigger] pre[n0 + x]).is_dir implies pre[n0 + x].count == 0 && pre[n0 + x].size == 0 by {
                assert(same_but_kids(mid[n0 + x], pre[n0 + x]));
            }
            assert(same_but_kids(mid[id as int], pre[id as int]));
            assert(mid[id as int] == o[id as int]);
            assert forall|k: int| 0 <= k < kids_of(pre[id as int]).len() implies n0 <= #[trigger] kids_of(pre[id as int])[k] by {
                lemma_sorted_kids_range(an, n0 as int, id as int, id as int, k);
            }
            lemma_walk_archive(pre, id as int, n0 as int);
        }
        let ghost fits = stats_node(pre, id as int).0 <= usize::MAX && stats_node(pre, id as int).1 <= u64::MAX;
        match self.stats_checked(id) {
            Some(_) => {
                let _ = self.recount(id);
            },
            None => {},
        }
        proof {
            let f = self.nodes@;
            if fits {
                lemma_agrees_wf(pre, f);
            } else {
                assert(f == pre);
            }
            assert(agrees(pre, f) || f == pre);
            lemma_scan_archive_totals(pre, f, id as int, fits, o[id as int], n0 as int, an);
            assert forall|j: int| 0 <= j < n0 && j != id implies #[trigger] f[j] == o[j] by {
                assert(pre[j] == o[j]);
                if fits {
                    assert(same_but_totals(pre[j], f[j]));
                    if walk_node(pre, id as int, true).contains(j as NodeId) {
                        let w = walk_node(pre, id as int, true);
                        let z = choose|z: int| 0 <= z < w.len() && w[z] == j as NodeId;
                        assert(false);
                    }
                    assert(f[j].count == pre[j].count && f[j].size == pre[j].size);
                }
            }
            assert forall|x: int| 0 <= x < an.len() implies {
                &&& archive_node_ok(#[trigger] f[n0 + x], an[x], o[id as int].path@, o[id as int].depth as int)
                &&& kids_of(f[n0 + x]) == sorted_kids(an, n0 as int, n0 + x)
            } by {
                assert(same_but_kids(mid[n0 + x], pre[n0 + x]));
                assert(archive_node_ok(mid[n0 + x], an[x], arch@, base_depth as int));
                if fits {
                    assert(same_but_totals(pre[n0 + x], f[n0 + x]));
                }
            }
            if fits {
                assert(same_but_totals(pre[id as int], f[id as int]));
            }
        }
    }
}

/// The totals after the optional recount, as `scan_archive` promises them.
proof fn lemma_scan_archive_totals(pre: Seq<Node>, f: Seq<Node>, id: int, fits: bool, o: Node, n0: int, an: Seq<ANode>)
    requires
        0 <= id < n0,
        pre.len() == n0 + an.len(),
        pre.len() <= usize::MAX,
        fits == (stats_node(pre, id).0 <= usize::MAX && stats_node(pre, id).1 <= u64::MAX),
        pre[id].count == o.count && pre[id].size == o.size,
        forall|x: int| 0 <= x < an.len() ==> (#[trigger] pre[n0 + x]).is_dir ==> pre[n0 + x].count == 0 && pre[n0 + x].size == 0,
        fits ==> agrees(pre, f),
        fits ==> forall|j: int| 0 <= j < pre.len() ==> {
            let on = #[trigger] pre[j];
            let nn = f[j];
            if walk_node(pre, id, true).contains(j as NodeId) && gets_totals(on) {
                nn.count as nat == stats_node(pre, j).0 && nn.size as nat == stats_node(pre, j).1
            } else {
                nn.count == on.count && nn.size == on.size
            }
        },
        !fits ==> f == pre,
    ensures
        fits == (stats_node(f, id).0 <= usize::MAX && stats_node(f, id).1 <= u64::MAX),
        forall|j: int| (j == id || n0 <= j < f.len()) ==> {
            let n = #[trigger] f[j];
            if fits && gets_totals(n) && walk_node(f, id, true).contains(j as NodeId) {
                n.count as nat == stats_node(f, j).0 && n.size as nat == stats_node(f, j).1
            } else if j == id {
                n.count == o.count && n.size == o.size
            } else {
                n.is_dir ==> n.count == 0 && n.size == 0
            }
        },
{
    if fits {
        lemma_agrees_node(pre, f, id, true);
    }
    assert forall|j: int| (j == id || n0 <= j < f.len()) implies {
        let n = #[trigger] f[j];
        if fits && gets_totals(n) && walk_node(f, id, true).contains(j as NodeId) {
            n.count as nat == stats_node(f, j).0 && n.size as nat == stats_node(f, j).1
        } else if j == id {
            n.count == o.count && n.size == o.size
        } else {
            n.is_dir ==> n.count == 0 && n.size == 0
        }
    } by {
        if fits {
            lemma_agrees_node(pre, f, j, true);
            assert(same_but_totals_kids(pre[j], f[j]));
            if j == id {
                let w = walk_node(pre, id, true);
                assert(w[0] == id as NodeId);
            }
        }
        if j != id {
            let x = j - n0;
            assert(pre[n0 + x] == pre[j]);
        }
    }
}

/// A walk of the archive node reaches only the archive node and created nodes.
proof fn lemma_walk_archive(nodes: Seq<Node>, id: int, n0: int)
    requires
        0 <= id < n0 <= nodes.len(),
        nodes.len() <= usize::MAX,
        forall|k: int| 0 <= k < kids_of(nodes[id]).len() ==> n0 <= #[trigger] kids_of(nodes[id])[k],
    ensures
        forall|z: int| 0 <= z < walk_node(nodes, id, true).len() ==>
            #[trigger] walk_node(nodes, id, true)[z] == id || walk_node(nodes, id, true)[z] >= n0,
{
    lemma_walk_kids_min(nodes, id, kids_of(nodes[id]), 0, n0);
    let w = walk_node(nodes, id, true);
    let t = walk_kids(nodes, id, kids_of(nodes[id]), 0, true);
    assert(w == seq![id as NodeId] + t);
    assert forall|z: int| 0 <= z < w.len() implies #[trigger] w[z] == id || w[z] >= n0 by {
        if z > 0 {
            assert(w[z] == t[z - 1]);
        }
    }
}

proof fn lemma_walk_kids_min(nodes: Seq<Node>, parent: int, kids: Seq<NodeId>, k: int, lo: int)
    requires
        nodes.len() <= usize::MAX,
        forall|q: int| k <= q < kids.len() ==> lo <= #[trigger] kids[q],
    ensures
        forall|z: int| 0 <= z < walk_kids(nodes, parent, kids, k, true).len() ==> #[trigger] walk_kids(nodes, parent, kids, k, true)[z] >= lo,
    decreases kids.len() - k,
{
    if 0 <= k < kids.len() {
        let c = kids[k] as int;
        let h = if parent < c < nodes.len() { walk_node(nodes, c, true) } else { seq![] };
        if parent < c < nodes.len() {
            lemma_walk_node_after(nodes, c, true);
        }
        lemma_walk_kids_min(nodes, parent, kids, k + 1, lo);
        let t = walk_kids(nodes, parent, kids, k + 1, true);
        let w = walk_kids(nodes, parent, kids, k, true);
        assert(w == h + t);
        assert forall|z: int| 0 <= z < w.len() implies #[trigger] w[z] >= lo by {
            if z < h.len() {
                assert(w[z] == h[z]);
            } else {
                assert(w[z] == t[z - h.len()]);
            }
        }
    }
}

/// Helper view of `agrees` on one node: shape equal.
pub open spec fn same_but_totals_kids(a: Node, b: Node) -> bool {
    a.is_dir == b.is_dir && a.children == b.children
}

impl TreeModel {
    /// Gives every container of the archive scan its children in display order.
    fn assign_children(
        &mut self,
        id: NodeId,
        n0: usize,
        kt: &Vec<Vec<NodeId>>,
        Ghost(an): Ghost<Seq<ANode>>,
        Ghost(arch): Ghost<Seq<char>>,
        Ghost(bd): Ghost<int>,
    )
        requires
            id < n0,
            n0 + an.len() <= usize::MAX,
            old(self).root < n0,
            nodes_wf(old(self).nodes@.take(n0 as int)),
            old(self).nodes@[id as int].children is None,
            astate_ok(an, seq![], n0 as int, id as int),
            table_matches(old(self).nodes@, n0 as int, an, arch, bd),
            kt@.len() == an.len() + 1,
            kt@[0]@ == child_ids(an, n0 as int, id as int),
            forall|x: int| 0 <= x < an.len() ==> (#[trigger] kt@[x + 1])@ == child_ids(an, n0 as int, n0 + x),
        ensures
            final(self).root == old(self).root,
            final(self).visible == old(self).visible,
            final(self).wf(),
            final(self).nodes@.len() == old(self).nodes@.len(),
            forall|j: int| 0 <= j < final(self).nodes@.len() ==> same_but_kids(old(self).nodes@[j], #[trigger] final(self).nodes@[j]),
            forall|j: int| 0 <= j < n0 && j != id ==> #[trigger] final(self).nodes@[j] == old(self).nodes@[j],
            final(self).nodes@[id as int].children is Some,
            kids_of(final(self).nodes@[id as int]) == sorted_kids(an, n0 as int, id as int),
            forall|x: int| 0 <= x < an.len() ==> (#[trigger] final(self).nodes@[n0 + x]).children is Some
                && kids_of(final(self).nodes@[n0 + x]) == sorted_kids(an, n0 as int, n0 + x),
    {
        let ghost nodes0 = self.nodes@;
        let mut pi: usize = 0;
        while pi < kt.len()
            invariant
                pi <= kt@.len(),
                kt@.len() == an.len() + 1,
                id < n0,
                n0 + an.len() <= usize::MAX,
                self.nodes@.len() == n0 + an.len(),
                self.root == old(self).root,
                self.visible == old(self).visible,
                nodes0 == old(self).nodes@,
                table_matches(nodes0, n0 as int, an, arch, bd),
                astate_ok(an, seq![], n0 as int, id as int),
                kt@[0]@ == child_ids(an, n0 as int, id as int),
                forall|x: int| 0 <= x < an.len() ==> (#[trigger] kt@[x + 1])@ == child_ids(an, n0 as int, n0 + x),
                forall|j: int| 0 <= j < self.nodes@.len() ==> same_but_kids(nodes0[j], #[trigger] self.nodes@[j]),
                forall|j: int| 0 <= j < n0 && j != id ==> #[trigger] self.nodes@[j] == nodes0[j],
                pi == 0 ==> self.nodes@[id as int] == nodes0[id as int],
                pi > 0 ==> self.nodes@[id as int].children is Some && kids_of(self.nodes@[id as int]) == sorted_kids(an, n0 as int, id as int),
                forall|x: int| 0 <= x < an.len() ==> if x + 1 < pi {
                    (#[trigger] self.nodes@[n0 + x]).children is Some
                        && kids_of(self.nodes@[n0 + x]) == sorted_kids(an, n0 as int, n0 + x)
                } else {
                    self.nodes@[n0 + x] == nodes0[n0 + x]
                },
            decreases kt@.len() - pi,
        {
            let container: usize = if pi == 0 { id } else { n0 + pi - 1 };
            let ghost cid: int = container as int;
            assert(kt@[pi as int]@ == child_ids(an, n0 as int, cid)) by {
                if pi > 0 {
                    assert(kt@[(pi - 1) + 1] == kt@[pi as int]);
                }
            }
            proof { lemma_child_ids_range(an, n0 as int, cid); }
            let ids = &kt[pi];
            let mut keys: Vec<SortKey> = Vec::new();
            let mut k: usize = 0;
            while k < ids.len()
                invariant
                    k <= ids@.len(),
                    ids@ == child_ids(an, n0 as int, cid),
                    self.nodes@.len() == n0 + an.len(),
                    table_matches(nodes0, n0 as int, an, arch, bd),
                    forall|j: int| 0 <= j < self.nodes@.len() ==> same_but_kids(nodes0[j], #[trigger] self.nodes@[j]),
                    forall|q: int| 0 <= q < child_ids(an, n0 as int, cid).len() ==> {
                        let x = #[trigger] child_ids(an, n0 as int, cid)[q];
                        &&& n0 <= x < n0 + an.len()
                        &&& an[x - n0].4 == cid
                    },
                    keys_view(keys@) == ids@.take(k as int).map_values(|x: NodeId| kid_key(an, n0 as int, x)),
                decreases ids@.len() - k,
            {
                let x = ids[k];
                assert(n0 <= x && x < self.nodes.len());
                let nd = &self.nodes[x];
                proof {
                    assert(same_but_kids(nodes0[x as int], self.nodes@[x as int]));
                    assert(nodes0[n0 + (x - n0)] == nodes0[x as int]);
                    assert(archive_node_ok(nodes0[x as int], an[x - n0], arch, bd));
                }
                let key = SortKey { dir: nd.is_dir, has_name: true, name: chars_of(nd.name.as_str()), id: x };
                let ghost kv0 = keys@;
                keys.push(key);
                assert(key@ == kid_key(an, n0 as int, x));
                assert(keys_view(keys@) =~= keys_view(kv0).push(key@));
                assert(ids@.take(k + 1) =~= ids@.take(k as int).push(x));
                assert(keys_view(keys@) =~= ids@.take(k + 1).map_values(|x: NodeId| kid_key(an, n0 as int, x)));
                k += 1;
            }
            assert(ids@.take(ids@.len() as int) =~= ids@);
            let sorted = sort_keys(keys);
            let mut out: Vec<NodeId> = Vec::new();
            let mut q: usize = 0;
            while q < sorted.len()
                invariant
                    q <= sorted@.len(),
                    out@ == keys_view(sorted@).take(q as int).map_values(|kk: KeyView| kk.3),
                decreases sorted@.len() - q,
            {
                out.push(sorted[q].id);
                q += 1;
                assert(out@ =~= keys_view(sorted@).take(q as int).map_values(|kk: KeyView| kk.3));
            }
            assert(keys_view(sorted@).take(sorted@.len() as int) =~= keys_view(sorted@));
            assert(out@ == sorted_kids(an, n0 as int, cid));
            let ghost before = self.nodes@;
            self.nodes[container].children = Some(out);
            proof {
                assert forall|j: int| 0 <= j < self.nodes@.len() implies same_but_kids(nodes0[j], #[trigger] self.nodes@[j]) by {
                    assert(same_but_kids(nodes0[j], before[j]));
                }
                assert forall|x: int| 0 <= x < an.len() implies if x + 1 < pi + 1 {
                    (#[trigger] self.nodes@[n0 + x]).children is Some
                        && kids_of(self.nodes@[n0 + x]) == sorted_kids(an, n0 as int, n0 + x)
                } else {
                    self.nodes@[n0 + x] == nodes0[n0 + x]
                } by {
                    if n0 + x != cid {
                        assert(self.nodes@[n0 + x] == before[n0 + x]);
                    }
                }
            }
            pi += 1;
        }
        proof {
            let t = self.nodes@;
            assert forall|a: int, k: int| 0 <= a < t.len() && 0 <= k < kids_of(t[a]).len() implies a < #[trigger] kids_of(t[a])[k] < t.len() by {
                if a < n0 && a != id {
                    assert(t[a] == nodes0[a]);
                    assert(nodes0.take(n0 as int)[a] == nodes0[a]);
                    assert(kids_of(nodes0.take(n0 as int)[a])[k] < n0);
                } else if a == id {
                    lemma_sorted_kids_range(an, n0 as int, id as int, a, k);
                } else {
                    assert(kids_of(t[n0 + (a - n0)]) == sorted_kids(an, n0 as int, n0 + (a - n0)));
                    lemma_sorted_kids_range(an, n0 as int, id as int, a, k);
                }
            }
            assert forall|a: int| 0 <= a < t.len() implies match #[trigger] t[a].parent {
                Some(p) => p < a,
                None => true,
            } by {
                assert(same_but_kids(nodes0[a], t[a]));
                if a < n0 {
                    assert(nodes0.take(n0 as int)[a] == nodes0[a]);
                } else {
                    let x = a - n0;
                    assert(nodes0[n0 + x] == nodes0[a]);
                    assert(archive_node_ok(nodes0[n0 + x], an[x], arch, bd));
                    let p = an[x].4;
                    assert(p == id || (n0 <= p < n0 + x));
                }
            }
        }
    }
}

/// `b` is `a` with possibly different children.
pub open spec fn same_but_kids(a: Node, b: Node) -> bool {
    &&& a.path == b.path
    &&& a.name == b.name
    &&& a.is_dir == b.is_dir
    &&& a.is_archive == b.is_archive
    &&& a.is_media == b.is_media
    &&& a.depth == b.depth
    &&& a.parent == b.parent
    &&& a.expanded == b.expanded
    &&& a.size == b.size
    &&& a.count == b.count
}

} // verus!
