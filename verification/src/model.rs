//! Lazy file tree with a flattened visible list for O(visible) rendering.
//! Nodes live in one vector; a node's children always come after it, which
//! is what keeps every traversal finite.
use vstd::prelude::*;
use crate::archive::{is_archive, kind_of_path};
use crate::media::{is_audio_path, is_playlist_path, Registry};
use crate::order::{key_before, keys_view, law_sorted_keys_sorted, lemma_sorted_keys_rows, sort_keys, sorted_keys, KeyView, SortKey};
use crate::path::{file_name, file_name_of};
use crate::text::{chars_of, string_of};

verus! {

pub type NodeId = usize;

pub struct Node {
    pub path: String,
    pub name: String,
    pub is_dir: bool,
    /// An archive container (zip/tar/7z/...). Expandable like a dir, but scanned
    /// from its in-memory listing and closed (memory wiped) when collapsed.
    pub is_archive: bool,
    pub is_media: bool,
    pub depth: usize,
    pub parent: Option<NodeId>,
    /// `None` = unscanned dir.
    pub children: Option<Vec<NodeId>>,
    pub expanded: bool,
    /// For files: byte size. For dirs: summed size of all media files within (recursive).
    pub size: u64,
    /// For dirs: count of media files within (recursive). 0 for files.
    pub count: usize,
}

/// The children of a node as a sequence (empty when unscanned).
pub open spec fn kids_of(n: Node) -> Seq<NodeId> {
    match n.children {
        Some(c) => c@,
        None => seq![],
    }
}

/// Well-formed node table: every child index lies after its parent and inside
/// the table, and every parent link points before the node.
pub open spec fn nodes_wf(nodes: Seq<Node>) -> bool {
    &&& forall|i: int, k: int|
        0 <= i < nodes.len() && 0 <= k < kids_of(nodes[i]).len() ==> i < #[trigger] kids_of(nodes[i])[k] < nodes.len()
    &&& forall|i: int| 0 <= i < nodes.len() ==> match #[trigger] nodes[i].parent {
        Some(p) => p < i,
        None => true,
    }
}

/// Pre-order listing of `id` and the descendants reachable through expanded
/// directories (`all` = through every scanned node).
pub open spec fn walk_node(nodes: Seq<Node>, id: int, all: bool) -> Seq<NodeId>
    decreases nodes.len() - id, 1int, 0int,
{
    if !(0 <= id < nodes.len()) {
        seq![]
    } else {
        let n = nodes[id];
        if all || (n.is_dir && n.expanded) {
            seq![id as NodeId] + walk_kids(nodes, id, kids_of(n), 0, all)
        } else {
            seq![id as NodeId]
        }
    }
}

/// The walk of `kids[k..]`, children of `parent`.
pub open spec fn walk_kids(nodes: Seq<Node>, parent: int, kids: Seq<NodeId>, k: int, all: bool) -> Seq<NodeId>
    decreases nodes.len() - parent, 0int, kids.len() - k,
{
    if !(0 <= k < kids.len()) {
        seq![]
    } else {
        let c = kids[k] as int;
        let head = if parent < c < nodes.len() { walk_node(nodes, c, all) } else { seq![] };
        head + walk_kids(nodes, parent, kids, k + 1, all)
    }
}

pub struct TreeModel {
    pub nodes: Vec<Node>,
    pub root: NodeId,
    pub visible: Vec<NodeId>,
}

impl TreeModel {
    /// The model's structural invariant.
    pub open spec fn wf(&self) -> bool {
        &&& nodes_wf(self.nodes@)
        &&& self.root < self.nodes@.len()
    }

    /// What the visible list must be: the walk below the root (root excluded).
    pub open spec fn visible_of(&self) -> Seq<NodeId> {
        walk_kids(self.nodes@, self.root as int, kids_of(self.nodes@[self.root as int]), 0, false)
    }

    /// Recomputes the flattened visible list from the tree's expand state.
    pub fn rebuild_visible(&mut self)
        requires
            old(self).wf(),
        ensures
            final(self).nodes == old(self).nodes,
            final(self).root == old(self).root,
            final(self).visible@ == final(self).visible_of(),
    {
        let mut out: Vec<NodeId> = Vec::new();
        let root = self.root;
        self.push_kids(root, &mut out);
        assert(out@ =~= self.visible_of());
        self.visible = out;
    }

    fn push_kids(&self, id: NodeId, out: &mut Vec<NodeId>)
        requires
            self.wf(),
            id < self.nodes.len(),
        ensures
            final(out)@ == old(out)@ + walk_kids(self.nodes@, id as int, kids_of(self.nodes@[id as int]), 0, false),
        decreases self.nodes@.len() - id, 0int, 1int,
    {
        let ghost kids = kids_of(self.nodes@[id as int]);
        let ghost start = out@;
        match &self.nodes[id].children {
            None => {
                assert(out@ =~= start + walk_kids(self.nodes@, id as int, kids, 0, false));
            },
            Some(children) => {
                assert(children@ == kids);
                let mut k: usize = 0;
                while k < children.len()
                    invariant
                        self.wf(),
                        id < self.nodes.len(),
                        children@ == kids,
                        kids == kids_of(self.nodes@[id as int]),
                        k <= children.len(),
                        out@ + walk_kids(self.nodes@, id as int, kids, k as int, false)
                            == start + walk_kids(self.nodes@, id as int, kids, 0, false),
                    decreases children.len() - k,
                {
                    let c = children[k];
                    assert(kids_of(self.nodes@[id as int])[k as int] == c);
                    let ghost before = out@;
                    self.push_visible(c, out);
                    assert(walk_kids(self.nodes@, id as int, kids, k as int, false)
                        == walk_node(self.nodes@, c as int, false) + walk_kids(self.nodes@, id as int, kids, k + 1, false));
                    assert(out@ + walk_kids(self.nodes@, id as int, kids, k + 1, false)
                        =~= before + walk_kids(self.nodes@, id as int, kids, k as int, false));
                    k += 1;
                }
                assert(out@ =~= out@ + walk_kids(self.nodes@, id as int, kids, k as int, false));
            },
        }
    }

    fn push_visible(&self, id: NodeId, out: &mut Vec<NodeId>)
        requires
            self.wf(),
            id < self.nodes.len(),
        ensures
            final(out)@ == old(out)@ + walk_node(self.nodes@, id as int, false),
        decreases self.nodes@.len() - id, 1int, 0int,
    {
        out.push(id);
        let node = &self.nodes[id];
        if node.is_dir && node.expanded {
            let ghost mid = out@;
            self.push_kids(id, out);
            assert(final(out)@ =~= old(out)@ + walk_node(self.nodes@, id as int, false));
        } else {
            assert(out@ =~= old(out)@ + walk_node(self.nodes@, id as int, false));
        }
    }

    /// The node with id `id`.
    pub fn node(&self, id: NodeId) -> (r: &Node)
        requires
            id < self.nodes.len(),
        ensures
            *r == self.nodes@[id as int],
    {
        &self.nodes[id]
    }
}


/// Media count and total media size of `id`'s subtree: a leaf (no children)
/// counts itself when it is media; otherwise the sum over its children.
pub open spec fn stats_node(nodes: Seq<Node>, id: int) -> (nat, nat)
    decreases nodes.len() - id, 1int, 0int,
{
    if !(0 <= id < nodes.len()) {
        (0, 0)
    } else {
        let kids = kids_of(nodes[id]);
        if kids.len() == 0 {
            if nodes[id].is_media {
                (1, nodes[id].size as nat)
            } else {
                (0, 0)
            }
        } else {
            stats_kids(nodes, id, kids, 0)
        }
    }
}

/// Summed stats of the children `kids[k..]` of `parent`.
pub open spec fn stats_kids(nodes: Seq<Node>, parent: int, kids: Seq<NodeId>, k: int) -> (nat, nat)
    decreases nodes.len() - parent, 0int, kids.len() - k,
{
    if !(0 <= k < kids.len()) {
        (0, 0)
    } else {
        let c = kids[k] as int;
        let h = if parent < c < nodes.len() { stats_node(nodes, c) } else { (0, 0) };
        let t = stats_kids(nodes, parent, kids, k + 1);
        (h.0 + t.0, h.1 + t.1)
    }
}

/// `b` is `a` with possibly different totals (`count`, `size`).
pub open spec fn same_but_totals(a: Node, b: Node) -> bool {
    &&& a.path == b.path
    &&& a.name == b.name
    &&& a.is_dir == b.is_dir
    &&& a.is_archive == b.is_archive
    &&& a.is_media == b.is_media
    &&& a.depth == b.depth
    &&& a.parent == b.parent
    &&& a.children == b.children
    &&& a.expanded == b.expanded
}

/// Two node tables with the same shape, differing at most in the totals of
/// nodes that have children.
pub open spec fn agrees(a: Seq<Node>, b: Seq<Node>) -> bool {
    &&& a.len() == b.len()
    &&& forall|j: int| 0 <= j < a.len() ==> same_but_totals(#[trigger] a[j], b[j])
    &&& forall|j: int| 0 <= j < a.len() && kids_of(#[trigger] a[j]).len() == 0 ==> a[j].size == b[j].size
}

/// Whether recounting writes totals onto node `j`: a directory with children.
pub open spec fn gets_totals(n: Node) -> bool {
    n.is_dir && kids_of(n).len() > 0
}

/// Agreeing tables are both well-formed or neither.
pub proof fn lemma_agrees_wf(a: Seq<Node>, b: Seq<Node>)
    requires
        agrees(a, b),
        nodes_wf(a),
    ensures
        nodes_wf(b),
{
    assert forall|i: int, k: int| 0 <= i < b.len() && 0 <= k < kids_of(b[i]).len() implies i < #[trigger] kids_of(b[i])[k] < b.len() by {
        assert(same_but_totals(a[i], b[i]));
        assert(kids_of(a[i]) == kids_of(b[i]));
    }
    assert forall|i: int| 0 <= i < b.len() implies match #[trigger] b[i].parent {
        Some(p) => p < i,
        None => true,
    } by {
        assert(same_but_totals(a[i], b[i]));
    }
}

pub proof fn lemma_agrees_node(a: Seq<Node>, b: Seq<Node>, id: int, all: bool)
    requires
        agrees(a, b),
    ensures
        walk_node(a, id, all) == walk_node(b, id, all),
        stats_node(a, id) == stats_node(b, id),
    decreases a.len() - id, 1int, 0int,
{
    if 0 <= id < a.len() {
        assert(same_but_totals(a[id], b[id]));
        assert(kids_of(a[id]) == kids_of(b[id]));
        lemma_agrees_kids(a, b, id, kids_of(a[id]), 0, all);
    }
}

pub proof fn lemma_agrees_kids(a: Seq<Node>, b: Seq<Node>, parent: int, kids: Seq<NodeId>, k: int, all: bool)
    requires
        agrees(a, b),
    ensures
        walk_kids(a, parent, kids, k, all) == walk_kids(b, parent, kids, k, all),
        stats_kids(a, parent, kids, k) == stats_kids(b, parent, kids, k),
    decreases a.len() - parent, 0int, kids.len() - k,
{
    if 0 <= k < kids.len() {
        let c = kids[k] as int;
        if parent < c < a.len() {
            lemma_agrees_node(a, b, c, all);
        }
        lemma_agrees_kids(a, b, parent, kids, k + 1, all);
    }
}

/// Every node listed by a walk of `id` is `id` or after it.
pub proof fn lemma_walk_node_after(nodes: Seq<Node>, id: int, all: bool)
    requires
        nodes.len() <= usize::MAX,
    ensures
        forall|x: int| 0 <= x < walk_node(nodes, id, all).len() ==> #[trigger] walk_node(nodes, id, all)[x] >= id,
        forall|x: int| 0 <= x < walk_node(nodes, id, all).len() ==> #[trigger] walk_node(nodes, id, all)[x] < nodes.len(),
    decreases nodes.len() - id, 1int, 0int,
{
    if 0 <= id < nodes.len() {
        lemma_walk_kids_after(nodes, id, kids_of(nodes[id]), 0, all);
        let w = walk_node(nodes, id, all);
        let n = nodes[id];
        if all || (n.is_dir && n.expanded) {
            let t = walk_kids(nodes, id, kids_of(n), 0, all);
            assert(w == seq![id as NodeId] + t);
            assert forall|x: int| 0 <= x < w.len() implies #[trigger] w[x] >= id && w[x] < nodes.len() by {
                if x > 0 {
                    assert(w[x] == t[x - 1]);
                } else {
                    assert(w[x] == id as NodeId);
                }
            }
        } else {
            assert(w == seq![id as NodeId]);
            assert forall|x: int| 0 <= x < w.len() implies #[trigger] w[x] >= id && w[x] < nodes.len() by {
                assert(w[x] == id as NodeId);
            }
        }
    }
}

/// Every node listed by a walk of children of `parent` comes after `parent`.
pub proof fn lemma_walk_kids_after(nodes: Seq<Node>, parent: int, kids: Seq<NodeId>, k: int, all: bool)
    requires
        nodes.len() <= usize::MAX,
    ensures
        forall|x: int| 0 <= x < walk_kids(nodes, parent, kids, k, all).len() ==> #[trigger] walk_kids(nodes, parent, kids, k, all)[x] > parent,
        forall|x: int| 0 <= x < walk_kids(nodes, parent, kids, k, all).len() ==> #[trigger] walk_kids(nodes, parent, kids, k, all)[x] < nodes.len(),
    decreases nodes.len() - parent, 0int, kids.len() - k,
{
    if 0 <= k < kids.len() {
        let c = kids[k] as int;
        let h = if parent < c < nodes.len() { walk_node(nodes, c, all) } else { seq![] };
        if parent < c < nodes.len() {
            lemma_walk_node_after(nodes, c, all);
        }
        lemma_walk_kids_after(nodes, parent, kids, k + 1, all);
        let t = walk_kids(nodes, parent, kids, k + 1, all);
        let w = walk_kids(nodes, parent, kids, k, all);
        assert(w == h + t);
        assert forall|x: int| 0 <= x < w.len() implies #[trigger] w[x] > parent && w[x] < nodes.len() by {
            if x < h.len() {
                assert(w[x] == h[x]);
            } else {
                assert(w[x] == t[x - h.len()]);
            }
        }
    }
}

impl TreeModel {
    /// Recomputes (media-count, size) for a subtree, writing the totals onto
    /// each directory node that has children. Leaves contribute their own size.
    pub(crate) fn recount(&mut self, id: NodeId) -> (r: (usize, u64))
        requires
            old(self).wf(),
            id < old(self).nodes.len(),
            stats_node(old(self).nodes@, id as int).0 <= usize::MAX,
            stats_node(old(self).nodes@, id as int).1 <= u64::MAX,
        ensures
            final(self).root == old(self).root,
            final(self).visible == old(self).visible,
            agrees(old(self).nodes@, final(self).nodes@),
            r.0 as nat == stats_node(old(self).nodes@, id as int).0,
            r.1 as nat == stats_node(old(self).nodes@, id as int).1,
            forall|j: int| 0 <= j < old(self).nodes@.len() ==> {
                let o = #[trigger] old(self).nodes@[j];
                let n = final(self).nodes@[j];
                if walk_node(old(self).nodes@, id as int, true).contains(j as NodeId) && gets_totals(o) {
                    n.count as nat == stats_node(old(self).nodes@, j).0 && n.size as nat == stats_node(old(self).nodes@, j).1
                } else {
                    n.count == o.count && n.size == o.size
                }
            },
        decreases old(self).nodes@.len() - id,
    {
        let ghost o = self.nodes@;
        let kids: Vec<NodeId> = match &self.nodes[id].children {
            Some(c) => c.clone(),
            None => Vec::new(),
        };
        assert(kids@ == kids_of(o[id as int]));
        if kids.len() == 0 {
            assert forall|j: int| 0 <= j < o.len() && walk_node(o, id as int, true).contains(j as NodeId) implies !gets_totals(#[trigger] o[j]) || j == id by {
                assert(walk_kids(o, id as int, kids@, 0, true) =~= Seq::<NodeId>::empty());
                assert(walk_node(o, id as int, true) =~= seq![id]);
                let x = choose|x: int| 0 <= x < walk_node(o, id as int, true).len() && walk_node(o, id as int, true)[x] == j as NodeId;
            }
            return if self.nodes[id].is_media {
                (1, self.nodes[id].size)
            } else {
                (0, 0)
            };
        }
        let mut c: usize = 0;
        let mut s: u64 = 0;
        let mut k: usize = 0;
        let ghost mut pre: Seq<NodeId> = seq![];
        let ghost total = stats_node(o, id as int);
        while k < kids.len()
            invariant
                self.wf(),
                nodes_wf(o),
                o == old(self).nodes@,
                o.len() == self.nodes@.len(),
                id < self.nodes.len(),
                self.root == old(self).root,
                self.visible == old(self).visible,
                kids@ == kids_of(o[id as int]),
                kids@.len() > 0,
                k <= kids.len(),
                agrees(o, self.nodes@),
                total == stats_kids(o, id as int, kids@, 0),
                total.0 <= usize::MAX,
                total.1 <= u64::MAX,
                c as nat + stats_kids(o, id as int, kids@, k as int).0 == total.0,
                s as nat + stats_kids(o, id as int, kids@, k as int).1 == total.1,
                pre + walk_kids(o, id as int, kids@, k as int, true) == walk_kids(o, id as int, kids@, 0, true),
                forall|j: int| 0 <= j < o.len() ==> {
                    let on = #[trigger] o[j];
                    let nn = self.nodes@[j];
                    if pre.contains(j as NodeId) && gets_totals(on) {
                        nn.count as nat == stats_node(o, j).0 && nn.size as nat == stats_node(o, j).1
                    } else {
                        nn.count == on.count && nn.size == on.size
                    }
                },
            decreases kids.len() - k,
        {
            let ch = kids[k];
            assert(kids_of(o[id as int])[k as int] == ch);
            assert(id < ch && ch < self.nodes.len());
            let ghost mid = self.nodes@;
            proof {
                lemma_agrees_node(o, mid, ch as int, true);
            }
            let (kc, ks) = self.recount(ch);
            proof {
                lemma_agrees_node(mid, self.nodes@, ch as int, true);
                assert(agrees(o, self.nodes@)) by {
                    assert(o.len() == self.nodes@.len());
                    assert forall|j: int| 0 <= j < o.len() implies same_but_totals(#[trigger] o[j], self.nodes@[j]) by {
                        assert(same_but_totals(o[j], mid[j]));
                        assert(same_but_totals(mid[j], self.nodes@[j]));
                    }
                    assert forall|j: int| 0 <= j < o.len() && kids_of(#[trigger] o[j]).len() == 0 implies o[j].size == self.nodes@[j].size by {
                        assert(same_but_totals(o[j], mid[j]));
                        assert(kids_of(mid[j]).len() == 0);
                    }
                }
                assert(stats_kids(o, id as int, kids@, k as int) == {
                    let h = stats_node(o, ch as int);
                    let t = stats_kids(o, id as int, kids@, k + 1);
                    (h.0 + t.0, h.1 + t.1)
                });
            }
            c = c + kc;
            s = s + ks;
            proof {
                let w = walk_node(o, ch as int, true);
                let newpre = pre + w;
                assert(walk_kids(o, id as int, kids@, k as int, true) == w + walk_kids(o, id as int, kids@, k + 1, true));
                assert(newpre + walk_kids(o, id as int, kids@, k + 1, true) =~= pre + walk_kids(o, id as int, kids@, k as int, true));
                assert forall|j: int| 0 <= j < o.len() implies {
                    let on = #[trigger] o[j];
                    let nn = self.nodes@[j];
                    if newpre.contains(j as NodeId) && gets_totals(on) {
                        nn.count as nat == stats_node(o, j).0 && nn.size as nat == stats_node(o, j).1
                    } else {
                        nn.count == on.count && nn.size == on.size
                    }
                } by {
                    let on = o[j];
                    let mn = mid[j];
                    assert(same_but_totals(on, mn));
                    assert(kids_of(on) == kids_of(mn));
                    assert(gets_totals(on) == gets_totals(mn));
                    if w.contains(j as NodeId) && gets_totals(mn) {
                        lemma_agrees_node(o, mid, j, true);
                    }
                    if newpre.contains(j as NodeId) && !pre.contains(j as NodeId) {
                        let x = choose|x: int| 0 <= x < newpre.len() && newpre[x] == j as NodeId;
                        assert(newpre[x] == w[x - pre.len()]);
                        assert(w.contains(j as NodeId));
                    }
                    if w.contains(j as NodeId) && !newpre.contains(j as NodeId) {
                        let x = choose|x: int| 0 <= x < w.len() && w[x] == j as NodeId;
                        assert(newpre[pre.len() + x] == j as NodeId);
                    }
                    if pre.contains(j as NodeId) && !newpre.contains(j as NodeId) {
                        let x = choose|x: int| 0 <= x < pre.len() && pre[x] == j as NodeId;
                        assert(newpre[x] == j as NodeId);
                    }
                }
                pre = newpre;
                lemma_agrees_wf(o, self.nodes@);
            }
            k += 1;
        }
        proof {
            assert(stats_kids(o, id as int, kids@, k as int) == (0nat, 0nat));
            assert(walk_kids(o, id as int, kids@, k as int, true) =~= Seq::<NodeId>::empty());
            assert(pre =~= walk_kids(o, id as int, kids@, 0, true));
            lemma_walk_kids_after(o, id as int, kids@, 0, true);
        }
        let ghost before = self.nodes@;
        if self.nodes[id].is_dir {
            self.nodes[id].count = c;
            self.nodes[id].size = s;
        }
        proof {
            let w = walk_node(o, id as int, true);
            assert(w == seq![id] + pre);
            assert(agrees(o, self.nodes@)) by {
                assert forall|j: int| 0 <= j < o.len() implies same_but_totals(#[trigger] o[j], self.nodes@[j]) by {
                    assert(same_but_totals(o[j], before[j]));
                }
                assert forall|j: int| 0 <= j < o.len() && kids_of(#[trigger] o[j]).len() == 0 implies o[j].size == self.nodes@[j].size by {
                    assert(same_but_totals(o[j], before[j]));
                    if j == id { assert(kids_of(o[j]).len() > 0); }
                }
            }
            assert forall|j: int| 0 <= j < o.len() implies {
                let on = #[trigger] o[j];
                let nn = self.nodes@[j];
                if w.contains(j as NodeId) && gets_totals(on) {
                    nn.count as nat == stats_node(o, j).0 && nn.size as nat == stats_node(o, j).1
                } else {
                    nn.count == on.count && nn.size == on.size
                }
            } by {
                if j == id {
                    assert(w[0] == id);
                    if pre.contains(j as NodeId) {
                        let x = choose|x: int| 0 <= x < pre.len() && pre[x] == j as NodeId;
                    }
                } else {
                    if w.contains(j as NodeId) {
                        let x = choose|x: int| 0 <= x < w.len() && w[x] == j as NodeId;
                        assert(x > 0);
                        assert(pre[x - 1] == j as NodeId);
                    }
                    if pre.contains(j as NodeId) {
                        let x = choose|x: int| 0 <= x < pre.len() && pre[x] == j as NodeId;
                        assert(w[x + 1] == j as NodeId);
                    }
                }
            }
        }
        (c, s)
    }
}


/// One directory entry as read from disk.
pub struct DirEntryInfo {
    pub path: String,
    pub is_dir: bool,
    /// File length in bytes (0 for directories).
    pub size: u64,
}

impl View for DirEntryInfo {
    type V = (Seq<char>, bool, u64);

    open spec fn view(&self) -> (Seq<char>, bool, u64) {
        (self.path@, self.is_dir, self.size)
    }
}

/// One listed entry with its recursive media stats.
pub struct ScanItem {
    pub path: String,
    pub is_dir: bool,
    /// File length in bytes (0 for directories).
    pub size: u64,
    /// For a directory or an archive: media files within (recursive).
    pub count: usize,
    /// For a directory or an archive: summed size of those media files.
    pub total: u64,
}

/// A dotfile: its file name starts with `.`.
pub open spec fn hidden_path(p: Seq<char>) -> bool {
    match file_name_of(p) {
        Some(n) => n.len() > 0 && n[0] == '.',
        None => false,
    }
}

/// Whether a directory entry is listed in the tree: not a dotfile, and a
/// directory, playable media, a playlist or an archive.
pub open spec fn is_listed(e: (Seq<char>, bool, u64)) -> bool {
    !hidden_path(e.0) && (e.1 || is_audio_path(e.0) || is_playlist_path(e.0) || kind_of_path(e.0) is Some)
}

/// The listed entries, in input order.
pub open spec fn listed(s: Seq<(Seq<char>, bool, u64)>) -> Seq<(Seq<char>, bool, u64)>
    decreases s.len(),
{
    if s.len() == 0 {
        seq![]
    } else if is_listed(s.last()) {
        listed(s.drop_last()).push(s.last())
    } else {
        listed(s.drop_last())
    }
}

/// The sort row of entry `i`: directories first, then by file name.
pub open spec fn entry_key(e: (Seq<char>, bool, u64), i: int) -> KeyView {
    (
        e.1,
        file_name_of(e.0) is Some,
        match file_name_of(e.0) {
            Some(n) => n,
            None => seq![],
        },
        i as usize,
    )
}

pub open spec fn entry_keys(s: Seq<(Seq<char>, bool, u64)>) -> Seq<KeyView> {
    Seq::new(s.len(), |i: int| entry_key(s[i], i))
}

/// The listed entries of a directory, directories first, then by file name.
pub open spec fn scan_order(s: Seq<(Seq<char>, bool, u64)>) -> Seq<(Seq<char>, bool, u64)> {
    let c = listed(s);
    let k = sorted_keys(entry_keys(c));
    Seq::new(k.len(), |i: int| c[k[i].3 as int])
}

pub open spec fn infos_view(s: Seq<DirEntryInfo>) -> Seq<(Seq<char>, bool, u64)> {
    s.map_values(|e: DirEntryInfo| e@)
}

fn is_hidden(p: &Vec<char>) -> (r: bool)
    ensures
        r == hidden_path(p@),
{
    match file_name(p) {
        Some(n) => n.len() > 0 && n[0] == '.',
        None => false,
    }
}

impl TreeModel {
    /// The entries of a directory listing that the tree shows, in display
    /// order: dotfiles dropped; directories, media, playlists and archives
    /// kept; directories first, then by file name.
    pub fn scan_candidates(listing: Vec<DirEntryInfo>, reg: &Registry) -> (out: Vec<DirEntryInfo>)
        ensures
            infos_view(out@) == scan_order(infos_view(listing@)),
    {
        let ghost all = infos_view(listing@);
        let mut kept: Vec<DirEntryInfo> = Vec::new();
        let mut keys: Vec<SortKey> = Vec::new();
        let mut i: usize = 0;
        while i < listing.len()
            invariant
                i <= listing.len(),
                all == infos_view(listing@),
                infos_view(kept@) == listed(all.take(i as int)),
                keys_view(keys@) == entry_keys(infos_view(kept@)),
            decreases listing.len() - i,
        {
            let e = &listing[i];
            let p = chars_of(e.path.as_str());
            assert(all.take(i + 1).drop_last() =~= all.take(i as int));
            assert(all.take(i + 1).last() == e@);
            let keep = !is_hidden(&p) && (e.is_dir || reg.is_visible(e.path.as_str()) || is_archive(e.path.as_str()));
            if keep {
                let ghost k0 = kept@;
                let ghost y0 = keys@;
                assert(keys_view(y0).len() == y0.len());
                assert(entry_keys(infos_view(k0)).len() == k0.len());
                assert(y0.len() == k0.len());
                let name = file_name(&p);
                let key = SortKey {
                    dir: e.is_dir,
                    has_name: name.is_some(),
                    name: match name {
                        Some(n) => n,
                        None => Vec::new(),
                    },
                    id: kept.len(),
                };
                assert(key@ == entry_key(e@, kept@.len() as int));
                keys.push(key);
                kept.push(DirEntryInfo { path: e.path.clone(), is_dir: e.is_dir, size: e.size });
                assert(infos_view(kept@) =~= infos_view(k0).push(e@));
                assert forall|x: int| 0 <= x < keys@.len() implies keys_view(keys@)[x] == entry_keys(infos_view(kept@))[x] by {
                    if x < y0.len() {
                        assert(keys@[x] == y0[x]);
                        assert(infos_view(kept@)[x] == infos_view(k0)[x]);
                        assert(keys_view(y0)[x] == entry_keys(infos_view(k0))[x]);
                    }
                }
                assert(keys_view(keys@) =~= entry_keys(infos_view(kept@)));
            }
            i += 1;
        }
        assert(all.take(listing@.len() as int) =~= all);
        let ghost c = infos_view(kept@);
        assert(c == listed(all));
        let sorted = sort_keys(keys);
        proof {
            lemma_sorted_keys_rows(entry_keys(c));
        }
        let mut out: Vec<DirEntryInfo> = Vec::new();
        let mut j: usize = 0;
        while j < sorted.len()
            invariant
                j <= sorted.len(),
                c == infos_view(kept@),
                c == listed(all),
                keys_view(sorted@) == sorted_keys(entry_keys(c)),
                sorted_keys(entry_keys(c)).len() == c.len(),
                forall|x: int| 0 <= x < c.len() ==> entry_keys(c).contains(#[trigger] sorted_keys(entry_keys(c))[x]),
                infos_view(out@) == scan_order(all).take(j as int),
            decreases sorted.len() - j,
        {
            let idx = sorted[j].id;
            proof {
                let kk = sorted_keys(entry_keys(c))[j as int];
                assert(keys_view(sorted@)[j as int] == kk);
                assert(entry_keys(c).contains(kk));
                let w = choose|w: int| 0 <= w < entry_keys(c).len() && entry_keys(c)[w] == kk;
                assert(kk.3 == w as usize);
            }
            let ghost o0 = out@;
            let e = &kept[idx];
            out.push(DirEntryInfo { path: e.path.clone(), is_dir: e.is_dir, size: e.size });
            assert(infos_view(out@) =~= infos_view(o0).push(c[idx as int]));
            assert(scan_order(all).len() == c.len());
            assert(scan_order(all).take(j + 1) =~= scan_order(all).take(j as int).push(scan_order(all)[j as int]));
            assert(scan_order(all)[j as int] == c[sorted_keys(entry_keys(c))[j as int].3 as int]);
            assert(infos_view(out@) =~= scan_order(all).take(j + 1));
            j += 1;
        }
        assert(infos_view(out@) =~= scan_order(all));
        out
    }
}


pub type ItemView = (Seq<char>, bool, u64, usize, u64);

impl View for ScanItem {
    type V = ItemView;

    open spec fn view(&self) -> ItemView {
        (self.path@, self.is_dir, self.size, self.count, self.total)
    }
}

pub open spec fn items_view(s: Seq<ScanItem>) -> Seq<ItemView> {
    s.map_values(|e: ScanItem| e@)
}

/// A listed file that is an archive container.
pub open spec fn item_is_archive(it: ItemView) -> bool {
    !it.1 && kind_of_path(it.0) is Some
}

/// Directories and archives holding no media are pruned; files stay.
pub open spec fn item_kept(it: ItemView) -> bool {
    (it.1 || item_is_archive(it)) ==> it.3 > 0
}

/// The items that become nodes, in order.
pub open spec fn kept_items(s: Seq<ItemView>) -> Seq<ItemView>
    decreases s.len(),
{
    if s.len() == 0 {
        seq![]
    } else if item_kept(s.last()) {
        kept_items(s.drop_last()).push(s.last())
    } else {
        kept_items(s.drop_last())
    }
}

/// The node a scan creates for item `it` under `parent` at `depth`.
pub open spec fn node_for_item(n: Node, it: ItemView, parent: NodeId, depth: usize) -> bool {
    let arch = item_is_archive(it);
    let expandable = it.1 || arch;
    &&& n.path@ == it.0
    &&& n.name@ == (match file_name_of(it.0) {
        Some(f) => f,
        None => seq![],
    })
    &&& n.is_dir == expandable
    &&& n.is_archive == arch
    &&& n.is_media == (!it.1 && !arch && is_audio_path(it.0))
    &&& n.depth == depth
    &&& n.parent == Some(parent)
    &&& (if expandable { n.children is None } else { n.children is Some && kids_of(n).len() == 0 })
    &&& !n.expanded
    &&& n.size == (if expandable { it.4 } else { it.2 })
    &&& n.count == (if expandable { it.3 } else { 0 })
}

/// `b` is `a` with possibly different children.
pub open spec fn same_but_children(a: Node, b: Node) -> bool {
    &&& a.path == b.path
    &&& a.name == b.name
    &&& a.is_dir == b.is_dir
    &&& a.is_archive == b.is_archive
    &&& a.is_media == b.is_media
    &&& a.depth == b.depth
    &&& a.parent == b.parent
    &&& a.expanded == b.expanded
    &&& a.size == b.size
    &&& a.count == b.count
}

/// A scan needs to read this node: an unscanned directory that is not an
/// archive.
pub open spec fn needs_scan(n: Node) -> bool {
    n.children is None && n.is_dir && !n.is_archive
}

/// A directory's candidates in display order (see `scan_order`), each paired
/// with its `(count, total)` media stats from `stats`, read by position.
pub open spec fn scan_items_of(listing: Seq<(Seq<char>, bool, u64)>, stats: Seq<(usize, u64)>) -> Seq<ItemView> {
    let c = scan_order(listing);
    Seq::new(c.len(), |j: int| (c[j].0, c[j].1, c[j].2, stats[j].0, stats[j].1))
}

impl TreeModel {
    /// Reads a directory's children (once). `listing` is the directory as
    /// read from disk; the entries the tree shows are picked and ordered as
    /// `scan_candidates` does (dotfiles dropped; directories, media,
    /// playlists and archives kept; directories first, then by name), and
    /// `stats[j]` gives the recursive media `(count, total)` of the `j`-th
    /// of them (read for directories and archives only). Directories and
    /// archives holding no media are pruned. Does nothing for a scanned node,
    /// a file, or an archive (those are scanned with `scan_archive`).
    pub fn scan(&mut self, id: NodeId, listing: Vec<DirEntryInfo>, stats: Vec<(usize, u64)>, reg: &Registry)
        requires
            old(self).wf(),
            id < old(self).nodes.len(),
            needs_scan(old(self).nodes@[id as int]) ==> old(self).nodes@[id as int].depth < usize::MAX,
            needs_scan(old(self).nodes@[id as int]) ==> stats@.len() == scan_order(infos_view(listing@)).len(),
        ensures
            final(self).wf(),
            !needs_scan(final(self).nodes@[id as int]),
            final(self).root == old(self).root,
            final(self).visible == old(self).visible,
            ({
                let o = old(self).nodes@[id as int];
                if !needs_scan(o) {
                    final(self).nodes == old(self).nodes
                } else {
                    let kept = kept_items(scan_items_of(infos_view(listing@), stats@));
                    let n0 = old(self).nodes@.len();
                    &&& final(self).nodes@.len() == n0 + kept.len()
                    &&& forall|j: int| 0 <= j < n0 && j != id ==> #[trigger] final(self).nodes@[j] == old(self).nodes@[j]
                    &&& same_but_children(o, final(self).nodes@[id as int])
                    &&& final(self).nodes@[id as int].children is Some
                    &&& kids_of(final(self).nodes@[id as int]) == Seq::new(kept.len(), |k: int| (n0 + k) as NodeId)
                    &&& forall|k: int| 0 <= k < kept.len() ==> node_for_item(#[trigger] final(self).nodes@[n0 + k], kept[k], id, (o.depth + 1) as usize)
                }
            }),
    {
        if self.nodes[id].children.is_some() || !self.nodes[id].is_dir || self.nodes[id].is_archive {
            return;
        }
        let ghost lv = infos_view(listing@);
        let cands = Self::scan_candidates(listing, reg);
        let ghost target = scan_items_of(lv, stats@);
        let mut items: Vec<ScanItem> = Vec::new();
        let mut j: usize = 0;
        while j < cands.len()
            invariant
                j <= cands.len(),
                infos_view(cands@) == scan_order(lv),
                stats@.len() == cands@.len(),
                target == scan_items_of(lv, stats@),
                items_view(items@) == target.take(j as int),
            decreases cands.len() - j,
        {
            let e = &cands[j];
            assert(infos_view(cands@)[j as int] == e@);
            let ghost i0 = items@;
            items.push(ScanItem { path: e.path.clone(), is_dir: e.is_dir, size: e.size, count: stats[j].0, total: stats[j].1 });
            assert(items_view(items@) =~= items_view(i0).push(target[j as int]));
            assert(target.take(j + 1) =~= target.take(j as int).push(target[j as int]));
            j += 1;
        }
        assert(target.take(cands@.len() as int) =~= target);
        self.attach(id, items, reg);
    }

    /// Gives the unscanned directory `id` one child per kept item, in order.
    fn attach(&mut self, id: NodeId, items: Vec<ScanItem>, reg: &Registry)
        requires
            old(self).wf(),
            id < old(self).nodes.len(),
            needs_scan(old(self).nodes@[id as int]),
            old(self).nodes@[id as int].depth < usize::MAX,
        ensures
            final(self).wf(),
            final(self).root == old(self).root,
            final(self).visible == old(self).visible,
            ({
                let o = old(self).nodes@[id as int];
                {
                    let kept = kept_items(items_view(items@));
                    let n0 = old(self).nodes@.len();
                    &&& final(self).nodes@.len() == n0 + kept.len()
                    &&& forall|j: int| 0 <= j < n0 && j != id ==> #[trigger] final(self).nodes@[j] == old(self).nodes@[j]
                    &&& same_but_children(o, final(self).nodes@[id as int])
                    &&& final(self).nodes@[id as int].children is Some
                    &&& kids_of(final(self).nodes@[id as int]) == Seq::new(kept.len(), |k: int| (n0 + k) as NodeId)
                    &&& forall|k: int| 0 <= k < kept.len() ==> node_for_item(#[trigger] final(self).nodes@[n0 + k], kept[k], id, (o.depth + 1) as usize)
                }
            }),
    {
        let ghost o = self.nodes@;
        let ghost n0 = o.len();
        let ghost all = items_view(items@);
        let depth = self.nodes[id].depth + 1;
        let mut kids: Vec<NodeId> = Vec::new();
        let mut i: usize = 0;
        while i < items.len()
            invariant
                i <= items.len(),
                all == items_view(items@),
                n0 == o.len(),
                id < n0,
                nodes_wf(o),
                o[id as int].children is None,
                self.root == old(self).root,
                self.visible == old(self).visible,
                self.root < n0,
                depth == o[id as int].depth + 1,
                self.nodes@.len() == n0 + kids@.len(),
                forall|j: int| 0 <= j < n0 ==> #[trigger] self.nodes@[j] == o[j],
                kids@ == Seq::new(kids@.len(), |k: int| (n0 + k) as NodeId),
                kids@.len() == kept_items(all.take(i as int)).len(),
                forall|k: int| 0 <= k < kids@.len() ==> node_for_item(#[trigger] self.nodes@[n0 + k], kept_items(all.take(i as int))[k], id, depth),
                nodes_wf(self.nodes@),
            decreases items.len() - i,
        {
            let it = &items[i];
            assert(all.take(i + 1).drop_last() =~= all.take(i as int));
            assert(all.take(i + 1).last() == it@);
            let p = chars_of(it.path.as_str());
            let is_arch = !it.is_dir && is_archive(it.path.as_str());
            let expandable = it.is_dir || is_arch;
            if expandable && it.count == 0 {
                i += 1;
                continue;
            }
            let is_media = !it.is_dir && !is_arch && reg.is_supported(it.path.as_str());
            let name = match file_name(&p) {
                Some(n) => string_of(&n),
                None => String::new(),
            };
            let (size, count) = if expandable {
                (it.total, it.count)
            } else {
                (it.size, 0)
            };
            let nid = self.nodes.len();
            let ghost before = self.nodes@;
            let ghost kk = kept_items(all.take(i as int));
            self.nodes.push(Node {
                path: it.path.clone(),
                name,
                is_dir: expandable,
                is_archive: is_arch,
                is_media,
                depth,
                parent: Some(id),
                children: if expandable { None } else { Some(Vec::new()) },
                expanded: false,
                size,
                count,
            });
            kids.push(nid);
            proof {
                let kn = kept_items(all.take(i + 1));
                assert(kn == kk.push(it@));
                assert(kids_of(self.nodes@[nid as int]).len() == 0);
                assert forall|j: int| 0 <= j < n0 implies #[trigger] self.nodes@[j] == o[j] by {
                    assert(self.nodes@[j] == before[j]);
                }
                assert forall|k: int| 0 <= k < kids@.len() implies node_for_item(#[trigger] self.nodes@[n0 + k], kn[k], id, depth) by {
                    if k < kids@.len() - 1 {
                        assert(self.nodes@[n0 + k] == before[n0 + k]);
                    }
                }
                assert(kids@ =~= Seq::new(kids@.len(), |k: int| (n0 + k) as NodeId));
                let t = self.nodes@;
                assert forall|a: int, k: int| 0 <= a < t.len() && 0 <= k < kids_of(t[a]).len() implies a < #[trigger] kids_of(t[a])[k] < t.len() by {
                    if a < before.len() {
                        assert(t[a] == before[a]);
                    }
                }
                assert forall|a: int| 0 <= a < t.len() implies match #[trigger] t[a].parent {
                    Some(q) => q < a,
                    None => true,
                } by {
                    if a < before.len() {
                        assert(t[a] == before[a]);
                    }
                }
            }
            i += 1;
        }
        assert(all.take(items@.len() as int) =~= all);
        let ghost before = self.nodes@;
        let ghost kv = kids@;
        self.nodes[id].children = Some(kids);
        proof {
            let t = self.nodes@;
            assert(kids_of(t[id as int]) == kv);
            assert(t.len() == n0 + kv.len());
            assert(self.nodes.len() == t.len());
            assert forall|j: int| 0 <= j < n0 && j != id implies #[trigger] t[j] == o[j] by {
                assert(t[j] == before[j]);
            }
            assert forall|k: int| 0 <= k < kids_of(t[id as int]).len() implies node_for_item(#[trigger] t[n0 + k], kept_items(all)[k], id, depth) by {
                assert(t[n0 + k] == before[n0 + k]);
            }
            assert forall|a: int, k: int| 0 <= a < t.len() && 0 <= k < kids_of(t[a]).len() implies a < #[trigger] kids_of(t[a])[k] < t.len() by {
                if a != id {
                    assert(t[a] == before[a]);
                } else {
                    assert(n0 + k < t.len());
                    assert(kv[k] == (n0 + k) as NodeId);
                    assert(kv[k] as int == n0 + k);
                }
            }
            assert forall|a: int| 0 <= a < t.len() implies match #[trigger] t[a].parent {
                Some(q) => q < a,
                None => true,
            } by {
                if a != id {
                    assert(t[a] == before[a]);
                } else {
                    assert(t[a].parent == before[a].parent);
                }
            }
        }
    }
}


impl TreeModel {
    /// A tree rooted at directory `root`, with the root's children scanned
    /// from its `listing` and candidate `stats` (see `scan`) and the visible
    /// list built. The root node is named after its file name (the whole path
    /// when it has none) and starts expanded.
    pub fn new(root: &str, listing: Vec<DirEntryInfo>, stats: Vec<(usize, u64)>, reg: &Registry) -> (r: Self)
        requires
            stats@.len() == scan_order(infos_view(listing@)).len(),
        ensures
            r.wf(),
            r.root == 0,
            r.visible@ == r.visible_of(),
            r.nodes@[0].path@ == root@,
            r.nodes@[0].name@ == (match file_name_of(root@) {
                Some(n) => n,
                None => root@,
            }),
            r.nodes@[0].is_dir && !r.nodes@[0].is_archive && !r.nodes@[0].is_media,
            r.nodes@[0].depth == 0,
            r.nodes@[0].parent is None,
            r.nodes@[0].expanded,
            r.nodes@[0].size == 0 && r.nodes@[0].count == 0,
            r.nodes@[0].children is Some,
            ({
                let kept = kept_items(scan_items_of(infos_view(listing@), stats@));
                &&& r.nodes@.len() == 1 + kept.len()
                &&& kids_of(r.nodes@[0]) == Seq::new(kept.len(), |k: int| (1 + k) as NodeId)
                &&& forall|k: int| 0 <= k < kept.len() ==> node_for_item(#[trigger] r.nodes@[1 + k], kept[k], 0, 1)
            }),
    {
        let p = chars_of(root);
        let name = match file_name(&p) {
            Some(n) => string_of(&n),
            None => root.to_owned(),
        };
        let root_node = Node {
            path: root.to_owned(),
            name,
            is_dir: true,
            is_archive: false,
            is_media: false,
            depth: 0,
            parent: None,
            children: None,
            expanded: true,
            size: 0,
            count: 0,
        };
        let mut nodes: Vec<Node> = Vec::new();
        nodes.push(root_node);
        let mut model = TreeModel { nodes, root: 0, visible: Vec::new() };
        assert(model.wf()) by {
            assert(kids_of(model.nodes@[0]).len() == 0);
        }
        let ghost m0 = model.nodes@;
        model.scan(0, listing, stats, reg);
        assert(same_but_children(m0[0], model.nodes@[0]));
        model.rebuild_visible();
        model
    }
}

/// One entry of a directory as `dir_stats` sees it: `sub` holds the media
/// stats of a subdirectory (recursive) or of an archive's audio entries.
pub struct StatEntry {
    pub path: String,
    pub is_dir: bool,
    /// File length in bytes.
    pub size: u64,
    pub sub_count: usize,
    pub sub_size: u64,
}

impl View for StatEntry {
    type V = (Seq<char>, bool, u64, usize, u64);

    open spec fn view(&self) -> (Seq<char>, bool, u64, usize, u64) {
        (self.path@, self.is_dir, self.size, self.sub_count, self.sub_size)
    }
}

/// The contribution of one entry to its directory's media stats: dotfiles
/// none; a directory or an archive its own stats; a supported media file one
/// track of its size; anything else none.
pub open spec fn stat_contribution(e: (Seq<char>, bool, u64, usize, u64)) -> (nat, nat) {
    if hidden_path(e.0) {
        (0, 0)
    } else if e.1 || kind_of_path(e.0) is Some {
        (e.3 as nat, e.4 as nat)
    } else if is_audio_path(e.0) {
        (1, e.2 as nat)
    } else {
        (0, 0)
    }
}

/// Summed media stats of a directory's entries.
pub open spec fn dir_stats_of(s: Seq<(Seq<char>, bool, u64, usize, u64)>) -> (nat, nat)
    decreases s.len(),
{
    if s.len() == 0 {
        (0, 0)
    } else {
        let r = dir_stats_of(s.drop_last());
        let c = stat_contribution(s.last());
        (r.0 + c.0, r.1 + c.1)
    }
}

proof fn lemma_dir_stats_prefix(s: Seq<(Seq<char>, bool, u64, usize, u64)>, n: int)
    requires
        0 <= n <= s.len(),
    ensures
        dir_stats_of(s.take(n)).0 <= dir_stats_of(s).0,
        dir_stats_of(s.take(n)).1 <= dir_stats_of(s).1,
    decreases s.len() - n,
{
    if n < s.len() {
        lemma_dir_stats_prefix(s, n + 1);
        assert(s.take(n + 1).drop_last() =~= s.take(n));
    } else {
        assert(s.take(n) =~= s);
    }
}

impl TreeModel {
    /// Counts the media files within a directory, given its entries, and sums
    /// their sizes (see `dir_stats_of`): used both to display per-dir totals
    /// and to prune directories holding no music anywhere below them.
    pub fn dir_stats(entries: &Vec<StatEntry>, reg: &Registry) -> (r: (usize, u64))
        requires
            dir_stats_of(entries@.map_values(|e: StatEntry| e@)).0 <= usize::MAX,
            dir_stats_of(entries@.map_values(|e: StatEntry| e@)).1 <= u64::MAX,
        ensures
            r.0 as nat == dir_stats_of(entries@.map_values(|e: StatEntry| e@)).0,
            r.1 as nat == dir_stats_of(entries@.map_values(|e: StatEntry| e@)).1,
    {
        let ghost all = entries@.map_values(|e: StatEntry| e@);
        let mut count: usize = 0;
        let mut size: u64 = 0;
        let mut i: usize = 0;
        while i < entries.len()
            invariant
                i <= entries.len(),
                all == entries@.map_values(|e: StatEntry| e@),
                dir_stats_of(all).0 <= usize::MAX,
                dir_stats_of(all).1 <= u64::MAX,
                count as nat == dir_stats_of(all.take(i as int)).0,
                size as nat == dir_stats_of(all.take(i as int)).1,
            decreases entries.len() - i,
        {
            let e = &entries[i];
            proof {
                assert(all.take(i + 1).drop_last() =~= all.take(i as int));
                assert(all.take(i + 1).last() == e@);
                lemma_dir_stats_prefix(all, i + 1);
            }
            let p = chars_of(e.path.as_str());
            if is_hidden(&p) {
            } else if e.is_dir || is_archive(e.path.as_str()) {
                count = count + e.sub_count;
                size = size + e.sub_size;
            } else if reg.is_supported(e.path.as_str()) {
                count = count + 1;
                size = size + e.size;
            }
            i += 1;
        }
        assert(all.take(entries@.len() as int) =~= all);
        (count, size)
    }
}

proof fn lemma_listed_shown(s: Seq<(Seq<char>, bool, u64)>)
    ensures
        forall|k: int| 0 <= k < listed(s).len() ==> is_listed(#[trigger] listed(s)[k]),
        listed(s).len() <= s.len(),
    decreases s.len(),
{
    if s.len() > 0 {
        lemma_listed_shown(s.drop_last());
        let r = listed(s.drop_last());
        if is_listed(s.last()) {
            assert forall|k: int| 0 <= k < listed(s).len() implies is_listed(#[trigger] listed(s)[k]) by {
                if k < r.len() {
                    assert(listed(s)[k] == r[k]);
                }
            }
        }
    }
}

/// A directory listing never shows dotfiles, and shows only directories,
/// playable media, playlists and archives.
pub proof fn law_listing_shows_only_listed(s: Seq<(Seq<char>, bool, u64)>)
    requires
        s.len() <= usize::MAX,
    ensures
        forall|k: int| 0 <= k < scan_order(s).len() ==> #[trigger] is_listed(scan_order(s)[k]),
        forall|k: int| 0 <= k < scan_order(s).len() ==> !hidden_path(#[trigger] scan_order(s)[k].0),
{
    let c = listed(s);
    lemma_listed_shown(s);
    lemma_sorted_keys_rows(entry_keys(c));
    let keys = sorted_keys(entry_keys(c));
    assert forall|k: int| 0 <= k < scan_order(s).len() implies #[trigger] is_listed(scan_order(s)[k]) by {
        assert(entry_keys(c).contains(keys[k]));
        let w = choose|w: int| 0 <= w < entry_keys(c).len() && entry_keys(c)[w] == keys[k];
        assert(keys[k].3 == w as usize);
        assert((w as usize) as int == w);
        assert(scan_order(s)[k] == c[w]);
    }
    assert forall|k: int| 0 <= k < scan_order(s).len() implies !hidden_path(#[trigger] scan_order(s)[k].0) by {
        assert(is_listed(scan_order(s)[k]));
    }
}

/// Every directory or archive a scan adds holds media: the music-less ones
/// are pruned.
pub proof fn law_scan_prunes_empty(s: Seq<ItemView>)
    ensures
        forall|k: int| 0 <= k < kept_items(s).len() ==> #[trigger] item_kept(kept_items(s)[k]),
    decreases s.len(),
{
    if s.len() > 0 {
        law_scan_prunes_empty(s.drop_last());
        let r = kept_items(s.drop_last());
        if item_kept(s.last()) {
            assert forall|k: int| 0 <= k < kept_items(s).len() implies #[trigger] item_kept(kept_items(s)[k]) by {
                if k < r.len() {
                    assert(kept_items(s)[k] == r[k]);
                }
            }
        }
    }
}


/// The sort row of a scanned item.
pub open spec fn item_row(it: ItemView) -> KeyView {
    entry_key((it.0, it.1, it.2), 0)
}

/// Items sorted by row: no item sorts strictly before an earlier one.
pub open spec fn rows_sorted(s: Seq<ItemView>) -> bool {
    forall|a: int, b: int| 0 <= a < b < s.len() ==> !key_before(item_row(#[trigger] s[b]), item_row(#[trigger] s[a]))
}

proof fn lemma_kept_in(s: Seq<ItemView>)
    ensures
        forall|k: int| 0 <= k < kept_items(s).len() ==> exists|i: int| 0 <= i < s.len() && s[i] == #[trigger] kept_items(s)[k],
    decreases s.len(),
{
    if s.len() > 0 {
        let t = s.drop_last();
        lemma_kept_in(t);
        assert forall|k: int| 0 <= k < kept_items(s).len() implies exists|i: int| 0 <= i < s.len() && s[i] == #[trigger] kept_items(s)[k] by {
            if k < kept_items(t).len() {
                assert(kept_items(s)[k] == kept_items(t)[k]);
                let i = choose|i: int| 0 <= i < t.len() && t[i] == kept_items(t)[k];
                assert(s[i] == t[i]);
            } else {
                assert(kept_items(s)[k] == s[s.len() - 1]);
            }
        }
    }
}

proof fn lemma_kept_sorted(s: Seq<ItemView>)
    requires
        rows_sorted(s),
    ensures
        rows_sorted(kept_items(s)),
    decreases s.len(),
{
    if s.len() > 0 {
        let t = s.drop_last();
        assert(rows_sorted(t)) by {
            assert forall|a: int, b: int| 0 <= a < b < t.len() implies !key_before(item_row(#[trigger] t[b]), item_row(#[trigger] t[a])) by {
                assert(t[a] == s[a] && t[b] == s[b]);
            }
        }
        lemma_kept_sorted(t);
        lemma_kept_in(t);
        let r = kept_items(t);
        let q = kept_items(s);
        if item_kept(s.last()) {
            assert forall|a: int, b: int| 0 <= a < b < q.len() implies !key_before(item_row(#[trigger] q[b]), item_row(#[trigger] q[a])) by {
                assert(q[a] == r[a]);
                if b < r.len() {
                    assert(q[b] == r[b]);
                } else {
                    assert(q[b] == s[s.len() - 1]);
                    let i = choose|i: int| 0 <= i < t.len() && t[i] == r[a];
                    assert(s[i] == t[i]);
                }
            }
        }
    }
}

/// What a scan adds to a directory is shown in display order: no dotfiles;
/// only directories, playable media, playlists and archives; every directory
/// or archive among them holds media; directories before files, each group
/// by file name.
pub proof fn law_scan_children(s: Seq<(Seq<char>, bool, u64)>, st: Seq<(usize, u64)>)
    requires
        s.len() <= usize::MAX,
        st.len() == scan_order(s).len(),
    ensures
        ({
            let kept = kept_items(scan_items_of(s, st));
            &&& forall|k: int| 0 <= k < kept.len() ==> {
                &&& is_listed((#[trigger] kept[k].0, kept[k].1, kept[k].2))
                &&& !hidden_path(kept[k].0)
                &&& item_kept(kept[k])
            }
            &&& rows_sorted(kept)
        }),
{
    let items = scan_items_of(s, st);
    let c = listed(s);
    let keys = sorted_keys(entry_keys(c));
    law_listing_shows_only_listed(s);
    lemma_listed_shown(s);
    lemma_sorted_keys_rows(entry_keys(c));
    law_sorted_keys_sorted(entry_keys(c));
    assert forall|j: int| 0 <= j < items.len() implies item_row(#[trigger] items[j]) == (keys[j].0, keys[j].1, keys[j].2, 0usize) by {
        assert(entry_keys(c).contains(keys[j]));
        let w = choose|w: int| 0 <= w < entry_keys(c).len() && entry_keys(c)[w] == keys[j];
        assert(keys[j].3 == w as usize);
        assert((w as usize) as int == w);
        assert(scan_order(s)[j] == c[w]);
    }
    assert(rows_sorted(items)) by {
        assert forall|a: int, b: int| 0 <= a < b < items.len() implies !key_before(item_row(#[trigger] items[b]), item_row(#[trigger] items[a])) by {
            assert(item_row(items[a]) == (keys[a].0, keys[a].1, keys[a].2, 0usize));
            assert(item_row(items[b]) == (keys[b].0, keys[b].1, keys[b].2, 0usize));
            assert(!key_before(keys[b], keys[a]));
        }
    }
    lemma_kept_sorted(items);
    lemma_kept_in(items);
    law_scan_prunes_empty(items);
    let kept = kept_items(items);
    assert forall|k: int| 0 <= k < kept.len() implies {
        &&& is_listed((#[trigger] kept[k].0, kept[k].1, kept[k].2))
        &&& !hidden_path(kept[k].0)
    } by {
        let i = choose|i: int| 0 <= i < items.len() && items[i] == kept[k];
        assert(is_listed(scan_order(s)[i]));
        assert((items[i].0, items[i].1, items[i].2) == scan_order(s)[i]);
    }
}

/// Each entry adds to its directory's media stats exactly what it holds: a
/// dotfile nothing, whether a file, a directory or an archive; a directory or
/// an archive its own recursive stats; a playable file one track of its size;
/// anything else nothing.
pub proof fn law_dir_stats_entry(s: Seq<(Seq<char>, bool, u64, usize, u64)>, e: (Seq<char>, bool, u64, usize, u64))
    ensures
        ({
            let r = dir_stats_of(s);
            dir_stats_of(s.push(e)) == if hidden_path(e.0) {
                r
            } else if e.1 || kind_of_path(e.0) is Some {
                ((r.0 + e.3) as nat, (r.1 + e.4) as nat)
            } else if is_audio_path(e.0) {
                ((r.0 + 1) as nat, (r.1 + e.2) as nat)
            } else {
                r
            }
        }),
{
    assert(s.push(e).drop_last() =~= s);
}

} // verus!
