//! Tree navigation decisions: what `⏎`, `h`/`←` and `l`/`→` do to the
//! selected node, where the cursor lands, and which visible files `n`/`p` walk.
use vstd::prelude::*;
use crate::media::{is_playlist_path, Registry};
use crate::model::{NodeId, TreeModel};

verus! {

/// What `⏎` does on a tree node.
pub enum EnterAction {
    /// Expand a collapsed directory or collapse an expanded one; collapsing an
    /// archive also closes it (its memory is wiped).
    Toggle { expand: bool, close_archive: bool },
    /// Play a media file.
    Play(String),
    /// Load a playlist into the queue.
    LoadPlaylist(String),
    /// Anything else: nothing.
    Nothing,
}

/// What `h`/`←` does on a tree node.
#[derive(PartialEq, Eq, Structural, Debug)]
pub enum CollapseAction {
    /// Collapse the expanded directory (closing it if it is an archive).
    Collapse { close_archive: bool },
    /// Move the cursor to the parent's row.
    SelectParent(usize),
    Nothing,
}

/// The first row of `v` showing node `id`.
pub open spec fn row_of(v: Seq<NodeId>, id: NodeId) -> Option<int>
    decreases v.len(),
{
    if v.len() == 0 {
        None
    } else if v[0] == id {
        Some(0)
    } else {
        match row_of(v.drop_first(), id) {
            Some(i) => Some(i + 1),
            None => None,
        }
    }
}

proof fn lemma_row_of(v: Seq<NodeId>, id: NodeId)
    ensures
        match row_of(v, id) {
            Some(i) => 0 <= i < v.len() && v[i] == id && forall|j: int| 0 <= j < i ==> v[j] != id,
            None => forall|j: int| 0 <= j < v.len() ==> v[j] != id,
        },
    decreases v.len(),
{
    if v.len() > 0 && v[0] != id {
        lemma_row_of(v.drop_first(), id);
        match row_of(v.drop_first(), id) {
            Some(i) => {
                assert forall|j: int| 0 <= j < i + 1 implies v[j] != id by {
                    if j > 0 {
                        assert(v[j] == v.drop_first()[j - 1]);
                    }
                }
            },
            None => {
                assert forall|j: int| 0 <= j < v.len() implies v[j] != id by {
                    if j > 0 {
                        assert(v[j] == v.drop_first()[j - 1]);
                    }
                }
            },
        }
    }
}

/// The row showing node `id` in the visible list (`row_of`).
pub fn visible_row(tree: &TreeModel, id: NodeId) -> (r: Option<usize>)
    ensures
        match r {
            Some(i) => i < tree.visible@.len() && row_of(tree.visible@, id) == Some(i as int),
            None => row_of(tree.visible@, id) is None,
        },
{
    proof {
        lemma_row_of(tree.visible@, id);
    }
    let mut i: usize = 0;
    while i < tree.visible.len()
        invariant
            i <= tree.visible@.len(),
            forall|j: int| 0 <= j < i ==> tree.visible@[j] != id,
            match row_of(tree.visible@, id) {
                Some(k) => 0 <= k < tree.visible@.len() && tree.visible@[k] == id
                    && forall|j: int| 0 <= j < k ==> tree.visible@[j] != id,
                None => forall|j: int| 0 <= j < tree.visible@.len() ==> tree.visible@[j] != id,
            },
        decreases tree.visible.len() - i,
    {
        if tree.visible[i] == id {
            return Some(i);
        }
        i += 1;
    }
    None
}

/// `⏎` on node `id`: toggle a directory (an archive is closed when
/// collapsed), play a media file, load a playlist, else nothing.
pub fn enter_action(tree: &TreeModel, id: NodeId, reg: &Registry) -> (r: EnterAction)
    requires
        id < tree.nodes@.len(),
    ensures
        ({
            let n = tree.nodes@[id as int];
            if n.is_dir {
                r == EnterAction::Toggle { expand: !n.expanded, close_archive: n.expanded && n.is_archive }
            } else if n.is_media {
                r matches EnterAction::Play(p) && p@ == n.path@
            } else if is_playlist_path(n.path@) {
                r matches EnterAction::LoadPlaylist(p) && p@ == n.path@
            } else {
                r == EnterAction::Nothing
            }
        }),
{
    let n = &tree.nodes[id];
    if n.is_dir {
        EnterAction::Toggle { expand: !n.expanded, close_archive: n.expanded && n.is_archive }
    } else if n.is_media {
        EnterAction::Play(n.path.clone())
    } else if reg.is_playlist(n.path.as_str()) {
        EnterAction::LoadPlaylist(n.path.clone())
    } else {
        EnterAction::Nothing
    }
}

/// `h`/`←` on node `id`: collapse an expanded directory, else move to the
/// parent's row (not to the hidden root, and only when the parent shows).
pub open spec fn collapse_of(tree: TreeModel, id: NodeId) -> CollapseAction {
    let n = tree.nodes@[id as int];
    if n.is_dir && n.expanded {
        CollapseAction::Collapse { close_archive: n.is_archive }
    } else {
        match n.parent {
            Some(p) => if p != tree.root {
                match row_of(tree.visible@, p) {
                    Some(i) => CollapseAction::SelectParent(i as usize),
                    None => CollapseAction::Nothing,
                }
            } else {
                CollapseAction::Nothing
            },
            None => CollapseAction::Nothing,
        }
    }
}

pub fn collapse_action(tree: &TreeModel, id: NodeId) -> (r: CollapseAction)
    requires
        id < tree.nodes@.len(),
    ensures
        r == collapse_of(*tree, id),
{
    let n = &tree.nodes[id];
    if n.is_dir && n.expanded {
        return CollapseAction::Collapse { close_archive: n.is_archive };
    }
    match n.parent {
        Some(p) => if p != tree.root {
            match visible_row(tree, p) {
                Some(i) => CollapseAction::SelectParent(i),
                None => CollapseAction::Nothing,
            }
        } else {
            CollapseAction::Nothing
        },
        None => CollapseAction::Nothing,
    }
}

/// After expanding node `id`: the row of its first child, when the row right
/// after it shows one of its children.
pub open spec fn descend_of(tree: TreeModel, id: NodeId) -> Option<int> {
    match row_of(tree.visible@, id) {
        Some(i) => if i + 1 < tree.visible@.len() && tree.visible@[i + 1] < tree.nodes@.len()
            && tree.nodes@[tree.visible@[i + 1] as int].parent == Some(id) {
            Some(i + 1)
        } else {
            None
        },
        None => None,
    }
}

pub fn descend_row(tree: &TreeModel, id: NodeId) -> (r: Option<usize>)
    ensures
        match r {
            Some(i) => descend_of(*tree, id) == Some(i as int),
            None => descend_of(*tree, id) is None,
        },
{
    match visible_row(tree, id) {
        Some(i) => {
            if i < tree.visible.len() - 1 {
                let next = tree.visible[i + 1];
                if next < tree.nodes.len() && tree.nodes[next].parent == Some(id) {
                    return Some(i + 1);
                }
            }
            None
        },
        None => None,
    }
}

/// The media files among the visible rows, in row order: the list `n`/`p`
/// and auto-advance walk outside the queue.
pub open spec fn visible_media_of(tree: TreeModel, k: int) -> Seq<Seq<char>>
    decreases k,
{
    if k <= 0 || k > tree.visible@.len() {
        seq![]
    } else {
        let rest = visible_media_of(tree, k - 1);
        let id = tree.visible@[k - 1];
        if id < tree.nodes@.len() && tree.nodes@[id as int].is_media {
            rest.push(tree.nodes@[id as int].path@)
        } else {
            rest
        }
    }
}

pub fn visible_media(tree: &TreeModel) -> (r: Vec<String>)
    ensures
        r.deep_view() == visible_media_of(*tree, tree.visible@.len() as int),
{
    let mut out: Vec<String> = Vec::new();
    let mut k: usize = 0;
    while k < tree.visible.len()
        invariant
            k <= tree.visible@.len(),
            out.deep_view() == visible_media_of(*tree, k as int),
        decreases tree.visible.len() - k,
    {
        let id = tree.visible[k];
        if id < tree.nodes.len() && tree.nodes[id].is_media {
            let ghost before = out.deep_view();
            out.push(tree.nodes[id].path.clone());
            assert(out.deep_view() =~= before.push(tree.nodes@[id as int].path@));
        }
        k += 1;
    }
    out
}

/// Visible row `i` shows a node whose path is `path`.
pub open spec fn row_shows(tree: TreeModel, i: int, path: Seq<char>) -> bool {
    let id = tree.visible@[i];
    id < tree.nodes@.len() && tree.nodes@[id as int].path@ == path
}

/// The first visible row showing `path` (where `c` moves the cursor to jump
/// to the now-playing track).
pub fn path_row(tree: &TreeModel, path: &str) -> (r: Option<usize>)
    ensures
        match r {
            Some(i) => i < tree.visible@.len() && row_shows(*tree, i as int, path@)
                && forall|j: int| 0 <= j < i ==> !#[trigger] row_shows(*tree, j, path@),
            None => forall|j: int| 0 <= j < tree.visible@.len() ==> !#[trigger] row_shows(*tree, j, path@),
        },
{
    let ps = path.to_owned();
    let mut i: usize = 0;
    while i < tree.visible.len()
        invariant
            i <= tree.visible@.len(),
            ps@ == path@,
            forall|j: int| 0 <= j < i ==> !#[trigger] row_shows(*tree, j, path@),
        decreases tree.visible@.len() - i,
    {
        let id = tree.visible[i];
        if id < tree.nodes.len() && tree.nodes[id].path == ps {
            return Some(i);
        }
        i += 1;
    }
    None
}

/// `h` on an expanded directory collapses it (closing it if it is an
/// archive); on anything else whose parent is a visible node other than the
/// root, the cursor moves to the parent's first row.
pub proof fn law_collapse_or_parent(tree: TreeModel, id: NodeId, i: int)
    requires
        id < tree.nodes@.len(),
    ensures
        tree.nodes@[id as int].is_dir && tree.nodes@[id as int].expanded
            ==> collapse_of(tree, id) == (CollapseAction::Collapse { close_archive: tree.nodes@[id as int].is_archive }),
        ({
            let n = tree.nodes@[id as int];
            (!(n.is_dir && n.expanded) && n.parent is Some && n.parent->0 != tree.root
                && 0 <= i < tree.visible@.len() && i <= usize::MAX && tree.visible@[i] == n.parent->0
                && forall|j: int| 0 <= j < i ==> tree.visible@[j] != n.parent->0)
                ==> collapse_of(tree, id) == CollapseAction::SelectParent(i as usize)
        }),
{
    let n = tree.nodes@[id as int];
    if let Some(p) = n.parent {
        lemma_row_of(tree.visible@, p);
    }
}

} // verus!
