//! The folder tree derived from a container's flat path list, and the kind of
//! node a path names.

use vstd::prelude::*;

use crate::container::{Container, EntryView};
use crate::edit::path_taken;
use crate::path::{copy_segments, has_prefix, path_view, paths_equal};

verus! {

/// What a path names in a container.
#[derive(Debug, Clone, Copy, PartialEq, Eq, Structural)]
pub enum TreePathType {
    /// An entry has exactly this path.
    File,
    /// Some entry lies below this path.
    Folder,
    /// The empty path: the archive itself.
    PackFile,
    /// Nothing in the archive.
    Absent,
}

/// The kind of a node of the tree.
#[derive(Debug, Clone, Copy, PartialEq, Eq, Structural)]
pub enum NodeKind {
    Folder,
    File,
}

/// One node of the tree: its full path, its kind, and the index of its parent
/// node (none at the top level).
#[derive(Debug)]
pub struct TreeNode {
    pub path: Vec<Vec<u16>>,
    pub kind: NodeKind,
    pub parent: Option<usize>,
}

/// The tree as a list of nodes, each folder or file once, in order of first
/// appearance in the container; a node's children are the nodes that name it as
/// their parent, in the same order.
#[derive(Debug)]
pub struct Tree {
    pub nodes: Vec<TreeNode>,
}

pub struct NodeView {
    pub path: Seq<Seq<u16>>,
    pub kind: NodeKind,
    pub parent: Option<usize>,
}

impl View for TreeNode {
    type V = NodeView;

    open spec fn view(&self) -> NodeView {
        NodeView { path: path_view(self.path@), kind: self.kind, parent: self.parent }
    }
}

impl View for Tree {
    type V = Seq<NodeView>;

    open spec fn view(&self) -> Seq<NodeView> {
        self.nodes@.map_values(|n: TreeNode| n@)
    }
}

/// Some entry lies strictly below `p`.
pub open spec fn has_below(es: Seq<EntryView>, p: Seq<Seq<u16>>) -> bool {
    exists|i: int|
        0 <= i < es.len() && has_prefix((#[trigger] es[i]).path, p) && es[i].path.len() > p.len()
}

/// What a path names: the archive for the empty path, then an entry, then a folder.
pub open spec fn spec_classify(es: Seq<EntryView>, p: Seq<Seq<u16>>) -> TreePathType {
    if p.len() == 0 {
        TreePathType::PackFile
    } else if path_taken(es, p) {
        TreePathType::File
    } else if has_below(es, p) {
        TreePathType::Folder
    } else {
        TreePathType::Absent
    }
}

/// `acc` with the prefixes of `p` of lengths 1 to `l` appended, each unless present.
pub open spec fn add_prefixes(acc: Seq<Seq<Seq<u16>>>, p: Seq<Seq<u16>>, l: nat) -> Seq<
    Seq<Seq<u16>>,
>
    decreases l,
{
    if l == 0 {
        acc
    } else {
        let a = add_prefixes(acc, p, (l - 1) as nat);
        if a.contains(p.take(l as int)) {
            a
        } else {
            a.push(p.take(l as int))
        }
    }
}

/// The paths of the tree's nodes: every non-empty prefix of every entry's path,
/// once, in order of first appearance.
pub open spec fn tree_paths(es: Seq<EntryView>) -> Seq<Seq<Seq<u16>>>
    decreases es.len(),
{
    if es.len() == 0 {
        Seq::empty()
    } else {
        add_prefixes(tree_paths(es.drop_last()), es.last().path, es.last().path.len())
    }
}

pub open spec fn kind_of(es: Seq<EntryView>, p: Seq<Seq<u16>>) -> NodeKind {
    if path_taken(es, p) {
        NodeKind::File
    } else {
        NodeKind::Folder
    }
}

/// `nodes` is the tree of `es`: the tree's paths in order, each with its kind, and
/// each below the top level with the index of the node one segment up.
pub open spec fn is_tree_of(es: Seq<EntryView>, nodes: Seq<NodeView>) -> bool {
    let tp = tree_paths(es);
    &&& nodes.len() == tp.len()
    &&& forall|k: int|
        0 <= k < nodes.len() ==> {
            let n = #[trigger] nodes[k];
            &&& n.path == tp[k]
            &&& n.kind == kind_of(es, tp[k])
            &&& (tp[k].len() <= 1 ==> n.parent is None)
            &&& (tp[k].len() > 1 ==> n.parent is Some && n.parent->0 < k && tp[n.parent->0 as int]
                == tp[k].drop_last())
        }
}

proof fn lemma_add_prefixes(acc: Seq<Seq<Seq<u16>>>, p: Seq<Seq<u16>>, l: nat)
    requires
        l <= p.len(),
        acc.no_duplicates(),
    ensures
        add_prefixes(acc, p, l).no_duplicates(),
        acc.is_prefix_of(add_prefixes(acc, p, l)),
    decreases l,
{
    if l > 0 {
        lemma_add_prefixes(acc, p, (l - 1) as nat);
        let a = add_prefixes(acc, p, (l - 1) as nat);
        if !a.contains(p.take(l as int)) {
            assert forall|i: int, j: int|
                0 <= i < a.push(p.take(l as int)).len() && 0 <= j < a.push(p.take(l as int)).len()
                    && i != j implies a.push(p.take(l as int))[i] != a.push(p.take(l as int))[j] by {
                if i < a.len() && j < a.len() {
                } else if i < a.len() {
                    assert(a.contains(a[i]));
                } else {
                    assert(a.contains(a[j]));
                }
            }
        }
    }
}

proof fn lemma_tree_paths_distinct(es: Seq<EntryView>)
    ensures
        tree_paths(es).no_duplicates(),
    decreases es.len(),
{
    if es.len() > 0 {
        lemma_tree_paths_distinct(es.drop_last());
        lemma_add_prefixes(tree_paths(es.drop_last()), es.last().path, es.last().path.len());
    }
}

/// Building the tree of a container twice gives the same tree: the tree of an
/// entry list is unique.
pub proof fn lemma_tree_unique(es: Seq<EntryView>, a: Seq<NodeView>, b: Seq<NodeView>)
    requires
        is_tree_of(es, a),
        is_tree_of(es, b),
    ensures
        a == b,
{
    let tp = tree_paths(es);
    lemma_tree_paths_distinct(es);
    assert forall|k: int| 0 <= k < a.len() implies a[k] == b[k] by {
        let (x, y) = (a[k], b[k]);
        if tp[k].len() > 1 {
            let (qa, qb) = (x.parent->0 as int, y.parent->0 as int);
            assert(tp[qa] == tp[qb]);
            assert(qa == qb);
        }
    }
    assert(a =~= b);
}

/// The index of the node whose path is `p`, if there is one.
fn find_node(nodes: &Vec<TreeNode>, p: &Vec<Vec<u16>>) -> (r: Option<usize>)
    ensures
        match r {
            Some(k) => k < nodes@.len() && path_view(nodes@[k as int].path@) == path_view(p@),
            None => forall|k: int|
                0 <= k < nodes@.len() ==> path_view((#[trigger] nodes@[k]).path@) != path_view(
                    p@,
                ),
        },
{
    let mut k: usize = 0;
    while k < nodes.len()
        invariant
            k <= nodes@.len(),
            forall|j: int|
                0 <= j < k ==> path_view((#[trigger] nodes@[j]).path@) != path_view(p@),
        decreases nodes@.len() - k,
    {
        if paths_equal(&nodes[k].path, p) {
            return Some(k);
        }
        k = k + 1;
    }
    None
}

spec fn node_paths(nodes: Seq<TreeNode>) -> Seq<Seq<Seq<u16>>> {
    nodes.map_values(|n: TreeNode| path_view(n.path@))
}

/// The invariant of a tree under construction: its paths are `tp`, with kinds from
/// `es` and parents one segment up.
spec fn partial_tree(es: Seq<EntryView>, tp: Seq<Seq<Seq<u16>>>, nodes: Seq<TreeNode>) -> bool {
    &&& nodes.len() == tp.len()
    &&& tp.no_duplicates()
    &&& forall|k: int|
        0 <= k < nodes.len() ==> {
            let n = (#[trigger] nodes[k])@;
            &&& n.path == tp[k]
            &&& tp[k].len() >= 1
            &&& n.kind == kind_of(es, tp[k])
            &&& (tp[k].len() <= 1 ==> n.parent is None)
            &&& (tp[k].len() > 1 ==> n.parent is Some && n.parent->0 < k && tp[n.parent->0 as int]
                == tp[k].drop_last())
        }
}

impl Container {
    /// What `path` names here: `PackFile` for the empty path, `File` when an entry
    /// has exactly that path, `Folder` when an entry lies below it, else `Absent`.
    pub fn classify(&self, path: &Vec<Vec<u16>>) -> (r: TreePathType)
        ensures
            r == spec_classify(self@.entries, path_view(path@)),
    {
        let ghost es = self@.entries;
        let ghost pv = path_view(path@);
        if path.len() == 0 {
            return TreePathType::PackFile;
        }
        if self.position(path).is_some() {
            return TreePathType::File;
        }
        let mut i: usize = 0;
        while i < self.entries.len()
            invariant
                es == self@.entries,
                pv == path_view(path@),
                pv.len() > 0,
                !path_taken(es, pv),
                i <= es.len(),
                forall|k: int|
                    0 <= k < i ==> !(has_prefix((#[trigger] es[k]).path, pv) && es[k].path.len()
                        > pv.len()),
            decreases es.len() - i,
        {
            assert(es[i as int] == self.entries@[i as int]@);
            if self.entries[i].path.len() > path.len() && crate::path::starts_with(
                &self.entries[i].path,
                path,
            ) {
                assert(has_prefix(es[i as int].path, pv) && es[i as int].path.len() > pv.len());
                return TreePathType::Folder;
            }
            i = i + 1;
        }
        TreePathType::Absent
    }

    /// The folder tree of the entries, rebuilt from scratch; the same entries give
    /// the same tree.
    pub fn build(&self) -> (r: Tree)
        ensures
            is_tree_of(self@.entries, r@),
    {
        let ghost es = self@.entries;
        let mut nodes: Vec<TreeNode> = Vec::new();
        let mut i: usize = 0;
        while i < self.entries.len()
            invariant
                es == self@.entries,
                i <= es.len(),
                partial_tree(es, tree_paths(es.take(i as int)), nodes@),
            decreases es.len() - i,
        {
            let e = &self.entries[i];
            assert(es[i as int] == e@);
            let ghost tp0 = tree_paths(es.take(i as int));
            let ghost p = e@.path;
            let len = e.path.len();
            let mut prev: usize = 0;
            let mut m: usize = 0;
            while m < len
                invariant
                    es == self@.entries,
                    p == e@.path,
                    len == p.len(),
                    m <= len,
                    partial_tree(es, add_prefixes(tp0, p, m as nat), nodes@),
                    m > 0 ==> prev < nodes@.len() && add_prefixes(tp0, p, m as nat)[prev as int]
                        == p.take(m as int),
                decreases len - m,
            {
                let l = m + 1;
                let ghost tp = add_prefixes(tp0, p, m as nat);
                let pre = copy_segments(&e.path, 0, l);
                assert(path_view(pre@) =~= p.take(l as int));
                assert(node_paths(nodes@) =~= tp) by {
                    assert forall|k: int| 0 <= k < nodes@.len() implies node_paths(nodes@)[k]
                        == tp[k] by {
                        assert(nodes@[k]@.path == tp[k]);
                    }
                }
                match find_node(&nodes, &pre) {
                    Some(k) => {
                        assert(tp.contains(p.take(l as int))) by {
                            assert(tp[k as int] == nodes@[k as int]@.path);
                        }
                        prev = k;
                    },
                    None => {
                        assert(!tp.contains(p.take(l as int))) by {
                            if tp.contains(p.take(l as int)) {
                                let k = tp.index_of(p.take(l as int));
                                assert(nodes@[k]@.path == tp[k]);
                            }
                        }
                        let kind = if self.position(&pre).is_some() {
                            NodeKind::File
                        } else {
                            NodeKind::Folder
                        };
                        let parent = if l == 1 {
                            None
                        } else {
                            Some(prev)
                        };
                        let node = TreeNode { path: pre, kind, parent };
                        proof {
                            let ntp = tp.push(p.take(l as int));
                            assert(p.take(l as int).drop_last() =~= p.take(l - 1));
                            assert forall|a: int, b: int|
                                0 <= a < ntp.len() && 0 <= b < ntp.len() && a != b implies ntp[a]
                                != ntp[b] by {
                                if a < tp.len() && b < tp.len() {
                                } else if a < tp.len() {
                                    assert(tp.contains(tp[a]));
                                } else {
                                    assert(tp.contains(tp[b]));
                                }
                            }
                            assert forall|k: int| 0 <= k < nodes@.push(node).len() implies {
                                let n = (#[trigger] nodes@.push(node)[k])@;
                                &&& n.path == ntp[k]
                                &&& ntp[k].len() >= 1
                                &&& n.kind == kind_of(es, ntp[k])
                                &&& (ntp[k].len() <= 1 ==> n.parent is None)
                                &&& (ntp[k].len() > 1 ==> n.parent is Some && n.parent->0 < k
                                    && ntp[n.parent->0 as int] == ntp[k].drop_last())
                            } by {
                                if k < nodes@.len() {
                                    assert(nodes@.push(node)[k] == nodes@[k]);
                                }
                            }
                        }
                        prev = nodes.len();
                        nodes.push(node);
                    },
                }
                m = l;
            }
            proof {
                assert(es.take(i + 1).drop_last() =~= es.take(i as int));
                assert(es.take(i + 1).last() == es[i as int]);
            }
            i = i + 1;
        }
        proof {
            assert(es.take(es.len() as int) =~= es);
        }
        let r = Tree { nodes };
        assert forall|k: int| 0 <= k < r@.len() implies #[trigger] r@[k] == r.nodes@[k]@ by {}
        r
    }
}

} // verus!
