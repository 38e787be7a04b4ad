//! An object hierarchy holding one optional root node.

use vstd::prelude::*;

use crate::text::str_eq;
use crate::treenode::{clone_node, lemma_views_of, node_view, preorder, views_of, NodeView, TreeNode};

verus! {

/// A tree: a name, a fresh identifier, and an optional root node owned by
/// the tree.
#[derive(Debug)]
pub struct Tree {
    /// The unique identifier of the tree.
    pub guid: String,
    /// The name of the tree.
    pub name: String,
    /// The root node, if any.
    pub root_node: Option<TreeNode>,
}

/// The shape of the tree's root, if any.
pub open spec fn root_view(t: Tree) -> Option<NodeView> {
    match t.root_node {
        Some(n) => Some(node_view(n)),
        None => None,
    }
}

/// The shapes of all the tree's nodes, in preorder.
pub open spec fn tree_nodes_view(t: Tree) -> Seq<NodeView> {
    match t.root_node {
        Some(n) => preorder(node_view(n)),
        None => Seq::empty(),
    }
}

/// The shape after attaching `c` under the first node carrying `g` in
/// preorder, and whether such a node exists in the subtree: a match gains
/// `c` as its last child; otherwise the children are searched in order.
pub open spec fn attach_view(v: NodeView, g: Seq<char>, c: NodeView) -> (NodeView, bool)
    decreases v,
{
    if v.guid == g {
        (
            NodeView {
                guid: v.guid,
                name: v.name,
                has_parent: v.has_parent,
                children: v.children.push(c),
            },
            true,
        )
    } else {
        let r = attach_in_list(v.children, g, c);
        (NodeView { guid: v.guid, name: v.name, has_parent: v.has_parent, children: r.0 }, r.1)
    }
}

/// Attach `c` under the first node carrying `g` within a child list, left
/// to right; the untouched children keep their shapes.
pub open spec fn attach_in_list(cs: Seq<NodeView>, g: Seq<char>, c: NodeView) -> (
    Seq<NodeView>,
    bool,
)
    decreases cs,
{
    if cs.len() == 0 {
        (cs, false)
    } else {
        let h = attach_view(cs[0], g, c);
        if h.1 {
            (seq![h.0] + cs.drop_first(), true)
        } else {
            let rest = attach_in_list(cs.drop_first(), g, c);
            (seq![cs[0]] + rest.0, rest.1)
        }
    }
}

/// When no node of the list matches, attaching changes nothing.
proof fn lemma_attach_in_list_none(cs: Seq<NodeView>, g: Seq<char>, c: NodeView)
    requires
        forall|j: int| 0 <= j < cs.len() ==> !attach_view(#[trigger] cs[j], g, c).1,
    ensures
        attach_in_list(cs, g, c).0 == cs,
        !attach_in_list(cs, g, c).1,
    decreases cs.len(),
{
    if cs.len() > 0 {
        lemma_attach_in_list_none(cs.drop_first(), g, c);
        assert(seq![cs[0]] + cs.drop_first() =~= cs);
    }
}

/// When the first matching subtree sits at position `k`, attaching updates
/// exactly that position.
proof fn lemma_attach_in_list_at(cs: Seq<NodeView>, g: Seq<char>, c: NodeView, k: int)
    requires
        0 <= k < cs.len(),
        forall|j: int| 0 <= j < k ==> !attach_view(#[trigger] cs[j], g, c).1,
        attach_view(cs[k], g, c).1,
    ensures
        attach_in_list(cs, g, c).0 == cs.update(k, attach_view(cs[k], g, c).0),
        attach_in_list(cs, g, c).1,
    decreases k,
{
    if k == 0 {
        assert(seq![attach_view(cs[0], g, c).0] + cs.drop_first() =~= cs.update(
            0,
            attach_view(cs[0], g, c).0,
        ));
    } else {
        assert(cs.drop_first()[k - 1] == cs[k]);
        assert(forall|j: int|
            0 <= j < k - 1 ==> !attach_view(#[trigger] cs.drop_first()[j], g, c).1);
        lemma_attach_in_list_at(cs.drop_first(), g, c, k - 1);
        assert(seq![cs[0]] + cs.drop_first().update(k - 1, attach_view(cs[k], g, c).0)
            =~= cs.update(k, attach_view(cs[k], g, c).0));
    }
}

/// The shape after removing the first node carrying `g` from under a
/// subtree root (never the root itself), and whether one was found: a
/// matching direct child leaves with its whole subtree; otherwise the
/// children are searched in order, depth before later siblings.
pub open spec fn prune_view(v: NodeView, g: Seq<char>) -> (NodeView, bool)
    decreases v,
{
    let r = prune_in_list(v.children, g);
    (NodeView { guid: v.guid, name: v.name, has_parent: v.has_parent, children: r.0 }, r.1)
}

/// Remove the first node carrying `g` from a child list: a matching child
/// is dropped whole; otherwise its subtree is searched before the later
/// siblings.
pub open spec fn prune_in_list(cs: Seq<NodeView>, g: Seq<char>) -> (Seq<NodeView>, bool)
    decreases cs,
{
    if cs.len() == 0 {
        (cs, false)
    } else if cs[0].guid == g {
        (cs.drop_first(), true)
    } else {
        let h = prune_view(cs[0], g);
        if h.1 {
            (seq![h.0] + cs.drop_first(), true)
        } else {
            let rest = prune_in_list(cs.drop_first(), g);
            (seq![cs[0]] + rest.0, rest.1)
        }
    }
}

/// When no node of the list carries `g`, pruning changes nothing.
proof fn lemma_prune_in_list_none(cs: Seq<NodeView>, g: Seq<char>)
    requires
        forall|j: int|
            0 <= j < cs.len() ==> (#[trigger] cs[j]).guid != g && !prune_view(cs[j], g).1,
    ensures
        prune_in_list(cs, g).0 == cs,
        !prune_in_list(cs, g).1,
    decreases cs.len(),
{
    if cs.len() > 0 {
        lemma_prune_in_list_none(cs.drop_first(), g);
        assert(seq![cs[0]] + cs.drop_first() =~= cs);
    }
}

/// When the first hit is at position `k`, pruning either drops that child
/// (a direct match) or updates it (a deeper match).
proof fn lemma_prune_in_list_at(cs: Seq<NodeView>, g: Seq<char>, k: int)
    requires
        0 <= k < cs.len(),
        forall|j: int|
            0 <= j < k ==> (#[trigger] cs[j]).guid != g && !prune_view(cs[j], g).1,
    ensures
        cs[k].guid == g ==> prune_in_list(cs, g) == (cs.remove(k), true),
        cs[k].guid != g && prune_view(cs[k], g).1 ==> prune_in_list(cs, g) == (
            cs.update(k, prune_view(cs[k], g).0),
            true,
        ),
    decreases k,
{
    if k == 0 {
        if cs[0].guid == g {
            assert(cs.drop_first() =~= cs.remove(0));
        } else if prune_view(cs[0], g).1 {
            assert(seq![prune_view(cs[0], g).0] + cs.drop_first() =~= cs.update(
                0,
                prune_view(cs[0], g).0,
            ));
        }
    } else {
        assert(cs.drop_first()[k - 1] == cs[k]);
        assert(forall|j: int|
            0 <= j < k - 1 ==> (#[trigger] cs.drop_first()[j]).guid != g && !prune_view(
                cs.drop_first()[j],
                g,
            ).1);
        lemma_prune_in_list_at(cs.drop_first(), g, k - 1);
        if cs[k].guid == g {
            assert(seq![cs[0]] + cs.drop_first().remove(k - 1) =~= cs.remove(k));
        } else if prune_view(cs[k], g).1 {
            assert(seq![cs[0]] + cs.drop_first().update(k - 1, prune_view(cs[k], g).0)
                =~= cs.update(k, prune_view(cs[k], g).0));
        }
    }
}

/// A copy of the subtree with a copy of `child` attached under the first
/// node carrying `parent_guid`, in preorder; reports whether a spot was
/// found. The result's shape is exactly `attach_view` of the original.
fn attach_under(t: &TreeNode, parent_guid: &str, child: &TreeNode) -> (r: (TreeNode, bool))
    ensures
        node_view(r.0) == attach_view(
            node_view(*t),
            parent_guid@,
            NodeView {
                guid: child.guid@,
                name: child.name@,
                has_parent: true,
                children: views_of(child.children@),
            },
        ).0,
        r.1 == attach_view(
            node_view(*t),
            parent_guid@,
            NodeView {
                guid: child.guid@,
                name: child.name@,
                has_parent: true,
                children: views_of(child.children@),
            },
        ).1,
        r.0.guid@ == t.guid@,
        r.0.name@ == t.name@,
        r.0.has_parent == t.has_parent,
        !r.1 ==> node_view(r.0) == node_view(*t),
    decreases *t,
{
    let ghost cv = NodeView {
        guid: child.guid@,
        name: child.name@,
        has_parent: true,
        children: views_of(child.children@),
    };
    let ghost g = parent_guid@;
    if str_eq(t.guid.as_str(), parent_guid) {
        let mut copy = clone_node(t);
        let c = clone_node(child);
        copy.add(c);
        proof {
            assert(views_of(copy.children@) =~= node_view(*t).children.push(cv));
            assert(node_view(copy) =~= attach_view(node_view(*t), g, cv).0);
        }
        return (copy, true);
    }
    let ghost tviews = views_of(t.children@);
    proof {
        lemma_views_of(t.children@);
    }
    let m = t.children.len();
    let mut kids: Vec<TreeNode> = Vec::new();
    let mut found = false;
    let ghost mut hidx: int = 0;
    let mut i: usize = 0;
    while i < m
        invariant
            i <= m,
            m == t.children@.len(),
            tviews == views_of(t.children@),
            tviews.len() == m,
            forall|j: int| 0 <= j < m ==> tviews[j] == node_view(#[trigger] t.children@[j]),
            cv == (NodeView {
                guid: child.guid@,
                name: child.name@,
                has_parent: true,
                children: views_of(child.children@),
            }),
            g == parent_guid@,
            kids@.len() == i,
            !found ==> forall|j: int| 0 <= j < i ==> node_view(#[trigger] kids@[j]) == tviews[j],
            !found ==> forall|j: int| 0 <= j < i ==> !attach_view(#[trigger] tviews[j], g, cv).1,
            found ==> {
                &&& 0 <= hidx < i
                &&& forall|j: int| 0 <= j < hidx ==> !attach_view(#[trigger] tviews[j], g, cv).1
                &&& attach_view(tviews[hidx], g, cv).1
                &&& node_view(kids@[hidx]) == attach_view(tviews[hidx], g, cv).0
                &&& forall|j: int|
                    0 <= j < i && j != hidx ==> node_view(#[trigger] kids@[j]) == tviews[j]
            },
        decreases m - i,
    {
        if found {
            let c = clone_node(&t.children[i]);
            kids.push(c);
        } else {
            let (c2, hit) = attach_under(&t.children[i], parent_guid, child);
            kids.push(c2);
            proof {
                assert(tviews[i as int] == node_view(t.children@[i as int]));
                assert(node_view(c2) == attach_view(tviews[i as int], g, cv).0);
                assert(hit == attach_view(tviews[i as int], g, cv).1);
            }
            if hit {
                proof {
                    hidx = i as int;
                }
            }
            found = hit;
        }
        i = i + 1;
    }
    let r = TreeNode {
        guid: t.guid.clone(),
        name: t.name.clone(),
        has_parent: t.has_parent,
        children: kids,
    };
    proof {
        lemma_views_of(r.children@);
        if found {
            lemma_attach_in_list_at(tviews, g, cv, hidx);
            assert(views_of(r.children@) =~= tviews.update(hidx, attach_view(tviews[hidx], g, cv).0));
            assert(node_view(r) =~= attach_view(node_view(*t), g, cv).0);
        } else {
            lemma_attach_in_list_none(tviews, g, cv);
            assert(views_of(r.children@) =~= tviews);
            assert(node_view(r) =~= node_view(*t));
            assert(node_view(r) =~= attach_view(node_view(*t), g, cv).0);
        }
    }
    (r, found)
}

/// A copy of the subtree with the first node carrying `target_guid`
/// removed from under it (never the subtree root itself); reports whether
/// one was removed. The result's shape is exactly `prune_view` of the
/// original.
fn prune_under(t: &TreeNode, target_guid: &str) -> (r: (TreeNode, bool))
    ensures
        node_view(r.0) == prune_view(node_view(*t), target_guid@).0,
        r.1 == prune_view(node_view(*t), target_guid@).1,
        r.0.guid@ == t.guid@,
        r.0.name@ == t.name@,
        r.0.has_parent == t.has_parent,
        !r.1 ==> node_view(r.0) == node_view(*t),
    decreases *t,
{
    let ghost g = target_guid@;
    let ghost tviews = views_of(t.children@);
    proof {
        lemma_views_of(t.children@);
    }
    let m = t.children.len();
    let mut kids: Vec<TreeNode> = Vec::new();
    let mut found = false;
    let ghost mut hidx: int = 0;
    let ghost mut direct: bool = false;
    let mut i: usize = 0;
    while i < m
        invariant
            i <= m,
            m == t.children@.len(),
            tviews == views_of(t.children@),
            tviews.len() == m,
            forall|j: int| 0 <= j < m ==> tviews[j] == node_view(#[trigger] t.children@[j]),
            g == target_guid@,
            !found ==> kids@.len() == i,
            !found ==> forall|j: int| 0 <= j < i ==> node_view(#[trigger] kids@[j]) == tviews[j],
            !found ==> forall|j: int|
                0 <= j < i ==> (#[trigger] tviews[j]).guid != g && !prune_view(tviews[j], g).1,
            found ==> {
                &&& 0 <= hidx < i
                &&& forall|j: int|
                    0 <= j < hidx ==> (#[trigger] tviews[j]).guid != g && !prune_view(
                        tviews[j],
                        g,
                    ).1
                &&& direct ==> {
                    &&& tviews[hidx].guid == g
                    &&& kids@.len() == i - 1
                    &&& forall|j: int|
                        0 <= j < hidx ==> node_view(#[trigger] kids@[j]) == tviews[j]
                    &&& forall|j: int|
                        hidx <= j < i - 1 ==> node_view(#[trigger] kids@[j]) == tviews[j + 1]
                }
                &&& !direct ==> {
                    &&& tviews[hidx].guid != g
                    &&& prune_view(tviews[hidx], g).1
                    &&& kids@.len() == i
                    &&& node_view(kids@[hidx]) == prune_view(tviews[hidx], g).0
                    &&& forall|j: int|
                        0 <= j < i && j != hidx ==> node_view(#[trigger] kids@[j]) == tviews[j]
                }
            },
        decreases m - i,
    {
        if found {
            let c = clone_node(&t.children[i]);
            kids.push(c);
        } else if str_eq(t.children[i].guid.as_str(), target_guid) {
            proof {
                hidx = i as int;
                direct = true;
            }
            found = true;
        } else {
            let (c2, hit) = prune_under(&t.children[i], target_guid);
            kids.push(c2);
            proof {
                assert(tviews[i as int] == node_view(t.children@[i as int]));
                assert(node_view(c2) == prune_view(tviews[i as int], g).0);
                assert(hit == prune_view(tviews[i as int], g).1);
            }
            if hit {
                proof {
                    hidx = i as int;
                    direct = false;
                }
            }
            found = hit;
        }
        i = i + 1;
    }
    let r = TreeNode {
        guid: t.guid.clone(),
        name: t.name.clone(),
        has_parent: t.has_parent,
        children: kids,
    };
    proof {
        lemma_views_of(r.children@);
        if found {
            lemma_prune_in_list_at(tviews, g, hidx);
            if direct {
                assert(views_of(r.children@) =~= tviews.remove(hidx));
            } else {
                assert(views_of(r.children@) =~= tviews.update(hidx, prune_view(tviews[hidx], g).0));
            }
            assert(node_view(r) =~= prune_view(node_view(*t), g).0);
        } else {
            lemma_prune_in_list_none(tviews, g);
            assert(views_of(r.children@) =~= tviews);
            assert(node_view(r) =~= node_view(*t));
            assert(node_view(r) =~= prune_view(node_view(*t), g).0);
        }
    }
    (r, found)
}

impl Tree {
    /// Create an empty tree with the given name.
    pub fn new(name: &str) -> (t: Tree)
        ensures
            t.name@ == name@,
            t.root_node is None,
            t.guid@.len() == 36,
    {
        Tree { guid: crate::guid::new_guid(), name: name.to_owned(), root_node: None }
    }

    /// A copy of the root node, if any.
    pub fn root(&self) -> (r: Option<TreeNode>)
        ensures
            match r {
                Some(n) => (self.root_node matches Some(m) && node_view(n) == node_view(m)),
                None => self.root_node is None,
            },
    {
        match &self.root_node {
            Some(n) => Some(clone_node(n)),
            None => None,
        }
    }

    /// Add a copy of the node: with no parent it becomes the root,
    /// replacing any prior tree; with a parent it is attached under the
    /// first node carrying the parent's identifier, if present.
    pub fn add(&mut self, node: &TreeNode, parent: Option<&TreeNode>)
        ensures
            final(self).guid == old(self).guid,
            final(self).name == old(self).name,
            parent is None ==> (final(self).root_node matches Some(r) && node_view(r)
                == node_view(*node)),
            parent is Some ==> (final(self).root_node is Some <==> old(self).root_node is Some),
            parent matches Some(p) ==> (old(self).root_node matches Some(rt) ==> (final(self).root_node matches Some(nr) && node_view(nr) == attach_view(
                node_view(rt),
                p.guid@,
                NodeView {
                    guid: node.guid@,
                    name: node.name@,
                    has_parent: true,
                    children: views_of(node.children@),
                },
            ).0)),
    {
        match parent {
            None => {
                self.root_node = Some(clone_node(node));
            },
            Some(p) => {
                match &self.root_node {
                    Some(root) => {
                        let (newroot, _) = attach_under(root, p.guid.as_str(), node);
                        self.root_node = Some(newroot);
                    },
                    None => {},
                }
            },
        }
    }

    /// Copies of all nodes of the tree, in preorder.
    pub fn nodes(&self) -> (r: Vec<TreeNode>)
        ensures
            views_of(r@) == tree_nodes_view(*self),
    {
        match &self.root_node {
            Some(root) => root.nodes(),
            None => {
                let r: Vec<TreeNode> = Vec::new();
                proof {
                    assert(views_of(r@) =~= Seq::<NodeView>::empty());
                }
                r
            },
        }
    }

    /// Remove the node with the given node's identifier: the whole tree
    /// when it is the root, otherwise the first matching node anywhere
    /// below it; reports whether anything was removed.
    pub fn remove(&mut self, node: &TreeNode) -> (removed: bool)
        ensures
            final(self).guid == old(self).guid,
            final(self).name == old(self).name,
            old(self).root_node is None ==> !removed && final(self).root_node is None,
            (old(self).root_node matches Some(r) && r.guid@ == node.guid@) ==> removed
                && final(self).root_node is None,
            old(self).root_node matches Some(rt) ==> (rt.guid@ != node.guid@ ==> ((final(self).root_node matches Some(nr) && node_view(nr) == prune_view(
                node_view(rt),
                node.guid@,
            ).0) && removed == prune_view(node_view(rt), node.guid@).1)),
    {
        let root_matches = match &self.root_node {
            Some(root) => str_eq(root.guid.as_str(), node.guid.as_str()),
            None => false,
        };
        if root_matches {
            self.root_node = None;
            return true;
        }
        match &self.root_node {
            Some(root) => {
                let (newroot, hit) = prune_under(root, node.guid.as_str());
                self.root_node = Some(newroot);
                hit
            },
            None => false,
        }
    }

    /// Copies of the leaves of the tree, in preorder.
    pub fn leaves(&self) -> (r: Vec<TreeNode>)
        ensures
            views_of(r@) == tree_nodes_view(*self).filter(|v: NodeView| v.children.len() == 0),
    {
        let ghost pred = |v: NodeView| v.children.len() == 0;
        let all = self.nodes();
        let m = all.len();
        let mut out: Vec<TreeNode> = Vec::new();
        let mut i: usize = 0;
        proof {
            assert(tree_nodes_view(*self).take(0) =~= Seq::<NodeView>::empty());
            assert(views_of(out@) =~= tree_nodes_view(*self).take(0).filter(pred));
            vstd::seq::Seq::<NodeView>::empty().lemma_filter_len(pred);
        }
        while i < m
            invariant
                i <= m,
                m == all@.len(),
                views_of(all@) == tree_nodes_view(*self),
                views_of(out@) == tree_nodes_view(*self).take(i as int).filter(pred),
                pred == (|v: NodeView| v.children.len() == 0),
            decreases m - i,
        {
            let ghost prefix = tree_nodes_view(*self).take(i as int);
            let ghost prefix1 = tree_nodes_view(*self).take(i + 1);
            proof {
                lemma_views_of(all@);
                assert(tree_nodes_view(*self)[i as int] == node_view(all@[i as int]));
                assert(prefix1 =~= prefix.push(tree_nodes_view(*self)[i as int]));
                prefix.lemma_filter_push(node_view(all@[i as int]), pred);
                lemma_views_of(all@[i as int].children@);
            }
            if all[i].is_leaf() {
                let c = clone_node(&all[i]);
                let ghost before = out@;
                out.push(c);
                proof {
                    lemma_views_of(out@);
                    lemma_views_of(before);
                    assert(views_of(out@) =~= views_of(before).push(node_view(c)));
                    assert(views_of(out@) =~= prefix1.filter(pred));
                }
            } else {
                proof {
                    assert(views_of(out@) =~= prefix1.filter(pred));
                }
            }
            i = i + 1;
        }
        proof {
            lemma_views_of(all@);
            assert(tree_nodes_view(*self).take(m as int) =~= tree_nodes_view(*self));
        }
        out
    }

    /// The tree in the named strategy and order, as in the node traversal.
    pub fn traverse(&self, strategy: &str, order: &str) -> (r: Vec<TreeNode>)
        ensures
            self.root_node is None ==> r@.len() == 0,
    {
        match &self.root_node {
            Some(root) => root.traverse(strategy, order),
            None => Vec::new(),
        }
    }

    /// A copy of the first node with the given name, in preorder.
    pub fn get_node_by_name(&self, node_name: &str) -> (r: Option<TreeNode>)
        ensures
            match r {
                Some(n) => node_view(n).name == node_name@ && tree_nodes_view(*self).contains(
                    node_view(n),
                ),
                None => forall|k: int|
                    0 <= k < tree_nodes_view(*self).len() ==> (#[trigger] tree_nodes_view(
                        *self,
                    )[k]).name != node_name@,
            },
    {
        let all = self.nodes();
        let m = all.len();
        let mut i: usize = 0;
        while i < m
            invariant
                i <= m,
                m == all@.len(),
                views_of(all@) == tree_nodes_view(*self),
                forall|k: int|
                    0 <= k < i ==> (#[trigger] tree_nodes_view(*self)[k]).name != node_name@,
            decreases m - i,
        {
            proof {
                lemma_views_of(all@);
                assert(tree_nodes_view(*self)[i as int] == node_view(all@[i as int]));
            }
            if str_eq(all[i].name.as_str(), node_name) {
                let c = clone_node(&all[i]);
                proof {
                    assert(tree_nodes_view(*self)[i as int] == node_view(c));
                    assert(tree_nodes_view(*self).contains(node_view(c)));
                }
                return Some(c);
            }
            i = i + 1;
        }
        proof {
            lemma_views_of(all@);
        }
        None
    }

    /// Copies of every node with the given name, in preorder.
    pub fn get_nodes_by_name(&self, node_name: &str) -> (r: Vec<TreeNode>)
        ensures
            views_of(r@) == tree_nodes_view(*self).filter(|v: NodeView| v.name == node_name@),
    {
        let ghost pred = |v: NodeView| v.name == node_name@;
        let all = self.nodes();
        let m = all.len();
        let mut out: Vec<TreeNode> = Vec::new();
        let mut i: usize = 0;
        proof {
            assert(tree_nodes_view(*self).take(0) =~= Seq::<NodeView>::empty());
            assert(views_of(out@) =~= tree_nodes_view(*self).take(0).filter(pred));
            vstd::seq::Seq::<NodeView>::empty().lemma_filter_len(pred);
        }
        while i < m
            invariant
                i <= m,
                m == all@.len(),
                views_of(all@) == tree_nodes_view(*self),
                views_of(out@) == tree_nodes_view(*self).take(i as int).filter(pred),
                pred == (|v: NodeView| v.name == node_name@),
            decreases m - i,
        {
            let ghost prefix = tree_nodes_view(*self).take(i as int);
            let ghost prefix1 = tree_nodes_view(*self).take(i + 1);
            proof {
                lemma_views_of(all@);
                assert(tree_nodes_view(*self)[i as int] == node_view(all@[i as int]));
                assert(prefix1 =~= prefix.push(tree_nodes_view(*self)[i as int]));
                prefix.lemma_filter_push(node_view(all@[i as int]), pred);
            }
            if str_eq(all[i].name.as_str(), node_name) {
                let c = clone_node(&all[i]);
                let ghost before = out@;
                out.push(c);
                proof {
                    lemma_views_of(out@);
                    lemma_views_of(before);
                    assert(views_of(out@) =~= views_of(before).push(node_view(c)));
                    assert(views_of(out@) =~= prefix1.filter(pred));
                }
            } else {
                proof {
                    assert(views_of(out@) =~= prefix1.filter(pred));
                }
            }
            i = i + 1;
        }
        proof {
            lemma_views_of(all@);
            assert(tree_nodes_view(*self).take(m as int) =~= tree_nodes_view(*self));
        }
        out
    }

    /// A copy of the first node with the given identifier, in preorder.
    pub fn find_node_by_guid(&self, node_guid: &String) -> (r: Option<TreeNode>)
        ensures
            match r {
                Some(n) => node_view(n).guid == node_guid@ && tree_nodes_view(*self).contains(
                    node_view(n),
                ),
                None => forall|k: int|
                    0 <= k < tree_nodes_view(*self).len() ==> (#[trigger] tree_nodes_view(
                        *self,
                    )[k]).guid != node_guid@,
            },
    {
        let all = self.nodes();
        let m = all.len();
        let mut i: usize = 0;
        while i < m
            invariant
                i <= m,
                m == all@.len(),
                views_of(all@) == tree_nodes_view(*self),
                forall|k: int|
                    0 <= k < i ==> (#[trigger] tree_nodes_view(*self)[k]).guid != node_guid@,
            decreases m - i,
        {
            proof {
                lemma_views_of(all@);
                assert(tree_nodes_view(*self)[i as int] == node_view(all@[i as int]));
            }
            if str_eq(all[i].guid.as_str(), node_guid.as_str()) {
                let c = clone_node(&all[i]);
                proof {
                    assert(tree_nodes_view(*self)[i as int] == node_view(c));
                    assert(tree_nodes_view(*self).contains(node_view(c)));
                }
                return Some(c);
            }
            i = i + 1;
        }
        proof {
            lemma_views_of(all@);
        }
        None
    }

    /// The identifiers of the children of the first node with the given
    /// identifier; empty when no such node exists.
    pub fn get_children_guids(&self, node_guid: &String) -> (r: Vec<String>)
        ensures
            r@.len() > 0 ==> exists|v: NodeView|
                tree_nodes_view(*self).contains(v) && (#[trigger] v.guid) == node_guid@ && r@.len()
                    == v.children.len() && forall|k: int|
                    0 <= k < r@.len() ==> (#[trigger] r@[k])@ == v.children[k].guid,
            (forall|k: int|
                0 <= k < tree_nodes_view(*self).len() ==> (#[trigger] tree_nodes_view(
                    *self,
                )[k]).guid != node_guid@) ==> r@.len() == 0,
    {
        let found = self.find_node_by_guid(node_guid);
        match found {
            Some(node) => {
                let m = node.children.len();
                let mut out: Vec<String> = Vec::new();
                let mut i: usize = 0;
                while i < m
                    invariant
                        i <= m,
                        m == node.children@.len(),
                        out@.len() == i,
                        forall|k: int|
                            0 <= k < i ==> (#[trigger] out@[k])@ == node.children@[k].guid@,
                    decreases m - i,
                {
                    out.push(node.children[i].guid.clone());
                    i = i + 1;
                }
                proof {
                    if out@.len() > 0 {
                        lemma_views_of(node.children@);
                        let v = node_view(node);
                        assert(tree_nodes_view(*self).contains(v) && v.guid == node_guid@
                            && out@.len() == v.children.len() && forall|k: int|
                            0 <= k < out@.len() ==> (#[trigger] out@[k])@ == v.children[k].guid);
                    }
                }
                out
            },
            None => Vec::new(),
        }
    }

    /// The identifiers of the children of the first node with the given
    /// identifier, taking the identifier as a string slice.
    pub fn get_children(&self, node_guid: &str) -> (r: Vec<String>) {
        self.get_children_guids(&node_guid.to_owned())
    }
}

} // verus!
