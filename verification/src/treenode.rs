//! A node of an object hierarchy, owning its children.

use vstd::prelude::*;

use crate::text::str_eq;

verus! {

/// A named tree node with a fresh identifier, owning its children by value.
/// A node inside another node's child list carries `has_parent`; a node
/// held directly is a root of its own subtree.
#[derive(Debug)]
pub struct TreeNode {
    /// The unique identifier of the node itself.
    pub guid: String,
    /// The node's name; a geometry node stores the geometry's key here.
    pub name: String,
    /// Whether the node sits in some other node's child list.
    pub has_parent: bool,
    /// The node's children, in insertion order.
    pub children: Vec<TreeNode>,
}

/// The mathematical shape of a node: its fields with strings as character
/// sequences and the children as a sequence of shapes.
#[verifier::ext_equal]
pub ghost struct NodeView {
    /// The identifier's characters.
    pub guid: Seq<char>,
    /// The name's characters.
    pub name: Seq<char>,
    /// Whether the node sits inside another node.
    pub has_parent: bool,
    /// The children's shapes, in order.
    pub children: Seq<NodeView>,
}

/// The shape of a node.
pub open spec fn node_view(n: TreeNode) -> NodeView
    decreases n,
{
    NodeView {
        guid: n.guid@,
        name: n.name@,
        has_parent: n.has_parent,
        children: views_of(n.children@),
    }
}

/// The shapes of a child list, in order.
pub open spec fn views_of(cs: Seq<TreeNode>) -> Seq<NodeView>
    decreases cs,
{
    if cs.len() == 0 {
        Seq::empty()
    } else {
        seq![node_view(cs[0])] + views_of(cs.drop_first())
    }
}

/// The shapes of a child list are its nodes' shapes, position by position.
pub proof fn lemma_views_of(cs: Seq<TreeNode>)
    ensures
        views_of(cs).len() == cs.len(),
        forall|i: int| 0 <= i < cs.len() ==> #[trigger] views_of(cs)[i] == node_view(cs[i]),
    decreases cs.len(),
{
    if cs.len() > 0 {
        lemma_views_of(cs.drop_first());
        assert forall|i: int| 0 <= i < cs.len() implies #[trigger] views_of(cs)[i] == node_view(
            cs[i],
        ) by {
            if i > 0 {
                assert(views_of(cs)[i] == views_of(cs.drop_first())[i - 1]);
                assert(cs.drop_first()[i - 1] == cs[i]);
                assert(views_of(cs.drop_first())[i - 1] == node_view(cs.drop_first()[i - 1]));
            }
        }
    }
}

/// The shape's nodes in preorder: the node itself, then each child's
/// subtree, left to right.
pub open spec fn preorder(n: NodeView) -> Seq<NodeView>
    decreases n,
{
    seq![n] + preorder_children(n.children)
}

/// The preorder sequences of a child list of shapes, concatenated.
pub open spec fn preorder_children(cs: Seq<NodeView>) -> Seq<NodeView>
    decreases cs,
{
    if cs.len() == 0 {
        Seq::empty()
    } else {
        preorder(cs[0]) + preorder_children(cs.drop_first())
    }
}

/// The shape's nodes in postorder: each child's subtree, then the node.
pub open spec fn postorder(n: NodeView) -> Seq<NodeView>
    decreases n,
{
    postorder_children(n.children) + seq![n]
}

/// The postorder sequences of a child list of shapes, concatenated.
pub open spec fn postorder_children(cs: Seq<NodeView>) -> Seq<NodeView>
    decreases cs,
{
    if cs.len() == 0 {
        Seq::empty()
    } else {
        postorder(cs[0]) + postorder_children(cs.drop_first())
    }
}

/// An exact copy of a subtree: same shape, fresh storage.
pub fn clone_node(n: &TreeNode) -> (r: TreeNode)
    ensures
        node_view(r) == node_view(*n),
    decreases *n,
{
    let mut kids: Vec<TreeNode> = Vec::new();
    let m = n.children.len();
    let mut i: usize = 0;
    while i < m
        invariant
            i <= m,
            m == n.children@.len(),
            kids@.len() == i,
            forall|j: int|
                0 <= j < i ==> node_view(#[trigger] kids@[j]) == node_view(n.children@[j]),
        decreases m - i,
    {
        let c = clone_node(&n.children[i]);
        kids.push(c);
        i = i + 1;
    }
    let r = TreeNode {
        guid: n.guid.clone(),
        name: n.name.clone(),
        has_parent: n.has_parent,
        children: kids,
    };
    proof {
        lemma_views_of(r.children@);
        lemma_views_of(n.children@);
        assert(views_of(r.children@) =~= views_of(n.children@));
        assert(node_view(r) =~= node_view(*n));
    }
    r
}

impl TreeNode {
    /// Create a standalone node with the given name.
    pub fn new(name: &str) -> (n: TreeNode)
        ensures
            n.name@ == name@,
            n.children@.len() == 0,
            !n.has_parent,
            n.guid@.len() == 36,
    {
        TreeNode {
            guid: crate::guid::new_guid(),
            name: name.to_owned(),
            has_parent: false,
            children: Vec::new(),
        }
    }

    /// The node's name.
    pub fn name(&self) -> (r: String)
        ensures
            r@ == self.name@,
    {
        self.name.clone()
    }

    /// The node's identifier.
    pub fn guid(&self) -> (r: String)
        ensures
            r@ == self.guid@,
    {
        self.guid.clone()
    }

    /// Whether the node is not held inside any other node.
    pub fn is_root(&self) -> (r: bool)
        ensures
            r == !self.has_parent,
    {
        !self.has_parent
    }

    /// Whether the node has no children.
    pub fn is_leaf(&self) -> (r: bool)
        ensures
            r == (self.children@.len() == 0),
    {
        self.children.is_empty()
    }

    /// Append a child to this node; the child is owned from then on and is
    /// no longer a root.
    pub fn add(&mut self, child: TreeNode)
        ensures
            final(self).guid == old(self).guid,
            final(self).name == old(self).name,
            final(self).has_parent == old(self).has_parent,
            views_of(final(self).children@) == views_of(old(self).children@).push(
                NodeView {
                    guid: child.guid@,
                    name: child.name@,
                    has_parent: true,
                    children: views_of(child.children@),
                },
            ),
    {
        let ghost cview = NodeView {
            guid: child.guid@,
            name: child.name@,
            has_parent: true,
            children: views_of(child.children@),
        };
        let owned = TreeNode {
            guid: child.guid,
            name: child.name,
            has_parent: true,
            children: child.children,
        };
        self.children.push(owned);
        proof {
            lemma_views_of(self.children@);
            lemma_views_of(old(self).children@);
            assert(views_of(self.children@) =~= views_of(old(self).children@).push(cview));
        }
    }

    /// Remove the first direct child with the given node's identifier;
    /// returns whether one was removed.
    pub fn remove(&mut self, child: &TreeNode) -> (removed: bool)
        ensures
            final(self).guid == old(self).guid,
            final(self).name == old(self).name,
            final(self).has_parent == old(self).has_parent,
            !removed ==> final(self).children@ == old(self).children@ && forall|i: int|
                0 <= i < old(self).children@.len() ==> (#[trigger] old(
                    self,
                ).children@[i]).guid@ != child.guid@,
            removed ==> exists|i: int|
                {
                    &&& 0 <= i < old(self).children@.len()
                    &&& (#[trigger] old(self).children@[i]).guid@ == child.guid@
                    &&& final(self).children@ == old(self).children@.remove(i)
                },
    {
        let m = self.children.len();
        let mut i: usize = 0;
        while i < m
            invariant
                i <= m,
                m == self.children@.len(),
                self == old(self),
                forall|j: int| 0 <= j < i ==> (#[trigger] self.children@[j]).guid@ != child.guid@,
            decreases m - i,
    {
            if str_eq(self.children[i].guid.as_str(), child.guid.as_str()) {
                self.children.remove(i);
                return true;
            }
            i = i + 1;
        }
        false
    }

    /// Copies of the node's children, in order.
    pub fn children(&self) -> (r: Vec<TreeNode>)
        ensures
            views_of(r@) == views_of(self.children@),
    {
        let m = self.children.len();
        let mut out: Vec<TreeNode> = Vec::new();
        let mut i: usize = 0;
        while i < m
            invariant
                i <= m,
                m == self.children@.len(),
                out@.len() == i,
                forall|j: int|
                    0 <= j < i ==> node_view(#[trigger] out@[j]) == node_view(self.children@[j]),
            decreases m - i,
        {
            let c = clone_node(&self.children[i]);
            out.push(c);
            i = i + 1;
        }
        proof {
            lemma_views_of(out@);
            lemma_views_of(self.children@);
            assert(views_of(out@) =~= views_of(self.children@));
        }
        out
    }

    /// The whole subtree in preorder: this node, then each child's subtree.
    pub fn nodes(&self) -> (r: Vec<TreeNode>)
        ensures
            views_of(r@) == preorder(node_view(*self)),
        decreases *self,
    {
        let mut out: Vec<TreeNode> = Vec::new();
        out.push(clone_node(self));
        let m = self.children.len();
        let mut i: usize = 0;
        proof {
            lemma_views_of(out@);
            assert(views_of(out@) =~= seq![node_view(*self)] + preorder_children(
                views_of(self.children@).take(0),
            ));
        }
        while i < m
            invariant
                i <= m,
                m == self.children@.len(),
                views_of(out@) == seq![node_view(*self)] + preorder_children(
                    views_of(self.children@).take(i as int),
                ),
            decreases m - i,
        {
            let mut sub = self.children[i].nodes();
            proof {
                lemma_views_of(out@);
                lemma_views_of(sub@);
                lemma_views_of(out@ + sub@);
                lemma_views_of(self.children@);
                assert(views_of(out@ + sub@) =~= views_of(out@) + views_of(sub@));
                lemma_preorder_children_take(views_of(self.children@), i as int);
            }
            out.append(&mut sub);
            proof {
                assert(views_of(out@) =~= seq![node_view(*self)] + preorder_children(
                    views_of(self.children@).take(i + 1),
                ));
            }
            i = i + 1;
        }
        proof {
            lemma_views_of(self.children@);
            assert(views_of(self.children@).take(m as int) =~= views_of(self.children@));
        }
        out
    }

    /// The subtree without this node, in preorder.
    pub fn descendants(&self) -> (r: Vec<TreeNode>)
        ensures
            views_of(r@) == preorder(node_view(*self)).drop_first(),
    {
        let all = self.nodes();
        let m = all.len();
        let mut out: Vec<TreeNode> = Vec::new();
        let mut i: usize = 1;
        proof {
            lemma_views_of(all@);
        }
        while i < m
            invariant
                1 <= i <= m,
                m == all@.len(),
                views_of(all@) == preorder(node_view(*self)),
                out@.len() == i - 1,
                forall|j: int|
                    0 <= j < i - 1 ==> node_view(#[trigger] out@[j]) == node_view(all@[j + 1]),
            decreases m - i,
        {
            out.push(clone_node(&all[i]));
            i = i + 1;
        }
        proof {
            lemma_views_of(out@);
            lemma_views_of(all@);
            assert(views_of(out@) =~= preorder(node_view(*self)).drop_first());
        }
        out
    }

    /// The subtree in the named strategy and order: depth-first preorder or
    /// postorder, or breadth-first; anything else yields nothing.
    pub fn traverse(&self, strategy: &str, order: &str) -> (r: Vec<TreeNode>)
        ensures
            strategy@ == "depthfirst"@ && order@ == "preorder"@ ==> views_of(r@) == preorder(
                node_view(*self),
            ),
            strategy@ == "depthfirst"@ && order@ == "postorder"@ ==> views_of(r@) == postorder(
                node_view(*self),
            ),
    {
        proof {
            reveal_strlit("preorder");
            reveal_strlit("postorder");
            assert("preorder"@.len() == 8);
            assert("postorder"@.len() == 9);
            assert("preorder"@ != "postorder"@);
        }
        if str_eq(strategy, "depthfirst") {
            if str_eq(order, "preorder") {
                self.preorder_traverse()
            } else if str_eq(order, "postorder") {
                self.postorder_traverse()
            } else {
                Vec::new()
            }
        } else if str_eq(strategy, "breadthfirst") {
            self.breadth_first_traverse()
        } else {
            Vec::new()
        }
    }

    /// The subtree in preorder.
    pub fn preorder_traverse(&self) -> (r: Vec<TreeNode>)
        ensures
            views_of(r@) == preorder(node_view(*self)),
    {
        self.nodes()
    }

    /// The subtree in postorder: each child's subtree, then this node.
    pub fn postorder_traverse(&self) -> (r: Vec<TreeNode>)
        ensures
            views_of(r@) == postorder(node_view(*self)),
        decreases *self,
    {
        let mut out: Vec<TreeNode> = Vec::new();
        let m = self.children.len();
        let mut i: usize = 0;
        proof {
            lemma_views_of(out@);
            assert(views_of(out@) =~= postorder_children(views_of(self.children@).take(0)));
        }
        while i < m
            invariant
                i <= m,
                m == self.children@.len(),
                views_of(out@) == postorder_children(views_of(self.children@).take(i as int)),
            decreases m - i,
        {
            let mut sub = self.children[i].postorder_traverse();
            proof {
                lemma_views_of(out@);
                lemma_views_of(sub@);
                lemma_views_of(out@ + sub@);
                lemma_views_of(self.children@);
                assert(views_of(out@ + sub@) =~= views_of(out@) + views_of(sub@));
                lemma_postorder_children_take(views_of(self.children@), i as int);
            }
            out.append(&mut sub);
            proof {
                assert(views_of(out@) =~= postorder_children(
                    views_of(self.children@).take(i + 1),
                ));
            }
            i = i + 1;
        }
        let ghost pre = out@;
        out.push(clone_node(self));
        proof {
            lemma_views_of(out@);
            lemma_views_of(pre);
            lemma_views_of(self.children@);
            assert(views_of(self.children@).take(m as int) =~= views_of(self.children@));
            assert(views_of(out@) =~= postorder(node_view(*self)));
        }
        out
    }

    /// The subtree level by level, children after their parents.
    pub fn breadth_first_traverse(&self) -> (r: Vec<TreeNode>)
        ensures
            r@.len() >= 1,
            node_view(r@[0]) == node_view(*self),
    {
        let mut result: Vec<TreeNode> = Vec::new();
        let mut queue: Vec<TreeNode> = Vec::new();
        queue.push(clone_node(self));
        proof {
            assert(queue@.drop_first() =~= Seq::<TreeNode>::empty());
            assert(queue_weight(Seq::<TreeNode>::empty()) == 0);
        }
        while queue.len() > 0
            invariant
                result@.len() >= 1 ==> node_view(result@[0]) == node_view(*self),
                result@.len() == 0 ==> queue@.len() == 1 && node_view(queue@[0]) == node_view(
                    *self,
                ),
            decreases queue_weight(queue@),
        {
            let ghost qpre = queue@;
            let node = queue.remove(0);
            proof {
                lemma_queue_weight_remove(qpre, 0);
                lemma_preorder_len(node_view(node));
            }
            let kids = node.children();
            result.push(clone_node(&node));
            let k = kids.len();
            let mut i: usize = 0;
            proof {
                lemma_views_of(kids@);
                lemma_views_of(node.children@);
                assert forall|j: int| 0 <= j < kids@.len() implies node_view(
                    #[trigger] kids@[j],
                ) == node_view(node.children@[j]) by {
                    assert(views_of(kids@)[j] == node_view(kids@[j]));
                    assert(views_of(node.children@)[j] == node_view(node.children@[j]));
                }
            }
            while i < k
                invariant
                    i <= k,
                    k == kids@.len(),
                    views_of(kids@) == views_of(node.children@),
                    kids@.len() == node.children@.len(),
                    forall|j: int|
                        0 <= j < k ==> node_view(#[trigger] kids@[j]) == node_view(
                            node.children@[j],
                        ),
                    queue_weight(queue@) == queue_weight(qpre.remove(0))
                        + preorder_children_len_upto(views_of(node.children@), i as int),
                decreases k - i,
            {
                let ghost qtop = queue@;
                let c = clone_node(&kids[i]);
                queue.push(c);
                proof {
                    lemma_queue_weight_push(qtop, c);
                    assert(queue@ =~= qtop.push(c));
                    assert(node_view(c) == node_view(node.children@[i as int]));
                    assert(preorder_children_len_upto(views_of(node.children@), i + 1)
                        == preorder_children_len_upto(views_of(node.children@), i as int)
                        + preorder(views_of(node.children@)[i as int]).len());
                    lemma_views_of(node.children@);
                }
                i = i + 1;
            }
            proof {
                lemma_preorder_children_upto_full(views_of(node.children@));
                lemma_queue_weight_remove(qpre, 0);
                assert(preorder(node_view(node)).len() == 1 + preorder_children(
                    views_of(node.children@),
                ).len());
                assert(queue_weight(queue@) < queue_weight(qpre));
            }
        }
        result
    }
}

/// The preorder length of a shape is at least one.
pub proof fn lemma_preorder_len(n: NodeView)
    ensures
        preorder(n).len() >= 1,
{
}

/// The total preorder weight of a queue of subtrees.
pub open spec fn queue_weight(q: Seq<TreeNode>) -> nat
    decreases q.len(),
{
    if q.len() == 0 {
        0
    } else {
        (preorder(node_view(q[0])).len() + queue_weight(q.drop_first())) as nat
    }
}

/// Removing the queue's head removes exactly its weight.
pub proof fn lemma_queue_weight_remove(q: Seq<TreeNode>, i: int)
    requires
        i == 0,
        q.len() > 0,
    ensures
        queue_weight(q) == preorder(node_view(q[0])).len() + queue_weight(q.remove(0)),
{
    assert(q.drop_first() =~= q.remove(0));
}

/// Appending a subtree adds exactly its weight.
pub proof fn lemma_queue_weight_push(q: Seq<TreeNode>, n: TreeNode)
    ensures
        queue_weight(q.push(n)) == queue_weight(q) + preorder(node_view(n)).len(),
    decreases q.len(),
{
    if q.len() == 0 {
        assert(q.push(n).drop_first() =~= Seq::<TreeNode>::empty());
        assert(queue_weight(Seq::<TreeNode>::empty()) == 0);
        assert(q.push(n)[0] == n);
    } else {
        lemma_queue_weight_push(q.drop_first(), n);
        assert(q.push(n).drop_first() =~= q.drop_first().push(n));
        assert(q.push(n)[0] == q[0]);
    }
}

/// The preorder length of the first `i` children's subtrees.
pub open spec fn preorder_children_len_upto(cs: Seq<NodeView>, i: int) -> nat
    decreases i,
{
    if i <= 0 {
        0
    } else {
        (preorder_children_len_upto(cs, i - 1) + preorder(cs[i - 1]).len()) as nat
    }
}

/// All children's subtrees together weigh as much as the child list.
pub proof fn lemma_preorder_children_upto_full(cs: Seq<NodeView>)
    ensures
        preorder_children_len_upto(cs, cs.len() as int) == preorder_children(cs).len(),
{
    lemma_preorder_children_upto(cs, cs.len() as int);
    assert(cs.take(cs.len() as int) =~= cs);
}

/// The prefix weights agree with the prefix preorder sequences.
proof fn lemma_preorder_children_upto(cs: Seq<NodeView>, i: int)
    requires
        0 <= i <= cs.len(),
    ensures
        preorder_children_len_upto(cs, i) == preorder_children(cs.take(i)).len(),
    decreases i,
{
    if i > 0 {
        lemma_preorder_children_upto(cs, i - 1);
        lemma_preorder_children_take(cs, i - 1);
        assert(cs.take(i)[i - 1] == cs[i - 1]);
    }
}

/// Extending a prefix by one child appends that child's subtree.
pub proof fn lemma_preorder_children_take(cs: Seq<NodeView>, i: int)
    requires
        0 <= i < cs.len(),
    ensures
        preorder_children(cs.take(i + 1)) == preorder_children(cs.take(i)) + preorder(cs[i]),
{
    lemma_preorder_children_snoc(cs.take(i + 1));
    assert(cs.take(i + 1).drop_last() =~= cs.take(i));
    assert(cs.take(i + 1).last() == cs[i]);
}

/// The preorder of a child list splits at its last child.
proof fn lemma_preorder_children_snoc(cs: Seq<NodeView>)
    requires
        cs.len() > 0,
    ensures
        preorder_children(cs) == preorder_children(cs.drop_last()) + preorder(cs.last()),
    decreases cs.len(),
{
    if cs.len() == 1 {
        assert(cs.drop_first() =~= Seq::<NodeView>::empty());
        assert(cs.drop_last() =~= Seq::<NodeView>::empty());
        assert(preorder_children(cs.drop_last()) =~= Seq::<NodeView>::empty());
        assert(preorder_children(cs) =~= preorder(cs[0]));
        assert(preorder_children(cs) =~= preorder_children(cs.drop_last()) + preorder(cs.last()));
    } else {
        lemma_preorder_children_snoc(cs.drop_first());
        assert(cs.drop_first().drop_last() =~= cs.drop_last().drop_first());
        assert(cs.drop_first().last() == cs.last());
        assert(cs.drop_last()[0] == cs[0]);
        assert(cs.drop_last().len() > 0);
        assert(preorder_children(cs) =~= preorder(cs[0]) + (preorder_children(
            cs.drop_first().drop_last(),
        ) + preorder(cs.last())));
        assert(preorder_children(cs.drop_last()) =~= preorder(cs[0]) + preorder_children(
            cs.drop_last().drop_first(),
        ));
        assert(preorder_children(cs) =~= preorder_children(cs.drop_last()) + preorder(cs.last()));
    }
}

/// Extending a prefix by one child appends that child's postorder subtree.
pub proof fn lemma_postorder_children_take(cs: Seq<NodeView>, i: int)
    requires
        0 <= i < cs.len(),
    ensures
        postorder_children(cs.take(i + 1)) == postorder_children(cs.take(i)) + postorder(cs[i]),
{
    lemma_postorder_children_snoc(cs.take(i + 1));
    assert(cs.take(i + 1).drop_last() =~= cs.take(i));
    assert(cs.take(i + 1).last() == cs[i]);
}

/// The postorder of a child list splits at its last child.
proof fn lemma_postorder_children_snoc(cs: Seq<NodeView>)
    requires
        cs.len() > 0,
    ensures
        postorder_children(cs) == postorder_children(cs.drop_last()) + postorder(cs.last()),
    decreases cs.len(),
{
    if cs.len() == 1 {
        assert(cs.drop_first() =~= Seq::<NodeView>::empty());
        assert(cs.drop_last() =~= Seq::<NodeView>::empty());
        assert(postorder_children(cs.drop_last()) =~= Seq::<NodeView>::empty());
        assert(postorder_children(cs) =~= postorder(cs[0]));
        assert(postorder_children(cs) =~= postorder_children(cs.drop_last()) + postorder(
            cs.last(),
        ));
    } else {
        lemma_postorder_children_snoc(cs.drop_first());
        assert(cs.drop_first().drop_last() =~= cs.drop_last().drop_first());
        assert(cs.drop_first().last() == cs.last());
        assert(cs.drop_last()[0] == cs[0]);
        assert(cs.drop_last().len() > 0);
        assert(postorder_children(cs) =~= postorder(cs[0]) + (postorder_children(
            cs.drop_first().drop_last(),
        ) + postorder(cs.last())));
        assert(postorder_children(cs.drop_last()) =~= postorder(cs[0]) + postorder_children(
            cs.drop_last().drop_first(),
        ));
        assert(postorder_children(cs) =~= postorder_children(cs.drop_last()) + postorder(
            cs.last(),
        ));
    }
}

impl PartialEq for TreeNode {
    /// Two handles name the same node when their identifiers agree.
    fn eq(&self, other: &TreeNode) -> (r: bool) {
        str_eq(self.guid.as_str(), other.guid.as_str())
    }
}

impl vstd::std_specs::cmp::PartialEqSpecImpl for TreeNode {
    open spec fn obeys_eq_spec() -> bool {
        true
    }

    open spec fn eq_spec(&self, other: &TreeNode) -> bool {
        self.guid@ == other.guid@
    }
}

} // verus!
