use vstd::prelude::*;

use crate::index::TreeIndex;
use crate::tree::TreeNode;
use crate::tree::entries_from;
use crate::tree::lemma_child_decreases;

verus! {

broadcast use vstd::std_specs::vec::group_vec_axioms;

/// The nodes of the subtrees of `node`'s children from offset `i` on, in pre-order.
pub open spec fn nodes_from<T>(node: TreeNode<T>, i: int) -> Seq<TreeNode<T>> {
    entries_from(node, seq![], i).map_values(|e: (Seq<usize>, TreeNode<T>)| e.1)
}

/// The nodes below `node`, in pre-order.
pub open spec fn nodes_below<T>(node: TreeNode<T>) -> Seq<TreeNode<T>> {
    nodes_from(node, 0)
}

/// The nodes a stack of borrowed nodes points at.
pub open spec fn deref_all<'a, T>(stack: Seq<&'a TreeNode<T>>) -> Seq<TreeNode<T>> {
    stack.map_values(|n: &'a TreeNode<T>| *n)
}

/// The nodes below `node` in pre-order, each with its depth counted from `depth` for the
/// children of `node`.
pub open spec fn depths_below<T>(node: TreeNode<T>, depth: int) -> Seq<(int, TreeNode<T>)> {
    entries_from(node, seq![], 0).map_values(
        |e: (Seq<usize>, TreeNode<T>)| (depth + e.0.len() - 1, e.1),
    )
}

/// The greatest depth of a node below `node`, counting its children as depth one.
pub open spec fn height<T>(node: TreeNode<T>) -> nat
    decreases node,
{
    height_from(node, 0)
}

/// The greatest height among `node`'s children from offset `i` on, plus one; zero if there
/// are none.
pub open spec fn height_from<T>(node: TreeNode<T>, i: int) -> nat
    decreases node, node.children@.len() - i,
    via height_from_decreases::<T>
{
    if 0 <= i < node.children@.len() {
        let h = 1 + height(node.children@[i]);
        let rest = height_from(node, i + 1);
        if h >= rest {
            h
        } else {
            rest
        }
    } else {
        0
    }
}

#[via_fn]
proof fn height_from_decreases<T>(node: TreeNode<T>, i: int) {
    lemma_child_decreases(node, i);
}

/// Each child is at least one level less high than its parent.
proof fn lemma_height_child<T>(node: TreeNode<T>, i: int, j: int)
    requires
        0 <= i <= j < node.children@.len(),
    ensures
        1 + height(node.children@[j]) <= height_from(node, i),
    decreases j - i,
{
    if i < j {
        lemma_height_child(node, i + 1, j);
    }
}

/// Entries listed from different bases hold the same nodes at the same relative depths.
pub proof fn lemma_entries_rebase<T>(node: TreeNode<T>, b1: Seq<usize>, b2: Seq<usize>, i: int)
    ensures
        entries_from(node, b1, i).len() == entries_from(node, b2, i).len(),
        forall|k: int|
            0 <= k < entries_from(node, b1, i).len() ==> {
                &&& (#[trigger] entries_from(node, b1, i)[k]).1 == entries_from(node, b2, i)[k].1
                &&& entries_from(node, b1, i)[k].0.len() - b1.len() == entries_from(
                    node,
                    b2,
                    i,
                )[k].0.len() - b2.len()
            },
    decreases node, node.children@.len() - i,
{
    if 0 <= i < node.children@.len() {
        let c = node.children@[i];
        lemma_child_decreases(node, i);
        lemma_entries_rebase(c, b1.push(i as usize), b2.push(i as usize), 0);
        lemma_entries_rebase(node, b1, b2, i + 1);
        let c1 = entries_from(c, b1.push(i as usize), 0);
        let c2 = entries_from(c, b2.push(i as usize), 0);
        let r1 = entries_from(node, b1, i + 1);
        let r2 = entries_from(node, b2, i + 1);
        let e1 = entries_from(node, b1, i);
        let e2 = entries_from(node, b2, i);
        assert(e1 == seq![(b1.push(i as usize), c)] + c1 + r1);
        assert(e2 == seq![(b2.push(i as usize), c)] + c2 + r2);
        assert forall|k: int| 0 <= k < e1.len() implies {
            &&& (#[trigger] e1[k]).1 == e2[k].1
            &&& e1[k].0.len() - b1.len() == e2[k].0.len() - b2.len()
        } by {
            if k == 0 {
            } else if k < 1 + c1.len() {
                assert(e1[k] == c1[k - 1]);
                assert(e2[k] == c2[k - 1]);
            } else {
                assert(e1[k] == r1[k - 1 - c1.len()]);
                assert(e2[k] == r2[k - 1 - c1.len()]);
            }
        }
    }
}

/// The nodes that a plain traversal still yields from a stack whose top is last.
pub open spec fn pending_nodes<T>(stack: Seq<TreeNode<T>>) -> Seq<TreeNode<T>>
    decreases stack.len(),
{
    if stack.len() == 0 {
        seq![]
    } else {
        seq![stack.last()] + nodes_below(stack.last()) + pending_nodes(stack.drop_last())
    }
}

/// The depths and nodes that a depth-annotated traversal still yields.
pub open spec fn pending_depths<T>(stack: Seq<(int, TreeNode<T>)>) -> Seq<(int, TreeNode<T>)>
    decreases stack.len(),
{
    if stack.len() == 0 {
        seq![]
    } else {
        seq![stack.last()] + depths_below(stack.last().1, stack.last().0 + 1) + pending_depths(
            stack.drop_last(),
        )
    }
}

/// The addresses and nodes that an address-annotated traversal still yields.
pub open spec fn pending_entries<T>(stack: Seq<(Seq<usize>, TreeNode<T>)>) -> Seq<
    (Seq<usize>, TreeNode<T>),
>
    decreases stack.len(),
{
    if stack.len() == 0 {
        seq![]
    } else {
        seq![stack.last()] + entries_from(stack.last().1, stack.last().0, 0) + pending_entries(
            stack.drop_last(),
        )
    }
}

/// A pre-order traversal that yields borrowed nodes. It keeps the nodes still to visit on a
/// stack, next one last, so its depth is bounded by the tree's depth rather than the call
/// stack.
pub struct TreeIter<'a, T> {
    stack: Vec<&'a TreeNode<T>>,
}

impl<'a, T> TreeIter<'a, T> {
    /// The nodes still to be yielded, in order.
    pub closed spec fn remaining(&self) -> Seq<TreeNode<T>> {
        pending_nodes(deref_all(self.stack@))
    }

    /// A traversal of the given nodes and their subtrees, the last node first.
    pub fn new(stack: Vec<&'a TreeNode<T>>) -> (r: TreeIter<'a, T>)
        ensures
            r.remaining() == pending_nodes(deref_all(stack@)),
    {
        TreeIter { stack }
    }

    /// A traversal of everything below `root`.
    pub fn new_from(root: &'a TreeNode<T>) -> (r: TreeIter<'a, T>)
        ensures
            r.remaining() == nodes_below(*root),
    {
        let mut it = TreeIter { stack: Vec::new() };
        assert(deref_all(it.stack@) =~= Seq::<TreeNode<T>>::empty());
        it.push_children(root);
        assert(nodes_below(*root) + Seq::<TreeNode<T>>::empty() =~= nodes_below(*root));
        it
    }

    /// Puts `node`'s children on the stack so that they come next, first child first.
    fn push_children(&mut self, node: &'a TreeNode<T>)
        ensures
            final(self).remaining() == nodes_below(*node) + old(self).remaining(),
    {
        let ghost rest = old(self).remaining();
        let mut j = node.children.len();
        assert(nodes_from(*node, j as int) =~= Seq::<TreeNode<T>>::empty());
        assert(self.remaining() =~= nodes_from(*node, j as int) + rest);
        while j > 0
            invariant
                j <= node.children@.len(),
                self.remaining() == nodes_from(*node, j as int) + rest,
            decreases j,
        {
            j = j - 1;
            let ghost before = self.stack@;
            self.stack.push(&node.children[j]);
            proof {
                let c = node.children@[j as int];
                let a = seq![j];
                lemma_entries_rebase(c, a, seq![], 0);
                assert(Seq::<usize>::empty().push(j) =~= a);
                let e = entries_from(*node, seq![], j as int);
                assert(e == seq![(a, c)] + entries_from(c, a, 0) + entries_from(
                    *node,
                    seq![],
                    j + 1,
                ));
                assert(deref_all(self.stack@).drop_last() =~= deref_all(before));
                assert(deref_all(self.stack@).last() == c);
                assert(entries_from(c, a, 0).map_values(|e: (Seq<usize>, TreeNode<T>)| e.1)
                    =~= nodes_below(c));
                assert(nodes_from(*node, j as int) =~= seq![c] + nodes_below(c) + nodes_from(
                    *node,
                    j + 1,
                ));
            }
        }
    }

    /// The next node in pre-order, if any; its children are visited next.
    pub fn next(&mut self) -> (r: Option<&'a TreeNode<T>>)
        ensures
            old(self).remaining().len() == 0 ==> r is None && final(self).remaining() == old(
                self,
            ).remaining(),
            old(self).remaining().len() > 0 ==> (r matches Some(n) && *n == old(
                self,
            ).remaining()[0]) && final(self).remaining() == old(self).remaining().drop_first(),
    {
        match self.stack.pop() {
            Some(item) => {
                let ghost popped = deref_all(self.stack@);
                proof {
                    assert(popped =~= deref_all(old(self).stack@).drop_last());
                    assert(old(self).remaining() == seq![*item] + nodes_below(*item)
                        + pending_nodes(popped));
                }
                self.push_children(item);
                assert(old(self).remaining().drop_first() =~= nodes_below(*item) + pending_nodes(
                    popped,
                ));
                Some(item)
            },
            None => {
                assert(deref_all(old(self).stack@) =~= Seq::<TreeNode<T>>::empty());
                None
            },
        }
    }
}

/// The address and node each stack item of an address-annotated traversal holds.
pub open spec fn entry_views<'a, T>(stack: Seq<(TreeIndex, &'a TreeNode<T>)>) -> Seq<
    (Seq<usize>, TreeNode<T>),
> {
    stack.map_values(|p: (TreeIndex, &'a TreeNode<T>)| (p.0@, *p.1))
}

/// A pre-order traversal that yields each node with its address, built by appending one
/// offset to the parent's address rather than derived anew.
pub struct TreeIterWithIndex<'a, T> {
    stack: Vec<(TreeIndex, &'a TreeNode<T>)>,
}

impl<'a, T> TreeIterWithIndex<'a, T> {
    /// The addresses and nodes still to be yielded, in order.
    pub closed spec fn remaining(&self) -> Seq<(Seq<usize>, TreeNode<T>)> {
        pending_entries(entry_views(self.stack@))
    }

    /// A traversal of the given nodes and their subtrees, the last node first; each node's
    /// address is the one it is paired with.
    pub fn new(stack: Vec<(TreeIndex, &'a TreeNode<T>)>) -> (r: TreeIterWithIndex<'a, T>)
        ensures
            r.remaining() == pending_entries(entry_views(stack@)),
    {
        TreeIterWithIndex { stack }
    }

    /// A traversal of everything below `root`, with addresses relative to `root`.
    pub fn new_from(root: &'a TreeNode<T>) -> (r: TreeIterWithIndex<'a, T>)
        ensures
            r.remaining() == entries_from(*root, seq![], 0),
    {
        let mut it = TreeIterWithIndex { stack: Vec::new() };
        let mut j = root.children.len();
        assert(entries_from(*root, seq![], j as int) =~= Seq::<(Seq<usize>, TreeNode<T>)>::empty());
        assert(it.remaining() =~= entries_from(*root, seq![], j as int));
        while j > 0
            invariant
                j <= root.children@.len(),
                it.remaining() == entries_from(*root, seq![], j as int),
            decreases j,
        {
            j = j - 1;
            let ghost before = it.stack@;
            it.stack.push((TreeIndex::new_at(j), &root.children[j]));
            proof {
                let c = root.children@[j as int];
                let a = seq![j];
                assert(Seq::<usize>::empty().push(j) =~= a);
                assert(entry_views(it.stack@).drop_last() =~= entry_views(before));
                assert(entry_views(it.stack@).last() == (a, c));
                assert(entries_from(*root, seq![], j as int) =~= seq![(a, c)] + entries_from(
                    c,
                    a,
                    0,
                ) + entries_from(*root, seq![], j + 1));
            }
        }
        it
    }

    /// Puts `node`'s children on the stack, with `index` extended by their offsets, so that
    /// they come next, first child first.
    fn push_children(&mut self, index: &TreeIndex, node: &'a TreeNode<T>)
        ensures
            final(self).remaining() == entries_from(*node, index@, 0) + old(self).remaining(),
    {
        let ghost rest = old(self).remaining();
        let mut j = node.children.len();
        assert(entries_from(*node, index@, j as int) =~= Seq::<(Seq<usize>, TreeNode<T>)>::empty());
        assert(self.remaining() =~= entries_from(*node, index@, j as int) + rest);
        while j > 0
            invariant
                j <= node.children@.len(),
                self.remaining() == entries_from(*node, index@, j as int) + rest,
            decreases j,
        {
            j = j - 1;
            let ghost before = self.stack@;
            self.stack.push((index.pushed(j), &node.children[j]));
            proof {
                let c = node.children@[j as int];
                let a = index@.push(j);
                assert(entry_views(self.stack@).drop_last() =~= entry_views(before));
                assert(entry_views(self.stack@).last() == (a, c));
                assert(entries_from(*node, index@, j as int) =~= seq![(a, c)] + entries_from(
                    c,
                    a,
                    0,
                ) + entries_from(*node, index@, j + 1));
            }
        }
    }

    /// The next node in pre-order with its address, if any; its children are visited next.
    pub fn next(&mut self) -> (r: Option<(TreeIndex, &'a TreeNode<T>)>)
        ensures
            old(self).remaining().len() == 0 ==> r is None && final(self).remaining() == old(
                self,
            ).remaining(),
            old(self).remaining().len() > 0 ==> (r matches Some((i, n)) && (i@, *n) == old(
                self,
            ).remaining()[0]) && final(self).remaining() == old(self).remaining().drop_first(),
    {
        match self.stack.pop() {
            Some(item) => {
                let (index, node) = item;
                let ghost popped = entry_views(self.stack@);
                proof {
                    assert(popped =~= entry_views(old(self).stack@).drop_last());
                    assert(entry_views(old(self).stack@).last() == (index@, *node));
                    assert(old(self).remaining() == seq![(index@, *node)] + entries_from(
                        *node,
                        index@,
                        0,
                    ) + pending_entries(popped));
                }
                self.push_children(&index, node);
                assert(old(self).remaining().drop_first() =~= entries_from(*node, index@, 0)
                    + pending_entries(popped));
                Some((index, node))
            },
            None => {
                assert(entry_views(old(self).stack@) =~= Seq::<(Seq<usize>, TreeNode<T>)>::empty());
                None
            },
        }
    }
}

/// The nodes of the subtrees of `node`'s children from offset `i` on, in pre-order, each with
/// its depth counted from `depth` for those children.
pub open spec fn depths_from<T>(node: TreeNode<T>, depth: int, i: int) -> Seq<(int, TreeNode<T>)> {
    entries_from(node, seq![], i).map_values(
        |e: (Seq<usize>, TreeNode<T>)| (depth + e.0.len() - 1, e.1),
    )
}

/// The depth and node each stack item of a depth-annotated traversal holds.
pub open spec fn depth_views<'a, T>(stack: Seq<(usize, &'a TreeNode<T>)>) -> Seq<
    (int, TreeNode<T>),
> {
    stack.map_values(|p: (usize, &'a TreeNode<T>)| (p.0 as int, *p.1))
}

/// A pre-order traversal that yields each node with its depth, 0 for the children of the
/// node it starts from.
pub struct TreeIterWithDepth<'a, T> {
    stack: Vec<(usize, &'a TreeNode<T>)>,
}

impl<'a, T> TreeIterWithDepth<'a, T> {
    /// The depths and nodes still to be yielded, in order.
    pub closed spec fn remaining(&self) -> Seq<(int, TreeNode<T>)> {
        pending_depths(depth_views(self.stack@))
    }

    /// Every depth still to be yielded fits in a `usize`.
    pub closed spec fn wf(&self) -> bool {
        forall|k: int|
            0 <= k < self.stack@.len() ==> (#[trigger] self.stack@[k]).0 + height(
                *self.stack@[k].1,
            ) <= usize::MAX
    }

    /// A traversal of the given nodes and their subtrees, the last node first; each node
    /// has the depth it is paired with.
    pub fn new(stack: Vec<(usize, &'a TreeNode<T>)>) -> (r: TreeIterWithDepth<'a, T>)
        requires
            forall|k: int|
                0 <= k < stack@.len() ==> (#[trigger] stack@[k]).0 + height(*stack@[k].1)
                    <= usize::MAX,
        ensures
            r.remaining() == pending_depths(depth_views(stack@)),
            r.wf(),
    {
        let r = TreeIterWithDepth { stack };
        assert forall|k: int| 0 <= k < r.stack@.len() implies (#[trigger] r.stack@[k]).0 + height(
            *r.stack@[k].1,
        ) <= usize::MAX by {
            assert(r.stack@[k] == stack@[k]);
        }
        r
    }

    /// A traversal of everything below `root`; the depth of `root`'s children is 0.
    pub fn new_from(root: &'a TreeNode<T>) -> (r: TreeIterWithDepth<'a, T>)
        requires
            height(*root) <= usize::MAX,
        ensures
            r.remaining() == depths_from(*root, 0, 0),
            r.wf(),
    {
        let mut it = TreeIterWithDepth { stack: Vec::new() };
        let mut j = root.children.len();
        assert(depths_from(*root, 0, j as int) =~= Seq::<(int, TreeNode<T>)>::empty());
        assert(it.remaining() =~= depths_from(*root, 0, j as int));
        while j > 0
            invariant
                j <= root.children@.len(),
                height(*root) <= usize::MAX,
                it.remaining() == depths_from(*root, 0, j as int),
                it.wf(),
            decreases j,
        {
            j = j - 1;
            let ghost before = it.stack@;
            it.stack.push((0, &root.children[j]));
            proof {
                let c = root.children@[j as int];
                let a = seq![j];
                lemma_height_child(*root, 0, j as int);
                assert(Seq::<usize>::empty().push(j) =~= a);
                lemma_entries_rebase(c, a, seq![], 0);
                assert(depth_views(it.stack@).drop_last() =~= depth_views(before));
                assert(depth_views(it.stack@).last() == (0int, c));
                let e = entries_from(*root, seq![], j as int);
                assert(e == seq![(a, c)] + entries_from(c, a, 0) + entries_from(
                    *root,
                    seq![],
                    j + 1,
                ));
                assert(depths_from(*root, 0, j as int) =~= seq![(0int, c)] + depths_below(c, 1)
                    + depths_from(*root, 0, j + 1));
                assert forall|k: int| 0 <= k < it.stack@.len() implies (#[trigger] it.stack@[k]).0
                    + height(*it.stack@[k].1) <= usize::MAX by {
                    if k < before.len() {
                        assert(it.stack@[k] == before[k]);
                    }
                }
            }
        }
        it
    }

    /// Puts `node`'s children on the stack at depth `depth`, so that they come next, first
    /// child first.
    fn push_children(&mut self, depth: usize, node: &'a TreeNode<T>)
        requires
            old(self).wf(),
            depth + height(*node) <= usize::MAX + 1,
        ensures
            final(self).remaining() == depths_below(*node, depth as int) + old(self).remaining(),
            final(self).wf(),
    {
        let ghost rest = old(self).remaining();
        let mut j = node.children.len();
        assert(depths_from(*node, depth as int, j as int) =~= Seq::<(int, TreeNode<T>)>::empty());
        assert(self.remaining() =~= depths_from(*node, depth as int, j as int) + rest);
        while j > 0
            invariant
                j <= node.children@.len(),
                depth + height(*node) <= usize::MAX + 1,
                self.remaining() == depths_from(*node, depth as int, j as int) + rest,
                self.wf(),
            decreases j,
        {
            j = j - 1;
            let ghost before = self.stack@;
            proof {
                lemma_height_child(*node, 0, j as int);
            }
            self.stack.push((depth, &node.children[j]));
            proof {
                let c = node.children@[j as int];
                let a = seq![j];
                assert(Seq::<usize>::empty().push(j) =~= a);
                lemma_entries_rebase(c, a, seq![], 0);
                assert(depth_views(self.stack@).drop_last() =~= depth_views(before));
                assert(depth_views(self.stack@).last() == (depth as int, c));
                let e = entries_from(*node, seq![], j as int);
                assert(e == seq![(a, c)] + entries_from(c, a, 0) + entries_from(
                    *node,
                    seq![],
                    j + 1,
                ));
                assert(depths_from(*node, depth as int, j as int) =~= seq![(depth as int, c)]
                    + depths_below(c, depth + 1) + depths_from(*node, depth as int, j + 1));
                assert forall|k: int| 0 <= k < self.stack@.len() implies (#[trigger] self.stack@[
                    k
                ]).0 + height(*self.stack@[k].1) <= usize::MAX by {
                    if k < before.len() {
                        assert(self.stack@[k] == before[k]);
                    }
                }
            }
        }
    }

    /// The next node in pre-order with its depth, if any; its children are visited next.
    pub fn next(&mut self) -> (r: Option<(usize, &'a TreeNode<T>)>)
        requires
            old(self).wf(),
        ensures
            final(self).wf(),
            old(self).remaining().len() == 0 ==> r is None && final(self).remaining() == old(
                self,
            ).remaining(),
            old(self).remaining().len() > 0 ==> (r matches Some((d, n)) && (d as int, *n) == old(
                self,
            ).remaining()[0]) && final(self).remaining() == old(self).remaining().drop_first(),
    {
        let ghost len = self.stack@.len();
        match self.stack.pop() {
            Some(item) => {
                let (depth, node) = item;
                let ghost popped = depth_views(self.stack@);
                proof {
                    assert(popped =~= depth_views(old(self).stack@).drop_last());
                    assert(depth_views(old(self).stack@).last() == (depth as int, *node));
                    assert(old(self).stack@[len - 1] == item);
                    assert(old(self).remaining() == seq![(depth as int, *node)] + depths_below(
                        *node,
                        depth + 1,
                    ) + pending_depths(popped));
                    assert forall|k: int| 0 <= k < self.stack@.len() implies (#[trigger] self.stack@[
                        k
                    ]).0 + height(*self.stack@[k].1) <= usize::MAX by {
                        assert(self.stack@[k] == old(self).stack@[k]);
                    }
                }
                if node.children.len() > 0 {
                    proof {
                        lemma_height_child(*node, 0, 0);
                    }
                    self.push_children(depth + 1, node);
                } else {
                    assert(depths_below(*node, depth + 1) =~= Seq::<(int, TreeNode<T>)>::empty());
                }
                assert(old(self).remaining().drop_first() =~= depths_below(*node, depth + 1)
                    + pending_depths(popped));
                Some((depth, node))
            },
            None => {
                assert(depth_views(old(self).stack@) =~= Seq::<(int, TreeNode<T>)>::empty());
                None
            },
        }
    }
}

} // verus!
