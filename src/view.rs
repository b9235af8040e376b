use vstd::prelude::*;
use vstd::std_specs::iter::IteratorSpec;

use crate::index::TreeIndex;
use crate::index::spliced_seq;
use crate::tree::TreeNode;
use crate::tree::reach;
use crate::tree::valid;
use crate::tree::lemma_child_decreases;
use crate::tree::lemma_reach_prefix;
use crate::tree::lemma_reach_push;
use crate::tree::entries;
use crate::tree::addresses;
use crate::tree::count;
use crate::tree::offset_of;
use crate::tree::precedes;
use crate::tree::lemma_entries;
use crate::tree::lemma_offset_of;
use crate::tree::lemma_precedes_asymmetric;
use crate::tree::lemma_precedes_from_agree;
use crate::iter::TreeIter;
use crate::iter::TreeIterWithDepth;
use crate::iter::TreeIterWithIndex;
use crate::iter::nodes_below;
use crate::iter::depths_from;
use crate::iter::height;

verus! {

broadcast use vstd::std_specs::vec::group_vec_axioms;

/// The offsets that lead from `node` to its last node in pre-order: the last child, then
/// its last child, down to a leaf.
pub open spec fn last_path<T>(node: TreeNode<T>) -> Seq<usize>
    decreases node,
    via last_path_decreases::<T>
{
    let n = node.children@.len();
    if n == 0 {
        seq![]
    } else {
        seq![(n - 1) as usize] + last_path(node.children@[n - 1])
    }
}

#[via_fn]
proof fn last_path_decreases<T>(node: TreeNode<T>) {
    lemma_child_decreases(node, node.children@.len() - 1);
}

/// The address of the last node in pre-order of the subtree at `path`.
pub open spec fn last_descendant<T>(root: TreeNode<T>, path: Seq<usize>) -> Seq<usize> {
    path + last_path(reach(root, path)->0)
}

/// The address of the node that follows `path`'s node among its siblings, if any.
pub open spec fn next_sibling<T>(root: TreeNode<T>, path: Seq<usize>) -> Option<Seq<usize>> {
    if path.len() > 0 && reach(root, path.drop_last()) is Some && path.last() + 1 < reach(
        root,
        path.drop_last(),
    )->0.children@.len() {
        Some(path.drop_last().push((path.last() + 1) as usize))
    } else {
        None
    }
}

/// The address of the node that precedes `path`'s node among its siblings, if any.
pub open spec fn previous_sibling<T>(root: TreeNode<T>, path: Seq<usize>) -> Option<Seq<usize>> {
    if path.len() > 0 && reach(root, path.drop_last()) is Some && 0 < path.last() && path.last()
        - 1 < reach(root, path.drop_last())->0.children@.len() {
        Some(path.drop_last().push((path.last() - 1) as usize))
    } else {
        None
    }
}

/// The next sibling of the deepest of the first `k` levels of `path` that has one.
pub open spec fn next_sibling_up<T>(root: TreeNode<T>, path: Seq<usize>, k: int) -> Option<
    Seq<usize>,
>
    decreases k,
{
    if k <= 0 {
        None
    } else {
        match next_sibling(root, path.subrange(0, k)) {
            Some(s) => Some(s),
            None => next_sibling_up(root, path, k - 1),
        }
    }
}

/// The node after `path`'s in pre-order: its first child, or else the next sibling of the
/// node or of its nearest ancestor that has one. `None` for an address that names no node.
pub open spec fn next_relative<T>(root: TreeNode<T>, path: Seq<usize>) -> Option<Seq<usize>> {
    if !valid(root, path) {
        None
    } else if reach(root, path)->0.children@.len() > 0 {
        Some(path.push(0))
    } else {
        next_sibling_up(root, path, path.len() as int)
    }
}

/// The node before `path`'s in pre-order: the last node of the previous sibling's subtree,
/// or else the parent. `None` for the first node and for an address that names no node.
pub open spec fn previous_relative<T>(root: TreeNode<T>, path: Seq<usize>) -> Option<Seq<usize>> {
    if !valid(root, path) {
        None
    } else if path.last() > 0 {
        Some(last_descendant(root, path.drop_last().push((path.last() - 1) as usize)))
    } else if path.len() > 1 {
        Some(path.drop_last())
    } else {
        None
    }
}

/// The address built from `origin`'s offsets from depth `k` on, each clamped to the
/// children that exist, stopping at a node without children.
pub open spec fn nearest_from<T>(node: TreeNode<T>, origin: Seq<usize>, k: int) -> Seq<usize>
    decreases origin.len() - k,
{
    let n = node.children@.len();
    if k < 0 || k >= origin.len() || n == 0 {
        seq![]
    } else {
        let c = if origin[k] < n {
            origin[k]
        } else {
            (n - 1) as usize
        };
        seq![c] + nearest_from(node.children@[c as int], origin, k + 1)
    }
}

/// The valid address closest to `origin`: at each depth its offset clamped to the
/// children there, stopping early at a leaf. `None` only for an empty tree.
pub open spec fn nearest<T>(root: TreeNode<T>, origin: Seq<usize>) -> Option<Seq<usize>> {
    if origin.len() == 0 || root.children@.len() == 0 {
        None
    } else {
        Some(nearest_from(root, origin, 0))
    }
}

/// Clamping from a reachable node yields a reachable address.
pub proof fn lemma_nearest_from_reach<T>(
    root: TreeNode<T>,
    path: Seq<usize>,
    node: TreeNode<T>,
    origin: Seq<usize>,
    k: int,
)
    requires
        reach(root, path) == Some(node),
    ensures
        reach(root, path + nearest_from(node, origin, k)) is Some,
    decreases origin.len() - k,
{
    let n = node.children@.len();
    if k < 0 || k >= origin.len() || n == 0 {
        assert(path + nearest_from(node, origin, k) =~= path);
    } else {
        let c = if origin[k] < n {
            origin[k]
        } else {
            (n - 1) as usize
        };
        lemma_reach_push(root, path, c);
        lemma_nearest_from_reach(root, path.push(c), node.children@[c as int], origin, k + 1);
        assert(path + nearest_from(node, origin, k) =~= path.push(c) + nearest_from(
            node.children@[c as int],
            origin,
            k + 1,
        ));
    }
}

/// Clamping a valid address from depth `k` changes nothing.
pub proof fn lemma_nearest_from_valid<T>(root: TreeNode<T>, origin: Seq<usize>, k: int)
    requires
        0 <= k <= origin.len(),
        reach(root, origin) is Some,
    ensures
        nearest_from(reach(root, origin.subrange(0, k))->0, origin, k) == origin.subrange(
            k,
            origin.len() as int,
        ),
    decreases origin.len() - k,
{
    lemma_reach_prefix(root, origin, k);
    if k < origin.len() {
        lemma_nearest_from_valid(root, origin, k + 1);
        assert(origin.subrange(k, origin.len() as int) =~= seq![origin[k]] + origin.subrange(
            k + 1,
            origin.len() as int,
        ));
    } else {
        assert(origin.subrange(k, origin.len() as int) =~= Seq::<usize>::empty());
    }
}

impl<T> TreeNode<T> {
    /// A node with the given value and children.
    pub fn new(value: T, children: Vec<TreeNode<T>>) -> (r: TreeNode<T>)
        ensures
            r.value == value,
            r.children == children,
    {
        TreeNode { value, children }
    }

    /// The children, in order.
    pub fn iter_children(&self) -> (r: std::slice::Iter<'_, TreeNode<T>>)
        ensures
            r.remaining() == self.children@.as_ref(),
    {
        let s = self.children.as_slice();
        let r = s.iter();
        proof {
            vstd::std_specs::slice::axiom_spec_slice_iter(s);
        }
        r
    }

    /// The number of children.
    pub fn len_children(&self) -> (r: usize)
        ensures
            r == self.children@.len(),
    {
        self.children.len()
    }

    /// Whether the node has no children.
    pub fn is_empty(&self) -> (r: bool)
        ensures
            r == (self.children@.len() == 0),
    {
        self.children.len() == 0
    }

    /// The child at `index`, if there is one.
    pub fn get_child(&self, index: usize) -> (r: Option<&TreeNode<T>>)
        ensures
            r is Some <==> index < self.children@.len(),
            r matches Some(c) ==> *c == self.children@[index as int],
    {
        if index < self.children.len() {
            Some(&self.children[index])
        } else {
            None
        }
    }

    /// The first child, if any.
    pub fn first_child(&self) -> (r: Option<&TreeNode<T>>)
        ensures
            r is Some <==> self.children@.len() > 0,
            r matches Some(c) ==> *c == self.children@[0],
    {
        self.get_child(0)
    }

    /// The last child, if any.
    pub fn last_child(&self) -> (r: Option<&TreeNode<T>>)
        ensures
            r is Some <==> self.children@.len() > 0,
            r matches Some(c) ==> *c == self.children@.last(),
    {
        if self.children.len() == 0 {
            None
        } else {
            self.get_child(self.children.len() - 1)
        }
    }

    /// The node that `index` names below this one; `None` if an offset is out of range at
    /// any depth.
    pub fn get_descendant(&self, index: &TreeIndex) -> (r: Option<&TreeNode<T>>)
        ensures
            r is Some <==> valid(*self, index@),
            r matches Some(n) ==> reach(*self, index@) == Some(*n),
    {
        let s = index.as_slice();
        let n = index.len();
        let ghost path = index@;
        let mut cursor = self;
        let mut k: usize = 0;
        assert(path.subrange(0, 0) =~= Seq::<usize>::empty());
        while k < n
            invariant
                k <= n,
                n == path.len(),
                s@ == path,
                path == index@,
                reach(*self, path.subrange(0, k as int)) == Some(*cursor),
            decreases n - k,
        {
            let i = s[k];
            if i >= cursor.children.len() {
                proof {
                    if reach(*self, path) is Some {
                        lemma_reach_prefix(*self, path, k as int);
                    }
                }
                return None;
            }
            proof {
                lemma_reach_push(*self, path.subrange(0, k as int), i);
                assert(path.subrange(0, k + 1) =~= path.subrange(0, k as int).push(i));
            }
            cursor = &cursor.children[i];
            k = k + 1;
        }
        assert(path.subrange(0, n as int) =~= path);
        Some(cursor)
    }

    /// The child before `index`, if `index` is positive and that child exists.
    pub fn find_previous_child_to(&self, index: usize) -> (r: Option<(usize, &TreeNode<T>)>)
        ensures
            r is Some <==> 0 < index && index - 1 < self.children@.len(),
            r matches Some((i, c)) ==> i == index - 1 && *c == self.children@[i as int],
    {
        if index > 0 {
            match self.get_child(index - 1) {
                Some(child) => Some((index - 1, child)),
                None => None,
            }
        } else {
            None
        }
    }

    /// The child after `index`, if it exists.
    pub fn find_next_child_to(&self, index: usize) -> (r: Option<(usize, &TreeNode<T>)>)
        ensures
            r is Some <==> index + 1 < self.children@.len(),
            r matches Some((i, c)) ==> i == index + 1 && *c == self.children@[i as int],
    {
        if index < self.children.len() && index + 1 < self.children.len() {
            match self.get_child(index + 1) {
                Some(child) => Some((index + 1, child)),
                None => None,
            }
        } else {
            None
        }
    }

    /// The first child with its offset, if any.
    pub fn find_first_child(&self) -> (r: Option<(usize, &TreeNode<T>)>)
        ensures
            r is Some <==> self.children@.len() > 0,
            r matches Some((i, c)) ==> i == 0 && *c == self.children@[0],
    {
        match self.get_child(0) {
            Some(child) => Some((0, child)),
            None => None,
        }
    }

    /// The last child with its offset, if any.
    pub fn find_last_child(&self) -> (r: Option<(usize, &TreeNode<T>)>)
        ensures
            r is Some <==> self.children@.len() > 0,
            r matches Some((i, c)) ==> i == self.children@.len() - 1 && *c
                == self.children@[i as int],
    {
        if self.children.len() == 0 {
            None
        } else {
            let i = self.children.len() - 1;
            match self.get_child(i) {
                Some(child) => Some((i, child)),
                None => None,
            }
        }
    }

    /// The first node below this one in pre-order (the first child), with its address.
    pub fn find_first_descendant(&self) -> (r: Option<(TreeIndex, &TreeNode<T>)>)
        ensures
            r is Some <==> self.children@.len() > 0,
            r matches Some((i, c)) ==> i@ == seq![0usize] && *c == self.children@[0],
    {
        match self.get_child(0) {
            Some(child) => Some((TreeIndex::new_at(0), child)),
            None => None,
        }
    }

    /// The last node in pre-order of the subtree at `index`, found by taking last children
    /// down to a leaf; `None` if `index` names no node.
    pub fn find_last_descendant_in(&self, index: TreeIndex) -> (r: Option<
        (TreeIndex, &TreeNode<T>),
    >)
        ensures
            r is Some <==> valid(*self, index@),
            r matches Some((i, n)) ==> i@ == last_descendant(*self, index@) && reach(*self, i@)
                == Some(*n),
    {
        let ghost start = index@;
        let mut path = index;
        let mut cursor = match self.get_descendant(&path) {
            Some(c) => c,
            None => {
                assert(!valid(*self, start));
                return None;
            },
        };
        while cursor.children.len() > 0
            invariant
                reach(*self, start) is Some,
                reach(*self, path@) == Some(*cursor),
                path@ + last_path(*cursor) == last_descendant(*self, start),
            decreases *cursor,
        {
            let i = cursor.children.len() - 1;
            proof {
                lemma_reach_push(*self, path@, i);
                lemma_child_decreases(*cursor, i as int);
                assert(path@ + last_path(*cursor) =~= path@.push(i) + last_path(
                    cursor.children@[i as int],
                ));
            }
            path.push(i);
            cursor = &cursor.children[i];
        }
        assert(path@ + last_path(*cursor) =~= path@);
        Some((path, cursor))
    }

    /// The last node below this one in pre-order, with its address; `None` for an empty tree.
    pub fn find_last_descendant(&self) -> (r: Option<(TreeIndex, &TreeNode<T>)>)
        ensures
            r is Some <==> self.children@.len() > 0,
            r matches Some((i, n)) ==> i@ == last_descendant(
                *self,
                seq![(self.children@.len() - 1) as usize],
            ) && reach(*self, i@) == Some(*n),
    {
        let last = self.children.len().saturating_sub(1);
        proof {
            lemma_reach_push(*self, Seq::<usize>::empty(), last);
            assert(Seq::<usize>::empty().push(last) =~= seq![last]);
        }
        self.find_last_descendant_in(TreeIndex::new_at(last))
    }

    /// The previous sibling of `index`'s node, with its address; a root-level address has
    /// the tree root as its parent.
    pub fn find_previous_sibling_of(&self, index: &TreeIndex) -> (r: Option<
        (TreeIndex, &TreeNode<T>),
    >)
        ensures
            r matches Some((i, _)) ==> Some(i@) == previous_sibling(*self, index@),
            r is None ==> previous_sibling(*self, index@) is None,
            r matches Some((i, n)) ==> reach(*self, i@) == Some(*n),
    {
        let len = index.len();
        if len == 1 {
            proof {
                assert(index@.drop_last() =~= Seq::<usize>::empty());
            }
            match self.find_previous_child_to(index.first()) {
                Some((i, child)) => {
                    proof {
                        lemma_reach_push(*self, Seq::<usize>::empty(), i);
                        assert(Seq::<usize>::empty().push(i) =~= seq![i]);
                    }
                    Some((TreeIndex::new_at(i), child))
                },
                None => None,
            }
        } else {
            let parent_index = index.popped();
            match self.get_descendant(&parent_index) {
                Some(parent) => match parent.find_previous_child_to(index.last()) {
                    Some((i, child)) => {
                        proof {
                            lemma_reach_push(*self, parent_index@, i);
                        }
                        Some((parent_index.pushed(i), child))
                    },
                    None => None,
                },
                None => None,
            }
        }
    }

    /// The next sibling of `index`'s node, with its address; a root-level address has the
    /// tree root as its parent.
    pub fn find_next_sibling_of(&self, index: &TreeIndex) -> (r: Option<
        (TreeIndex, &TreeNode<T>),
    >)
        ensures
            r matches Some((i, _)) ==> Some(i@) == next_sibling(*self, index@),
            r is None ==> next_sibling(*self, index@) is None,
            r matches Some((i, n)) ==> reach(*self, i@) == Some(*n),
    {
        let len = index.len();
        if len == 1 {
            proof {
                assert(index@.drop_last() =~= Seq::<usize>::empty());
            }
            match self.find_next_child_to(index.first()) {
                Some((i, child)) => {
                    proof {
                        lemma_reach_push(*self, Seq::<usize>::empty(), i);
                        assert(Seq::<usize>::empty().push(i) =~= seq![i]);
                    }
                    Some((TreeIndex::new_at(i), child))
                },
                None => None,
            }
        } else {
            let parent_index = index.popped();
            match self.get_descendant(&parent_index) {
                Some(parent) => match parent.find_next_child_to(index.last()) {
                    Some((i, child)) => {
                        proof {
                            lemma_reach_push(*self, parent_index@, i);
                        }
                        Some((parent_index.pushed(i), child))
                    },
                    None => None,
                },
                None => None,
            }
        }
    }

    /// The parent of `index`'s node, with its address; `None` for a root-level address or
    /// one whose parent does not exist.
    pub fn find_parent_of(&self, index: TreeIndex) -> (r: Option<(TreeIndex, &TreeNode<T>)>)
        ensures
            r is Some <==> index@.len() > 1 && valid(*self, index@.drop_last()),
            r matches Some((p, n)) ==> p@ == index@.drop_last() && reach(*self, p@) == Some(*n),
    {
        let mut index = index;
        if index.pop().is_some() {
            match self.get_descendant(&index) {
                Some(parent) => Some((index, parent)),
                None => None,
            }
        } else {
            None
        }
    }

    /// Repairs `origin` against this tree: each offset clamped to the children that exist at
    /// that depth, stopping early at a node without children. `None` only for an empty tree.
    pub fn find_nearest_to(&self, origin: &TreeIndex) -> (r: Option<(TreeIndex, &TreeNode<T>)>)
        ensures
            r is Some <==> self.children@.len() > 0,
            r matches Some((i, n)) ==> Some(i@) == nearest(*self, origin@) && reach(*self, i@)
                == Some(*n),
    {
        if self.children.len() == 0 {
            return None;
        }
        let s = origin.as_slice();
        let len = origin.len();
        let ghost o = origin@;
        let first = s[0];
        let clamped = if first < self.children.len() {
            first
        } else {
            self.children.len() - 1
        };
        let mut index = TreeIndex::new_at(clamped);
        let mut cursor = &self.children[clamped];
        proof {
            lemma_reach_push(*self, Seq::<usize>::empty(), clamped);
            assert(Seq::<usize>::empty().push(clamped) =~= seq![clamped]);
            assert(nearest_from(*self, o, 0) == seq![clamped] + nearest_from(*cursor, o, 1));
        }
        let mut k: usize = 1;
        while k < len
            invariant
                1 <= k <= len,
                len == o.len(),
                o == origin@,
                self.children@.len() > 0,
                s@ == o,
                reach(*self, index@) == Some(*cursor),
                index@ + nearest_from(*cursor, o, k as int) == nearest_from(*self, o, 0),
            decreases len - k,
        {
            if cursor.children.len() == 0 {
                assert(index@ + nearest_from(*cursor, o, k as int) =~= index@);
                return Some((index, cursor));
            }
            let i = s[k];
            let clamped = if i < cursor.children.len() {
                i
            } else {
                cursor.children.len() - 1
            };
            proof {
                lemma_reach_push(*self, index@, clamped);
                assert(index@ + nearest_from(*cursor, o, k as int) =~= index@.push(clamped)
                    + nearest_from(cursor.children@[clamped as int], o, k + 1));
            }
            index.push(clamped);
            cursor = &cursor.children[clamped];
            k = k + 1;
        }
        assert(index@ + nearest_from(*cursor, o, k as int) =~= index@);
        Some((index, cursor))
    }

    /// The node before `index`'s in pre-order, with its address: the last node of the
    /// previous sibling's subtree, or else the parent. Found in one pass down the address.
    pub fn find_previous_relative_of(&self, index: &TreeIndex) -> (r: Option<
        (TreeIndex, &TreeNode<T>),
    >)
        ensures
            r matches Some((i, _)) ==> Some(i@) == previous_relative(*self, index@),
            r is None ==> previous_relative(*self, index@) is None,
            r matches Some((i, n)) ==> reach(*self, i@) == Some(*n),
    {
        let s = index.as_slice();
        let len = index.len();
        let ghost path = index@;
        let first = s[0];
        let mut cursor = match self.get_child(first) {
            Some(c) => c,
            None => {
                proof {
                    if reach(*self, path) is Some {
                        lemma_reach_prefix(*self, path, 0);
                        assert(path.subrange(0, 0) =~= Seq::<usize>::empty());
                    }
                }
                return None;
            },
        };
        let mut cursor_index = TreeIndex::new_at(first);
        proof {
            lemma_reach_push(*self, Seq::<usize>::empty(), first);
            assert(Seq::<usize>::empty().push(first) =~= seq![first]);
            assert(path.subrange(0, 1) =~= seq![first]);
            assert(seq![first].drop_last() =~= Seq::<usize>::empty());
        }
        let mut previous = if first > 0 {
            proof {
                lemma_reach_push(*self, Seq::<usize>::empty(), (first - 1) as usize);
                assert(Seq::<usize>::empty().push((first - 1) as usize) =~= seq![
                    (first - 1) as usize,
                ]);
            }
            self.find_last_descendant_in(TreeIndex::new_at(first - 1))
        } else {
            None
        };
        let mut k: usize = 1;
        while k < len
            invariant
                1 <= k <= len,
                len == path.len(),
                s@ == path,
                path == index@,
                cursor_index@ == path.subrange(0, k as int),
                reach(*self, cursor_index@) == Some(*cursor),
                match previous {
                    Some((i, n)) => Some(i@) == previous_relative(*self, cursor_index@) && reach(
                        *self,
                        i@,
                    ) == Some(*n),
                    None => previous_relative(*self, cursor_index@) is None,
                },
            decreases len - k,
        {
            let i = s[k];
            let ghost next_path = path.subrange(0, k + 1);
            proof {
                assert(next_path =~= cursor_index@.push(i));
                assert(next_path.drop_last() =~= cursor_index@);
                lemma_reach_push(*self, cursor_index@, i);
            }
            if i > 0 {
                proof {
                    lemma_reach_push(*self, cursor_index@, (i - 1) as usize);
                }
                previous = self.find_last_descendant_in(cursor_index.pushed(i - 1));
            } else {
                previous = Some((cursor_index.clone(), cursor));
            }
            match cursor.get_child(i) {
                Some(c) => cursor = c,
                None => {
                    proof {
                        if reach(*self, path) is Some {
                            lemma_reach_prefix(*self, path, k as int);
                        }
                    }
                    return None;
                },
            }
            cursor_index.push(i);
            k = k + 1;
        }
        assert(path.subrange(0, len as int) =~= path);
        previous
    }

    /// The node after `index`'s in pre-order, with its address: its first child, or else
    /// the next sibling at the deepest level that has one. Found in one pass down the
    /// address, keeping the deepest candidate seen.
    pub fn find_next_relative_of(&self, index: &TreeIndex) -> (r: Option<
        (TreeIndex, &TreeNode<T>),
    >)
        ensures
            r matches Some((i, _)) ==> Some(i@) == next_relative(*self, index@),
            r is None ==> next_relative(*self, index@) is None,
            r matches Some((i, n)) ==> reach(*self, i@) == Some(*n),
    {
        let s = index.as_slice();
        let len = index.len();
        let ghost path = index@;
        let first = s[0];
        let mut cursor = match self.get_child(first) {
            Some(c) => c,
            None => {
                proof {
                    if reach(*self, path) is Some {
                        lemma_reach_prefix(*self, path, 0);
                        assert(path.subrange(0, 0) =~= Seq::<usize>::empty());
                    }
                }
                return None;
            },
        };
        proof {
            lemma_reach_push(*self, Seq::<usize>::empty(), first);
            assert(Seq::<usize>::empty().push(first) =~= seq![first]);
            assert(path.subrange(0, 1) =~= seq![first]);
            assert(seq![first].drop_last() =~= Seq::<usize>::empty());
            assert(next_sibling_up(*self, path, 0) is None);
        }
        let mut next: Option<(TreeIndex, &TreeNode<T>)> = match self.find_next_child_to(first) {
            Some((x, sibling)) => {
                proof {
                    lemma_reach_push(*self, Seq::<usize>::empty(), x);
                    assert(Seq::<usize>::empty().push(x) =~= seq![x]);
                    assert(spliced_seq(path, 0, x) =~= seq![x]);
                }
                Some((index.spliced(0, x), sibling))
            },
            None => None,
        };
        let mut k: usize = 1;
        while k < len
            invariant
                1 <= k <= len,
                len == path.len(),
                s@ == path,
                path == index@,
                reach(*self, path.subrange(0, k as int)) == Some(*cursor),
                match next {
                    Some((i, n)) => Some(i@) == next_sibling_up(*self, path, k as int) && reach(
                        *self,
                        i@,
                    ) == Some(*n),
                    None => next_sibling_up(*self, path, k as int) is None,
                },
            decreases len - k,
        {
            let i = s[k];
            let ghost prefix = path.subrange(0, k as int);
            let ghost next_path = path.subrange(0, k + 1);
            proof {
                assert(next_path =~= prefix.push(i));
                assert(next_path.drop_last() =~= prefix);
                lemma_reach_push(*self, prefix, i);
            }
            match cursor.find_next_child_to(i) {
                Some((x, sibling)) => {
                    proof {
                        lemma_reach_push(*self, prefix, x);
                        assert(spliced_seq(path, k as int, x) =~= prefix.push(x));
                        assert(next_sibling(*self, next_path) == Some(prefix.push(x)));
                        assert(next_sibling_up(*self, path, k + 1) == Some(prefix.push(x)));
                    }
                    next = Some((index.spliced(k, x), sibling));
                },
                None => {
                    assert(next_sibling(*self, next_path) is None);
                    assert(next_sibling_up(*self, path, k + 1) == next_sibling_up(
                        *self,
                        path,
                        k as int,
                    ));
                },
            }
            match cursor.get_child(i) {
                Some(c) => cursor = c,
                None => {
                    proof {
                        if reach(*self, path) is Some {
                            lemma_reach_prefix(*self, path, k as int);
                        }
                    }
                    return None;
                },
            }
            k = k + 1;
        }
        assert(path.subrange(0, len as int) =~= path);
        match cursor.find_first_child() {
            Some((i, child)) => {
                proof {
                    lemma_reach_push(*self, path, i);
                }
                Some((index.pushed(i), child))
            },
            None => next,
        }
    }
}

/// Compares two addresses in lexicographic order, which is pre-order.
pub fn compare_indices(a: &[usize], b: &[usize]) -> (r: std::cmp::Ordering)
    ensures
        (r == std::cmp::Ordering::Less) == precedes(a@, b@),
        (r == std::cmp::Ordering::Equal) == (a@ == b@),
        (r == std::cmp::Ordering::Greater) == precedes(b@, a@),
{
    let mut k: usize = 0;
    while k < a.len() && k < b.len()
        invariant
            k <= a@.len(),
            k <= b@.len(),
            forall|j: int| 0 <= j < k ==> a@[j] == b@[j],
        decreases a@.len() - k,
    {
        if a[k] != b[k] {
            proof {
                lemma_precedes_from_agree(a@, b@, k as int);
                lemma_precedes_from_agree(b@, a@, k as int);
            }
            if a[k] < b[k] {
                return std::cmp::Ordering::Less;
            } else {
                return std::cmp::Ordering::Greater;
            }
        }
        k = k + 1;
    }
    proof {
        lemma_precedes_from_agree(a@, b@, k as int);
        lemma_precedes_from_agree(b@, a@, k as int);
    }
    if a.len() == b.len() {
        assert(a@ =~= b@);
        proof {
            lemma_precedes_asymmetric(a@, a@, 0);
        }
        std::cmp::Ordering::Equal
    } else if a.len() < b.len() {
        std::cmp::Ordering::Less
    } else {
        std::cmp::Ordering::Greater
    }
}

impl<T> TreeNode<T> {
    /// The nodes below this one, in pre-order.
    pub fn iter_descendants(&self) -> (r: TreeIter<'_, T>)
        ensures
            r.remaining() == nodes_below(*self),
    {
        TreeIter::new_from(self)
    }

    /// The nodes below this one in pre-order, each with its depth (0 for the children).
    pub fn iter_descendants_with_depth(&self) -> (r: TreeIterWithDepth<'_, T>)
        requires
            height(*self) <= usize::MAX,
        ensures
            r.remaining() == depths_from(*self, 0, 0),
            r.wf(),
    {
        TreeIterWithDepth::new_from(self)
    }

    /// The nodes below this one in pre-order, each with its address.
    pub fn iter_descendants_with_index(&self) -> (r: TreeIterWithIndex<'_, T>)
        ensures
            r.remaining() == entries(*self),
    {
        TreeIterWithIndex::new_from(self)
    }

    /// The number of nodes below this one.
    pub fn len_descendants(&self) -> (r: usize)
        requires
            count(*self) <= usize::MAX,
        ensures
            r == count(*self),
    {
        let mut it = self.iter_descendants();
        let mut k: usize = 0;
        proof {
            crate::iter::lemma_entries_rebase(*self, seq![], seq![], 0);
        }
        loop
            invariant
                k <= count(*self),
                count(*self) <= usize::MAX,
                it.remaining().len() == count(*self) - k,
            decreases count(*self) - k,
        {
            match it.next() {
                Some(_) => k = k + 1,
                None => return k,
            }
        }
    }

    /// The node at linear position `offset` in pre-order below this one, if there is one.
    pub fn get_descendant_infix(&self, offset: usize) -> (r: Option<&TreeNode<T>>)
        ensures
            r is Some <==> offset < count(*self),
            r matches Some(n) ==> *n == entries(*self)[offset as int].1,
    {
        let mut it = self.iter_descendants();
        let mut k: usize = 0;
        loop
            invariant
                k <= offset,
                k <= count(*self),
                it.remaining() == nodes_below(*self).subrange(k as int, count(*self) as int),
                nodes_below(*self).len() == count(*self),
            decreases count(*self) - k,
        {
            match it.next() {
                Some(n) => {
                    if k == offset {
                        return Some(n);
                    }
                    k = k + 1;
                },
                None => return None,
            }
        }
    }

    /// The address and node at linear position `offset` in pre-order below this one, if
    /// there is one.
    pub fn find_index_of_offset(&self, offset: usize) -> (r: Option<(TreeIndex, &TreeNode<T>)>)
        ensures
            r is Some <==> offset < count(*self),
            r matches Some((i, n)) ==> (i@, *n) == entries(*self)[offset as int],
    {
        let mut it = self.iter_descendants_with_index();
        let mut k: usize = 0;
        loop
            invariant
                k <= offset,
                k <= count(*self),
                it.remaining() == entries(*self).subrange(k as int, count(*self) as int),
            decreases count(*self) - k,
        {
            match it.next() {
                Some(e) => {
                    if k == offset {
                        return Some(e);
                    }
                    k = k + 1;
                },
                None => return None,
            }
        }
    }

    /// The linear position in pre-order of `index`'s node, found by scanning addresses in
    /// order up to the first that is not smaller; `None` if `index` names no node.
    pub fn find_offset_of_index(&self, index: &TreeIndex) -> (r: Option<(usize, &TreeNode<T>)>)
        requires
            count(*self) <= usize::MAX,
        ensures
            r is Some <==> offset_of(*self, index@) is Some,
            r matches Some((k, n)) ==> offset_of(*self, index@) == Some(k as int) && reach(
                *self,
                index@,
            ) == Some(*n),
    {
        let target = index.as_slice();
        let mut it = self.iter_descendants_with_index();
        let mut k: usize = 0;
        proof {
            lemma_entries(*self);
        }
        loop
            invariant
                k <= count(*self),
                count(*self) <= usize::MAX,
                target@ == index@,
                it.remaining() == entries(*self).subrange(k as int, count(*self) as int),
                crate::tree::sorted(addresses(*self)),
                forall|j: int| 0 <= j < k ==> precedes(#[trigger] addresses(*self)[j], index@),
                forall|j: int|
                    0 <= j < count(*self) ==> reach(*self, #[trigger] entries(*self)[j].0) == Some(
                        entries(*self)[j].1,
                    ),
            decreases count(*self) - k,
        {
            match it.next() {
                Some((i, node)) => {
                    assert(addresses(*self)[k as int] == i@);
                    match compare_indices(i.as_slice(), target) {
                        std::cmp::Ordering::Less => {
                            k = k + 1;
                        },
                        std::cmp::Ordering::Equal => {
                            proof {
                                lemma_offset_of(*self, index@, k as int);
                            }
                            return Some((k, node));
                        },
                        std::cmp::Ordering::Greater => {
                            proof {
                                if addresses(*self).contains(index@) {
                                    let m = choose|m: int|
                                        0 <= m < count(*self) && addresses(*self)[m] == index@;
                                    if m < k {
                                        lemma_precedes_asymmetric(index@, index@, 0);
                                    } else if m == k {
                                        lemma_precedes_asymmetric(index@, index@, 0);
                                    } else {
                                        assert(precedes(addresses(*self)[k as int], addresses(*self)[m]));
                                        lemma_precedes_asymmetric(index@, i@, 0);
                                    }
                                }
                            }
                            return None;
                        },
                    }
                },
                None => {
                    proof {
                        if addresses(*self).contains(index@) {
                            let m = choose|m: int|
                                0 <= m < count(*self) && addresses(*self)[m] == index@;
                            lemma_precedes_asymmetric(index@, index@, 0);
                        }
                    }
                    return None;
                },
            }
        }
    }
}

} // verus!
