use vstd::prelude::*;

verus! {

broadcast use vstd::std_specs::vec::group_vec_axioms;

/// A node of an ordered tree: a value and its children, in order.
///
/// A tree is a node whose own value is not addressed: addresses name its children and
/// everything below them.
#[derive(Debug)]
pub struct TreeNode<T> {
    pub value: T,
    pub children: Vec<TreeNode<T>>,
}

/// The node reached from `root` by taking, at each depth, the child at the offset
/// `path` gives; `None` if some offset is out of range.
pub open spec fn reach<T>(root: TreeNode<T>, path: Seq<usize>) -> Option<TreeNode<T>>
    decreases path.len(),
{
    if path.len() == 0 {
        Some(root)
    } else {
        match reach(root, path.drop_last()) {
            Some(n) => if path.last() < n.children@.len() {
                Some(n.children@[path.last() as int])
            } else {
                None
            },
            None => None,
        }
    }
}

/// `path` names a node below `root`.
pub open spec fn valid<T>(root: TreeNode<T>, path: Seq<usize>) -> bool {
    path.len() > 0 && reach(root, path) is Some
}

/// The pre-order listing, with their addresses (each extending `base`), of the subtrees of
/// `node`'s children from offset `i` on: each child comes before its descendants, and a
/// child's whole subtree before its next sibling.
pub open spec fn entries_from<T>(node: TreeNode<T>, base: Seq<usize>, i: int) -> Seq<
    (Seq<usize>, TreeNode<T>),
>
    decreases node, node.children@.len() - i,
    via entries_from_decreases::<T>
{
    if 0 <= i < node.children@.len() {
        let c = node.children@[i];
        let a = base.push(i as usize);
        seq![(a, c)] + entries_from(c, a, 0) + entries_from(node, base, i + 1)
    } else {
        seq![]
    }
}

#[via_fn]
proof fn entries_from_decreases<T>(node: TreeNode<T>, base: Seq<usize>, i: int) {
    lemma_child_decreases(node, i);
}

/// A node's children are smaller than the node, which bounds recursion over subtrees.
pub proof fn lemma_child_decreases<T>(node: TreeNode<T>, i: int)
    ensures
        0 <= i < node.children@.len() ==> decreases_to!(node => node.children@[i]),
        node.children@.len() <= usize::MAX,
{
    assert(node.children@.len() == node.children.len());
    if 0 <= i < node.children@.len() {
        assert(decreases_to!(node => node.children));
        assert(decreases_to!(node.children => node.children@));
        assert(decreases_to!(node.children@ => node.children@[i]));
    }
}

/// Every node below `root` with its address, in pre-order.
pub open spec fn entries<T>(root: TreeNode<T>) -> Seq<(Seq<usize>, TreeNode<T>)> {
    entries_from(root, seq![], 0)
}

/// The addresses of all nodes below `root`, in pre-order.
pub open spec fn addresses<T>(root: TreeNode<T>) -> Seq<Seq<usize>> {
    entries(root).map_values(|e: (Seq<usize>, TreeNode<T>)| e.0)
}

/// The number of nodes below `root`.
pub open spec fn count<T>(root: TreeNode<T>) -> nat {
    entries(root).len()
}

/// The linear position of `path` in the pre-order listing below `root`, if it names a node.
pub open spec fn offset_of<T>(root: TreeNode<T>, path: Seq<usize>) -> Option<int> {
    if addresses(root).contains(path) {
        Some(addresses(root).index_of(path))
    } else {
        None
    }
}

/// The address at linear position `offset` in the pre-order listing below `root`.
pub open spec fn address_at<T>(root: TreeNode<T>, offset: int) -> Option<Seq<usize>> {
    if 0 <= offset < count(root) {
        Some(addresses(root)[offset])
    } else {
        None
    }
}

/// Lexicographic order from position `k` on: at the first position where `a` and `b`
/// differ `a` holds the smaller offset, or `a` ends first.
pub open spec fn precedes_from(a: Seq<usize>, b: Seq<usize>, k: int) -> bool
    decreases a.len() - k,
{
    if k >= a.len() {
        k < b.len()
    } else if k >= b.len() {
        false
    } else if a[k] != b[k] {
        a[k] < b[k]
    } else {
        precedes_from(a, b, k + 1)
    }
}

/// `a` comes before `b` in lexicographic order, which is also pre-order.
pub open spec fn precedes(a: Seq<usize>, b: Seq<usize>) -> bool {
    precedes_from(a, b, 0)
}

/// `s` is strictly increasing in lexicographic order.
pub open spec fn sorted(s: Seq<Seq<usize>>) -> bool {
    forall|i: int, j: int| 0 <= i < j < s.len() ==> precedes(#[trigger] s[i], #[trigger] s[j])
}

/// `prefix` is a prefix of `a`.
pub open spec fn has_prefix(a: Seq<usize>, prefix: Seq<usize>) -> bool {
    prefix.len() <= a.len() && a.subrange(0, prefix.len() as int) == prefix
}

/// Comparing from `k` is comparing from the start, once `a` and `b` agree before `k`.
pub proof fn lemma_precedes_from_agree(a: Seq<usize>, b: Seq<usize>, k: int)
    requires
        0 <= k <= a.len(),
        k <= b.len(),
        forall|j: int| 0 <= j < k ==> a[j] == b[j],
    ensures
        precedes(a, b) == precedes_from(a, b, k),
    decreases k,
{
    if k > 0 {
        lemma_precedes_from_agree(a, b, k - 1);
    }
}

/// A proper prefix comes first.
pub proof fn lemma_prefix_precedes(a: Seq<usize>, b: Seq<usize>)
    requires
        has_prefix(b, a),
        a.len() < b.len(),
    ensures
        precedes(a, b),
{
    assert forall|j: int| 0 <= j < a.len() implies a[j] == b[j] by {
        assert(a[j] == b.subrange(0, a.len() as int)[j]);
    }
    lemma_precedes_from_agree(a, b, a.len() as int);
}

/// Addresses that agree before `k` and hold smaller and larger offsets at `k` are ordered.
pub proof fn lemma_branch_precedes(a: Seq<usize>, b: Seq<usize>, k: int)
    requires
        0 <= k < a.len(),
        k < b.len(),
        forall|j: int| 0 <= j < k ==> a[j] == b[j],
        a[k] < b[k],
    ensures
        precedes(a, b),
{
    lemma_precedes_from_agree(a, b, k);
}

/// No address comes before itself, and of two addresses at most one comes first.
pub proof fn lemma_precedes_asymmetric(a: Seq<usize>, b: Seq<usize>, k: int)
    requires
        0 <= k,
    ensures
        precedes_from(a, b, k) ==> !precedes_from(b, a, k),
    decreases a.len() - k,
{
    if k < a.len() && k < b.len() && a[k] == b[k] {
        lemma_precedes_asymmetric(a, b, k + 1);
    }
}

/// The prefix of a reachable path is reachable, and leads to the node that the path's
/// next offset selects from.
pub proof fn lemma_reach_prefix<T>(root: TreeNode<T>, path: Seq<usize>, k: int)
    requires
        0 <= k <= path.len(),
        reach(root, path) is Some,
    ensures
        reach(root, path.subrange(0, k)) is Some,
        k < path.len() ==> path[k] < reach(root, path.subrange(0, k))->0.children@.len(),
        k < path.len() ==> reach(root, path.subrange(0, k + 1)) == Some(
            reach(root, path.subrange(0, k))->0.children@[path[k] as int],
        ),
    decreases path.len() - k,
{
    if k == path.len() {
        assert(path.subrange(0, k) =~= path);
    } else {
        lemma_reach_prefix(root, path, k + 1);
        assert(path.subrange(0, k + 1).drop_last() =~= path.subrange(0, k));
    }
}

/// Reaching an extended path takes one more step.
pub proof fn lemma_reach_push<T>(root: TreeNode<T>, path: Seq<usize>, i: usize)
    ensures
        reach(root, path.push(i)) == (match reach(root, path) {
            Some(n) => if i < n.children@.len() {
                Some(n.children@[i as int])
            } else {
                None
            },
            None => None,
        }),
{
    assert(path.push(i).drop_last() =~= path);
}

/// The shape of each entry: its address extends `base` by one offset of at least `i` and
/// then more, and it reaches the entry's node.
pub proof fn lemma_entries_from_shape<T>(
    root: TreeNode<T>,
    node: TreeNode<T>,
    base: Seq<usize>,
    i: int,
)
    requires
        reach(root, base) == Some(node),
        0 <= i,
    ensures
        forall|k: int|
            0 <= k < entries_from(node, base, i).len() ==> {
                let e = #[trigger] entries_from(node, base, i)[k];
                &&& e.0.len() > base.len()
                &&& has_prefix(e.0, base)
                &&& e.0[base.len() as int] >= i
                &&& reach(root, e.0) == Some(e.1)
            },
    decreases node, node.children@.len() - i,
{
    if 0 <= i < node.children@.len() {
        let c = node.children@[i];
        let a = base.push(i as usize);
        lemma_child_decreases(node, i);
        lemma_reach_push(root, base, i as usize);
        lemma_entries_from_shape(root, c, a, 0);
        lemma_entries_from_shape(root, node, base, i + 1);
        let ec = entries_from(c, a, 0);
        let er = entries_from(node, base, i + 1);
        let all = entries_from(node, base, i);
        assert(all == seq![(a, c)] + ec + er);
        assert forall|k: int| 0 <= k < all.len() implies {
            let e = #[trigger] all[k];
            &&& e.0.len() > base.len()
            &&& has_prefix(e.0, base)
            &&& e.0[base.len() as int] >= i
            &&& reach(root, e.0) == Some(e.1)
        } by {
            let e = all[k];
            if k == 0 {
                assert(a.subrange(0, base.len() as int) =~= base);
            } else if k < 1 + ec.len() {
                assert(e == ec[k - 1]);
                assert(has_prefix(e.0, a));
                assert(e.0.subrange(0, base.len() as int) =~= e.0.subrange(
                    0,
                    a.len() as int,
                ).subrange(0, base.len() as int));
                assert(a.subrange(0, base.len() as int) =~= base);
                assert(e.0[base.len() as int] == e.0.subrange(0, a.len() as int)[base.len() as int]);
            } else {
                assert(e == er[k - 1 - ec.len()]);
            }
        }
    }
}

/// The addresses in pre-order are strictly increasing.
pub proof fn lemma_entries_from_sorted<T>(
    root: TreeNode<T>,
    node: TreeNode<T>,
    base: Seq<usize>,
    i: int,
)
    requires
        reach(root, base) == Some(node),
        0 <= i,
    ensures
        sorted(entries_from(node, base, i).map_values(|e: (Seq<usize>, TreeNode<T>)| e.0)),
    decreases node, node.children@.len() - i,
{
    if 0 <= i < node.children@.len() {
        let c = node.children@[i];
        let a = base.push(i as usize);
        lemma_child_decreases(node, i);
        lemma_reach_push(root, base, i as usize);
        lemma_entries_from_sorted(root, c, a, 0);
        lemma_entries_from_sorted(root, node, base, i + 1);
        lemma_entries_from_shape(root, c, a, 0);
        lemma_entries_from_shape(root, node, base, i + 1);
        let ec = entries_from(c, a, 0);
        let er = entries_from(node, base, i + 1);
        let all = entries_from(node, base, i);
        let f = |e: (Seq<usize>, TreeNode<T>)| e.0;
        let s = all.map_values(f);
        let sc = ec.map_values(f);
        let sr = er.map_values(f);
        assert(all == seq![(a, c)] + ec + er);
        assert(s.len() == 1 + sc.len() + sr.len());
        assert forall|x: int, y: int| 0 <= x < y < s.len() implies precedes(
            #[trigger] s[x],
            #[trigger] s[y],
        ) by {
            let ax = s[x];
            let ay = s[y];
            assert(ax == all[x].0);
            assert(ay == all[y].0);
            if x == 0 {
                assert(ax == a);
                if y < 1 + ec.len() {
                    assert(all[y] == ec[y - 1]);
                    lemma_prefix_precedes(a, ay);
                } else {
                    assert(all[y] == er[y - 1 - ec.len()]);
                    assert forall|j: int| 0 <= j < base.len() implies a[j] == ay[j] by {
                        assert(ay[j] == ay.subrange(0, base.len() as int)[j]);
                    }
                    lemma_branch_precedes(a, ay, base.len() as int);
                }
            } else if x < 1 + ec.len() {
                assert(all[x] == ec[x - 1]);
                if y < 1 + ec.len() {
                    assert(all[y] == ec[y - 1]);
                    assert(sc[x - 1] == ax && sc[y - 1] == ay);
                } else {
                    assert(all[y] == er[y - 1 - ec.len()]);
                    assert(ax[base.len() as int] == ax.subrange(0, a.len() as int)[base.len() as int]);
                    assert forall|j: int| 0 <= j < base.len() implies ax[j] == ay[j] by {
                        assert(ay[j] == ay.subrange(0, base.len() as int)[j]);
                        assert(ax[j] == ax.subrange(0, a.len() as int)[j]);
                    }
                    lemma_branch_precedes(ax, ay, base.len() as int);
                }
            } else {
                assert(all[x] == er[x - 1 - ec.len()]);
                assert(all[y] == er[y - 1 - ec.len()]);
                assert(sr[x - 1 - ec.len()] == ax && sr[y - 1 - ec.len()] == ay);
            }
        }
    }
}

/// Every reachable address that extends `base` by an offset of at least `i` is listed.
pub proof fn lemma_entries_from_complete<T>(
    root: TreeNode<T>,
    node: TreeNode<T>,
    base: Seq<usize>,
    i: int,
    path: Seq<usize>,
)
    requires
        reach(root, base) == Some(node),
        0 <= i,
        path.len() > base.len(),
        has_prefix(path, base),
        path[base.len() as int] >= i,
        reach(root, path) is Some,
    ensures
        entries_from(node, base, i).map_values(|e: (Seq<usize>, TreeNode<T>)| e.0).contains(
            path,
        ),
    decreases node, node.children@.len() - i,
{
    let bl = base.len() as int;
    lemma_reach_prefix(root, path, bl);
    assert(path.subrange(0, bl) == base);
    let j = path[bl];
    let f = |e: (Seq<usize>, TreeNode<T>)| e.0;
    if 0 <= i < node.children@.len() {
        let c = node.children@[i];
        let a = base.push(i as usize);
        let ec = entries_from(c, a, 0);
        let er = entries_from(node, base, i + 1);
        let all = entries_from(node, base, i);
        lemma_child_decreases(node, i);
        assert(all == seq![(a, c)] + ec + er);
        if j == i {
            assert(path.subrange(0, bl + 1) =~= a);
            lemma_reach_push(root, base, i as usize);
            if path.len() == bl + 1 {
                assert(path =~= a);
                assert(all.map_values(f)[0] == path);
            } else {
                assert(has_prefix(path, a));
                lemma_entries_from_complete(root, c, a, 0, path);
                let k = choose|k: int| 0 <= k < ec.len() && ec.map_values(f)[k] == path;
                assert(all.map_values(f)[1 + k] == path);
            }
        } else {
            lemma_entries_from_complete(root, node, base, i + 1, path);
            let k = choose|k: int| 0 <= k < er.len() && er.map_values(f)[k] == path;
            assert(all.map_values(f)[1 + ec.len() + k] == path);
        }
    } else {
        assert(false);
    }
}

/// The listing below `root` holds exactly the valid addresses, in strictly increasing order,
/// each with the node it reaches.
pub proof fn lemma_entries<T>(root: TreeNode<T>)
    ensures
        sorted(addresses(root)),
        forall|k: int|
            0 <= k < count(root) ==> valid(root, #[trigger] entries(root)[k].0) && reach(
                root,
                entries(root)[k].0,
            ) == Some(entries(root)[k].1),
        forall|path: Seq<usize>| valid(root, path) ==> #[trigger] addresses(root).contains(path),
{
    lemma_entries_from_sorted(root, root, seq![], 0);
    lemma_entries_from_shape(root, root, seq![], 0);
    assert forall|path: Seq<usize>| valid(root, path) implies #[trigger] addresses(
        root,
    ).contains(path) by {
        assert(path.subrange(0, 0) =~= Seq::<usize>::empty());
        lemma_entries_from_complete(root, root, seq![], 0, path);
    }
}

/// A strictly increasing sequence holds each address at most once.
pub proof fn lemma_sorted_distinct(s: Seq<Seq<usize>>, i: int, j: int)
    requires
        sorted(s),
        0 <= i < s.len(),
        0 <= j < s.len(),
        s[i] == s[j],
    ensures
        i == j,
{
    if i != j {
        let (x, y) = if i < j {
            (i, j)
        } else {
            (j, i)
        };
        assert(precedes(s[x], s[y]));
        lemma_precedes_asymmetric(s[x], s[y], 0);
    }
}

/// Where `path` is listed below `root`, its linear position is the one it is listed at.
pub proof fn lemma_offset_of<T>(root: TreeNode<T>, path: Seq<usize>, k: int)
    requires
        0 <= k < count(root),
        addresses(root)[k] == path,
    ensures
        offset_of(root, path) == Some(k),
{
    lemma_entries(root);
    assert(addresses(root).contains(path));
    let c = addresses(root).index_of(path);
    lemma_sorted_distinct(addresses(root), c, k);
}

} // verus!
