use vstd::prelude::*;

use crate::tree::TreeNode;
use crate::tree::reach;
use crate::tree::valid;
use crate::tree::addresses;
use crate::tree::entries;
use crate::tree::offset_of;
use crate::tree::address_at;
use crate::tree::precedes;
use crate::tree::lemma_entries;
use crate::tree::lemma_offset_of;
use crate::tree::lemma_precedes_asymmetric;
use crate::tree::lemma_reach_prefix;
use crate::tree::lemma_reach_push;
use crate::view::last_path;
use crate::view::next_sibling;
use crate::view::next_sibling_up;
use crate::view::next_relative;
use crate::view::previous_relative;
use crate::view::nearest;
use crate::view::lemma_nearest_from_reach;
use crate::view::lemma_nearest_from_valid;
use crate::window::span;
use crate::window::fill;
use crate::window::least_start;
use crate::window::greatest_end;
use crate::window::padding_fits;
use crate::window::reduced_padding;
use crate::window::low;
use crate::window::high;
use crate::window::visible_window;
use crate::window::lemma_fill;
use crate::window::lemma_span_mono;
use crate::window::lemma_least_start_bound;
use crate::window::lemma_greatest_end_bound;

verus! {

/// Every valid address has a linear position, and the address at that position is the
/// address itself.
pub proof fn law_offset_round_trip<T>(root: TreeNode<T>, path: Seq<usize>)
    requires
        valid(root, path),
    ensures
        offset_of(root, path) is Some,
        address_at(root, offset_of(root, path)->0) == Some(path),
{
    lemma_entries(root);
    let k = addresses(root).index_of(path);
    lemma_offset_of(root, path, k);
}

/// Linear positions follow address order: an address that comes first in lexicographic
/// order has the smaller position.
pub proof fn law_offset_monotonic<T>(root: TreeNode<T>, a: Seq<usize>, b: Seq<usize>)
    requires
        valid(root, a),
        valid(root, b),
        precedes(a, b),
    ensures
        offset_of(root, a)->0 < offset_of(root, b)->0,
{
    lemma_entries(root);
    let ka = addresses(root).index_of(a);
    let kb = addresses(root).index_of(b);
    lemma_offset_of(root, a, ka);
    lemma_offset_of(root, b, kb);
    if kb < ka {
        assert(precedes(addresses(root)[kb], addresses(root)[ka]));
        lemma_precedes_asymmetric(b, a, 0);
    } else if kb == ka {
        lemma_precedes_asymmetric(a, a, 0);
    }
}

/// Repairing an address always succeeds on a non-empty tree and yields a valid address,
/// and an address that is already valid is left as it is.
pub proof fn law_nearest<T>(root: TreeNode<T>, origin: Seq<usize>)
    requires
        root.children@.len() > 0,
        origin.len() > 0,
    ensures
        nearest(root, origin) is Some,
        valid(root, nearest(root, origin)->0),
        valid(root, origin) ==> nearest(root, origin) == Some(origin),
{
    let r = nearest(root, origin)->0;
    assert(reach(root, Seq::<usize>::empty()) == Some(root));
    lemma_nearest_from_reach(root, Seq::<usize>::empty(), root, origin, 0);
    assert(Seq::<usize>::empty() + r =~= r);
    if valid(root, origin) {
        assert(origin.subrange(0, 0) =~= Seq::<usize>::empty());
        lemma_nearest_from_valid(root, origin, 0);
        assert(origin.subrange(0, origin.len() as int) =~= origin);
    }
}

/// The deepest of the first `k` levels of `path` that has a next sibling; -1 if none does.
spec fn sibling_level<T>(root: TreeNode<T>, path: Seq<usize>, k: int) -> int
    decreases k,
{
    if k <= 0 {
        -1
    } else if next_sibling(root, path.subrange(0, k)) is Some {
        k - 1
    } else {
        sibling_level(root, path, k - 1)
    }
}

/// The level at which the next sibling up from the first `k` levels was found: that level
/// has one, and no deeper level below `k` does.
proof fn lemma_next_sibling_level<T>(root: TreeNode<T>, path: Seq<usize>, k: int) -> (p: int)
    requires
        next_sibling_up(root, path, k) is Some,
    ensures
        0 <= p < k,
        p == sibling_level(root, path, k),
        next_sibling(root, path.subrange(0, p + 1)) == next_sibling_up(root, path, k),
        forall|q: int| p < q < k ==> (#[trigger] next_sibling(root, path.subrange(0, q + 1))) is None,
    decreases k,
{
    if next_sibling(root, path.subrange(0, k)) is Some {
        k - 1
    } else {
        lemma_next_sibling_level(root, path, k - 1)
    }
}

/// Below a level with no next sibling anywhere down to a leaf, the path follows last
/// children: it is the last path from its prefix.
proof fn lemma_last_path_of_leaf<T>(root: TreeNode<T>, path: Seq<usize>, p: int, q: int)
    requires
        valid(root, path),
        reach(root, path)->0.children@.len() == 0,
        0 <= p < q <= path.len(),
        forall|j: int|
            p < j < path.len() ==> (#[trigger] next_sibling(root, path.subrange(0, j + 1))) is None,
    ensures
        last_path(reach(root, path.subrange(0, q))->0) == path.subrange(q, path.len() as int),
    decreases path.len() - q,
{
    lemma_reach_prefix(root, path, q);
    let n = reach(root, path.subrange(0, q))->0;
    if q == path.len() {
        assert(path.subrange(0, q) =~= path);
        assert(path.subrange(q, path.len() as int) =~= Seq::<usize>::empty());
    } else {
        lemma_last_path_of_leaf(root, path, p, q + 1);
        let s = path.subrange(0, q + 1);
        assert(s.drop_last() =~= path.subrange(0, q));
        assert(s.last() == path[q]);
        assert(next_sibling(root, s) is None);
        assert(path[q] == n.children@.len() - 1);
        assert(path.subrange(q, path.len() as int) =~= seq![path[q]] + path.subrange(
            q + 1,
            path.len() as int,
        ));
    }
}

/// Stepping back from the node after `path` in pre-order returns to `path`.
pub proof fn law_previous_undoes_next<T>(root: TreeNode<T>, path: Seq<usize>)
    requires
        next_relative(root, path) is Some,
    ensures
        previous_relative(root, next_relative(root, path)->0) == Some(path),
{
    let b = next_relative(root, path)->0;
    lemma_reach_prefix(root, path, 0);
    if reach(root, path)->0.children@.len() > 0 {
        lemma_reach_push(root, path, 0);
        assert(b.drop_last() =~= path);
    } else {
        let p = lemma_next_sibling_level(root, path, path.len() as int);
        let s = path.subrange(0, p + 1);
        lemma_reach_prefix(root, path, p);
        lemma_reach_prefix(root, path, p + 1);
        assert(s.drop_last() =~= path.subrange(0, p));
        crate::tree::lemma_child_decreases(reach(root, s.drop_last())->0, 0);
        assert(b == s.drop_last().push((s.last() + 1) as usize));
        assert(b.last() == s.last() + 1);
        lemma_reach_push(root, s.drop_last(), (s.last() + 1) as usize);
        assert(b.drop_last() =~= s.drop_last());
        assert(b.drop_last().push((b.last() - 1) as usize) =~= s);
        assert forall|j: int| p < j < path.len() implies (#[trigger] next_sibling(
            root,
            path.subrange(0, j + 1),
        )) is None by {}
        lemma_last_path_of_leaf(root, path, p, p + 1);
        assert(s + path.subrange(p + 1, path.len() as int) =~= path);
    }
}

/// Where the items within the padding of the selection fit in the viewport, the window
/// holds the selection, whatever the previous offset.
pub proof fn law_window_holds_selection(
    h: Seq<usize>,
    selected: int,
    offset: int,
    max: int,
    padding: int,
)
    requires
        0 <= selected < h.len(),
        0 <= offset,
        0 <= max,
        0 <= padding,
        padding_fits(h, selected, padding, max),
    ensures
        visible_window(h, Some(selected), offset, max, padding).0 <= selected,
        selected < visible_window(h, Some(selected), offset, max, padding).1,
{
    let n = h.len() as int;
    let o = if offset < n - 1 {
        offset
    } else {
        n - 1
    };
    lemma_fill(h, o, o, max, o);
    let l0 = fill(h, o, o, max);
    let p = reduced_padding(h, selected, padding, max);
    assert(p == padding);
    let lo = low(selected, p);
    let hi = high(h, selected, p);
    if hi >= l0 {
        lemma_fill(h, o, o, max, hi + 1);
        if lo <= o {
            lemma_span_mono(h, o, hi + 1, lo, hi + 1);
        }
        lemma_least_start_bound(h, o, hi + 1, max, lo);
    } else if lo < o {
        lemma_greatest_end_bound(h, lo, l0, max, hi + 1);
    }
}

/// `least_start` lies between its bounds; where it stops short of the end, the items from
/// it fit.
proof fn lemma_least_start_range(h: Seq<usize>, f: int, end: int, max: int)
    requires
        f <= end,
    ensures
        f <= least_start(h, f, end, max) <= end,
        least_start(h, f, end, max) == end || span(h, least_start(h, f, end, max), end) <= max,
    decreases end - f,
{
    if f < end && span(h, f, end) > max {
        lemma_least_start_range(h, f + 1, end, max);
    }
}

/// The reduced padding is at most the padding asked for, and the items around the selection
/// fit with it unless it is zero.
proof fn lemma_reduced_padding(h: Seq<usize>, selected: int, padding: int, max: int)
    requires
        0 <= padding,
    ensures
        0 <= reduced_padding(h, selected, padding, max) <= padding,
        reduced_padding(h, selected, padding, max) == 0 || padding_fits(
            h,
            selected,
            reduced_padding(h, selected, padding, max),
            max,
        ),
    decreases padding,
{
    if padding > 0 && !padding_fits(h, selected, padding, max) {
        lemma_reduced_padding(h, selected, padding - 1, max);
    }
}

/// A single item taller than the viewport, selected with no room for padding, ends up
/// alone at the start of an empty window.
proof fn lemma_window_too_tall(h: Seq<usize>, s: int, o: int, max: int)
    requires
        0 <= o < h.len(),
        0 <= s < h.len(),
        0 <= max,
        h[s] > max,
        s >= fill(h, o, o, max) || s < o,
    ensures
        ({
            let l0 = fill(h, o, o, max);
            let (f1, l1) = if s >= l0 {
                (least_start(h, o, s + 1, max), s + 1)
            } else {
                (o, l0)
            };
            &&& s < f1
            &&& greatest_end(h, s, l1, max) == s
        }),
{
    lemma_fill(h, o, o, max, o);
    let l0 = fill(h, o, o, max);
    crate::window::lemma_span_push(h, s, s);
    assert(span(h, s, s + 1) == h[s]);
    if s >= l0 {
        assert forall|g: int| o <= g < s + 1 implies #[trigger] span(h, g, s + 1) > max by {
            lemma_span_mono(h, s, s + 1, g, s + 1);
        }
        crate::window::lemma_least_start(h, o, s + 1, max, s + 1);
        crate::window::lemma_greatest_end(h, s, s + 1, max, s);
    } else {
        assert forall|m: int| s < m <= l0 implies #[trigger] span(h, s, m) > max by {
            lemma_span_mono(h, s, s + 1, s, m);
        }
        crate::window::lemma_greatest_end(h, s, l0, max, s);
    }
}

/// Rerunning the windowing from the first item it showed keeps that first item, and shows
/// from it as many items as fit.
pub proof fn law_window_settles(
    h: Seq<usize>,
    selected: Option<int>,
    offset: int,
    max: int,
    padding: int,
)
    requires
        h.len() > 0,
        0 <= offset,
        0 <= max,
        0 <= padding,
        selected matches Some(s) ==> 0 <= s,
    ensures
        ({
            let w = visible_window(h, selected, offset, max, padding);
            visible_window(h, selected, w.0, max, padding) == (w.0, fill(h, w.0, w.0, max))
        }),
{
    let n = h.len() as int;
    let o = if offset < n - 1 {
        offset
    } else {
        n - 1
    };
    lemma_fill(h, o, o, max, o);
    let l0 = fill(h, o, o, max);
    let w = visible_window(h, selected, offset, max, padding);
    match selected {
        None => {
            if o >= l0 {
                crate::window::lemma_span_push(h, o, o);
                assert(span(h, o, o + 1) == h[o]);
                lemma_window_too_tall(h, o, o, max);
            }
            assert(w.0 == o);
        },
        Some(s0) => {
            let s = if s0 < n - 1 {
                s0
            } else {
                n - 1
            };
            lemma_reduced_padding(h, s, padding, max);
            let p = reduced_padding(h, s, padding, max);
            let lo = low(s, p);
            let hi = high(h, s, p);
            if padding_fits(h, s, p, max) {
                if hi >= l0 {
                    lemma_fill(h, o, o, max, hi + 1);
                    if lo <= o {
                        lemma_span_mono(h, o, hi + 1, lo, hi + 1);
                    }
                    lemma_least_start_bound(h, o, hi + 1, max, lo);
                    lemma_least_start_range(h, o, hi + 1, max);
                } else if lo < o {
                    lemma_greatest_end_bound(h, lo, l0, max, hi + 1);
                } else {
                    lemma_span_mono(h, o, hi + 1, o, l0);
                }
                let o2 = w.0;
                assert(o2 <= lo);
                assert(span(h, o2, hi + 1) <= max);
                lemma_fill(h, o2, o2, max, hi + 1);
            } else {
                assert(p == 0);
                assert(lo == s && hi == s);
                crate::window::lemma_span_push(h, s, s);
    assert(span(h, s, s + 1) == h[s]);
                if o <= s && s < l0 {
                    lemma_span_mono(h, s, s + 1, o, l0);
                }
                lemma_window_too_tall(h, s, o, max);
                assert(w == (s, s));
                lemma_fill(h, s, s, max, s);
                lemma_window_too_tall(h, s, s, max);
            }
        },
    }
}

/// Windowing is idempotent on a window that is filled from its first item: rerunning it
/// with its own first item as the scroll offset and the same selection gives it back.
pub proof fn law_window_idempotent(
    h: Seq<usize>,
    selected: Option<int>,
    offset: int,
    max: int,
    padding: int,
)
    requires
        h.len() > 0,
        0 <= offset,
        0 <= max,
        0 <= padding,
        selected matches Some(s) ==> 0 <= s,
        visible_window(h, selected, offset, max, padding).1 == fill(
            h,
            visible_window(h, selected, offset, max, padding).0,
            visible_window(h, selected, offset, max, padding).0,
            max,
        ),
    ensures
        ({
            let w = visible_window(h, selected, offset, max, padding);
            visible_window(h, selected, w.0, max, padding) == w
        }),
{
    law_window_settles(h, selected, offset, max, padding);
}

/// After one rerun from its own first item the window no longer changes.
pub proof fn law_window_rerun_is_stable(
    h: Seq<usize>,
    selected: Option<int>,
    offset: int,
    max: int,
    padding: int,
)
    requires
        h.len() > 0,
        0 <= offset,
        0 <= max,
        0 <= padding,
        selected matches Some(s) ==> 0 <= s,
    ensures
        ({
            let w = visible_window(h, selected, offset, max, padding);
            let w2 = visible_window(h, selected, w.0, max, padding);
            visible_window(h, selected, w2.0, max, padding) == w2
        }),
{
    law_window_settles(h, selected, offset, max, padding);
    let w = visible_window(h, selected, offset, max, padding);
    assert(0 <= w.0) by {
        law_window_first_in_range(h, selected, offset, max, padding);
    }
    law_window_settles(h, selected, w.0, max, padding);
}

/// The window starts at an item that exists.
pub proof fn law_window_first_in_range(
    h: Seq<usize>,
    selected: Option<int>,
    offset: int,
    max: int,
    padding: int,
)
    requires
        h.len() > 0,
        0 <= offset,
        0 <= max,
        0 <= padding,
        selected matches Some(s) ==> 0 <= s,
    ensures
        0 <= visible_window(h, selected, offset, max, padding).0 < h.len(),
        visible_window(h, selected, offset, max, padding).0 <= visible_window(
            h,
            selected,
            offset,
            max,
            padding,
        ).1 <= h.len(),
{
    let n = h.len() as int;
    let o = if offset < n - 1 {
        offset
    } else {
        n - 1
    };
    lemma_fill(h, o, o, max, o);
    let l0 = fill(h, o, o, max);
    let t = match selected {
        Some(s0) => {
            let s = if s0 < n - 1 {
                s0
            } else {
                n - 1
            };
            lemma_reduced_padding(h, s, padding, max);
            crate::window::target(h, s, padding, max, o, l0)
        },
        None => o,
    };
    assert(0 <= t < n);
    if t >= l0 {
        lemma_least_start_range(h, o, t + 1, max);
    }
    let (f1, l1) = if t >= l0 {
        (least_start(h, o, t + 1, max), t + 1)
    } else {
        (o, l0)
    };
    if t < f1 {
        lemma_greatest_end_range(h, t, l1, max);
    }
}

/// `greatest_end` lies between its bounds.
proof fn lemma_greatest_end_range(h: Seq<usize>, start: int, l: int, max: int)
    requires
        start <= l,
    ensures
        start <= greatest_end(h, start, l, max) <= l,
    decreases l - start,
{
    if l > start && span(h, start, l) > max {
        lemma_greatest_end_range(h, start, l - 1, max);
    }
}

/// Where one address comes before another: the position of the first difference, or the
/// end of the shorter one.
proof fn lemma_precedes_witness(a: Seq<usize>, b: Seq<usize>, k: int) -> (j: int)
    requires
        0 <= k,
        k <= a.len(),
        k <= b.len(),
        forall|i: int| 0 <= i < k ==> a[i] == b[i],
        crate::tree::precedes_from(a, b, k),
    ensures
        k <= j <= a.len(),
        j <= b.len(),
        forall|i: int| 0 <= i < j ==> a[i] == b[i],
        (j == a.len() && j < b.len()) || (j < a.len() && j < b.len() && a[j] < b[j]),
    decreases a.len() - k,
{
    if k < a.len() && k < b.len() && a[k] == b[k] {
        lemma_precedes_witness(a, b, k + 1)
    } else {
        k
    }
}

/// Where some level up to `k` has a next sibling, one is found, at that level or deeper.
proof fn lemma_next_sibling_up_found<T>(root: TreeNode<T>, path: Seq<usize>, k: int, q: int)
    requires
        0 <= q < k,
        next_sibling(root, path.subrange(0, q + 1)) is Some,
    ensures
        next_sibling_up(root, path, k) is Some,
        sibling_level(root, path, k) >= q,
    decreases k,
{
    if next_sibling(root, path.subrange(0, k)) is None {
        lemma_next_sibling_up_found(root, path, k - 1, q);
    }
}

/// The node after `path` names a node and comes after `path`.
proof fn lemma_next_relative_after<T>(root: TreeNode<T>, path: Seq<usize>)
    requires
        next_relative(root, path) is Some,
    ensures
        valid(root, next_relative(root, path)->0),
        precedes(path, next_relative(root, path)->0),
{
    let b = next_relative(root, path)->0;
    if reach(root, path)->0.children@.len() > 0 {
        lemma_reach_push(root, path, 0);
        assert(path.push(0).subrange(0, path.len() as int) =~= path);
        crate::tree::lemma_prefix_precedes(path, b);
    } else {
        let p = lemma_next_sibling_level(root, path, path.len() as int);
        let s = path.subrange(0, p + 1);
        assert(s.drop_last() =~= path.subrange(0, p));
        crate::tree::lemma_child_decreases(reach(root, s.drop_last())->0, 0);
        lemma_reach_push(root, s.drop_last(), (s.last() + 1) as usize);
        assert forall|i: int| 0 <= i < p implies path[i] == b[i] by {
            assert(b[i] == s.drop_last()[i]);
        }
        crate::tree::lemma_branch_precedes(path, b, p);
    }
}

/// No valid address lies strictly between `path` and the node after it, and where any
/// valid address comes after `path` there is a node after it.
proof fn lemma_next_relative_least<T>(root: TreeNode<T>, path: Seq<usize>, c: Seq<usize>)
    requires
        valid(root, path),
        valid(root, c),
        precedes(path, c),
    ensures
        next_relative(root, path) is Some,
        !precedes(c, next_relative(root, path)->0),
{
    let j = lemma_precedes_witness(path, c, 0);
    let n = path.len() as int;
    lemma_reach_prefix(root, c, j);
    lemma_reach_prefix(root, path, j);
    assert(c.subrange(0, j) =~= path.subrange(0, j));
    if reach(root, path)->0.children@.len() > 0 {
        let b = path.push(0);
        assert(next_relative(root, path) == Some(b));
        if j == n {
            assert(c.subrange(0, n) =~= path);
            if c[n] > 0 {
                crate::tree::lemma_branch_precedes(b, c, n);
            } else if c.len() == n + 1 {
                assert(c =~= b);
            } else {
                assert(c.subrange(0, n + 1) =~= b);
                crate::tree::lemma_prefix_precedes(b, c);
            }
        } else {
            crate::tree::lemma_branch_precedes(b, c, j);
        }
        lemma_precedes_asymmetric(b, c, 0);
        if c == b {
            lemma_precedes_asymmetric(b, b, 0);
        }
    } else {
        if j == n {
            assert(c.subrange(0, n) =~= path);
            assert(false);
        }
        let s = path.subrange(0, j + 1);
        assert(s.drop_last() =~= path.subrange(0, j));
        assert(next_sibling(root, s) is Some);
        lemma_next_sibling_up_found(root, path, n, j);
        let p = lemma_next_sibling_level(root, path, n);
        let b = next_relative(root, path)->0;
        let sp = path.subrange(0, p + 1);
        assert(sp.drop_last() =~= path.subrange(0, p));
        crate::tree::lemma_child_decreases(reach(root, sp.drop_last())->0, 0);
        assert(b == sp.drop_last().push((sp.last() + 1) as usize));
        assert forall|i: int| 0 <= i < p implies b[i] == path[i] by {
            assert(b[i] == sp.drop_last()[i]);
        }
        if p == j {
            if c[j] > b[j] {
                crate::tree::lemma_branch_precedes(b, c, j);
            } else if c.len() == j + 1 {
                assert(c =~= b);
            } else {
                assert(c.subrange(0, j + 1) =~= b);
                crate::tree::lemma_prefix_precedes(b, c);
            }
        } else {
            crate::tree::lemma_branch_precedes(b, c, j);
        }
        lemma_precedes_asymmetric(b, c, 0);
        if c == b {
            lemma_precedes_asymmetric(b, b, 0);
        }
    }
}

/// The node after a valid address, as found by descending and climbing, is the one at the
/// next linear position in pre-order; `None` exactly for the last node.
pub proof fn law_next_relative_is_successor<T>(root: TreeNode<T>, path: Seq<usize>)
    requires
        valid(root, path),
    ensures
        next_relative(root, path) == address_at(root, offset_of(root, path)->0 + 1),
{
    law_offset_round_trip(root, path);
    lemma_entries(root);
    let e = addresses(root);
    let k = offset_of(root, path)->0;
    assert(e[k] == path);
    if k + 1 < e.len() {
        let c = e[k + 1];
        assert(precedes(e[k], e[k + 1]));
        assert(valid(root, c)) by {
            assert(c == entries(root)[k + 1].0);
        }
        lemma_next_relative_least(root, path, c);
        let b = next_relative(root, path)->0;
        lemma_next_relative_after(root, path);
        assert(e.contains(b));
        let m = choose|m: int| 0 <= m < e.len() && e[m] == b;
        if m <= k {
            if m == k {
                lemma_precedes_asymmetric(path, path, 0);
            } else {
                assert(precedes(e[m], e[k]));
                lemma_precedes_asymmetric(path, b, 0);
            }
        } else if m > k + 1 {
            assert(precedes(e[k + 1], e[m]));
        }
    } else if next_relative(root, path) is Some {
        let b = next_relative(root, path)->0;
        lemma_next_relative_after(root, path);
        assert(e.contains(b));
        let m = choose|m: int| 0 <= m < e.len() && e[m] == b;
        if m == k {
            lemma_precedes_asymmetric(path, path, 0);
        } else if m < k {
            assert(precedes(e[m], e[k]));
            lemma_precedes_asymmetric(path, b, 0);
        }
    }
}

/// The node before a valid address, as found from its previous sibling or parent, is the one
/// at the previous linear position in pre-order; `None` exactly for the first node.
pub proof fn law_previous_relative_is_predecessor<T>(root: TreeNode<T>, path: Seq<usize>)
    requires
        valid(root, path),
    ensures
        previous_relative(root, path) == address_at(root, offset_of(root, path)->0 - 1),
{
    law_offset_round_trip(root, path);
    lemma_entries(root);
    let e = addresses(root);
    let k = offset_of(root, path)->0;
    if k > 0 {
        let a = e[k - 1];
        assert(valid(root, a)) by {
            assert(a == entries(root)[k - 1].0);
        }
        lemma_offset_of(root, a, k - 1);
        law_next_relative_is_successor(root, a);
        law_previous_undoes_next(root, a);
    } else {
        assert(root.children@.len() > 0) by {
            lemma_reach_prefix(root, path, 0);
            assert(path.subrange(0, 0) =~= Seq::<usize>::empty());
        }
        let c = root.children@[0];
        assert(entries(root) == seq![(seq![0usize], c)] + crate::tree::entries_from(
            c,
            seq![0usize],
            0,
        ) + crate::tree::entries_from(root, seq![], 1)) by {
            assert(Seq::<usize>::empty().push(0) =~= seq![0usize]);
        }
        assert(path == seq![0usize]);
    }
}

} // verus!
