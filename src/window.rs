use vstd::prelude::*;

verus! {

/// The total height of the items at positions `a` up to, not including, `b`.
pub open spec fn span(h: Seq<usize>, a: int, b: int) -> int
    decreases b - a,
{
    if a >= b {
        0
    } else {
        span(h, a, b - 1) + h[b - 1]
    }
}

/// The end of the longest run of items from `start` whose total height fits in `max`,
/// having already taken the items before `end`.
pub open spec fn fill(h: Seq<usize>, start: int, end: int, max: int) -> int
    decreases h.len() - end,
{
    if end < h.len() && span(h, start, end + 1) <= max {
        fill(h, start, end + 1, max)
    } else {
        end
    }
}

/// The first position from `f` on from which the items up to `end` fit in `max` (at most
/// `end`, where nothing is left).
pub open spec fn least_start(h: Seq<usize>, f: int, end: int, max: int) -> int
    decreases end - f,
{
    if f >= end || span(h, f, end) <= max {
        f
    } else {
        least_start(h, f + 1, end, max)
    }
}

/// The last end, at most `l`, up to which the items from `start` fit in `max` (at least
/// `start`, where nothing is taken).
pub open spec fn greatest_end(h: Seq<usize>, start: int, l: int, max: int) -> int
    decreases l - start,
{
    if l <= start || span(h, start, l) <= max {
        l
    } else {
        greatest_end(h, start, l - 1, max)
    }
}

/// The items within `padding` of `selected` (clamped to the positions that exist) fit.
pub open spec fn padding_fits(h: Seq<usize>, selected: int, padding: int, max: int) -> bool {
    span(h, low(selected, padding), high(h, selected, padding) + 1) <= max
}

/// The first position within `padding` before `selected`, clamped at zero.
pub open spec fn low(selected: int, padding: int) -> int {
    if selected >= padding {
        selected - padding
    } else {
        0
    }
}

/// The last position within `padding` after `selected`, clamped to the last item.
pub open spec fn high(h: Seq<usize>, selected: int, padding: int) -> int {
    if selected + padding < h.len() {
        selected + padding
    } else {
        h.len() - 1
    }
}

/// The largest padding, at most `padding`, whose items around `selected` fit in `max`;
/// zero if none does.
pub open spec fn reduced_padding(h: Seq<usize>, selected: int, padding: int, max: int) -> int
    decreases padding,
{
    if padding <= 0 || padding_fits(h, selected, padding, max) {
        if padding <= 0 {
            0
        } else {
            padding
        }
    } else {
        reduced_padding(h, selected, padding - 1, max)
    }
}

/// The position that must become visible: `selected` moved out by the reduced padding toward
/// the edge of the window `[first, last)` that it is beyond, else `selected` itself.
pub open spec fn target(
    h: Seq<usize>,
    selected: int,
    padding: int,
    max: int,
    first: int,
    last: int,
) -> int {
    let p = reduced_padding(h, selected, padding, max);
    if high(h, selected, p) >= last {
        high(h, selected, p)
    } else if low(selected, p) < first {
        low(selected, p)
    } else {
        selected
    }
}

/// The window `[first, last)` of items to show, for items of heights `h`, a selection (its
/// position, clamped to the last item), the previous scroll offset (likewise clamped), the
/// viewport's capacity `max` and the scroll padding.
///
/// From the previous offset as many items as fit are taken. If a selection exists, the
/// position that must be visible is the selection moved out by the padding (reduced until
/// the items around the selection fit), else the offset. The window then slides forward
/// until that position is in it, dropping leading items when it overflows, and then
/// backward likewise, dropping trailing items.
pub open spec fn visible_window(
    h: Seq<usize>,
    selected: Option<int>,
    offset: int,
    max: int,
    padding: int,
) -> (int, int) {
    let n = h.len() as int;
    if n == 0 {
        (0, 0)
    } else {
        let o = if offset < n - 1 {
            offset
        } else {
            n - 1
        };
        let l0 = fill(h, o, o, max);
        let t = match selected {
            Some(s) => target(
                h,
                if s < n - 1 {
                    s
                } else {
                    n - 1
                },
                padding,
                max,
                o,
                l0,
            ),
            None => o,
        };
        let (f1, l1) = if t >= l0 {
            (least_start(h, o, t + 1, max), t + 1)
        } else {
            (o, l0)
        };
        if t < f1 {
            (t, greatest_end(h, t, l1, max))
        } else {
            (f1, l1)
        }
    }
}

/// Taking one more item adds its height.
pub proof fn lemma_span_push(h: Seq<usize>, a: int, b: int)
    requires
        a <= b,
    ensures
        span(h, a, b + 1) == span(h, a, b) + h[b],
{
}

/// Dropping the first item removes its height.
pub proof fn lemma_span_front(h: Seq<usize>, a: int, b: int)
    requires
        a < b,
    ensures
        span(h, a, b) == h[a] + span(h, a + 1, b),
    decreases b - a,
{
    if a + 1 < b {
        lemma_span_front(h, a, b - 1);
    } else {
        assert(span(h, a, a) == 0);
        assert(span(h, a + 1, b) == 0);
    }
}

/// Heights are never negative, so a run weighs no more than a longer one around it.
pub proof fn lemma_span_mono(h: Seq<usize>, a: int, b: int, c: int, d: int)
    requires
        c <= a <= b <= d,
    ensures
        span(h, a, b) <= span(h, c, d),
    decreases (a - c) + (d - b),
{
    if b < d {
        lemma_span_mono(h, a, b, c, d - 1);
    } else if c < a {
        lemma_span_front(h, c, d);
        lemma_span_mono(h, a, b, c + 1, d);
    }
}

/// `fill` stops at an end that fits, past every shorter end that fits as well.
pub proof fn lemma_fill(h: Seq<usize>, start: int, end: int, max: int, x: int)
    requires
        start <= end <= h.len(),
        span(h, start, end) <= max,
    ensures
        end <= fill(h, start, end, max) <= h.len(),
        span(h, start, fill(h, start, end, max)) <= max,
        fill(h, start, end, max) < h.len() ==> span(h, start, fill(h, start, end, max) + 1)
            > max,
        end <= x <= h.len() && span(h, start, x) <= max ==> x <= fill(h, start, end, max),
    decreases h.len() - end,
{
    if end < h.len() && span(h, start, end + 1) <= max {
        lemma_fill(h, start, end + 1, max, x);
    } else if end <= x <= h.len() && span(h, start, x) <= max && x > end {
        lemma_span_mono(h, start, end + 1, start, x);
    }
}

/// `least_start` from `f` is `x` when every start in `[f, x)` overflows and `x` does not.
pub proof fn lemma_least_start(h: Seq<usize>, f: int, end: int, max: int, x: int)
    requires
        f <= x <= end,
        forall|g: int| f <= g < x ==> #[trigger] span(h, g, end) > max,
        x == end || span(h, x, end) <= max,
    ensures
        least_start(h, f, end, max) == x,
    decreases x - f,
{
    if f < x {
        lemma_least_start(h, f + 1, end, max, x);
    }
}

/// `least_start` is no later than any start whose items fit.
pub proof fn lemma_least_start_bound(h: Seq<usize>, f: int, end: int, max: int, x: int)
    requires
        f <= x <= end,
        span(h, x, end) <= max,
    ensures
        least_start(h, f, end, max) <= x,
    decreases x - f,
{
    if f < x && span(h, f, end) > max {
        lemma_least_start_bound(h, f + 1, end, max, x);
    }
}

/// `greatest_end` up to `l` is `x` when every end in `(x, l]` overflows and `x` does not.
pub proof fn lemma_greatest_end(h: Seq<usize>, start: int, l: int, max: int, x: int)
    requires
        start <= x <= l,
        forall|m: int| x < m <= l ==> #[trigger] span(h, start, m) > max,
        span(h, start, x) <= max,
    ensures
        greatest_end(h, start, l, max) == x,
    decreases l - x,
{
    if x < l {
        lemma_greatest_end(h, start, l - 1, max, x);
    }
}

/// `greatest_end` is no earlier than any end whose items fit.
pub proof fn lemma_greatest_end_bound(h: Seq<usize>, start: int, l: int, max: int, x: int)
    requires
        start <= x <= l,
        span(h, start, x) <= max,
    ensures
        greatest_end(h, start, l, max) >= x,
    decreases l - x,
{
    if x < l && span(h, start, l) > max {
        lemma_greatest_end_bound(h, start, l - 1, max, x);
    }
}

/// Whether the items at positions `a` through `b` (inclusive) fit in `max`.
fn range_fits(heights: &[usize], a: usize, b: usize, max: usize) -> (r: bool)
    requires
        a <= b < heights@.len(),
    ensures
        r == (span(heights@, a as int, b + 1) <= max),
{
    let mut total: u128 = 0;
    let mut i: usize = a;
    while i <= b
        invariant
            a <= i <= b + 1,
            b < heights@.len(),
            total == span(heights@, a as int, i as int),
            total <= max,
        decreases b + 1 - i,
    {
        total = total + heights[i] as u128;
        proof {
            lemma_span_push(heights@, a as int, i as int);
        }
        if total > max as u128 {
            proof {
                lemma_span_mono(heights@, a as int, i + 1, a as int, b + 1);
            }
            return false;
        }
        i = i + 1;
    }
    true
}

/// The position to keep visible for the selection at `selected`: moved out by the scroll
/// padding (reduced until the items around the selection fit in `max_height`) when that
/// reaches past the window `[first_visible, last_visible)`.
pub fn apply_scroll_padding_to_selected_index(
    heights: &[usize],
    selected: usize,
    max_height: usize,
    scroll_padding: usize,
    first_visible: usize,
    last_visible: usize,
) -> (r: usize)
    requires
        selected < heights@.len(),
    ensures
        r == target(
            heights@,
            selected as int,
            scroll_padding as int,
            max_height as int,
            first_visible as int,
            last_visible as int,
        ),
{
    let last_valid = heights.len() - 1;
    let mut padding = scroll_padding;
    while padding > 0
        invariant
            padding <= scroll_padding,
            heights@.len() > 0,
            selected <= last_valid,
            last_valid == heights@.len() - 1,
            reduced_padding(heights@, selected as int, padding as int, max_height as int)
                == reduced_padding(
                heights@,
                selected as int,
                scroll_padding as int,
                max_height as int,
            ),
        ensures
            padding == 0 || padding_fits(
                heights@,
                selected as int,
                padding as int,
                max_height as int,
            ),
            reduced_padding(heights@, selected as int, padding as int, max_height as int)
                == reduced_padding(
                heights@,
                selected as int,
                scroll_padding as int,
                max_height as int,
            ),
        decreases padding,
    {
        let lo = selected.saturating_sub(padding);
        let hi = if padding <= last_valid - selected {
            selected + padding
        } else {
            last_valid
        };
        if range_fits(heights, lo, hi, max_height) {
            break;
        }
        padding = padding - 1;
    }
    let ghost p = padding as int;
    assert(reduced_padding(heights@, selected as int, p, max_height as int) == p);
    let hi = if padding <= last_valid - selected {
        selected + padding
    } else {
        last_valid
    };
    let lo = selected.saturating_sub(padding);
    if hi >= last_visible {
        hi
    } else if lo < first_visible {
        lo
    } else {
        selected
    }
}

/// The window `[first, last)` of items to render for items of heights `heights`, an
/// optional selected position, the previous scroll offset, the viewport's capacity and the
/// scroll padding; the caller keeps `first` as the new scroll offset.
pub fn get_items_bounds(
    heights: &[usize],
    selected: Option<usize>,
    offset: usize,
    max_height: usize,
    scroll_padding: usize,
) -> (r: (usize, usize))
    ensures
        (r.0 as int, r.1 as int) == visible_window(
            heights@,
            match selected {
                Some(s) => Some(s as int),
                None => None,
            },
            offset as int,
            max_height as int,
            scroll_padding as int,
        ),
{
    let n = heights.len();
    if n == 0 {
        return (0, 0);
    }
    let ghost h = heights@;
    let ghost max = max_height as int;
    let offset = if offset < n - 1 {
        offset
    } else {
        n - 1
    };
    let mut first = offset;
    let mut last = offset;
    let mut total: u128 = 0;
    while last < n
        invariant
            offset <= last <= n,
            n == h.len(),
            h == heights@,
            total == span(h, offset as int, last as int),
            total <= max_height,
            max == max_height as int,
            fill(h, offset as int, last as int, max) == fill(h, offset as int, offset as int, max),
        ensures
            offset <= last <= n,
            total == span(h, offset as int, last as int),
            total <= max_height,
            fill(h, offset as int, offset as int, max) == last,
        decreases n - last,
    {
        proof {
            lemma_span_push(h, offset as int, last as int);
        }
        if total + heights[last] as u128 > max_height as u128 {
            break;
        }
        total = total + heights[last] as u128;
        last = last + 1;
    }
    let ghost l0 = last as int;
    assert(l0 == fill(h, offset as int, offset as int, max));
    let to_display = match selected {
        Some(s) => {
            let s = if s < n - 1 {
                s
            } else {
                n - 1
            };
            apply_scroll_padding_to_selected_index(
                heights,
                s,
                max_height,
                scroll_padding,
                first,
                last,
            )
        },
        None => offset,
    };
    assert(to_display < n);
    if to_display >= last {
        while to_display >= last
            invariant
                offset <= first <= last <= to_display + 1,
                to_display < n,
                n == h.len(),
                h == heights@,
                total == span(h, first as int, last as int),
                total <= max_height,
                max == max_height as int,
                forall|g: int| offset <= g < first ==> #[trigger] span(h, g, last as int) > max,
            decreases to_display + 1 - last,
        {
            proof {
                lemma_span_push(h, first as int, last as int);
                assert forall|g: int| offset <= g < first implies #[trigger] span(h, g, last + 1) > max by {
                    lemma_span_mono(h, g, last as int, g, last + 1);
                }
            }
            total = total + heights[last] as u128;
            last = last + 1;
            while total > max_height as u128
                invariant
                    offset <= first <= last,
                    last <= n,
                    n == h.len(),
                    h == heights@,
                    total == span(h, first as int, last as int),
                    max == max_height as int,
                    forall|g: int| offset <= g < first ==> #[trigger] span(h, g, last as int) > max,
                decreases last - first,
            {
                proof {
                    if first == last {
                        assert(span(h, first as int, last as int) == 0);
                    }
                    lemma_span_front(h, first as int, last as int);
                    lemma_span_mono(h, first + 1, first + 1, first + 1, last as int);
                }
                total = total - heights[first] as u128;
                first = first + 1;
            }
        }
    }
    let ghost f1 = first as int;
    let ghost l1 = last as int;
    proof {
        if to_display >= l0 {
            lemma_least_start(h, offset as int, to_display + 1, max, f1);
        }
    }
    if to_display < first {
        while to_display < first
            invariant
                to_display <= first <= last,
                last <= l1,
                l1 <= n,
                n == h.len(),
                h == heights@,
                total == span(h, first as int, last as int),
                total <= max_height,
                max == max_height as int,
                forall|m: int| last < m <= l1 ==> #[trigger] span(h, first as int, m) > max,
            decreases first - to_display,
        {
            first = first - 1;
            proof {
                lemma_span_front(h, first as int, last as int);
                assert forall|m: int| last < m <= l1 implies #[trigger] span(h, first as int, m) > max by {
                    lemma_span_mono(h, first + 1, m, first as int, m);
                }
            }
            total = total + heights[first] as u128;
            while total > max_height as u128
                invariant
                    first <= last,
                    last <= l1,
                    l1 <= n,
                    n == h.len(),
                    h == heights@,
                    total == span(h, first as int, last as int),
                    max == max_height as int,
                    forall|m: int| last < m <= l1 ==> #[trigger] span(h, first as int, m) > max,
                decreases last - first,
            {
                proof {
                    if first == last {
                        assert(span(h, first as int, last as int) == 0);
                    }
                    lemma_span_push(h, first as int, last - 1);
                    lemma_span_mono(h, first as int, first as int, first as int, last - 1);
                }
                last = last - 1;
                total = total - heights[last] as u128;
            }
        }
    }
    proof {
        if to_display < f1 {
            lemma_greatest_end(h, to_display as int, l1, max, last as int);
        }
    }
    (first, last)
}

} // verus!
