//! Fusing bounds: overlapping and touching stretches of a text become one
//! stretch.

use crate::pattern::spans_in_order;
use vstd::prelude::*;

verus! {

/// The bounds come in the order of their starts.
pub open spec fn sorted_by_start(s: Seq<(usize, usize)>) -> bool {
    forall|i: int, j: int| 0 <= i < j < s.len() ==> (#[trigger] s[i]).0 <= (#[trigger] s[j]).0
}

/// No bound stops before it starts.
pub open spec fn all_proper(s: Seq<(usize, usize)>) -> bool {
    forall|i: int| 0 <= i < s.len() ==> (#[trigger] s[i]).0 <= s[i].1
}

/// Two lists hold the same bounds, whatever their order and number.
pub open spec fn same_members(a: Seq<(usize, usize)>, b: Seq<(usize, usize)>) -> bool {
    forall|x: (usize, usize)| a.contains(x) <==> b.contains(x)
}

/// The wider of two stops.
pub open spec fn later_stop(a: usize, b: usize) -> usize {
    if a >= b {
        a
    } else {
        b
    }
}

/// Fuses bounds that come sorted by start, from the left: a bound that
/// starts no later than the current stretch stops extends it, any other
/// begins a new stretch.
pub open spec fn fuse_sorted(s: Seq<(usize, usize)>) -> Seq<(usize, usize)>
    decreases s.len(),
{
    if s.len() == 0 {
        Seq::empty()
    } else if s.len() == 1 {
        seq![s[0]]
    } else {
        let before = fuse_sorted(s.drop_last());
        let current = before.last();
        let next = s.last();
        if next.0 <= current.1 {
            before.drop_last().push((current.0, later_stop(current.1, next.1)))
        } else {
            before.push(next)
        }
    }
}

/// Fusing leaves at least one stretch of any bounds.
pub proof fn lemma_fuse_sorted_nonempty(s: Seq<(usize, usize)>)
    ensures
        s.len() > 0 ==> fuse_sorted(s).len() > 0,
        s.len() == 0 ==> fuse_sorted(s).len() == 0,
    decreases s.len(),
{
    if s.len() > 1 {
        lemma_fuse_sorted_nonempty(s.drop_last());
    }
}

/// Sorts bounds by their start, keeping the order of equal starts.
fn sort_by_start(bounds: &Vec<(usize, usize)>) -> (sorted: Vec<(usize, usize)>)
    ensures
        sorted_by_start(sorted@),
        same_members(sorted@, bounds@),
        sorted@.len() == bounds@.len(),
{
    let mut sorted: Vec<(usize, usize)> = Vec::new();
    let mut i: usize = 0;
    assert(bounds@.take(0) =~= Seq::empty());
    while i < bounds.len()
        invariant
            i <= bounds@.len(),
            sorted@.len() == i,
            sorted_by_start(sorted@),
            same_members(sorted@, bounds@.take(i as int)),
        decreases bounds@.len() - i,
    {
        let x: (usize, usize) = bounds[i];
        let mut p: usize = sorted.len();
        while p > 0 && sorted[p - 1].0 > x.0
            invariant
                p <= sorted@.len(),
                sorted_by_start(sorted@),
                forall|k: int| p <= k < sorted@.len() ==> x.0 < (#[trigger] sorted@[k]).0,
            decreases p,
        {
            p = p - 1;
        }
        let ghost before = sorted@;
        sorted.insert(p, x);
        proof {
            let after = sorted@;
            assert(after =~= before.insert(p as int, x));
            assert forall|a: int, b: int| 0 <= a < b < after.len() implies (#[trigger] after[a]).0
                <= (#[trigger] after[b]).0 by {
                if b == p {
                    assert(after[a] == before[a]);
                    if p > 0 {
                        assert(before[a].0 <= before[p - 1].0 || a == p - 1);
                    }
                } else if a == p {
                    assert(after[b] == before[b - 1]);
                } else if a < p && b < p {
                    assert(after[a] == before[a] && after[b] == before[b]);
                } else if a < p && b > p {
                    assert(after[a] == before[a] && after[b] == before[b - 1]);
                } else {
                    assert(after[a] == before[a - 1] && after[b] == before[b - 1]);
                }
            }
            let taken = bounds@.take(i as int);
            let more = bounds@.take(i + 1);
            assert(more =~= taken.push(x));
            assert forall|y: (usize, usize)| after.contains(y) <==> more.contains(y) by {
                if after.contains(y) {
                    let k = choose|k: int| 0 <= k < after.len() && after[k] == y;
                    if k == p {
                        assert(more[i as int] == y);
                    } else {
                        let k0 = if k < p {
                            k
                        } else {
                            k - 1
                        };
                        assert(before[k0] == y);
                        assert(before.contains(y));
                        assert(taken.contains(y));
                        let t = choose|t: int| 0 <= t < taken.len() && taken[t] == y;
                        assert(more[t] == y);
                    }
                }
                if more.contains(y) {
                    let t = choose|t: int| 0 <= t < more.len() && more[t] == y;
                    if t == i {
                        assert(after[p as int] == y);
                    } else {
                        assert(taken[t] == y);
                        assert(taken.contains(y));
                        assert(before.contains(y));
                        let k0 = choose|k0: int| 0 <= k0 < before.len() && before[k0] == y;
                        let k = if k0 < p {
                            k0
                        } else {
                            k0 + 1
                        };
                        assert(after[k] == y);
                    }
                }
            }
        }
        i = i + 1;
    }
    assert(bounds@.take(i as int) =~= bounds@);
    sorted
}

/// Bound `b` lies inside stretch `o`.
pub open spec fn covers(o: (usize, usize), b: (usize, usize)) -> bool {
    o.0 <= b.0 && b.1 <= o.1
}

/// Position `x` and the one after it both lie inside bound `b`.
pub open spec fn spans_step(b: (usize, usize), x: int) -> bool {
    b.0 <= x < b.1
}

/// Each stretch stops before the ones after it start.
pub open spec fn separated(out: Seq<(usize, usize)>) -> bool {
    forall|i: int, j: int|
        0 <= i < j < out.len() ==> (#[trigger] out[i]).1 < (#[trigger] out[j]).0
}

/// Every bound lies inside one of the stretches.
#[verifier::opaque]
pub open spec fn all_covered(inputs: Seq<(usize, usize)>, out: Seq<(usize, usize)>) -> bool {
    forall|b: (usize, usize)| #[trigger]
        inputs.contains(b) ==> exists|o: (usize, usize)| #[trigger]
            out.contains(o) && covers(o, b)
}

/// Every stretch starts where some bound starts.
#[verifier::opaque]
pub open spec fn starts_anchored(inputs: Seq<(usize, usize)>, out: Seq<(usize, usize)>) -> bool {
    forall|o: (usize, usize)| #[trigger]
        out.contains(o) ==> exists|b: (usize, usize)| #[trigger] inputs.contains(b) && b.0 == o.0
}

/// Every stretch stops where some bound stops.
#[verifier::opaque]
pub open spec fn stops_anchored(inputs: Seq<(usize, usize)>, out: Seq<(usize, usize)>) -> bool {
    forall|o: (usize, usize)| #[trigger]
        out.contains(o) ==> exists|b: (usize, usize)| #[trigger] inputs.contains(b) && b.1 == o.1
}

/// Every step inside a stretch lies inside some bound: bounds bridge the
/// stretch from one end to the other.
#[verifier::opaque]
pub open spec fn bridged(inputs: Seq<(usize, usize)>, out: Seq<(usize, usize)>) -> bool {
    forall|o: (usize, usize), x: int|
        #![trigger out.contains(o), spans_step(o, x)]
        out.contains(o) && spans_step(o, x) ==> exists|b: (usize, usize)| #[trigger]
            inputs.contains(b) && spans_step(b, x)
}

/// The stretches `out` are the bounds `inputs` fused: they are proper, each
/// stops before the next starts, every bound lies inside one of them, and
/// each of them starts where a bound starts, stops where a bound stops and
/// is bridged by bounds from one end to the other.
pub open spec fn fused(inputs: Seq<(usize, usize)>, out: Seq<(usize, usize)>) -> bool {
    &&& all_proper(out)
    &&& separated(out)
    &&& all_covered(inputs, out)
    &&& starts_anchored(inputs, out)
    &&& stops_anchored(inputs, out)
    &&& bridged(inputs, out)
}

proof fn lemma_contains_push(s: Seq<(usize, usize)>, x: (usize, usize), y: (usize, usize))
    ensures
        s.push(x).contains(y) <==> s.contains(y) || y == x,
{
    let t = s.push(x);
    if t.contains(y) {
        let k = choose|k: int| 0 <= k < t.len() && t[k] == y;
        if k < s.len() {
            assert(s[k] == y);
        }
    }
    if s.contains(y) {
        let k = choose|k: int| 0 <= k < s.len() && s[k] == y;
        assert(t[k] == y);
    }
    if y == x {
        assert(t[s.len() as int] == y);
    }
}

proof fn lemma_contains_split_last(s: Seq<(usize, usize)>, y: (usize, usize))
    requires
        s.len() > 0,
    ensures
        s.contains(y) <==> s.drop_last().contains(y) || y == s.last(),
{
    assert(s =~= s.drop_last().push(s.last()));
    lemma_contains_push(s.drop_last(), s.last(), y);
}

/// `more` holds what `less` holds and `extra`.
#[verifier::opaque]
spec fn grows_by(less: Seq<(usize, usize)>, more: Seq<(usize, usize)>, extra: (usize, usize)) -> bool {
    forall|y: (usize, usize)| #[trigger] more.contains(y) <==> less.contains(y) || y == extra
}

/// `after` holds `fresh`, and beyond it only what `before` held; what
/// `before` held is still there or was `gone`.
#[verifier::opaque]
spec fn swaps(
    before: Seq<(usize, usize)>,
    after: Seq<(usize, usize)>,
    gone: (usize, usize),
    fresh: (usize, usize),
) -> bool {
    &&& after.contains(fresh)
    &&& forall|o: (usize, usize)| #[trigger] after.contains(o) ==> before.contains(o) || o == fresh
    &&& forall|o: (usize, usize)| #[trigger] before.contains(o) ==> after.contains(o) || o == gone
}

proof fn lemma_step_covered(
    t: Seq<(usize, usize)>,
    s: Seq<(usize, usize)>,
    next: (usize, usize),
    before: Seq<(usize, usize)>,
    after: Seq<(usize, usize)>,
    gone: (usize, usize),
    fresh: (usize, usize),
)
    requires
        all_covered(t, before),
        grows_by(t, s, next),
        swaps(before, after, gone, fresh),
        covers(fresh, gone),
        covers(fresh, next),
    ensures
        all_covered(s, after),
{
    reveal(all_covered);
    reveal(grows_by);
    reveal(swaps);
    assert forall|b: (usize, usize)| #[trigger] s.contains(b) implies exists|o: (usize, usize)|
     #[trigger] after.contains(o) && covers(o, b) by {
        if t.contains(b) {
            let o = choose|o: (usize, usize)| #[trigger] before.contains(o) && covers(o, b);
            if after.contains(o) {
                assert(after.contains(o) && covers(o, b));
            } else {
                assert(after.contains(fresh) && covers(fresh, b));
            }
        } else {
            assert(after.contains(fresh) && covers(fresh, b));
        }
    }
}

proof fn lemma_step_starts(
    t: Seq<(usize, usize)>,
    s: Seq<(usize, usize)>,
    next: (usize, usize),
    before: Seq<(usize, usize)>,
    after: Seq<(usize, usize)>,
    gone: (usize, usize),
    fresh: (usize, usize),
)
    requires
        starts_anchored(t, before),
        grows_by(t, s, next),
        swaps(before, after, gone, fresh),
        fresh.0 == next.0 || (before.contains(gone) && fresh.0 == gone.0),
    ensures
        starts_anchored(s, after),
{
    reveal(starts_anchored);
    reveal(grows_by);
    reveal(swaps);
    assert forall|o: (usize, usize)| #[trigger] after.contains(o) implies exists|
        b: (usize, usize),
    | #[trigger] s.contains(b) && b.0 == o.0 by {
        let old = if before.contains(o) {
            o
        } else {
            gone
        };
        if before.contains(o) || fresh.0 != next.0 {
            assert(before.contains(old));
            let b = choose|b: (usize, usize)| #[trigger] t.contains(b) && b.0 == old.0;
            assert(s.contains(b) && b.0 == o.0);
        } else {
            assert(s.contains(next) && next.0 == o.0);
        }
    }
}

proof fn lemma_step_stops(
    t: Seq<(usize, usize)>,
    s: Seq<(usize, usize)>,
    next: (usize, usize),
    before: Seq<(usize, usize)>,
    after: Seq<(usize, usize)>,
    gone: (usize, usize),
    fresh: (usize, usize),
)
    requires
        stops_anchored(t, before),
        grows_by(t, s, next),
        swaps(before, after, gone, fresh),
        fresh.1 == next.1 || (before.contains(gone) && fresh.1 == gone.1),
    ensures
        stops_anchored(s, after),
{
    reveal(stops_anchored);
    reveal(grows_by);
    reveal(swaps);
    assert forall|o: (usize, usize)| #[trigger] after.contains(o) implies exists|
        b: (usize, usize),
    | #[trigger] s.contains(b) && b.1 == o.1 by {
        let old = if before.contains(o) {
            o
        } else {
            gone
        };
        if before.contains(o) || fresh.1 != next.1 {
            assert(before.contains(old));
            let b = choose|b: (usize, usize)| #[trigger] t.contains(b) && b.1 == old.1;
            assert(s.contains(b) && b.1 == o.1);
        } else {
            assert(s.contains(next) && next.1 == o.1);
        }
    }
}

proof fn lemma_step_bridged(
    t: Seq<(usize, usize)>,
    s: Seq<(usize, usize)>,
    next: (usize, usize),
    before: Seq<(usize, usize)>,
    after: Seq<(usize, usize)>,
    gone: (usize, usize),
    fresh: (usize, usize),
)
    requires
        bridged(t, before),
        grows_by(t, s, next),
        swaps(before, after, gone, fresh),
        forall|x: int| #[trigger]
            spans_step(fresh, x) ==> spans_step(next, x) || (before.contains(gone) && spans_step(
                gone,
                x,
            )),
    ensures
        bridged(s, after),
{
    reveal(bridged);
    reveal(grows_by);
    reveal(swaps);
    assert forall|o: (usize, usize), x: int|
        #![trigger after.contains(o), spans_step(o, x)]
        after.contains(o) && spans_step(o, x) implies exists|b: (usize, usize)| #[trigger]
        s.contains(b) && spans_step(b, x) by {
        if before.contains(o) {
            let b = choose|b: (usize, usize)| #[trigger] t.contains(b) && spans_step(b, x);
            assert(s.contains(b) && spans_step(b, x));
        } else if spans_step(next, x) {
            assert(s.contains(next) && spans_step(next, x));
        } else {
            assert(before.contains(gone) && spans_step(gone, x));
            let b = choose|b: (usize, usize)| #[trigger] t.contains(b) && spans_step(b, x);
            assert(s.contains(b) && spans_step(b, x));
        }
    }
}

proof fn lemma_fused_single(only: (usize, usize))
    requires
        only.0 <= only.1,
    ensures
        fused(seq![only], seq![only]),
{
    reveal(all_covered);
    reveal(starts_anchored);
    reveal(stops_anchored);
    reveal(bridged);
    let s = seq![only];
    assert(s[0] == only);
    assert(s.contains(only));
    assert(covers(only, only));
}

proof fn lemma_grows_by_last(s: Seq<(usize, usize)>)
    requires
        s.len() > 0,
    ensures
        grows_by(s.drop_last(), s, s.last()),
{
    reveal(grows_by);
    assert forall|y: (usize, usize)| #[trigger]
        s.contains(y) <==> s.drop_last().contains(y) || y == s.last() by {
        lemma_contains_split_last(s, y);
    }
}

proof fn lemma_swaps_merge(before: Seq<(usize, usize)>, wide: (usize, usize))
    requires
        before.len() > 0,
    ensures
        swaps(before, before.drop_last().push(wide), before.last(), wide),
{
    reveal(swaps);
    let kept = before.drop_last();
    let out = kept.push(wide);
    assert forall|o: (usize, usize)| #[trigger] out.contains(o) implies before.contains(o) || o
        == wide by {
        lemma_contains_push(kept, wide, o);
        lemma_contains_split_last(before, o);
    }
    assert forall|o: (usize, usize)| #[trigger] before.contains(o) implies out.contains(o) || o
        == before.last() by {
        lemma_contains_push(kept, wide, o);
        lemma_contains_split_last(before, o);
    }
    lemma_contains_push(kept, wide, wide);
}

proof fn lemma_swaps_new(before: Seq<(usize, usize)>, next: (usize, usize))
    ensures
        swaps(before, before.push(next), next, next),
{
    reveal(swaps);
    let out = before.push(next);
    assert forall|o: (usize, usize)| #[trigger] out.contains(o) <==> before.contains(o) || o
        == next by {
        lemma_contains_push(before, next, o);
    }
}

/// A stretch of fused sorted bounds starts no later than any bound that
/// comes after them in the order of starts.
proof fn lemma_last_stretch_starts_early(
    s: Seq<(usize, usize)>,
    before: Seq<(usize, usize)>,
)
    requires
        s.len() > 1,
        sorted_by_start(s),
        starts_anchored(s.drop_last(), before),
        before.len() > 0,
    ensures
        before.last().0 <= s.last().0,
        before.contains(before.last()),
{
    reveal(starts_anchored);
    let t = s.drop_last();
    let current = before.last();
    assert(before[before.len() - 1] == current);
    assert(before.contains(current));
    let anchor = choose|b: (usize, usize)| #[trigger] t.contains(b) && b.0 == current.0;
    let ai = choose|i: int| 0 <= i < t.len() && t[i] == anchor;
    assert(s[ai] == anchor);
    assert(s[ai].0 <= s[s.len() - 1].0);
}

proof fn lemma_shape_merge(before: Seq<(usize, usize)>, wide: (usize, usize))
    requires
        before.len() > 0,
        all_proper(before),
        separated(before),
        wide.0 == before.last().0,
        wide.0 <= wide.1,
    ensures
        all_proper(before.drop_last().push(wide)),
        separated(before.drop_last().push(wide)),
{
    let out = before.drop_last().push(wide);
    let last = before.len() - 1;
    assert forall|i: int| 0 <= i < out.len() implies (#[trigger] out[i]).0 <= out[i].1 by {
        if i < last {
            assert(before[i].0 <= before[i].1);
        }
    }
    assert forall|i: int, j: int| 0 <= i < j < out.len() implies (#[trigger] out[i]).1 < (
    #[trigger] out[j]).0 by {
        assert(before[i].1 < before[j].0);
    }
}

proof fn lemma_shape_new(before: Seq<(usize, usize)>, next: (usize, usize))
    requires
        before.len() > 0,
        all_proper(before),
        separated(before),
        before.last().1 < next.0,
        next.0 <= next.1,
    ensures
        all_proper(before.push(next)),
        separated(before.push(next)),
{
    let out = before.push(next);
    let last = before.len() - 1;
    assert forall|i: int| 0 <= i < out.len() implies (#[trigger] out[i]).0 <= out[i].1 by {
        if i < before.len() {
            assert(before[i].0 <= before[i].1);
        }
    }
    assert forall|i: int, j: int| 0 <= i < j < out.len() implies (#[trigger] out[i]).1 < (
    #[trigger] out[j]).0 by {
        if j < before.len() {
            assert(before[i].1 < before[j].0);
        } else if i < last {
            assert(before[i].1 < before[last].0);
            assert(before[last].0 <= before[last].1);
        }
    }
}

proof fn lemma_sorted_prefix(s: Seq<(usize, usize)>)
    requires
        s.len() > 0,
        sorted_by_start(s),
        all_proper(s),
    ensures
        sorted_by_start(s.drop_last()),
        all_proper(s.drop_last()),
        s.last().0 <= s.last().1,
{
    let t = s.drop_last();
    assert forall|i: int, j: int| 0 <= i < j < t.len() implies (#[trigger] t[i]).0 <= (
    #[trigger] t[j]).0 by {
        assert(s[i].0 <= s[j].0);
    }
    assert forall|i: int| 0 <= i < t.len() implies (#[trigger] t[i]).0 <= t[i].1 by {
        assert(s[i].0 <= s[i].1);
    }
    assert(s[s.len() - 1].0 <= s[s.len() - 1].1);
}

/// Fusing sorted, proper bounds gives their fused stretches.
pub proof fn lemma_fuse_sorted_fused(s: Seq<(usize, usize)>)
    requires
        sorted_by_start(s),
        all_proper(s),
    ensures
        fused(s, fuse_sorted(s)),
    decreases s.len(),
{
    let out = fuse_sorted(s);
    if s.len() == 0 {
        reveal(all_covered);
        reveal(starts_anchored);
        reveal(stops_anchored);
        reveal(bridged);
    } else if s.len() == 1 {
        assert(s[0].0 <= s[0].1);
        lemma_fused_single(s[0]);
        assert(s =~= seq![s[0]]);
    } else {
        let t = s.drop_last();
        let next = s.last();
        let before = fuse_sorted(t);
        lemma_sorted_prefix(s);
        lemma_fuse_sorted_fused(t);
        lemma_fuse_sorted_nonempty(t);
        let current = before.last();
        lemma_last_stretch_starts_early(s, before);
        assert(current.0 <= current.1) by {
            assert(before[before.len() - 1].0 <= before[before.len() - 1].1);
        }
        lemma_grows_by_last(s);
        if next.0 <= current.1 {
            let wide = (current.0, later_stop(current.1, next.1));
            lemma_swaps_merge(before, wide);
            lemma_shape_merge(before, wide);
            lemma_step_covered(t, s, next, before, out, current, wide);
            lemma_step_starts(t, s, next, before, out, current, wide);
            lemma_step_stops(t, s, next, before, out, current, wide);
            lemma_step_bridged(t, s, next, before, out, current, wide);
        } else {
            lemma_swaps_new(before, next);
            lemma_shape_new(before, next);
            lemma_step_covered(t, s, next, before, out, next, next);
            lemma_step_starts(t, s, next, before, out, next, next);
            lemma_step_stops(t, s, next, before, out, next, next);
            lemma_step_bridged(t, s, next, before, out, next, next);
        }
    }
}

proof fn lemma_covered_same_members(
    a: Seq<(usize, usize)>,
    b: Seq<(usize, usize)>,
    out: Seq<(usize, usize)>,
)
    requires
        all_covered(a, out),
        same_members(a, b),
    ensures
        all_covered(b, out),
{
    reveal(all_covered);
    assert forall|x: (usize, usize)| #[trigger] b.contains(x) implies exists|o: (usize, usize)|
     #[trigger] out.contains(o) && covers(o, x) by {
        assert(a.contains(x));
    }
}

proof fn lemma_starts_same_members(
    a: Seq<(usize, usize)>,
    b: Seq<(usize, usize)>,
    out: Seq<(usize, usize)>,
)
    requires
        starts_anchored(a, out),
        same_members(a, b),
    ensures
        starts_anchored(b, out),
{
    reveal(starts_anchored);
    assert forall|o: (usize, usize)| #[trigger] out.contains(o) implies exists|
        x: (usize, usize),
    | #[trigger] b.contains(x) && x.0 == o.0 by {
        let x = choose|x: (usize, usize)| #[trigger] a.contains(x) && x.0 == o.0;
        assert(b.contains(x));
    }
}

proof fn lemma_stops_same_members(
    a: Seq<(usize, usize)>,
    b: Seq<(usize, usize)>,
    out: Seq<(usize, usize)>,
)
    requires
        stops_anchored(a, out),
        same_members(a, b),
    ensures
        stops_anchored(b, out),
{
    reveal(stops_anchored);
    assert forall|o: (usize, usize)| #[trigger] out.contains(o) implies exists|
        x: (usize, usize),
    | #[trigger] b.contains(x) && x.1 == o.1 by {
        let x = choose|x: (usize, usize)| #[trigger] a.contains(x) && x.1 == o.1;
        assert(b.contains(x));
    }
}

proof fn lemma_bridged_same_members(
    a: Seq<(usize, usize)>,
    b: Seq<(usize, usize)>,
    out: Seq<(usize, usize)>,
)
    requires
        bridged(a, out),
        same_members(a, b),
    ensures
        bridged(b, out),
{
    reveal(bridged);
    assert forall|o: (usize, usize), p: int|
        #![trigger out.contains(o), spans_step(o, p)]
        out.contains(o) && spans_step(o, p) implies exists|x: (usize, usize)| #[trigger]
        b.contains(x) && spans_step(x, p) by {
        let x = choose|x: (usize, usize)| #[trigger] a.contains(x) && spans_step(x, p);
        assert(b.contains(x));
    }
}

/// What is fused of bounds is fused of any list with the same members.
pub proof fn lemma_fused_same_members(
    a: Seq<(usize, usize)>,
    b: Seq<(usize, usize)>,
    out: Seq<(usize, usize)>,
)
    requires
        fused(a, out),
        same_members(a, b),
    ensures
        fused(b, out),
{
    lemma_covered_same_members(a, b, out);
    lemma_starts_same_members(a, b, out);
    lemma_stops_same_members(a, b, out);
    lemma_bridged_same_members(a, b, out);
}

/// Fused stretches of bounds that lie inside a text of `len` bytes follow
/// one another inside that text.
pub proof fn lemma_fused_in_order(inputs: Seq<(usize, usize)>, out: Seq<(usize, usize)>, len: int)
    requires
        fused(inputs, out),
        forall|i: int| 0 <= i < inputs.len() ==> (#[trigger] inputs[i]).1 <= len,
    ensures
        spans_in_order(out, len),
{
    reveal(stops_anchored);
    assert forall|i: int| 0 <= i < out.len() implies (#[trigger] out[i]).0 <= out[i].1
        <= len by {
        assert(out.contains(out[i]));
        let b = choose|b: (usize, usize)| #[trigger] inputs.contains(b) && b.1 == out[i].1;
        let k = choose|k: int| 0 <= k < inputs.len() && inputs[k] == b;
        assert(inputs[k].1 <= len);
    }
    assert forall|i: int, j: int| 0 <= i < j < out.len() implies (#[trigger] out[i]).1 <= (
    #[trigger] out[j]).0 by {
        assert(out[i].1 < out[j].0);
    }
}

/// Two stretches lie apart: one stops before the other starts.
pub open spec fn apart(x: (usize, usize), y: (usize, usize)) -> bool {
    x.1 < y.0 || y.1 < x.0
}

proof fn lemma_members_apart(out: Seq<(usize, usize)>, x: (usize, usize), y: (usize, usize))
    requires
        all_proper(out),
        separated(out),
        out.contains(x),
        out.contains(y),
        x != y,
    ensures
        apart(x, y),
{
    let i = choose|i: int| 0 <= i < out.len() && out[i] == x;
    let j = choose|j: int| 0 <= j < out.len() && out[j] == y;
    if i < j {
        assert(out[i].1 < out[j].0);
    } else {
        assert(out[j].1 < out[i].0);
    }
}

/// No bound reaches from inside a fused stretch to beyond its stop.
proof fn lemma_no_bound_leaves(
    inputs: Seq<(usize, usize)>,
    out: Seq<(usize, usize)>,
    o: (usize, usize),
    b: (usize, usize),
)
    requires
        all_proper(out),
        separated(out),
        all_covered(inputs, out),
        out.contains(o),
        inputs.contains(b),
    ensures
        !(b.0 <= o.1 < b.1),
{
    reveal(all_covered);
    if b.0 <= o.1 < b.1 {
        let c = choose|c: (usize, usize)| #[trigger] out.contains(c) && covers(c, b);
        let i = choose|i: int| 0 <= i < out.len() && out[i] == o;
        assert(out[i].0 <= out[i].1);
        lemma_members_apart(out, c, o);
    }
}

proof fn lemma_fused_member_transfers(
    inputs: Seq<(usize, usize)>,
    a: Seq<(usize, usize)>,
    b: Seq<(usize, usize)>,
    o: (usize, usize),
)
    requires
        all_proper(inputs),
        fused(inputs, a),
        fused(inputs, b),
        a.contains(o),
    ensures
        b.contains(o),
{
    let oi = choose|i: int| 0 <= i < a.len() && a[i] == o;
    assert(a[oi].0 <= a[oi].1);
    let anchor = lemma_pick_start(inputs, a, o);
    let ai = choose|i: int| 0 <= i < inputs.len() && inputs[i] == anchor;
    assert(inputs[ai].0 <= inputs[ai].1);
    let other = lemma_pick_cover(inputs, b, anchor);
    let bi = choose|i: int| 0 <= i < b.len() && b[i] == other;
    assert(b[bi].0 <= b[bi].1);
    if other.0 < o.0 {
        let low = lemma_pick_start(inputs, b, other);
        let li = choose|i: int| 0 <= i < inputs.len() && inputs[i] == low;
        assert(inputs[li].0 <= inputs[li].1);
        let under = lemma_pick_cover(inputs, a, low);
        lemma_members_apart(a, under, o);
        assert(spans_step(other, under.1 as int));
        let bridge = lemma_pick_bridge(inputs, b, other, under.1 as int);
        lemma_no_bound_leaves(inputs, a, under, bridge);
    }
    if o.1 < other.1 {
        assert(spans_step(other, o.1 as int));
        let bridge = lemma_pick_bridge(inputs, b, other, o.1 as int);
        lemma_no_bound_leaves(inputs, a, o, bridge);
    }
    if other.1 < o.1 {
        assert(spans_step(o, other.1 as int));
        let bridge = lemma_pick_bridge(inputs, a, o, other.1 as int);
        lemma_no_bound_leaves(inputs, b, other, bridge);
    }
    assert(other == o);
}

proof fn lemma_pick_start(
    inputs: Seq<(usize, usize)>,
    out: Seq<(usize, usize)>,
    o: (usize, usize),
) -> (b: (usize, usize))
    requires
        starts_anchored(inputs, out),
        out.contains(o),
    ensures
        inputs.contains(b),
        b.0 == o.0,
{
    reveal(starts_anchored);
    choose|b: (usize, usize)| #[trigger] inputs.contains(b) && b.0 == o.0
}

proof fn lemma_pick_cover(
    inputs: Seq<(usize, usize)>,
    out: Seq<(usize, usize)>,
    b: (usize, usize),
) -> (o: (usize, usize))
    requires
        all_covered(inputs, out),
        inputs.contains(b),
    ensures
        out.contains(o),
        covers(o, b),
{
    reveal(all_covered);
    choose|o: (usize, usize)| #[trigger] out.contains(o) && covers(o, b)
}

proof fn lemma_pick_bridge(
    inputs: Seq<(usize, usize)>,
    out: Seq<(usize, usize)>,
    o: (usize, usize),
    x: int,
) -> (b: (usize, usize))
    requires
        bridged(inputs, out),
        out.contains(o),
        spans_step(o, x),
    ensures
        inputs.contains(b),
        spans_step(b, x),
{
    reveal(bridged);
    choose|b: (usize, usize)| #[trigger] inputs.contains(b) && spans_step(b, x)
}

/// The two lists hold the same stretches.
#[verifier::opaque]
spec fn alike(a: Seq<(usize, usize)>, b: Seq<(usize, usize)>) -> bool {
    forall|x: (usize, usize)| a.contains(x) <==> b.contains(x)
}

proof fn lemma_alike_at(a: Seq<(usize, usize)>, b: Seq<(usize, usize)>, x: (usize, usize))
    requires
        alike(a, b),
    ensures
        a.contains(x) <==> b.contains(x),
{
    reveal(alike);
}

proof fn lemma_last_is_greatest(s: Seq<(usize, usize)>, x: (usize, usize))
    requires
        all_proper(s),
        separated(s),
        s.contains(x),
    ensures
        x == s.last() || x.1 < s.last().0,
        s.contains(s.last()),
{
    let k = choose|k: int| 0 <= k < s.len() && s[k] == x;
    assert(s[s.len() - 1] == s.last());
    if k < s.len() - 1 {
        assert(s[k].1 < s[s.len() - 1].0);
    }
}

proof fn lemma_drop_last_members(s: Seq<(usize, usize)>, x: (usize, usize))
    requires
        all_proper(s),
        separated(s),
        s.len() > 0,
    ensures
        s.drop_last().contains(x) <==> s.contains(x) && x != s.last(),
        s.last().0 <= s.last().1,
{
    lemma_contains_split_last(s, x);
    assert(s[s.len() - 1].0 <= s[s.len() - 1].1);
    if s.drop_last().contains(x) {
        let k = choose|k: int| 0 <= k < s.drop_last().len() && s.drop_last()[k] == x;
        assert(s[k] == x);
        assert(s[k].1 < s[s.len() - 1].0);
    }
}

proof fn lemma_drop_last_shape(s: Seq<(usize, usize)>)
    requires
        all_proper(s),
        separated(s),
        s.len() > 0,
    ensures
        all_proper(s.drop_last()),
        separated(s.drop_last()),
{
    let t = s.drop_last();
    assert forall|k: int| 0 <= k < t.len() implies (#[trigger] t[k]).0 <= t[k].1 by {
        assert(s[k].0 <= s[k].1);
    }
    assert forall|i: int, j: int| 0 <= i < j < t.len() implies (#[trigger] t[i]).1 < (
    #[trigger] t[j]).0 by {
        assert(s[i].1 < s[j].0);
    }
}

proof fn lemma_alike_lasts(a: Seq<(usize, usize)>, b: Seq<(usize, usize)>)
    requires
        all_proper(a),
        separated(a),
        all_proper(b),
        separated(b),
        alike(a, b),
        a.len() > 0,
    ensures
        b.len() > 0,
        a.last() == b.last(),
        alike(a.drop_last(), b.drop_last()),
{
    assert(a[a.len() - 1] == a.last());
    assert(a.contains(a.last()));
    lemma_alike_at(a, b, a.last());
    lemma_last_is_greatest(b, a.last());
    lemma_alike_at(a, b, b.last());
    lemma_last_is_greatest(a, b.last());
    lemma_drop_last_members(a, a.last());
    lemma_drop_last_members(b, b.last());
    assert(a.last() == b.last());
    assert forall|x: (usize, usize)| a.drop_last().contains(x) <==> b.drop_last().contains(x) by {
        lemma_alike_at(a, b, x);
        lemma_drop_last_members(a, x);
        lemma_drop_last_members(b, x);
    }
    reveal(alike);
}

proof fn lemma_alike_empty(a: Seq<(usize, usize)>, b: Seq<(usize, usize)>)
    requires
        alike(a, b),
        a.len() == 0,
    ensures
        b.len() == 0,
{
    if b.len() > 0 {
        assert(b.contains(b[0]));
        lemma_alike_at(a, b, b[0]);
    }
}

proof fn lemma_increasing_same_members_equal(a: Seq<(usize, usize)>, b: Seq<(usize, usize)>)
    requires
        all_proper(a),
        separated(a),
        all_proper(b),
        separated(b),
        alike(a, b),
    ensures
        a == b,
    decreases a.len(),
{
    if a.len() == 0 {
        lemma_alike_empty(a, b);
        assert(a =~= b);
    } else {
        lemma_alike_lasts(a, b);
        lemma_drop_last_shape(a);
        lemma_drop_last_shape(b);
        lemma_increasing_same_members_equal(a.drop_last(), b.drop_last());
        assert(a =~= a.drop_last().push(a.last()));
        assert(b =~= b.drop_last().push(b.last()));
    }
}

/// Proper bounds have one list of fused stretches and no other.
pub proof fn lemma_fused_is_unique(
    inputs: Seq<(usize, usize)>,
    a: Seq<(usize, usize)>,
    b: Seq<(usize, usize)>,
)
    requires
        all_proper(inputs),
        fused(inputs, a),
        fused(inputs, b),
    ensures
        a == b,
{
    assert(alike(a, b)) by {
        reveal(alike);
        assert forall|x: (usize, usize)| a.contains(x) <==> b.contains(x) by {
            if a.contains(x) {
                lemma_fused_member_transfers(inputs, a, b, x);
            }
            if b.contains(x) {
                lemma_fused_member_transfers(inputs, b, a, x);
            }
        }
    }
    lemma_increasing_same_members_equal(a, b);
}

/// The stretches are what fusing the bounds from the left gives, in some
/// order of the bounds by their starts.
pub open spec fn fuses_to(bounds: Seq<(usize, usize)>, merged: Seq<(usize, usize)>) -> bool {
    exists|sorted: Seq<(usize, usize)>| #[trigger]
        sorted_by_start(sorted) && same_members(sorted, bounds) && merged == fuse_sorted(sorted)
}

/// Fuses bounds: sorts them by start and joins every bound that starts no
/// later than the stretch before it stops. Of proper bounds the result is
/// their fused stretches.
pub fn fuse_bounds(bounds: &Vec<(usize, usize)>) -> (merged: Vec<(usize, usize)>)
    ensures
        fuses_to(bounds@, merged@),
        all_proper(bounds@) ==> fused(bounds@, merged@),
        bounds@.len() == 0 <==> merged@.len() == 0,
{
    let sorted: Vec<(usize, usize)> = sort_by_start(bounds);
    let mut merged: Vec<(usize, usize)> = Vec::new();
    if sorted.len() > 0 {
        let mut current: (usize, usize) = sorted[0];
        let mut i: usize = 1;
        assert(sorted@.take(1) =~= seq![sorted@[0]]);
        while i < sorted.len()
            invariant
                1 <= i <= sorted@.len(),
                merged@.push(current) == fuse_sorted(sorted@.take(i as int)),
            decreases sorted@.len() - i,
        {
            let next: (usize, usize) = sorted[i];
            proof {
                assert(sorted@.take(i + 1).drop_last() =~= sorted@.take(i as int));
                assert(merged@.push(current).drop_last() =~= merged@);
            }
            if next.0 <= current.1 {
                if next.1 > current.1 {
                    current = (current.0, next.1);
                }
            } else {
                merged.push(current);
                current = next;
            }
            i = i + 1;
        }
        merged.push(current);
        assert(sorted@.take(i as int) =~= sorted@);
    }
    proof {
        lemma_fuse_sorted_nonempty(sorted@);
        assert(sorted_by_start(sorted@) && same_members(sorted@, bounds@) && merged@
            == fuse_sorted(sorted@));
        if all_proper(bounds@) {
            assert forall|i: int| 0 <= i < sorted@.len() implies (#[trigger] sorted@[i]).0
                <= sorted@[i].1 by {
                assert(sorted@.contains(sorted@[i]));
                assert(bounds@.contains(sorted@[i]));
                let k = choose|k: int| 0 <= k < bounds@.len() && bounds@[k] == sorted@[i];
                assert(bounds@[k].0 <= bounds@[k].1);
            }
            lemma_fuse_sorted_fused(sorted@);
            lemma_fused_same_members(sorted@, bounds@, merged@);
        }
    }
    merged
}

} // verus!
