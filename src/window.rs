use vstd::prelude::*;

use crate::context::Context;
use crate::num::Num;
use crate::order::{total_cmp, OrderedFloat};
use core::cmp::Ordering;

verus! {

/// The number of positions `lo` up to `hi` (exclusive) of `xs` whose value
/// ranks below `v`.
pub open spec fn count_below(xs: Seq<Num>, lo: int, hi: int, v: Num) -> nat
    decreases hi - lo,
{
    if hi <= lo {
        0
    } else {
        count_below(xs, lo, hi - 1, v) + if total_cmp(xs[hi - 1], v) == Ordering::Less {
            1nat
        } else {
            0nat
        }
    }
}

/// The first position that the window still holds once positions `start` up
/// to `i` (exclusive) have come in: the last `periods` of them, or all of them
/// where `periods` is zero.
pub open spec fn window_low(start: int, periods: nat, i: int) -> int {
    if periods > 0 && i - periods > start {
        i - periods
    } else {
        start
    }
}

/// The rank of position `i` among the positions `lo` to `i` of `xs`: one more
/// than the number of them whose value ranks below its own, or the window's
/// length where its value is NaN.
pub open spec fn window_rank(xs: Seq<Num>, lo: int, i: int) -> int {
    if xs[i].is_nan_spec() {
        i + 1 - lo
    } else {
        1 + count_below(xs, lo, i + 1, xs[i]) as int
    }
}

/// The rank at position `i` of a chunk whose first `start` positions are
/// warm-up: none there, none under strict cycling while the window is short,
/// else the rank of the current value in its trailing window.
pub open spec fn chunk_rank_at(
    xs: Seq<Num>,
    start: int,
    periods: nat,
    strict: bool,
    i: int,
) -> Option<usize> {
    if i < start {
        None
    } else {
        let lo = window_low(start, periods, i + 1);
        if strict && i + 1 - lo < periods {
            None
        } else {
            Some(window_rank(xs, lo, i) as usize)
        }
    }
}

/// The ranks of one chunk: all 1 for a window of one, else position by
/// position as `chunk_rank_at` gives them.
pub open spec fn chunk_ranks(ctx: Context, xs: Seq<Num>, periods: nat) -> Seq<Option<usize>> {
    if periods == 1 {
        Seq::new(xs.len(), |i: int| Some(1usize))
    } else {
        let start = ctx.start_spec(xs.len()) as int;
        Seq::new(xs.len(), |i: int| chunk_rank_at(xs, start, periods, ctx.strictly_cycle, i))
    }
}

proof fn lemma_count_below_bound(xs: Seq<Num>, lo: int, hi: int, v: Num)
    requires
        lo <= hi,
    ensures
        count_below(xs, lo, hi, v) <= hi - lo,
    decreases hi - lo,
{
    if hi > lo {
        lemma_count_below_bound(xs, lo, hi - 1, v);
    }
}

proof fn lemma_count_below_same(xs: Seq<Num>, ys: Seq<Num>, lo: int, hi: int, v: Num)
    requires
        forall|k: int| lo <= k < hi ==> xs[k] == ys[k],
    ensures
        count_below(xs, lo, hi, v) == count_below(ys, lo, hi, v),
    decreases hi - lo,
{
    if hi > lo {
        lemma_count_below_same(xs, ys, lo, hi - 1, v);
    }
}

/// Every rank given past the warm-up is at least 1 and at most the number of
/// positions in its window, which is `periods` at most (where it is not zero)
/// and never more than the positions since the warm-up.
pub proof fn lemma_rank_bounds(xs: Seq<Num>, start: int, periods: nat, i: int)
    requires
        0 <= start <= i < xs.len(),
    ensures
        1 <= window_rank(xs, window_low(start, periods, i + 1), i) <= i + 1 - window_low(
            start,
            periods,
            i + 1,
        ),
        periods > 0 ==> i + 1 - window_low(start, periods, i + 1) <= periods,
        start <= window_low(start, periods, i + 1) <= i,
{
    let lo = window_low(start, periods, i + 1);
    lemma_count_below_bound(xs, lo, i, xs[i]);
    if !xs[i].is_nan_spec() {
        assert(total_cmp(xs[i], xs[i]) == Ordering::Equal);
    }
}

/// A rank depends on the values of its trailing window alone: two chunks
/// that agree on the positions of that window give the same rank there.
pub proof fn lemma_rank_depends_on_window_only(
    xs: Seq<Num>,
    ys: Seq<Num>,
    start: int,
    periods: nat,
    strict: bool,
    i: int,
)
    requires
        0 <= start <= i,
        i < xs.len(),
        i < ys.len(),
        forall|k: int| window_low(start, periods, i + 1) <= k <= i ==> xs[k] == ys[k],
    ensures
        chunk_rank_at(xs, start, periods, strict, i) == chunk_rank_at(ys, start, periods, strict, i),
{
    let lo = window_low(start, periods, i + 1);
    lemma_count_below_same(xs, ys, lo, i + 1, xs[i]);
}

fn rank_at(x: &[Num], lo: usize, i: usize) -> (r: usize)
    requires
        lo <= i < x@.len(),
    ensures
        r as int == window_rank(x@, lo as int, i as int),
{
    proof {
        lemma_rank_bounds(x@, lo as int, 0, i as int);
    }
    let key = OrderedFloat::new(x[i]);
    if key.value.is_nan() {
        return i + 1 - lo;
    }
    let mut count: usize = 0;
    let mut k: usize = lo;
    while k <= i
        invariant
            lo <= k <= i + 1,
            i < x@.len(),
            key.value == x@[i as int],
            count == count_below(x@, lo as int, k as int, x@[i as int]),
            count <= k - lo,
        decreases i + 1 - k,
    {
        match OrderedFloat::new(x[k]).cmp(&key) {
            Ordering::Less => {
                count = count + 1;
            },
            _ => {},
        }
        k = k + 1;
    }
    count + 1
}

/// Ranks one chunk of a series over a trailing window of `periods` values.
pub fn ts_rank_chunk(ctx: &Context, x: &[Num], periods: usize) -> (r: Vec<Option<usize>>)
    ensures
        r@ == chunk_ranks(*ctx, x@, periods as nat),
{
    let n = x.len();
    let mut out: Vec<Option<usize>> = Vec::new();
    if periods == 1 {
        while out.len() < n
            invariant
                out@.len() <= n,
                n == x@.len(),
                forall|j: int| 0 <= j < out@.len() ==> out@[j] == Some(1usize),
            decreases n - out@.len(),
        {
            out.push(Some(1));
        }
        assert(out@ =~= chunk_ranks(*ctx, x@, periods as nat));
        return out;
    }
    let start = ctx.start(n);
    let strict = ctx.is_strictly_cycle();
    let ghost spec_out = chunk_ranks(*ctx, x@, periods as nat);
    let mut i: usize = 0;
    while i < n
        invariant
            i <= n,
            n == x@.len(),
            start == ctx.start_spec(n as nat),
            strict == ctx.strictly_cycle,
            out@.len() == i,
            spec_out == chunk_ranks(*ctx, x@, periods as nat),
            periods != 1,
            forall|j: int| 0 <= j < i ==> out@[j] == spec_out[j],
        decreases n - i,
    {
        if i < start {
            out.push(None);
        } else {
            let lo: usize = if periods > 0 && i + 1 - start > periods {
                i + 1 - periods
            } else {
                start
            };
            if strict && i + 1 - lo < periods {
                out.push(None);
            } else {
                let rank = rank_at(x, lo, i);
                out.push(Some(rank));
            }
        }
        i = i + 1;
    }
    assert(out@ =~= spec_out);
    out
}

} // verus!
