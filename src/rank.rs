use vstd::prelude::*;

use crate::context::Context;
use crate::error::Error;
use crate::group::{lemma_section_ranks_permutation, section_rank, section_ranks, sort_order};
use crate::num::Num;
use crate::window::{chunk_ranks, ts_rank_chunk};
use vstd::slice::slice_subrange;

verus! {

/// The chunk length used for an input of `len` elements: the context's, or
/// one where the context's is zero (an input shorter than its group count).
pub open spec fn effective_chunk(ctx: Context, len: nat) -> nat {
    if ctx.chunk_size_spec(len) == 0 {
        1
    } else {
        ctx.chunk_size_spec(len)
    }
}

/// The chunk length that windowed ranking splits an input of `len` elements
/// by: never zero.
pub fn effective_chunk_size(ctx: &Context, len: usize) -> (r: usize)
    ensures
        r == effective_chunk(*ctx, len as nat),
        r >= 1,
{
    let cs = ctx.chunk_size(len);
    if cs == 0 {
        1
    } else {
        cs
    }
}

pub open spec fn min_int(a: int, b: int) -> int {
    if a < b {
        a
    } else {
        b
    }
}

/// The ranks of `x` from chunk boundary `c0` on, chunk by chunk.
pub open spec fn ranks_from(ctx: Context, x: Seq<Num>, periods: nat, cs: nat, c0: int) -> Seq<
    Option<usize>,
>
    decreases x.len() - c0,
{
    if cs == 0 || c0 < 0 || c0 >= x.len() {
        Seq::empty()
    } else {
        let c1 = min_int(c0 + cs, x.len() as int);
        chunk_ranks(ctx, x.subrange(c0, c1), periods) + ranks_from(ctx, x, periods, cs, c1)
    }
}

/// The windowed ranks of the whole series: each chunk ranked on its own.
pub open spec fn ts_ranks(ctx: Context, x: Seq<Num>, periods: nat) -> Seq<Option<usize>> {
    ranks_from(ctx, x, periods, effective_chunk(ctx, x.len()), 0)
}

proof fn lemma_ranks_from_len(ctx: Context, x: Seq<Num>, periods: nat, cs: nat, c0: int)
    requires
        cs > 0,
        0 <= c0 <= x.len(),
    ensures
        ranks_from(ctx, x, periods, cs, c0).len() == x.len() - c0,
    decreases x.len() - c0,
{
    if c0 < x.len() {
        lemma_ranks_from_len(ctx, x, periods, cs, min_int(c0 + cs, x.len() as int));
    }
}

/// The windowed ranks have as many entries as the series.
pub proof fn lemma_ts_ranks_len(ctx: Context, x: Seq<Num>, periods: nat)
    ensures
        ts_ranks(ctx, x, periods).len() == x.len(),
{
    lemma_ranks_from_len(ctx, x, periods, effective_chunk(ctx, x.len()), 0);
}

proof fn lemma_ranks_from_unit(ctx: Context, x: Seq<Num>, cs: nat, c0: int)
    requires
        cs > 0,
        0 <= c0 <= x.len(),
    ensures
        forall|j: int|
            0 <= j < x.len() - c0 ==> #[trigger] ranks_from(ctx, x, 1, cs, c0)[j] == Some(1usize),
    decreases x.len() - c0,
{
    if c0 < x.len() {
        let c1 = min_int(c0 + cs, x.len() as int);
        lemma_ranks_from_unit(ctx, x, cs, c1);
        lemma_ranks_from_len(ctx, x, 1, cs, c1);
        let head = chunk_ranks(ctx, x.subrange(c0, c1), 1);
        assert forall|j: int| 0 <= j < x.len() - c0 implies #[trigger] ranks_from(
            ctx,
            x,
            1,
            cs,
            c0,
        )[j] == Some(1usize) by {
            if j >= head.len() {
                assert(ranks_from(ctx, x, 1, cs, c0)[j] == ranks_from(ctx, x, 1, cs, c1)[j
                    - head.len()]);
            }
        }
    }
}

/// With a window of one, every position ranks 1, whatever the values.
pub proof fn lemma_unit_window_ranks_one(ctx: Context, x: Seq<Num>)
    ensures
        forall|j: int| 0 <= j < x.len() ==> #[trigger] ts_ranks(ctx, x, 1)[j] == Some(1usize),
{
    lemma_ranks_from_unit(ctx, x, effective_chunk(ctx, x.len()), 0);
}

/// Ranks each value of `input` among the last `periods` values of its chunk,
/// itself included, into `r`; `periods` zero ranks among all earlier values of
/// the chunk. Fails, leaving `r` as it was, where the lengths differ.
pub fn ta_ts_rank(ctx: &Context, r: &mut Vec<Option<usize>>, input: &[Num], periods: usize) -> (res:
    Result<(), Error>)
    ensures
        res is Err <==> old(r)@.len() != input@.len(),
        res is Err ==> res == Err::<(), Error>(Error::LengthMismatch(old(r)@.len() as usize, input@.len() as usize))
            && final(r)@ == old(r)@,
        res is Ok ==> final(r)@ == ts_ranks(*ctx, input@, periods as nat),
        res is Ok ==> final(r)@.len() == input@.len(),
        final(r)@.len() == old(r)@.len(),
{
    let n = input.len();
    if r.len() != n {
        return Err(Error::LengthMismatch(r.len(), n));
    }
    let cs = effective_chunk_size(ctx, n);
    let ghost full = ts_ranks(*ctx, input@, periods as nat);
    proof {
        lemma_ranks_from_len(*ctx, input@, periods as nat, cs as nat, 0);
        assert(full =~= r@.subrange(0, 0) + ranks_from(*ctx, input@, periods as nat, cs as nat, 0));
    }
    let mut c0: usize = 0;
    while c0 < n
        invariant
            c0 <= n,
            n == input@.len(),
            r@.len() == n,
            cs > 0,
            cs == effective_chunk(*ctx, n as nat),
            full == ts_ranks(*ctx, input@, periods as nat),
            full == r@.subrange(0, c0 as int) + ranks_from(
                *ctx,
                input@,
                periods as nat,
                cs as nat,
                c0 as int,
            ),
        decreases n - c0,
    {
        let c1: usize = if cs < n - c0 {
            c0 + cs
        } else {
            n
        };
        let xs = slice_subrange(input, c0, c1);
        let part = ts_rank_chunk(ctx, xs, periods);
        let ghost tail = ranks_from(*ctx, input@, periods as nat, cs as nat, c1 as int);
        assert(ranks_from(*ctx, input@, periods as nat, cs as nat, c0 as int) == part@ + tail);
        let ghost before = r@;
        let mut i: usize = 0;
        while i < part.len()
            invariant
                c0 + part@.len() == c1 <= n,
                r@.len() == n,
                0 <= i <= part@.len(),
                forall|j: int| 0 <= j < c0 ==> r@[j] == before[j],
                forall|j: int| 0 <= j < i ==> r@[c0 + j] == part@[j],
            decreases part@.len() - i,
        {
            r[c0 + i] = part[i];
            i = i + 1;
        }
        assert(full =~= r@.subrange(0, c1 as int) + tail);
        c0 = c1;
    }
    proof {
        lemma_ranks_from_len(*ctx, input@, periods as nat, cs as nat, c0 as int);
        assert(r@ =~= full);
    }
    Ok(())
}

/// The ranks of the cross-sections of `x` from `c0` on: each run of `g`
/// consecutive values (one per group) ranked among themselves. A shorter run
/// left at the end is not a cross-section.
pub open spec fn sections_from(x: Seq<Num>, g: nat, c0: int) -> Seq<Option<usize>>
    decreases x.len() - c0,
{
    if g == 0 || c0 < 0 || c0 + g > x.len() {
        Seq::empty()
    } else {
        section_ranks(x.subrange(c0, c0 + g)).map_values(|v: usize| Some(v)) + sections_from(
            x,
            g,
            c0 + g,
        )
    }
}

/// What `ta_rank` leaves in an output that held `prev`: with fewer than two
/// groups, the ranks over each chunk's whole history; else the cross-section
/// ranks, and `prev` where no whole cross-section stands.
pub open spec fn group_ranks(ctx: Context, x: Seq<Num>, prev: Seq<Option<usize>>) -> Seq<
    Option<usize>,
> {
    if ctx.groups < 2 {
        ts_ranks(ctx, x, 0)
    } else {
        let s = sections_from(x, ctx.groups as nat, 0);
        s + prev.subrange(s.len() as int, prev.len() as int)
    }
}

proof fn lemma_sections_from_len(x: Seq<Num>, g: nat, c0: int)
    requires
        g > 0,
        0 <= c0 <= x.len(),
    ensures
        sections_from(x, g, c0).len() <= x.len() - c0,
        c0 + sections_from(x, g, c0).len() + g > x.len(),
    decreases x.len() - c0,
{
    if c0 + g <= x.len() {
        lemma_sections_from_len(x, g, c0 + g);
    }
}

proof fn lemma_sections_from_at(x: Seq<Num>, g: nat, c0: int, c: int, k: int)
    requires
        g > 0,
        0 <= c0,
        0 <= c,
        0 <= k < g,
        c0 + (c + 1) * g <= x.len(),
    ensures
        sections_from(x, g, c0).len() > c * g + k,
        sections_from(x, g, c0)[c * g + k] == Some(
            section_ranks(x.subrange(c0 + c * g, c0 + c * g + g))[k],
        ),
    decreases c,
{
    assert(c0 + g <= c0 + (c + 1) * g) by (nonlinear_arith)
        requires
            c >= 0,
            g > 0,
    ;
    let head = section_ranks(x.subrange(c0, c0 + g)).map_values(|v: usize| Some(v));
    let tail = sections_from(x, g, c0 + g);
    assert(sections_from(x, g, c0) == head + tail);
    if c > 0 {
        assert(c0 + g + c * g == c0 + (c + 1) * g) by (nonlinear_arith);
        assert((c - 1) * g + k + g == c * g + k) by (nonlinear_arith);
        assert(c0 + g + (c - 1) * g == c0 + c * g) by (nonlinear_arith);
        lemma_sections_from_at(x, g, c0 + g, c - 1, k);
        assert(c * g + k >= g) by (nonlinear_arith)
            requires
                c > 0,
                k >= 0,
        ;
    } else {
        assert(c * g == 0) by (nonlinear_arith)
            requires
                c == 0,
        ;
    }
}

/// With two groups or more, every whole cross-section of what `ta_rank`
/// writes holds the ranks 1 to the group count, each once, whatever the
/// values, ties and NaNs included: the value at the place `v - 1` of the
/// cross-section's ranking order gets rank `v`.
pub proof fn lemma_group_ranks_permutation(
    ctx: Context,
    x: Seq<Num>,
    prev: Seq<Option<usize>>,
    c: int,
)
    requires
        ctx.groups >= 2,
        0 <= c,
        (c + 1) * ctx.groups <= x.len(),
        x.len() <= usize::MAX,
        prev.len() == x.len(),
    ensures
        ({
            let g = ctx.groups as int;
            let sec = group_ranks(ctx, x, prev).subrange(c * g, c * g + g);
            let s = x.subrange(c * g, c * g + g);
            &&& forall|k: int| 0 <= k < g ==> (#[trigger] sec[k]) is Some && 1 <= sec[k]->0 <= g
            &&& forall|k1: int, k2: int| 0 <= k1 < k2 < g ==> #[trigger] sec[k1] != #[trigger] sec[k2]
            &&& forall|v: int|
                1 <= v <= g ==> sec[#[trigger] sort_order(s, g as nat)[v - 1] as int] == Some(
                    v as usize,
                )
        }),
{
    let g = ctx.groups as int;
    let out = group_ranks(ctx, x, prev);
    let s = x.subrange(c * g, c * g + g);
    assert(c * g + g <= x.len()) by (nonlinear_arith)
        requires
            (c + 1) * g <= x.len(),
    ;
    assert(c * g >= 0) by (nonlinear_arith)
        requires
            c >= 0,
            g >= 2,
    ;
    lemma_sections_from_len(x, g as nat, 0);
    let sec = out.subrange(c * g, c * g + g);
    lemma_section_ranks_permutation(s);
    let sf = sections_from(x, g as nat, 0);
    assert(out == sf + prev.subrange(sf.len() as int, prev.len() as int));
    assert forall|k: int| 0 <= k < g implies sec[k] == Some(section_ranks(s)[k]) by {
        lemma_sections_from_at(x, g as nat, 0, c, k);
        assert(c * g + k < sf.len());
        assert(out.len() == x.len());
        assert(sec[k] == out[c * g + k]);
        assert(out[c * g + k] == sf[c * g + k]);
        assert(0 + c * g == c * g);
    }
    assert forall|k: int| 0 <= k < g implies (#[trigger] sec[k]) is Some && 1 <= sec[k]->0 <= g by {
        assert(sec[k] == Some(section_ranks(s)[k]));
    }
    assert forall|k1: int, k2: int| 0 <= k1 < k2 < g implies #[trigger] sec[k1] != #[trigger] sec[k2] by {
        assert(sec[k1] == Some(section_ranks(s)[k1]));
        assert(sec[k2] == Some(section_ranks(s)[k2]));
    }
    assert forall|v: int| 1 <= v <= g implies sec[#[trigger] sort_order(s, g as nat)[v - 1] as int]
        == Some(v as usize) by {
        let k = sort_order(s, g as nat)[v - 1] as int;
        assert(0 <= k < g);
        assert(section_ranks(s)[k] == v);
        assert(sec[k] == Some(section_ranks(s)[k]));
    }
}

/// Ranks `input`, laid out as cross-sections of one value per group (the
/// group varying fastest), within each cross-section, into `r`. With fewer
/// than two groups it ranks each chunk over its whole history instead. Fails,
/// leaving `r` as it was, where the lengths differ.
pub fn ta_rank(ctx: &Context, r: &mut Vec<Option<usize>>, input: &[Num]) -> (res: Result<
    (),
    Error,
>)
    ensures
        res is Err <==> old(r)@.len() != input@.len(),
        res is Err ==> res == Err::<(), Error>(
            Error::LengthMismatch(old(r)@.len() as usize, input@.len() as usize),
        ) && final(r)@ == old(r)@,
        res is Ok ==> final(r)@ == group_ranks(*ctx, input@, old(r)@),
        res is Ok ==> final(r)@.len() == input@.len(),
        final(r)@.len() == old(r)@.len(),
{
    let n = input.len();
    if r.len() != n {
        return Err(Error::LengthMismatch(r.len(), n));
    }
    if ctx.groups() < 2 {
        return ta_ts_rank(ctx, r, input, 0);
    }
    let g = ctx.groups();
    let ghost prev = r@;
    let ghost sfull = sections_from(input@, g as nat, 0);
    assert(sfull =~= r@.subrange(0, 0) + sections_from(input@, g as nat, 0));
    let mut c0: usize = 0;
    while c0 <= n && g <= n - c0
        invariant
            c0 <= n,
            n == input@.len(),
            r@.len() == n,
            prev.len() == n,
            g >= 2,
            g == ctx.groups,
            sfull == sections_from(input@, g as nat, 0),
            sfull == r@.subrange(0, c0 as int) + sections_from(input@, g as nat, c0 as int),
            r@.subrange(c0 as int, n as int) == prev.subrange(c0 as int, n as int),
        decreases n - c0,
    {
        let c1 = c0 + g;
        let xs = slice_subrange(input, c0, c1);
        let part = section_rank(xs);
        let ghost tail = sections_from(input@, g as nat, c1 as int);
        let ghost head = section_ranks(xs@).map_values(|v: usize| Some(v));
        assert(sections_from(input@, g as nat, c0 as int) == head + tail);
        let ghost before = r@;
        let mut i: usize = 0;
        while i < g
            invariant
                c0 + g == c1 <= n,
                part@.len() == g,
                head == part@.map_values(|v: usize| Some(v)),
                r@.len() == n,
                0 <= i <= g,
                forall|j: int| 0 <= j < c0 ==> r@[j] == before[j],
                forall|j: int| c1 <= j < n ==> r@[j] == before[j],
                forall|j: int| 0 <= j < i ==> r@[c0 + j] == head[j],
            decreases g - i,
        {
            r[c0 + i] = Some(part[i]);
            i = i + 1;
        }
        assert(sfull =~= r@.subrange(0, c1 as int) + tail);
        assert(r@.subrange(c1 as int, n as int) =~= before.subrange(c1 as int, n as int));
        assert(prev.subrange(c1 as int, n as int) =~= prev.subrange(c0 as int, n as int).subrange(
            g as int,
            n - c0,
        ));
        assert(before.subrange(c1 as int, n as int) =~= before.subrange(c0 as int, n as int).subrange(
            g as int,
            n - c0,
        ));
        c0 = c1;
    }
    proof {
        lemma_sections_from_len(input@, g as nat, c0 as int);
        assert(sections_from(input@, g as nat, c0 as int) =~= Seq::<Option<usize>>::empty());
        assert(r@ =~= sfull + prev.subrange(sfull.len() as int, n as int));
    }
    Ok(())
}

} // verus!
