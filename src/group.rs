use vstd::prelude::*;

use crate::num::{nan_free, Num};
use crate::order::{total_cmp, OrderedFloat};
use core::cmp::Ordering;

verus! {

/// Where position `k` of `s` goes in `p`, a list of positions already in
/// order: just after the last entry whose value it does not rank below, found
/// scanning from the right end.
pub open spec fn tail_pos(p: Seq<usize>, s: Seq<Num>, k: usize) -> int
    decreases p.len(),
{
    if p.len() == 0 || total_cmp(s[k as int], s[p.last() as int]) != Ordering::Less {
        p.len() as int
    } else {
        tail_pos(p.drop_last(), s, k)
    }
}

/// The positions `0..n` of `s` in ranking order, each inserted in turn after
/// those it does not rank below, so that equal values keep their order.
pub open spec fn sort_order(s: Seq<Num>, n: nat) -> Seq<usize>
    decreases n,
{
    if n == 0 {
        Seq::empty()
    } else {
        let p = sort_order(s, (n - 1) as nat);
        p.insert(tail_pos(p, s, (n - 1) as usize), (n - 1) as usize)
    }
}

/// The rank of position `k` of `s`: one more than its place in the ranking
/// order.
pub open spec fn rank_in_section(s: Seq<Num>, k: int) -> int {
    let order = sort_order(s, s.len());
    1 + choose|p: int| 0 <= p < order.len() && order[p] as int == k
}

/// The ranks of a cross-section, one for each of its positions.
pub open spec fn section_ranks(s: Seq<Num>) -> Seq<usize> {
    Seq::new(s.len(), |k: int| rank_in_section(s, k) as usize)
}

pub open spec fn occurs(order: Seq<usize>, x: usize) -> bool {
    exists|i: int| 0 <= i < order.len() && order[i] == x
}

/// The entries of `order` are exactly the positions `0..n`, each once.
pub open spec fn is_order_of(order: Seq<usize>, n: nat) -> bool {
    &&& order.len() == n
    &&& forall|i: int| 0 <= i < n ==> #[trigger] order[i] < n
    &&& forall|i: int, j: int| 0 <= i < j < n ==> order[i] != order[j]
    &&& forall|x: usize| x < n ==> #[trigger] occurs(order, x)
}

proof fn lemma_tail_pos_bounds(p: Seq<usize>, s: Seq<Num>, k: usize)
    ensures
        0 <= tail_pos(p, s, k) <= p.len(),
    decreases p.len(),
{
    if p.len() > 0 && total_cmp(s[k as int], s[p.last() as int]) == Ordering::Less {
        lemma_tail_pos_bounds(p.drop_last(), s, k);
    }
}

proof fn lemma_sort_order_is_order(s: Seq<Num>, n: nat)
    requires
        n <= usize::MAX,
    ensures
        is_order_of(sort_order(s, n), n),
    decreases n,
{
    if n > 0 {
        let p = sort_order(s, (n - 1) as nat);
        lemma_sort_order_is_order(s, (n - 1) as nat);
        let k = (n - 1) as usize;
        let m = tail_pos(p, s, k);
        lemma_tail_pos_bounds(p, s, k);
        let q = p.insert(m, k);
        assert(q.len() == n);
        assert forall|i: int| 0 <= i < n implies #[trigger] q[i] < n by {
            if i > m {
                assert(q[i] == p[i - 1]);
            }
        }
        assert forall|i: int, j: int| 0 <= i < j < n implies q[i] != q[j] by {
            assert(q[m] == k);
            if j < m {
                assert(q[i] == p[i] && q[j] == p[j]);
            } else if j == m {
                assert(q[i] == p[i] && p[i] < n - 1);
            } else if i < m {
                assert(q[i] == p[i] && q[j] == p[j - 1]);
            } else if i == m {
                assert(q[j] == p[j - 1] && p[j - 1] < n - 1);
            } else {
                assert(q[i] == p[i - 1] && q[j] == p[j - 1]);
            }
        }
        assert forall|x: usize| x < n implies #[trigger] occurs(q, x) by {
            if x == k {
                assert(q[m] == x);
            } else {
                assert(occurs(p, x));
                let i = choose|i: int| 0 <= i < n - 1 && #[trigger] p[i] == x;
                if i < m {
                    assert(q[i] == x);
                } else {
                    assert(q[i + 1] == x);
                }
            }
        }
    }
}

/// In every cross-section the ranks are exactly 1 to its size, each given to
/// one position, whatever the values, ties and NaNs included.
pub proof fn lemma_section_ranks_permutation(s: Seq<Num>)
    requires
        s.len() <= usize::MAX,
    ensures
        section_ranks(s).len() == s.len(),
        forall|k: int| 0 <= k < s.len() ==> 1 <= #[trigger] section_ranks(s)[k] <= s.len(),
        forall|k1: int, k2: int|
            0 <= k1 < k2 < s.len() ==> section_ranks(s)[k1] != section_ranks(s)[k2],
        forall|v: int|
            1 <= v <= s.len() ==> section_ranks(s)[#[trigger] sort_order(s, s.len())[v - 1] as int]
                == v,
        forall|p: int| 0 <= p < s.len() ==> #[trigger] sort_order(s, s.len())[p] < s.len(),
{
    let n = s.len();
    let order = sort_order(s, n);
    lemma_sort_order_is_order(s, n);
    assert forall|k: int| 0 <= k < n implies 0 <= #[trigger] rank_in_section(s, k) - 1 < n && order[
        rank_in_section(s, k) - 1] == k by {
        assert(occurs(order, k as usize));
    }
    assert forall|k: int| 0 <= k < n implies 1 <= #[trigger] section_ranks(s)[k] <= n by {
        assert(order[rank_in_section(s, k) - 1] == k);
    }
    assert forall|k1: int, k2: int| 0 <= k1 < k2 < n implies section_ranks(s)[k1] != section_ranks(
        s,
    )[k2] by {
        assert(order[rank_in_section(s, k1) - 1] == k1);
        assert(order[rank_in_section(s, k2) - 1] == k2);
    }
    assert forall|v: int| 1 <= v <= n implies section_ranks(s)[#[trigger] sort_order(
        s,
        n,
    )[v - 1] as int] == v by {
        let k = order[v - 1] as int;
        assert(order[rank_in_section(s, k) - 1] == k);
        if rank_in_section(s, k) != v {
            assert(order[v - 1] != order[rank_in_section(s, k) - 1]);
        }
    }
}

/// Position `a` of `s` comes before position `b` in ascending order: a lower
/// value, or an equal one standing earlier.
pub open spec fn before(s: Seq<Num>, a: int, b: int) -> bool {
    s[a].key() < s[b].key() || (s[a].key() == s[b].key() && a < b)
}

/// Every entry from `tail_pos` on ranks above `k`; the one just before it
/// does not.
proof fn lemma_tail_pos_split(p: Seq<usize>, s: Seq<Num>, k: usize)
    ensures
        forall|q: int|
            tail_pos(p, s, k) <= q < p.len() ==> total_cmp(s[k as int], s[#[trigger] p[q] as int])
                == Ordering::Less,
        tail_pos(p, s, k) > 0 ==> total_cmp(s[k as int], s[p[tail_pos(p, s, k) - 1] as int])
            != Ordering::Less,
    decreases p.len(),
{
    lemma_tail_pos_bounds(p, s, k);
    if p.len() > 0 && total_cmp(s[k as int], s[p.last() as int]) == Ordering::Less {
        let d = p.drop_last();
        lemma_tail_pos_split(d, s, k);
        lemma_tail_pos_bounds(d, s, k);
        assert forall|q: int| tail_pos(p, s, k) <= q < p.len() implies total_cmp(
            s[k as int],
            s[#[trigger] p[q] as int],
        ) == Ordering::Less by {
            if q < d.len() {
                assert(p[q] == d[q]);
            }
        }
        if tail_pos(p, s, k) > 0 {
            assert(p[tail_pos(p, s, k) - 1] == d[tail_pos(d, s, k) - 1]);
        }
    }
}

proof fn lemma_sort_order_ascending(s: Seq<Num>, n: nat)
    requires
        n <= usize::MAX,
        n <= s.len(),
        nan_free(s),
    ensures
        forall|i: int, j: int|
            0 <= i < j < n ==> before(
                s,
                #[trigger] sort_order(s, n)[i] as int,
                #[trigger] sort_order(s, n)[j] as int,
            ),
    decreases n,
{
    if n > 0 {
        let p = sort_order(s, (n - 1) as nat);
        lemma_sort_order_ascending(s, (n - 1) as nat);
        lemma_sort_order_is_order(s, (n - 1) as nat);
        let k = (n - 1) as usize;
        let m = tail_pos(p, s, k);
        lemma_tail_pos_bounds(p, s, k);
        lemma_tail_pos_split(p, s, k);
        let q = p.insert(m, k);
        assert(q == sort_order(s, n));
        assert(!s[k as int].is_nan_spec());
        assert forall|i: int, j: int| 0 <= i < j < n implies before(s, q[i] as int, q[j] as int) by {
            assert(q[m] == k);
            if j < m {
                assert(q[i] == p[i] && q[j] == p[j]);
            } else if j == m {
                assert(q[i] == p[i]);
                assert(!s[p[m - 1] as int].is_nan_spec());
                assert(p[m - 1] < k);
                if i < m - 1 {
                    assert(before(s, p[i] as int, p[m - 1] as int));
                }
            } else if i < m {
                assert(q[i] == p[i] && q[j] == p[j - 1]);
            } else if i == m {
                assert(q[j] == p[j - 1]);
                assert(!s[p[j - 1] as int].is_nan_spec());
            } else {
                assert(q[i] == p[i - 1] && q[j] == p[j - 1]);
            }
        }
    }
}

/// In a cross-section free of NaN, ranks ascend with the values, and equal
/// values are ranked in the order their groups stand.
pub proof fn lemma_section_ranks_ascending(s: Seq<Num>, a: int, b: int)
    requires
        s.len() <= usize::MAX,
        nan_free(s),
        0 <= a < s.len(),
        0 <= b < s.len(),
        before(s, a, b),
    ensures
        section_ranks(s)[a] < section_ranks(s)[b],
{
    let n = s.len();
    let order = sort_order(s, n);
    lemma_section_ranks_permutation(s);
    lemma_sort_order_is_order(s, n);
    lemma_sort_order_ascending(s, n);
    assert(occurs(order, a as usize));
    let i = choose|i: int| 0 <= i < order.len() && order[i] == a as usize;
    assert(0 <= i < order.len() && order[i] as int == a);
    assert(occurs(order, b as usize));
    let j = choose|j: int| 0 <= j < order.len() && order[j] == b as usize;
    assert(0 <= j < order.len() && order[j] as int == b);
    let pa = rank_in_section(s, a) - 1;
    let pb = rank_in_section(s, b) - 1;
    if pa >= pb {
        if pa > pb {
            assert(before(s, order[pb] as int, order[pa] as int));
        }
    }
}

fn less(s: &[Num], a: usize, b: usize) -> (r: bool)
    requires
        a < s@.len(),
        b < s@.len(),
    ensures
        r == (total_cmp(s@[a as int], s@[b as int]) == Ordering::Less),
{
    match OrderedFloat::new(s[a]).cmp(&OrderedFloat::new(s[b])) {
        Ordering::Less => true,
        _ => false,
    }
}

/// Ranks the values of one cross-section from 1 up, in ranking order, equal
/// values in the order they stand.
pub fn section_rank(s: &[Num]) -> (r: Vec<usize>)
    ensures
        r@ == section_ranks(s@),
{
    let n = s.len();
    let mut order: Vec<usize> = Vec::new();
    let mut k: usize = 0;
    while k < n
        invariant
            k <= n == s@.len(),
            order@ == sort_order(s@, k as nat),
            is_order_of(order@, k as nat),
        decreases n - k,
    {
        let ghost p = order@;
        assert(p.subrange(0, p.len() as int) =~= p);
        let mut j: usize = order.len();
        while j > 0 && less(s, k, order[j - 1])
            invariant
                k < n == s@.len(),
                0 <= j <= p.len() == k,
                order@ == p,
                is_order_of(p, k as nat),
                tail_pos(p, s@, k) == tail_pos(p.subrange(0, j as int), s@, k),
            decreases j,
        {
            assert(p.subrange(0, j as int).drop_last() =~= p.subrange(0, j - 1));
            j = j - 1;
        }
        order.insert(j, k);
        proof {
            lemma_sort_order_is_order(s@, (k + 1) as nat);
        }
        k = k + 1;
    }
    let mut ranks: Vec<usize> = Vec::new();
    let mut i: usize = 0;
    while i < n
        invariant
            i <= n == s@.len(),
            ranks@.len() == i,
        decreases n - i,
    {
        ranks.push(0);
        i = i + 1;
    }
    let mut q: usize = 0;
    while q < n
        invariant
            q <= n == s@.len(),
            ranks@.len() == n,
            order@ == sort_order(s@, n as nat),
            is_order_of(order@, n as nat),
            forall|p: int| 0 <= p < q ==> ranks@[order@[p] as int] == p + 1,
        decreases n - q,
    {
        ranks[order[q]] = q + 1;
        q = q + 1;
    }
    proof {
        let order = order@;
        assert forall|k: int| 0 <= k < n implies ranks@[k] == section_ranks(s@)[k] by {
            assert(occurs(order, k as usize));
            let i = choose|i: int| 0 <= i < order.len() && order[i] == k as usize;
            assert(0 <= i < order.len() && order[i] as int == k);
            let p = rank_in_section(s@, k) - 1;
            if i != p {
                assert(order[i] != order[p]);
            }
        }
        assert(ranks@ =~= section_ranks(s@));
    }
    ranks
}

} // verus!
