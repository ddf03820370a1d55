//! Aggregates over a separation sample: sum, sum of squares, sorted order
//! and the central elements for the median.
//!
//! The mean, population standard deviation and median themselves are simple
//! arithmetic over these integer aggregates and are left to the caller.

use vstd::prelude::*;

verus! {

broadcast use
    vstd::seq_lib::to_multiset_contains,
    vstd::seq_lib::to_multiset_build,
    vstd::seq_lib::to_multiset_insert,
    vstd::seq_lib::to_multiset_len,
    vstd::multiset::group_multiset_axioms;

/// Sum of a sequence of naturals.
pub open spec fn sum_of(s: Seq<nat>) -> nat
    decreases s.len(),
{
    if s.len() == 0 {
        0
    } else {
        sum_of(s.drop_last()) + s.last()
    }
}

/// Sum of the squares of a sequence of naturals.
pub open spec fn sum_sq_of(s: Seq<nat>) -> nat
    decreases s.len(),
{
    if s.len() == 0 {
        0
    } else {
        sum_sq_of(s.drop_last()) + s.last() * s.last()
    }
}

/// Ascending order.
pub open spec fn is_sorted(s: Seq<usize>) -> bool {
    forall|i: int, j: int| 0 <= i <= j < s.len() ==> s[i] <= s[j]
}

proof fn lemma_sum_take_step(s: Seq<nat>, i: int)
    requires
        0 <= i < s.len(),
    ensures
        sum_of(s.take(i + 1)) == sum_of(s.take(i)) + s[i],
        sum_sq_of(s.take(i + 1)) == sum_sq_of(s.take(i)) + s[i] * s[i],
{
    assert(s.take(i + 1).drop_last() =~= s.take(i));
    assert(s.take(i + 1).last() == s[i]);
}

proof fn lemma_sum_sq_prefix_le(s: Seq<nat>, j: int)
    requires
        0 <= j <= s.len(),
    ensures
        sum_sq_of(s.take(j)) <= sum_sq_of(s),
    decreases s.len() - j,
{
    if j < s.len() {
        lemma_sum_take_step(s, j);
        lemma_sum_sq_prefix_le(s, j + 1);
    } else {
        assert(s.take(j) =~= s);
    }
}

/// Sum of a separation sample. The result cannot overflow: the sample holds
/// at most `usize::MAX` entries, each at most `usize::MAX`.
pub fn separation_sum(sample: &Vec<usize>) -> (total: u128)
    ensures
        total == sum_of(sample@.map_values(|d: usize| d as nat)),
{
    let ghost m = sample@.map_values(|d: usize| d as nat);
    let mut total: u128 = 0;
    let mut i: usize = 0;
    proof {
        assert(m.take(0) =~= Seq::<nat>::empty());
    }
    while i < sample.len()
        invariant
            i <= sample@.len(),
            m == sample@.map_values(|d: usize| d as nat),
            total == sum_of(m.take(i as int)),
            total <= (i as u128) * 0xFFFF_FFFF_FFFF_FFFFu128,
        decreases sample@.len() - i,
    {
        let x = sample[i];
        proof {
            lemma_sum_take_step(m, i as int);
            assert(m[i as int] == x as nat);
            assert((x as u128) <= 0xFFFF_FFFF_FFFF_FFFFu128);
            assert((i as u128) + 1 <= 0x1_0000_0000_0000_0000u128);
            assert(total + (x as u128) <= ((i as u128) + 1) * 0xFFFF_FFFF_FFFF_FFFFu128
                && ((i as u128) + 1) * 0xFFFF_FFFF_FFFF_FFFFu128 <= u128::MAX) by (nonlinear_arith)
                requires
                    total <= (i as u128) * 0xFFFF_FFFF_FFFF_FFFFu128,
                    (x as u128) <= 0xFFFF_FFFF_FFFF_FFFFu128,
                    (i as u128) + 1 <= 0x1_0000_0000_0000_0000u128,
            ;
        }
        total = total + (x as u128);
        i = i + 1;
    }
    proof {
        assert(m.take(sample@.len() as int) =~= m);
    }
    total
}

/// Sum of the squares of a separation sample, or `None` in the (practically
/// unreachable) case that the exact sum does not fit in a `u128`.
pub fn separation_sum_squares(sample: &Vec<usize>) -> (r: Option<u128>)
    ensures
        match r {
            Some(v) => v == sum_sq_of(sample@.map_values(|d: usize| d as nat)),
            None => sum_sq_of(sample@.map_values(|d: usize| d as nat)) > u128::MAX,
        },
{
    let ghost m = sample@.map_values(|d: usize| d as nat);
    let mut total: u128 = 0;
    let mut i: usize = 0;
    proof {
        assert(m.take(0) =~= Seq::<nat>::empty());
    }
    while i < sample.len()
        invariant
            i <= sample@.len(),
            m == sample@.map_values(|d: usize| d as nat),
            total == sum_sq_of(m.take(i as int)),
        decreases sample@.len() - i,
    {
        let x = sample[i];
        proof {
            lemma_sum_take_step(m, i as int);
            assert(m[i as int] == x as nat);
            assert((x as u128) * (x as u128) <= 0xFFFF_FFFF_FFFF_FFFFu128
                * 0xFFFF_FFFF_FFFF_FFFFu128) by (nonlinear_arith)
                requires
                    (x as u128) <= 0xFFFF_FFFF_FFFF_FFFFu128,
            ;
        }
        let sq: u128 = (x as u128) * (x as u128);
        if total > u128::MAX - sq {
            proof {
                lemma_sum_sq_prefix_le(m, i + 1);
            }
            return None;
        }
        total = total + sq;
        i = i + 1;
    }
    proof {
        assert(m.take(sample@.len() as int) =~= m);
    }
    Some(total)
}

/// The sample in ascending order.
#[verifier::loop_isolation(false)]
pub fn sort_ascending(xs: &Vec<usize>) -> (r: Vec<usize>)
    ensures
        is_sorted(r@),
        r@.to_multiset() == xs@.to_multiset(),
{
    let mut out: Vec<usize> = Vec::new();
    proof {
        assert(out@ =~= xs@.take(0));
    }
    let mut i: usize = 0;
    while i < xs.len()
        invariant
            i <= xs@.len(),
            is_sorted(out@),
            out@.to_multiset() == xs@.take(i as int).to_multiset(),
        decreases xs@.len() - i,
    {
        let x = xs[i];
        let mut pos: usize = 0;
        while pos < out.len() && out[pos] <= x
            invariant
                pos <= out@.len(),
                forall|p: int| 0 <= p < pos ==> (#[trigger] out@[p]) <= x,
            decreases out@.len() - pos,
        {
            pos = pos + 1;
        }
        let ghost pre = out@;
        out.insert(pos, x);
        proof {
            assert forall|a: int, b: int| 0 <= a <= b < out@.len() implies out@[a] <= out@[b] by {
                if b < pos {
                    assert(out@[a] == pre[a] && out@[b] == pre[b]);
                } else if a > pos {
                    assert(out@[a] == pre[a - 1] && out@[b] == pre[b - 1]);
                } else if a == pos && b == pos {
                } else if a < pos && b == pos {
                    assert(out@[a] == pre[a]);
                } else if a == pos && b > pos {
                    assert(out@[b] == pre[b - 1]);
                    assert(pos < pre.len() ==> x < pre[pos as int]);
                    assert(pre[pos as int] <= pre[b - 1]);
                } else {
                    assert(out@[a] == pre[a] && out@[b] == pre[b - 1]);
                    assert(pos < pre.len() ==> x < pre[pos as int]);
                    if a < pos && b > pos {
                        assert(pre[a] <= x || pre[a] <= pre[b - 1]);
                        assert(pre[a] <= x);
                        assert(x < pre[pos as int] && pre[pos as int] <= pre[b - 1]);
                    }
                }
            }
            assert(xs@.take(i + 1) =~= xs@.take(i as int).push(x));
        }
        i = i + 1;
    }
    proof {
        assert(xs@.take(xs@.len() as int) =~= xs@);
    }
    out
}

/// Two sorted sequences over the same multiset are identical: sorting a
/// sample, however it is done, has exactly one possible result.
pub proof fn lemma_sorted_unique(a: Seq<usize>, b: Seq<usize>)
    requires
        is_sorted(a),
        is_sorted(b),
        a.to_multiset() == b.to_multiset(),
    ensures
        a == b,
    decreases a.len(),
{
    assert(a.len() == a.to_multiset().len());
    assert(b.len() == b.to_multiset().len());
    assert(a.len() == b.len());
    if a.len() > 0 {
        let la = a.last();
        let lb = b.last();
        assert(a.contains(la));
        assert(b.contains(lb));
        assert(b.to_multiset().count(lb) > 0);
        assert(a.to_multiset().count(lb) > 0);
        assert(a.contains(lb));
        assert(a.to_multiset().count(la) > 0);
        assert(b.to_multiset().count(la) > 0);
        assert(b.contains(la));
        let ia = choose|ia: int| 0 <= ia < a.len() && a[ia] == lb;
        assert(a[ia] <= la);
        let ib = choose|ib: int| 0 <= ib < b.len() && b[ib] == la;
        assert(b[ib] <= lb);
        assert(la == lb);
        assert(a =~= a.drop_last().push(la));
        assert(b =~= b.drop_last().push(la));
        assert(a.drop_last().push(la).to_multiset() == a.drop_last().to_multiset().insert(la));
        assert(b.drop_last().push(la).to_multiset() == b.drop_last().to_multiset().insert(la));
        assert(a.drop_last().to_multiset() =~= b.drop_last().to_multiset()) by {
            assert forall|y: usize|
                a.drop_last().to_multiset().count(y) == b.drop_last().to_multiset().count(y) by {
                assert(a.drop_last().to_multiset().insert(la).count(y)
                    == b.drop_last().to_multiset().insert(la).count(y));
            }
        }
        assert(is_sorted(a.drop_last()));
        assert(is_sorted(b.drop_last()));
        lemma_sorted_unique(a.drop_last(), b.drop_last());
        assert(a =~= b);
    } else {
        assert(a =~= b);
    }
}

/// The two central elements of the sample in ascending order: for an odd
/// sample the middle element twice, for an even sample the two middle
/// elements; `None` exactly for an empty sample. The median of the sample is
/// the arithmetic mean of the two returned values.
pub fn median_elements(sample: &Vec<usize>) -> (r: Option<(usize, usize)>)
    ensures
        r is Some <==> sample@.len() > 0,
        forall|ss: Seq<usize>|
            #![trigger is_sorted(ss)]
            is_sorted(ss) && ss.to_multiset() == sample@.to_multiset() ==> match r {
                Some(p) => ss.len() == sample@.len() && p.0 == ss[(ss.len() - 1) as int / 2]
                    && p.1 == ss[ss.len() as int / 2],
                None => true,
            },
{
    if sample.len() == 0 {
        proof {
            assert(sample@.len() == 0);
        }
        return None;
    }
    let sorted = sort_ascending(sample);
    proof {
        assert(sorted@.to_multiset().len() == sample@.to_multiset().len());
        assert(sorted@.len() == sample@.len());
    }
    let len: usize = sorted.len();
    let a = sorted[(len - 1) / 2];
    let b = sorted[len / 2];
    proof {
        assert forall|ss: Seq<usize>|
            #![trigger is_sorted(ss)]
            is_sorted(ss) && ss.to_multiset() == sample@.to_multiset()
            implies ss.len() == sample@.len() && a == ss[(ss.len() - 1) as int / 2]
                && b == ss[ss.len() as int / 2] by {
            lemma_sorted_unique(ss, sorted@);
        }
    }
    Some((a, b))
}

}
