//! Largest-remainder allocation of a minute's invocations across trace rows.

use vstd::prelude::*;
use vstd::arithmetic::div_mod::*;
use vstd::arithmetic::mul::*;
use vstd::set_lib::*;
use crate::ranking::{below, is_strict_total, lemma_below_ext, lemma_below_finite, lemma_below_step, lemma_ranks_fill, rank_of};

verus! {

/// The sum of the weights.
pub open spec fn total_weight(w: Seq<u32>) -> int
    decreases w.len(),
{
    if w.len() == 0 {
        0
    } else {
        total_weight(w.drop_last()) + w.last()
    }
}

/// Row `i`'s whole share of `n`: `floor(n * w[i] / W)`, with `W` the total weight.
pub open spec fn share(n: int, w: Seq<u32>, i: int) -> int {
    (n * w[i]) / total_weight(w)
}

/// What is left over of row `i`'s exact share: `(n * w[i]) mod W`.
pub open spec fn share_rem(n: int, w: Seq<u32>, i: int) -> int {
    (n * w[i]) % total_weight(w)
}

/// The sum of the whole shares of the first `k` rows.
pub open spec fn shares_total(n: int, w: Seq<u32>, k: int) -> int
    decreases k,
{
    if k <= 0 {
        0
    } else {
        shares_total(n, w, k - 1) + share(n, w, k - 1)
    }
}

/// The invocations that the whole shares leave unassigned.
pub open spec fn leftover(n: int, w: Seq<u32>) -> int {
    n - shares_total(n, w, w.len() as int)
}

/// Row `j` comes before row `i` in the hand-out of the leftover: larger
/// remainder first, and among equal remainders the earlier row first.
pub open spec fn remainder_order(n: int, w: Seq<u32>) -> spec_fn(int, int) -> bool {
    |j: int, i: int|
        share_rem(n, w, j) > share_rem(n, w, i) || (share_rem(n, w, j) == share_rem(n, w, i)
            && j < i)
}

/// The count that the largest-remainder method gives row `i`: its whole share,
/// plus one if it is among the first `leftover` rows in remainder order.
pub open spec fn allocation(n: int, w: Seq<u32>, i: int) -> int {
    share(n, w, i) + if rank_of(remainder_order(n, w), w.len() as int, i) < leftover(n, w) {
        1int
    } else {
        0int
    }
}

/// The sum of the allocations of the first `k` rows.
pub open spec fn allocation_total(n: int, w: Seq<u32>, k: int) -> int
    decreases k,
{
    if k <= 0 {
        0
    } else {
        allocation_total(n, w, k - 1) + allocation(n, w, k - 1)
    }
}

/// The sum of a sequence of counts.
pub open spec fn counts_total(c: Seq<usize>) -> int
    decreases c.len(),
{
    if c.len() == 0 {
        0
    } else {
        counts_total(c.drop_last()) + c.last()
    }
}

/// The sum of the remainders of the first `k` rows.
spec fn rems_total(n: int, w: Seq<u32>, k: int) -> int
    decreases k,
{
    if k <= 0 {
        0
    } else {
        rems_total(n, w, k - 1) + share_rem(n, w, k - 1)
    }
}

proof fn lemma_total_weight_take(w: Seq<u32>, k: int)
    requires
        0 <= k < w.len(),
    ensures
        total_weight(w.take(k + 1)) == total_weight(w.take(k)) + w[k],
{
    assert(w.take(k + 1).drop_last() =~= w.take(k));
}

/// Total weights are never negative.
pub proof fn lemma_total_weight_nonneg(w: Seq<u32>)
    ensures
        total_weight(w) >= 0,
    decreases w.len(),
{
    if w.len() > 0 {
        lemma_total_weight_nonneg(w.drop_last());
    }
}

/// Whole shares and remainders together account for `n` times the weight so far.
proof fn lemma_shares_and_rems(n: int, w: Seq<u32>, k: int)
    requires
        total_weight(w) > 0,
        0 <= k <= w.len(),
    ensures
        total_weight(w) * shares_total(n, w, k) + rems_total(n, w, k) == n * total_weight(w.take(k)),
        rems_total(n, w, k) <= k * (total_weight(w) - 1),
        rems_total(n, w, k) >= 0,
    decreases k,
{
    let s = total_weight(w);
    if k == 0 {
        assert(w.take(0) =~= Seq::<u32>::empty());
    } else {
        lemma_shares_and_rems(n, w, k - 1);
        lemma_total_weight_take(w, k - 1);
        lemma_fundamental_div_mod(n * w[k - 1], s);
        lemma_mod_bound(n * w[k - 1], s);
        lemma_mul_is_distributive_add(s, shares_total(n, w, k - 1), share(n, w, k - 1));
        lemma_mul_is_distributive_add(n, total_weight(w.take(k - 1)), w[k - 1] as int);
        assert((k - 1) * (s - 1) + (s - 1) == k * (s - 1)) by (nonlinear_arith);
    }
}

/// The whole shares never exceed `n`, and what they leave over is fewer than the rows.
pub proof fn lemma_leftover_bounds(n: int, w: Seq<u32>)
    requires
        total_weight(w) > 0,
        n >= 0,
    ensures
        0 <= leftover(n, w) < w.len(),
{
    let s = total_weight(w);
    let len = w.len() as int;
    if w.len() == 0 {
        assert(total_weight(w) == 0);
    }
    assert(w.take(len) =~= w);
    lemma_shares_and_rems(n, w, len);
    let t = shares_total(n, w, len);
    let r = rems_total(n, w, len);
    // s * t + r == n * s, with 0 <= r <= len * (s - 1) < len * s
    assert(len * (s - 1) < len * s) by (nonlinear_arith)
        requires
            len >= 1,
    ;
    assert(s * (n - t) == r) by {
        lemma_mul_is_distributive_sub(s, n, t);
        lemma_mul_is_commutative(n, s);
    }
    if n - t < 0 {
        lemma_mul_strictly_positive(s, t - n);
        lemma_mul_is_distributive_sub(s, t, n);
        assert(false);
    }
    if n - t >= len {
        lemma_mul_inequality(len, n - t, s);
        lemma_mul_is_commutative(len, s);
        lemma_mul_is_commutative(n - t, s);
        assert(false);
    }
}

/// The remainder order is a strict total order on the rows.
pub proof fn lemma_remainder_order_total(n: int, w: Seq<u32>)
    ensures
        is_strict_total(remainder_order(n, w), w.len() as int),
{
}

/// The allocations of the first `k` rows add up to their whole shares plus
/// the number of them that receive one of the leftover invocations.
proof fn lemma_allocation_total(n: int, w: Seq<u32>, k: int)
    requires
        0 <= k <= w.len(),
    ensures
        allocation_total(n, w, k) == shares_total(n, w, k) + below(
            k,
            |i: int| rank_of(remainder_order(n, w), w.len() as int, i) < leftover(n, w),
        ).len(),
    decreases k,
{
    let p = |i: int| rank_of(remainder_order(n, w), w.len() as int, i) < leftover(n, w);
    if k == 0 {
        assert(below(0, p) =~= Set::<int>::empty());
    } else {
        lemma_allocation_total(n, w, k - 1);
        lemma_below_step(k - 1, p);
    }
}

/// Largest-remainder allocation hands out exactly `n` invocations.
pub proof fn lemma_allocation_sums_to_n(n: int, w: Seq<u32>)
    requires
        total_weight(w) > 0,
        n >= 0,
    ensures
        allocation_total(n, w, w.len() as int) == n,
{
    let len = w.len() as int;
    lemma_leftover_bounds(n, w);
    lemma_remainder_order_total(n, w);
    lemma_allocation_total(n, w, len);
    lemma_ranks_fill(remainder_order(n, w), len, leftover(n, w));
}

/// Each row gets its whole share or one more.
pub proof fn lemma_allocation_within_quota(n: int, w: Seq<u32>, i: int)
    ensures
        share(n, w, i) <= allocation(n, w, i) <= share(n, w, i) + 1,
{
}

/// The remainders of the first `k` rows are at most `W - 1` for each row
/// whose remainder is not zero.
proof fn lemma_rems_by_positive(n: int, w: Seq<u32>, k: int)
    requires
        total_weight(w) > 0,
        0 <= k <= w.len(),
    ensures
        rems_total(n, w, k) <= below(k, |j: int| share_rem(n, w, j) > 0).len() * (total_weight(w)
            - 1),
    decreases k,
{
    let p = |j: int| share_rem(n, w, j) > 0;
    let s = total_weight(w);
    if k == 0 {
        assert(below(0, p) =~= Set::<int>::empty());
    } else {
        lemma_rems_by_positive(n, w, k - 1);
        lemma_below_step(k - 1, p);
        lemma_mod_bound(n * w[k - 1], s);
        let c = below(k - 1, p).len() as int;
        assert(c * (s - 1) + (s - 1) == (c + 1) * (s - 1)) by (nonlinear_arith);
    }
}

/// A row without weight gets no invocations.
pub proof fn lemma_no_weight_no_invocations(n: int, w: Seq<u32>, i: int)
    requires
        total_weight(w) > 0,
        n >= 0,
        0 <= i < w.len(),
        w[i] == 0,
    ensures
        allocation(n, w, i) == 0,
{
    let s = total_weight(w);
    let len = w.len() as int;
    let lt = remainder_order(n, w);
    let p = |j: int| share_rem(n, w, j) > 0;
    assert(n * w[i] == 0);
    lemma_small_mod(0, s as nat);
    lemma_div_basics(s);
    assert(share(n, w, i) == 0);
    assert(share_rem(n, w, i) == 0);
    let pos = below(len, p);
    let before = below(len, |j: int| lt(j, i));
    lemma_below_finite(len, p);
    lemma_below_finite(len, |j: int| lt(j, i));
    assert(pos.subset_of(before));
    lemma_len_subset(pos, before);
    // s * leftover is the sum of the remainders, at most (s - 1) for each row in `pos`
    assert(w.take(len) =~= w);
    lemma_shares_and_rems(n, w, len);
    lemma_rems_by_positive(n, w, len);
    let t = shares_total(n, w, len);
    let c = pos.len() as int;
    assert(s * (n - t) == rems_total(n, w, len)) by {
        lemma_mul_is_distributive_sub(s, n, t);
        lemma_mul_is_commutative(n, s);
    }
    assert(leftover(n, w) <= c) by {
        if leftover(n, w) > c {
            assert(s * (n - t) >= s * (c + 1)) by {
                lemma_mul_inequality(c + 1, n - t, s);
                lemma_mul_is_commutative(c + 1, s);
                lemma_mul_is_commutative(n - t, s);
            }
            assert(s * (c + 1) > c * (s - 1)) by (nonlinear_arith)
                requires
                    s > 0,
                    c >= 0,
            ;
        }
    }
}

/// Scaling dividend and divisor by the same positive factor keeps the
/// quotient and scales the remainder.
proof fn lemma_scaled_div_mod(a: int, b: int, k: int)
    requires
        a >= 0,
        b > 0,
        k > 0,
    ensures
        (k * a) / (k * b) == a / b,
        (k * a) % (k * b) == k * (a % b),
{
    let q = a / b;
    let r = a % b;
    lemma_fundamental_div_mod(a, b);
    lemma_mod_pos_bound(a, b);
    assert(k * a == q * (k * b) + k * r) by (nonlinear_arith)
        requires
            a == b * q + r,
    ;
    assert(0 <= k * r < k * b) by (nonlinear_arith)
        requires
            0 <= r < b,
            k > 0,
    ;
    assert(k * b != 0) by (nonlinear_arith)
        requires
            k > 0,
            b > 0,
    ;
    lemma_fundamental_div_mod_converse(k * a, k * b, q, k * r);
}

proof fn lemma_total_weight_scaled(w: Seq<u32>, s: Seq<u32>, k: int)
    requires
        s.len() == w.len(),
        forall|j: int| 0 <= j < w.len() ==> s[j] == k * w[j],
    ensures
        total_weight(s) == k * total_weight(w),
    decreases w.len(),
{
    if w.len() > 0 {
        let ws = w.drop_last();
        let ss = s.drop_last();
        assert forall|j: int| 0 <= j < ws.len() implies ss[j] == k * ws[j] by {
            assert(ss[j] == s[j] && ws[j] == w[j]);
        }
        lemma_total_weight_scaled(ws, ss, k);
        assert(s.last() == k * w.last());
        assert(k * total_weight(ws) + k * w.last() == k * (total_weight(ws) + w.last())) by (nonlinear_arith);
    }
}

proof fn lemma_share_scaled(n: int, w: Seq<u32>, s: Seq<u32>, k: int, i: int)
    requires
        total_weight(w) > 0,
        n >= 0,
        k > 0,
        total_weight(s) == k * total_weight(w),
        0 <= i < w.len(),
        s[i] == k * w[i],
    ensures
        share(n, s, i) == share(n, w, i),
        share_rem(n, s, i) == k * share_rem(n, w, i),
{
    assert(n * s[i] == k * (n * w[i])) by (nonlinear_arith)
        requires
            s[i] == k * w[i],
    ;
    lemma_mul_nonnegative(n, w[i] as int);
    lemma_scaled_div_mod(n * w[i], total_weight(w), k);
}

proof fn lemma_shares_total_scaled(n: int, w: Seq<u32>, s: Seq<u32>, k: int, m: int)
    requires
        total_weight(w) > 0,
        n >= 0,
        k > 0,
        s.len() == w.len(),
        forall|j: int| 0 <= j < w.len() ==> s[j] == k * w[j],
        0 <= m <= w.len(),
    ensures
        shares_total(n, s, m) == shares_total(n, w, m),
    decreases m,
{
    if m > 0 {
        lemma_total_weight_scaled(w, s, k);
        lemma_shares_total_scaled(n, w, s, k, m - 1);
        lemma_share_scaled(n, w, s, k, m - 1);
    }
}

/// Only the proportions of the weights matter: scaling every weight by the
/// same positive factor leaves each row's allocation unchanged.
pub proof fn lemma_allocation_scale_invariant(n: int, w: Seq<u32>, s: Seq<u32>, k: int, i: int)
    requires
        total_weight(w) > 0,
        n >= 0,
        k > 0,
        s.len() == w.len(),
        forall|j: int| 0 <= j < w.len() ==> s[j] == k * w[j],
        0 <= i < w.len(),
    ensures
        allocation(n, s, i) == allocation(n, w, i),
{
    let len = w.len() as int;
    lemma_total_weight_scaled(w, s, k);
    lemma_shares_total_scaled(n, w, s, k, len);
    assert forall|j: int| 0 <= j < len implies #[trigger] share_rem(n, s, j) == k * share_rem(n, w, j) by {
        lemma_share_scaled(n, w, s, k, j);
    }
    lemma_share_scaled(n, w, s, k, i);
    let ls = remainder_order(n, s);
    let lw = remainder_order(n, w);
    assert forall|j: int| 0 <= j < len implies #[trigger] ls(j, i) == lw(j, i) by {
        let a = share_rem(n, w, j);
        let b = share_rem(n, w, i);
        assert((k * a > k * b) == (a > b)) by (nonlinear_arith)
            requires
                k > 0,
        ;
        assert((k * a == k * b) == (a == b)) by (nonlinear_arith)
            requires
                k > 0,
        ;
    }
    lemma_below_ext(len, |j: int| ls(j, i), |j: int| lw(j, i));
}

proof fn lemma_counts_total_matches(n: int, w: Seq<u32>, c: Seq<usize>)
    requires
        c.len() <= w.len(),
        forall|i: int| 0 <= i < c.len() ==> c[i] == #[trigger] allocation(n, w, i),
    ensures
        counts_total(c) == allocation_total(n, w, c.len() as int),
    decreases c.len(),
{
    if c.len() > 0 {
        lemma_counts_total_matches(n, w, c.drop_last());
    }
}

proof fn lemma_shares_total_bound(n: int, w: Seq<u32>, k: int)
    requires
        total_weight(w) > 0,
        n >= 0,
        0 <= k <= w.len(),
    ensures
        0 <= shares_total(n, w, k) <= shares_total(n, w, w.len() as int) <= n,
    decreases w.len() - k,
{
    if k < w.len() {
        lemma_shares_total_bound(n, w, k + 1);
        lemma_mul_nonnegative(n, w[k] as int);
        lemma_div_pos_is_pos(n * w[k], total_weight(w));
    } else {
        lemma_leftover_bounds(n, w);
    }
    if k > 0 {
        lemma_shares_total_nonneg(n, w, k);
    }
}

proof fn lemma_shares_total_nonneg(n: int, w: Seq<u32>, k: int)
    requires
        total_weight(w) > 0,
        n >= 0,
        0 <= k <= w.len(),
    ensures
        shares_total(n, w, k) >= 0,
    decreases k,
{
    if k > 0 {
        lemma_shares_total_nonneg(n, w, k - 1);
        lemma_mul_nonnegative(n, w[k - 1] as int);
        lemma_div_pos_is_pos(n * w[k - 1], total_weight(w));
    }
}

/// Splits `n` invocations across rows in proportion to `weights` by the
/// largest-remainder method: each row gets the whole part of its exact share,
/// and the invocations left over go one each to the rows with the largest
/// remainders, earlier rows first among equal remainders.
pub fn allocate_counts(n: usize, weights: &Vec<u32>) -> (counts: Vec<usize>)
    requires
        total_weight(weights@) > 0,
    ensures
        counts.len() == weights.len(),
        forall|i: int| 0 <= i < counts.len() ==> counts[i] == #[trigger] allocation(n as int, weights@, i),
        counts_total(counts@) == n,
{
    let ghost w = weights@;
    let len = weights.len();
    let mut sum_w: u128 = 0;
    for i in 0..len
        invariant
            len == w.len(),
            w == weights@,
            sum_w == total_weight(w.take(i as int)),
            sum_w <= i * 0xffff_ffffu128,
    {
        proof {
            lemma_total_weight_take(w, i as int);
        }
        sum_w = sum_w + weights[i] as u128;
    }
    assert(w.take(len as int) =~= w);
    let ghost s = total_weight(w);

    let mut floors: Vec<usize> = Vec::new();
    let mut rems: Vec<u128> = Vec::new();
    let mut assigned: usize = 0;
    for i in 0..len
        invariant
            len == w.len(),
            w == weights@,
            sum_w == s,
            s == total_weight(w),
            s > 0,
            floors.len() == i,
            rems.len() == i,
            forall|k: int| 0 <= k < i ==> floors[k] == #[trigger] share(n as int, w, k),
            forall|k: int| 0 <= k < i ==> rems[k] == #[trigger] share_rem(n as int, w, k),
            assigned == shares_total(n as int, w, i as int),
    {
        let wi = weights[i];
        assert(n as int * wi as int <= 0xffff_ffff_ffff_ffffu128 * 0xffff_ffffu128) by (nonlinear_arith)
            requires
                n <= 0xffff_ffff_ffff_ffffu64,
                wi <= 0xffff_ffffu32,
        ;
        let prod: u128 = n as u128 * wi as u128;
        proof {
            lemma_shares_total_bound(n as int, w, i as int + 1);
            lemma_shares_total_nonneg(n as int, w, i as int);
        }
        let fl = (prod / sum_w) as usize;
        let rm = prod % sum_w;
        floors.push(fl);
        rems.push(rm);
        assigned = assigned + fl;
    }
    proof {
        lemma_leftover_bounds(n as int, w);
    }
    let left = n - assigned;

    let mut counts: Vec<usize> = Vec::new();
    for i in 0..len
        invariant
            len == w.len(),
            w == weights@,
            s == total_weight(w),
            s > 0,
            floors.len() == len,
            rems.len() == len,
            forall|k: int| 0 <= k < len ==> floors[k] == #[trigger] share(n as int, w, k),
            forall|k: int| 0 <= k < len ==> rems[k] == #[trigger] share_rem(n as int, w, k),
            left == leftover(n as int, w),
            assigned == shares_total(n as int, w, len as int),
            left + assigned == n,
            counts.len() == i,
            forall|k: int| 0 <= k < i ==> counts[k] == #[trigger] allocation(n as int, w, k),
    {
        let ghost lt = remainder_order(n as int, w);
        let ghost before_i = |j: int| lt(j, i as int);
        let mut rank: usize = 0;
        assert(below(0, before_i) =~= Set::<int>::empty());
        for j in 0..len
            invariant
                len == w.len(),
                rems.len() == len,
                forall|k: int| 0 <= k < len ==> rems[k] == #[trigger] share_rem(n as int, w, k),
                i < len,
                lt == remainder_order(n as int, w),
                before_i == (|j: int| lt(j, i as int)),
                rank == below(j as int, before_i).len(),
                rank <= j,
        {
            proof {
                lemma_below_step(j as int, before_i);
            }
            if rems[j] > rems[i] || (rems[j] == rems[i] && j < i) {
                rank = rank + 1;
            }
        }
        proof {
            lemma_shares_total_bound(n as int, w, i as int + 1);
            lemma_shares_total_bound(n as int, w, i as int);
            assert(rank_of(lt, len as int, i as int) == rank);
        }
        let c = if rank < left {
            floors[i] + 1
        } else {
            floors[i]
        };
        counts.push(c);
    }
    proof {
        lemma_counts_total_matches(n as int, w, counts@);
        lemma_allocation_sums_to_n(n as int, w);
    }
    counts
}

} // verus!
