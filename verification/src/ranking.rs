//! Counting and ranking over index ranges, used to state which rows or
//! shares come first under a strict total order.

use vstd::prelude::*;
use vstd::set_lib::*;

verus! {

/// The indices `j` in `[0, n)` that satisfy `p`.
pub open spec fn below(n: int, p: spec_fn(int) -> bool) -> Set<int> {
    Set::new(|j: int| 0 <= j < n && p(j))
}

/// `lt` is a strict total order on the indices `[0, n)`.
pub open spec fn is_strict_total(lt: spec_fn(int, int) -> bool, n: int) -> bool {
    &&& forall|i: int| 0 <= i < n ==> !(#[trigger] lt(i, i))
    &&& forall|i: int, j: int, k: int|
        0 <= i < n && 0 <= j < n && 0 <= k < n && #[trigger] lt(i, j) && #[trigger] lt(j, k) ==> lt(i, k)
    &&& forall|i: int, j: int| 0 <= i < n && 0 <= j < n && i != j ==> #[trigger] lt(i, j) || lt(j, i)
}

/// The number of indices in `[0, n)` that come before `i` under `lt`.
pub open spec fn rank_of(lt: spec_fn(int, int) -> bool, n: int, i: int) -> nat {
    below(n, |j: int| lt(j, i)).len()
}

/// The selected indices are finite, and no more than the range holds.
pub proof fn lemma_below_finite(n: int, p: spec_fn(int) -> bool)
    ensures
        below(n, p).finite(),
        n >= 0 ==> below(n, p).len() <= n,
{
    let r = set_int_range(0, if n >= 0 { n } else { 0 });
    lemma_int_range(0, if n >= 0 { n } else { 0 });
    assert(below(n, p).subset_of(r));
    lemma_len_subset(below(n, p), r);
}

/// Extending the range by one index adds that index when it qualifies.
pub proof fn lemma_below_step(n: int, p: spec_fn(int) -> bool)
    requires
        n >= 0,
    ensures
        below(n + 1, p).finite(),
        p(n) ==> below(n + 1, p) == below(n, p).insert(n),
        p(n) ==> below(n + 1, p).len() == below(n, p).len() + 1,
        !p(n) ==> below(n + 1, p) == below(n, p),
{
    lemma_below_finite(n, p);
    lemma_below_finite(n + 1, p);
    if p(n) {
        assert(below(n + 1, p) =~= below(n, p).insert(n));
        assert(!below(n, p).contains(n));
    } else {
        assert(below(n + 1, p) =~= below(n, p));
    }
}

/// Predicates that agree on `[0, n)` select the same indices.
pub proof fn lemma_below_ext(n: int, p: spec_fn(int) -> bool, q: spec_fn(int) -> bool)
    requires
        forall|j: int| 0 <= j < n ==> #[trigger] p(j) == q(j),
    ensures
        below(n, p) == below(n, q),
{
    assert(below(n, p) =~= below(n, q));
}

/// `lt` is a strict total order on the indices in `[0, n)` that satisfy `d`.
pub open spec fn is_strict_total_on(lt: spec_fn(int, int) -> bool, n: int, d: spec_fn(int) -> bool) -> bool {
    &&& forall|i: int| 0 <= i < n && d(i) ==> !(#[trigger] lt(i, i))
    &&& forall|i: int, j: int, k: int|
        0 <= i < n && 0 <= j < n && 0 <= k < n && d(i) && d(j) && d(k) && #[trigger] lt(i, j)
            && #[trigger] lt(j, k) ==> lt(i, k)
    &&& forall|i: int, j: int|
        0 <= i < n && 0 <= j < n && d(i) && d(j) && i != j ==> #[trigger] lt(i, j) || lt(j, i)
}

/// The number of indices in `[0, n)` that satisfy `d` and come before `i`
/// under `lt`.
pub open spec fn rank_in(lt: spec_fn(int, int) -> bool, n: int, d: spec_fn(int) -> bool, i: int) -> nat {
    below(n, |j: int| d(j) && lt(j, i)).len()
}

/// Within the domain, an index that comes first has the smaller rank.
pub proof fn lemma_rank_in_increases(
    lt: spec_fn(int, int) -> bool,
    n: int,
    d: spec_fn(int) -> bool,
    i: int,
    j: int,
)
    requires
        is_strict_total_on(lt, n, d),
        0 <= i < n,
        0 <= j < n,
        d(i),
        d(j),
        lt(i, j),
    ensures
        rank_in(lt, n, d, i) < rank_in(lt, n, d, j),
{
    let si = below(n, |k: int| d(k) && lt(k, i));
    let sj = below(n, |k: int| d(k) && lt(k, j));
    lemma_below_finite(n, |k: int| d(k) && lt(k, i));
    lemma_below_finite(n, |k: int| d(k) && lt(k, j));
    assert(sj.contains(i));
    assert(!si.contains(i));
    assert(si.subset_of(sj.remove(i)));
    lemma_len_subset(si, sj.remove(i));
}

/// Under a strict total order on a domain of `c` indices, exactly
/// `min(m, c)` of them have a rank below `m`.
pub proof fn lemma_ranks_fill_in(lt: spec_fn(int, int) -> bool, n: int, d: spec_fn(int) -> bool, m: int)
    requires
        is_strict_total_on(lt, n, d),
        0 <= m,
    ensures
        below(n, |i: int| d(i) && rank_in(lt, n, d, i) < m).len() == if m < below(n, d).len() {
            m
        } else {
            below(n, d).len() as int
        },
{
    let dom = below(n, d);
    lemma_below_finite(n, d);
    let c = dom.len() as int;
    let f = |i: int| rank_in(lt, n, d, i) as int;
    assert forall|a: int, b: int| dom.contains(a) && dom.contains(b) && #[trigger] f(a) == #[trigger] f(
        b,
    ) implies a == b by {
        if a != b {
            if lt(a, b) {
                lemma_rank_in_increases(lt, n, d, a, b);
            } else {
                lemma_rank_in_increases(lt, n, d, b, a);
            }
        }
    }
    let all = set_int_range(0, c);
    lemma_int_range(0, c);
    let img = dom.map(f);
    lemma_map_size(dom, img, f);
    assert(img.subset_of(all)) by {
        assert forall|r: int| img.contains(r) implies all.contains(r) by {
            let a = choose|a: int| dom.contains(a) && f(a) == r;
            let sa = below(n, |k: int| d(k) && lt(k, a));
            lemma_below_finite(n, |k: int| d(k) && lt(k, a));
            assert(sa.subset_of(dom.remove(a)));
            lemma_len_subset(sa, dom.remove(a));
        }
    }
    lemma_subset_equality(img, all);
    let k = if m < c {
        m
    } else {
        c
    };
    let sel = below(n, |i: int| d(i) && rank_in(lt, n, d, i) < m);
    lemma_below_finite(n, |i: int| d(i) && rank_in(lt, n, d, i) < m);
    let low = set_int_range(0, k);
    lemma_int_range(0, k);
    assert(sel.map(f) =~= low) by {
        assert forall|r: int| sel.map(f).contains(r) implies low.contains(r) by {
            let a = choose|a: int| sel.contains(a) && f(a) == r;
            assert(img.contains(f(a)));
        }
        assert forall|r: int| low.contains(r) implies sel.map(f).contains(r) by {
            assert(all.contains(r));
            assert(img.contains(r));
            let a = choose|a: int| dom.contains(a) && f(a) == r;
            assert(sel.contains(a));
        }
    }
    lemma_map_size(sel, low, f);
}

/// Under a strict total order on `[0, n)`, exactly `m` indices have a rank below `m`.
pub proof fn lemma_ranks_fill(lt: spec_fn(int, int) -> bool, n: int, m: int)
    requires
        is_strict_total(lt, n),
        0 <= m <= n,
    ensures
        below(n, |i: int| rank_of(lt, n, i) < m).len() == m,
{
    let d = |i: int| true;
    assert(is_strict_total_on(lt, n, d));
    lemma_ranks_fill_in(lt, n, d, m);
    assert forall|i: int| 0 <= i < n implies rank_of(lt, n, i) == rank_in(lt, n, d, i) by {
        lemma_below_ext(n, |j: int| lt(j, i), |j: int| d(j) && lt(j, i));
    }
    lemma_below_ext(
        n,
        |i: int| rank_of(lt, n, i) < m,
        |i: int| d(i) && rank_in(lt, n, d, i) < m,
    );
    lemma_int_range(0, n);
    assert(below(n, d) =~= set_int_range(0, n));
}

} // verus!
