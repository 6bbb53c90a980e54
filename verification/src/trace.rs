//! Trace rows of the throughput tool: resolving benchmark names to
//! actions, keeping the busiest rows of each benchmark type, and the
//! per-minute plan of invocations.

use vstd::prelude::*;
use vstd::set_lib::*;
use serde_json::Value;
use rand::seq::SliceRandom;
use crate::ranking::{below, is_strict_total, is_strict_total_on, lemma_below_ext, lemma_below_finite, lemma_below_step, lemma_ranks_fill_in, rank_in};
use crate::allocation::{allocate_counts, allocation, counts_total, lemma_total_weight_nonneg, total_weight};
use crate::json::{json_from_str, json_member_str, json_parses, json_str_member, json_value};
use crate::numbers::{parse_u32, parse_u32_spec};
use crate::search::{find_char, index_of};
use crate::text::{same_chars, string_of, sub_chars, chars_of, lemma_lex_irreflexive, lemma_lex_total, lemma_lex_transitive, lex_less, lex_lt};

verus! {

/// One row of a trace: a benchmark type, the action that runs it, the
/// payload it is invoked with, and its invocations per trace minute.
pub struct TraceRow {
    pub bench_type: String,
    pub action_path: String,
    pub payload: Value,
    pub rpm: Vec<u32>,
}

/// The total number of invocations over all trace minutes.
pub open spec fn rpm_total(r: Seq<u32>) -> int
    decreases r.len(),
{
    if r.len() == 0 {
        0
    } else {
        rpm_total(r.drop_last()) + r.last()
    }
}

/// Every trace minute counts towards a row's total: no minutes make
/// nothing, and one more minute with `x` invocations adds exactly `x`.
pub proof fn lemma_rpm_total_push(r: Seq<u32>, x: u32)
    ensures
        rpm_total(Seq::<u32>::empty()) == 0,
        rpm_total(r.push(x)) == rpm_total(r) + x,
{
    assert(r.push(x).drop_last() =~= r);
}

/// The total of two stretches of minutes is the sum of their totals.
pub proof fn lemma_rpm_total_concat(a: Seq<u32>, b: Seq<u32>)
    ensures
        rpm_total(a + b) == rpm_total(a) + rpm_total(b),
    decreases b.len(),
{
    if b.len() == 0 {
        assert(a + b =~= a);
    } else {
        lemma_rpm_total_concat(a, b.drop_last());
        assert((a + b).drop_last() =~= a + b.drop_last());
    }
}

/// Row `j` is ahead of row `i` within a benchmark type: it has more trace
/// invocations in total, or as many and comes earlier in the input.
pub open spec fn busier(rows: Seq<TraceRow>, j: int, i: int) -> bool {
    rpm_total(rows[j].rpm@) > rpm_total(rows[i].rpm@) || (rpm_total(rows[j].rpm@) == rpm_total(
        rows[i].rpm@,
    ) && j < i)
}

/// The order of the filtered rows: by benchmark type in lexicographic order,
/// then busiest first within a type.
pub open spec fn row_order(rows: Seq<TraceRow>) -> spec_fn(int, int) -> bool {
    |j: int, i: int|
        lex_lt(rows[j].bench_type@, rows[i].bench_type@) || (rows[j].bench_type@
            == rows[i].bench_type@ && busier(rows, j, i))
}

/// The rows of the same benchmark type that are ahead of row `i`.
pub open spec fn ahead_in_type(rows: Seq<TraceRow>, i: int) -> Set<int> {
    below(
        rows.len() as int,
        |j: int| rows[j].bench_type@ == rows[i].bench_type@ && busier(rows, j, i),
    )
}

/// Row `i` is among the `max` busiest rows of its benchmark type.
pub open spec fn is_kept(rows: Seq<TraceRow>, max: int, i: int) -> bool {
    ahead_in_type(rows, i).len() < max
}

/// `sel` lists, in row order, exactly the indices of the rows that are kept.
pub open spec fn is_filtered_order(rows: Seq<TraceRow>, max: int, sel: Seq<int>) -> bool {
    &&& forall|k: int| 0 <= k < sel.len() ==> 0 <= #[trigger] sel[k] < rows.len()
    &&& forall|k1: int, k2: int|
        0 <= k1 < k2 < sel.len() ==> row_order(rows)(#[trigger] sel[k1], #[trigger] sel[k2])
    &&& forall|i: int| 0 <= i < rows.len() ==> (is_kept(rows, max, i) <==> sel.contains(i))
}

/// The row order is a strict total order on the rows.
pub proof fn lemma_row_order_total(rows: Seq<TraceRow>)
    ensures
        is_strict_total(row_order(rows), rows.len() as int),
{
    let lt = row_order(rows);
    let n = rows.len() as int;
    assert forall|i: int| 0 <= i < n implies !(#[trigger] lt(i, i)) by {
        lemma_lex_irreflexive(rows[i].bench_type@);
    }
    assert forall|i: int, j: int, k: int|
        0 <= i < n && 0 <= j < n && 0 <= k < n && #[trigger] lt(i, j) && #[trigger] lt(
            j,
            k,
        ) implies lt(i, k) by {
        let a = rows[i].bench_type@;
        let b = rows[j].bench_type@;
        let c = rows[k].bench_type@;
        if lex_lt(a, b) && lex_lt(b, c) {
            lemma_lex_transitive(a, b, c);
        }
    }
    assert forall|i: int, j: int| 0 <= i < n && 0 <= j < n && i != j implies #[trigger] lt(i, j)
        || lt(j, i) by {
        let a = rows[i].bench_type@;
        let b = rows[j].bench_type@;
        if a != b {
            lemma_lex_total(a, b);
        }
    }
}

/// The total of a row's invocations per minute.
pub fn rpm_sum(rpm: &Vec<u32>) -> (s: u128)
    ensures
        s == rpm_total(rpm@),
{
    let mut s: u128 = 0;
    for i in 0..rpm.len()
        invariant
            s == rpm_total(rpm@.take(i as int)),
            s <= i * 0xffff_ffffu128,
    {
        assert(rpm@.take(i + 1).drop_last() =~= rpm@.take(i as int));
        s = s + rpm[i] as u128;
    }
    assert(rpm@.take(rpm.len() as int) =~= rpm@);
    s
}

/// Whether row `j` comes before row `i` in row order, given the rows'
/// benchmark types as characters and their invocation totals.
fn precedes(
    rows: &Vec<TraceRow>,
    types: &Vec<Vec<char>>,
    sums: &Vec<u128>,
    j: usize,
    i: usize,
) -> (r: bool)
    requires
        i < rows.len(),
        j < rows.len(),
        types.len() == rows.len(),
        sums.len() == rows.len(),
        forall|k: int| 0 <= k < rows.len() ==> (#[trigger] types@[k])@ == rows@[k].bench_type@,
        forall|k: int| 0 <= k < rows.len() ==> #[trigger] sums@[k] == rpm_total(rows@[k].rpm@),
    ensures
        r == row_order(rows@)(j as int, i as int),
{
    if lex_less(&types[j], &types[i]) {
        return true;
    }
    rows[j].bench_type == rows[i].bench_type && (sums[j] > sums[i] || (sums[j] == sums[i] && j
        < i))
}

/// Keeps, for each benchmark type, the `max_per_bench` rows with the most
/// trace invocations (the earlier row first among equal totals), and lists
/// them by benchmark type in lexicographic order, busiest first within a type.
pub fn filter_rows(rows: Vec<TraceRow>, max_per_bench: usize) -> (out: Vec<TraceRow>)
    ensures
        exists|sel: Seq<int>|
            #![trigger is_filtered_order(rows@, max_per_bench as int, sel)]
            is_filtered_order(rows@, max_per_bench as int, sel) && sel.len() == out.len() && (
            forall|k: int| 0 <= k < sel.len() ==> out@[k] == rows@[#[trigger] sel[k]]),
{
    let ghost orig = rows@;
    let ghost lt = row_order(orig);
    let ghost max = max_per_bench as int;
    let n = rows.len();
    proof {
        lemma_row_order_total(orig);
    }

    let mut types: Vec<Vec<char>> = Vec::new();
    let mut sums: Vec<u128> = Vec::new();
    for k in 0..n
        invariant
            n == rows.len(),
            rows@ == orig,
            types.len() == k,
            sums.len() == k,
            forall|m: int| 0 <= m < k ==> (#[trigger] types@[m])@ == orig[m].bench_type@,
            forall|m: int| 0 <= m < k ==> #[trigger] sums@[m] == rpm_total(orig[m].rpm@),
    {
        types.push(chars_of(rows[k].bench_type.as_str()));
        sums.push(rpm_sum(&rows[k].rpm));
    }

    let mut keep: Vec<bool> = Vec::new();
    for i in 0..n
        invariant
            n == rows.len(),
            rows@ == orig,
            types.len() == n,
            sums.len() == n,
            forall|m: int| 0 <= m < n ==> (#[trigger] types@[m])@ == orig[m].bench_type@,
            forall|m: int| 0 <= m < n ==> #[trigger] sums@[m] == rpm_total(orig[m].rpm@),
            max == max_per_bench,
            keep.len() == i,
            forall|m: int| 0 <= m < i ==> #[trigger] keep@[m] == is_kept(orig, max, m),
    {
        let ghost ahead = |j: int|
            orig[j].bench_type@ == orig[i as int].bench_type@ && busier(orig, j, i as int);
        let mut count: usize = 0;
        assert(below(0, ahead) =~= Set::<int>::empty());
        for j in 0..n
            invariant
                n == rows.len(),
                rows@ == orig,
                sums.len() == n,
                forall|m: int| 0 <= m < n ==> #[trigger] sums@[m] == rpm_total(orig[m].rpm@),
                i < n,
                ahead == (|j: int|
                    orig[j].bench_type@ == orig[i as int].bench_type@ && busier(orig, j, i as int)),
                count == below(j as int, ahead).len(),
                count <= j,
        {
            proof {
                lemma_below_step(j as int, ahead);
            }
            if rows[j].bench_type == rows[i].bench_type && (sums[j] > sums[i] || (sums[j]
                == sums[i] && j < i)) {
                count = count + 1;
            }
        }
        keep.push(count < max_per_bench);
    }

    // Pick the kept rows in row order, each time the first one after the last pick.
    let mut order: Vec<usize> = Vec::new();
    let mut last: usize = 0;
    let mut has_last = false;
    loop
        invariant
            n == rows.len(),
            rows@ == orig,
            lt == row_order(orig),
            is_strict_total(lt, n as int),
            types.len() == n,
            sums.len() == n,
            forall|m: int| 0 <= m < n ==> (#[trigger] types@[m])@ == orig[m].bench_type@,
            forall|m: int| 0 <= m < n ==> #[trigger] sums@[m] == rpm_total(orig[m].rpm@),
            keep.len() == n,
            forall|m: int| 0 <= m < n ==> #[trigger] keep@[m] == is_kept(orig, max, m),
            forall|k: int| 0 <= k < order.len() ==> #[trigger] order@[k] < n && keep@[order@[k] as int],
            forall|k1: int, k2: int|
                0 <= k1 < k2 < order.len() ==> lt(#[trigger] order@[k1] as int, #[trigger] order@[k2] as int),
            has_last == (order.len() > 0),
            has_last ==> last == order@.last(),
            forall|i: int|
                0 <= i < n && #[trigger] keep@[i] && has_last && !lt(last as int, i) ==> order@.contains(i as usize),
        ensures
            forall|i: int| 0 <= i < n && #[trigger] keep@[i] ==> order@.contains(i as usize),
        decreases below(n as int, |j: int| keep@[j] && (!has_last || lt(last as int, j))).len(),
    {
        let ghost cand = |j: int| keep@[j] && (!has_last || lt(last as int, j));
        let mut best: usize = 0;
        let mut found = false;
        for j in 0..n
            invariant
                n == rows.len(),
                rows@ == orig,
                lt == row_order(orig),
                is_strict_total(lt, n as int),
                types.len() == n,
                sums.len() == n,
                forall|m: int| 0 <= m < n ==> (#[trigger] types@[m])@ == orig[m].bench_type@,
                forall|m: int| 0 <= m < n ==> #[trigger] sums@[m] == rpm_total(orig[m].rpm@),
                keep.len() == n,
                cand == (|j: int| keep@[j] && (!has_last || lt(last as int, j))),
                has_last ==> last < n,
                found ==> best < j && cand(best as int),
                found ==> forall|k: int| 0 <= k < j && #[trigger] cand(k) ==> k == best || lt(best as int, k),
                !found ==> forall|k: int| 0 <= k < j ==> !#[trigger] cand(k),
        {
            if keep[j] && (!has_last || precedes(&rows, &types, &sums, last, j)) {
                if !found || precedes(&rows, &types, &sums, j, best) {
                    proof {
                        if found {
                            assert forall|k: int| 0 <= k < j + 1 && #[trigger] cand(k) implies k == j || lt(j as int, k) by {
                                if k != j && k != best {
                                    assert(lt(best as int, k));
                                }
                            }
                        }
                    }
                    best = j;
                    found = true;
                }
            }
        }
        if !found {
            proof {
                assert forall|i: int| 0 <= i < n && #[trigger] keep@[i] implies order@.contains(i as usize) by {
                    assert(!cand(i));
                }
            }
            break;
        }
        let ghost old_len = below(n as int, cand).len();
        let ghost new_cand = |j: int| keep@[j] && lt(best as int, j);
        proof {
            let old_set = below(n as int, cand);
            let new_set = below(n as int, new_cand);
            lemma_below_finite(n as int, cand);
            lemma_below_finite(n as int, new_cand);
            assert(new_set.subset_of(old_set.remove(best as int))) by {
                assert forall|j: int| new_set.contains(j) implies old_set.remove(best as int).contains(j) by {
                    if has_last {
                        assert(lt(last as int, j));
                    }
                }
            }
            lemma_len_subset(new_set, old_set.remove(best as int));
            assert(old_set.contains(best as int));
        }
        let ghost old_order = order@;
        let ghost old_last = last;
        let ghost old_has = has_last;
        order.push(best);
        proof {
            assert forall|k1: int, k2: int|
                0 <= k1 < k2 < order.len() implies lt(#[trigger] order@[k1] as int, #[trigger] order@[k2] as int) by {
                if k2 == order.len() - 1 && k1 < k2 {
                    if old_order[k1] != old_last {
                        assert(lt(old_order[k1] as int, old_last as int));
                    }
                }
            }
            assert forall|i: int|
                0 <= i < n && #[trigger] keep@[i] && !lt(best as int, i) implies order@.contains(i as usize) by {
                if i == best as int {
                    assert(order@[order.len() - 1] == best);
                } else if old_has && !lt(old_last as int, i) {
                    let k = choose|k: int| 0 <= k < old_order.len() && old_order[k] == i as usize;
                    assert(order@[k] == i as usize);
                } else {
                    assert(cand(i));
                    assert(lt(i as int, best as int));
                }
            }
        }
        last = best;
        has_last = true;
        proof {
            lemma_below_ext(n as int, |j: int| keep@[j] && (!has_last || lt(last as int, j)), new_cand);
        }
        assert(below(n as int, |j: int| keep@[j] && (!has_last || lt(last as int, j))).len() < old_len);
    }

    // Move the kept rows out, in order.
    let mut rows = rows;
    let mut slots: Vec<Option<TraceRow>> = Vec::new();
    while rows.len() > 0
        invariant
            rows@ == orig.take(rows.len() as int),
            slots.len() + rows.len() == n,
            n == orig.len(),
            forall|m: int| 0 <= m < slots.len() ==> #[trigger] slots@[m] == Some(orig[n - 1 - m]),
        decreases rows.len(),
    {
        let r = rows.pop().unwrap();
        slots.push(Some(r));
    }
    let mut out: Vec<TraceRow> = Vec::new();
    for k in 0..order.len()
        invariant
            n == orig.len(),
            slots.len() == n,
            lt == row_order(orig),
            is_strict_total(lt, n as int),
            forall|k: int| 0 <= k < order.len() ==> #[trigger] order@[k] < n,
            forall|k1: int, k2: int|
                0 <= k1 < k2 < order.len() ==> lt(#[trigger] order@[k1] as int, #[trigger] order@[k2] as int),
            out.len() == k,
            forall|m: int| 0 <= m < k ==> #[trigger] out@[m] == orig[order@[m] as int],
            forall|i: int|
                0 <= i < n && !order@.take(k as int).contains(i as usize) ==> #[trigger] slots@[n - 1 - i]
                    == Some(orig[i]),
    {
        let idx = order[k];
        assert(!order@.take(k as int).contains(idx)) by {
            if order@.take(k as int).contains(idx) {
                let m = choose|m: int| 0 <= m < k && order@.take(k as int)[m] == idx;
                assert(lt(order@[m] as int, order@[k as int] as int));
            }
        }
        let mut tmp: Option<TraceRow> = None;
        slots.set_and_swap(n - 1 - idx, &mut tmp);
        let row = tmp.unwrap();
        out.push(row);
        proof {
            assert forall|i: int|
                0 <= i < n && !order@.take(k + 1).contains(i as usize) implies #[trigger] slots@[n - 1 - i]
                    == Some(orig[i]) by {
                if i == idx as int {
                    assert(order@.take(k + 1)[k as int] == idx);
                }
                if order@.take(k as int).contains(i as usize) {
                    let m = choose|m: int| 0 <= m < k && order@.take(k as int)[m] == i as usize;
                    assert(order@.take(k + 1)[m] == i as usize);
                }
            }
        }
    }
    let ghost sel = order@.map_values(|v: usize| v as int);
    proof {
        assert forall|i: int| 0 <= i < n implies (is_kept(orig, max, i) <==> sel.contains(i)) by {
            if sel.contains(i) {
                let k = choose|k: int| 0 <= k < sel.len() && sel[k] == i;
                assert(keep@[order@[k] as int]);
            }
            if is_kept(orig, max, i) {
                assert(keep@[i]);
                assert(order@.contains(i as usize));
                let k = choose|k: int| 0 <= k < order.len() && order@[k] == i as usize;
                assert(sel[k] == i);
            }
        }
        assert(is_filtered_order(orig, max, sel));
    }
    out
}

/// The rows of benchmark type `t`.
pub open spec fn of_type(rows: Seq<TraceRow>, t: Seq<char>) -> Set<int> {
    below(rows.len() as int, |i: int| rows[i].bench_type@ == t)
}

/// The smaller of two integers.
pub open spec fn min_of(a: int, b: int) -> int {
    if a < b {
        a
    } else {
        b
    }
}

/// Of each benchmark type, the filter keeps as many rows as the limit
/// allows: the limit, or all the rows of that type when there are fewer.
pub proof fn lemma_kept_per_type(rows: Seq<TraceRow>, max: int, t: Seq<char>)
    requires
        0 <= max,
    ensures
        below(rows.len() as int, |i: int| rows[i].bench_type@ == t && is_kept(rows, max, i)).len()
            == min_of(max, of_type(rows, t).len() as int),
{
    let n = rows.len() as int;
    let d = |i: int| rows[i].bench_type@ == t;
    let lt = |j: int, i: int| busier(rows, j, i);
    assert(is_strict_total_on(lt, n, d));
    lemma_ranks_fill_in(lt, n, d, max);
    assert forall|i: int| 0 <= i < n && d(i) implies ahead_in_type(rows, i) == below(
        n,
        |j: int| d(j) && lt(j, i),
    ) by {
        lemma_below_ext(
            n,
            |j: int| rows[j].bench_type@ == rows[i].bench_type@ && busier(rows, j, i),
            |j: int| d(j) && lt(j, i),
        );
    }
    assert forall|i: int| 0 <= i < n implies (rows[i].bench_type@ == t && is_kept(rows, max, i))
        == (d(i) && rank_in(lt, n, d, i) < max) by {
        if d(i) {
            assert(ahead_in_type(rows, i) == below(n, |j: int| d(j) && lt(j, i)));
        }
    }
    lemma_below_ext(
        n,
        |i: int| rows[i].bench_type@ == t && is_kept(rows, max, i),
        |i: int| d(i) && rank_in(lt, n, d, i) < max,
    );
    assert(of_type(rows, t) == below(n, d));
}

/// The filtered rows hold, of each benchmark type, the limit's number of
/// rows, or all the rows of that type when there are fewer.
pub proof fn lemma_filtered_per_type(rows: Seq<TraceRow>, max: int, sel: Seq<int>, t: Seq<char>)
    requires
        0 <= max,
        is_filtered_order(rows, max, sel),
    ensures
        below(sel.len() as int, |k: int| rows[sel[k]].bench_type@ == t).len() == min_of(
            max,
            of_type(rows, t).len() as int,
        ),
{
    let n = rows.len() as int;
    lemma_row_order_total(rows);
    lemma_kept_per_type(rows, max, t);
    let picked = below(sel.len() as int, |k: int| rows[sel[k]].bench_type@ == t);
    let kept = below(n, |i: int| rows[i].bench_type@ == t && is_kept(rows, max, i));
    let f = |k: int| sel[k];
    lemma_below_finite(sel.len() as int, |k: int| rows[sel[k]].bench_type@ == t);
    assert forall|a: int, b: int| picked.contains(a) && picked.contains(b) && #[trigger] f(a)
        == #[trigger] f(b) implies a == b by {
        if a < b {
            assert(row_order(rows)(sel[a], sel[b]));
        } else if b < a {
            assert(row_order(rows)(sel[b], sel[a]));
        }
    }
    assert(picked.map(f) =~= kept) by {
        assert forall|i: int| picked.map(f).contains(i) implies kept.contains(i) by {
            let k = choose|k: int| picked.contains(k) && f(k) == i;
            assert(sel.contains(sel[k]));
        }
        assert forall|i: int| kept.contains(i) implies picked.map(f).contains(i) by {
            assert(sel.contains(i));
            let k = choose|k: int| 0 <= k < sel.len() && sel[k] == i;
            assert(picked.contains(k));
        }
    }
    lemma_map_size(picked, kept, f);
}

/// The number of benchmark types.
pub const BENCH_COUNT: usize = 7;

/// The name prefix of benchmark type `i`, in the order in which names are
/// matched.
pub open spec fn bench_prefix(i: int) -> Seq<char> {
    if i == 0 {
        "disk-rand"@
    } else if i == 1 {
        "disk-seq"@
    } else if i == 2 {
        "chameleon"@
    } else if i == 3 {
        "float"@
    } else if i == 4 {
        "gzip"@
    } else if i == 5 {
        "json"@
    } else {
        "aes"@
    }
}

/// The OpenWhisk action path of benchmark type `i`.
pub open spec fn bench_action(i: int) -> Seq<char> {
    if i == 0 {
        "/guest/bench_disk_rand"@
    } else if i == 1 {
        "/guest/bench_disk_seq"@
    } else if i == 2 {
        "/guest/bench_chameleon"@
    } else if i == 3 {
        "/guest/bench_float"@
    } else if i == 4 {
        "/guest/bench_gzip"@
    } else if i == 5 {
        "/guest/bench_json"@
    } else {
        "/guest/bench_aes"@
    }
}

/// `s` with every `-` replaced by `_`.
pub open spec fn dashes_to_underscores(s: Seq<char>) -> Seq<char> {
    s.map_values(|c: char| if c == '-' {
        '_'
    } else {
        c
    })
}

/// Each benchmark type's OpenWhisk action is `/guest/bench_` followed by the
/// type's prefix, with its dashes written as underscores.
pub proof fn lemma_bench_action_names(i: int)
    requires
        0 <= i < BENCH_COUNT,
    ensures
        bench_action(i) == "/guest/bench_"@ + dashes_to_underscores(bench_prefix(i)),
{
    reveal_strlit("/guest/bench_");
    reveal_strlit("disk-rand");
    reveal_strlit("disk-seq");
    reveal_strlit("chameleon");
    reveal_strlit("float");
    reveal_strlit("gzip");
    reveal_strlit("json");
    reveal_strlit("aes");
    reveal_strlit("/guest/bench_disk_rand");
    reveal_strlit("/guest/bench_disk_seq");
    reveal_strlit("/guest/bench_chameleon");
    reveal_strlit("/guest/bench_float");
    reveal_strlit("/guest/bench_gzip");
    reveal_strlit("/guest/bench_json");
    reveal_strlit("/guest/bench_aes");
    assert(bench_action(i) =~= "/guest/bench_"@ + dashes_to_underscores(bench_prefix(i)));
}

/// The prefixes of the benchmark types are distinct, so each names one type.
pub proof fn lemma_bench_prefixes_distinct(i: int, j: int)
    requires
        0 <= i < BENCH_COUNT,
        0 <= j < BENCH_COUNT,
        i != j,
    ensures
        bench_prefix(i) != bench_prefix(j),
{
    reveal_strlit("disk-rand");
    reveal_strlit("disk-seq");
    reveal_strlit("chameleon");
    reveal_strlit("float");
    reveal_strlit("gzip");
    reveal_strlit("json");
    reveal_strlit("aes");
    reveal_strlit("/guest/bench_disk_rand");
    reveal_strlit("/guest/bench_disk_seq");
    reveal_strlit("/guest/bench_chameleon");
    reveal_strlit("/guest/bench_float");
    reveal_strlit("/guest/bench_gzip");
    reveal_strlit("/guest/bench_json");
    reveal_strlit("/guest/bench_aes");
    assert(bench_prefix(i).len() != bench_prefix(j).len() || bench_prefix(i)[0] != bench_prefix(j)[0]
        || bench_prefix(i)[5] != bench_prefix(j)[5]);
}

fn bench_entry(i: usize) -> (e: (&'static str, &'static str))
    requires
        i < BENCH_COUNT,
    ensures
        e.0@ == bench_prefix(i as int),
        e.1@ == bench_action(i as int),
{
    if i == 0 {
        ("disk-rand", "/guest/bench_disk_rand")
    } else if i == 1 {
        ("disk-seq", "/guest/bench_disk_seq")
    } else if i == 2 {
        ("chameleon", "/guest/bench_chameleon")
    } else if i == 3 {
        ("float", "/guest/bench_float")
    } else if i == 4 {
        ("gzip", "/guest/bench_gzip")
    } else if i == 5 {
        ("json", "/guest/bench_json")
    } else {
        ("aes", "/guest/bench_aes")
    }
}

/// `name` is `p` followed by a `-`.
pub open spec fn has_bench_prefix(name: Seq<char>, p: Seq<char>) -> bool {
    name.len() > p.len() && name.subrange(0, p.len() as int) == p && name[p.len() as int] == '-'
}

/// Benchmark type `i` is the first whose prefix `name` has.
pub open spec fn resolves_to(name: Seq<char>, i: int) -> bool {
    &&& 0 <= i < BENCH_COUNT
    &&& has_bench_prefix(name, bench_prefix(i))
    &&& forall|j: int| 0 <= j < i ==> !has_bench_prefix(name, #[trigger] bench_prefix(j))
}

/// `t` and `a` are the prefix and action of one benchmark type.
pub open spec fn is_bench_entry(t: Seq<char>, a: Seq<char>) -> bool {
    exists|i: int| 0 <= i < BENCH_COUNT && t == bench_prefix(i) && a == bench_action(i)
}

fn starts_with_dashed(name: &Vec<char>, p: &Vec<char>) -> (r: bool)
    ensures
        r == has_bench_prefix(name@, p@),
{
    if name.len() <= p.len() {
        return false;
    }
    for i in 0..p.len()
        invariant
            p.len() < name.len(),
            forall|k: int| 0 <= k < i ==> name@[k] == p@[k],
    {
        if name[i] != p[i] {
            assert(name@.subrange(0, p.len() as int)[i as int] != p@[i as int]);
            return false;
        }
    }
    assert(name@.subrange(0, p.len() as int) =~= p@);
    name[p.len()] == '-'
}

/// The benchmark type and OpenWhisk action of a benchmark name: the first
/// type whose prefix the name has, followed by `-`. Since the prefixes are
/// ASCII, this is the same as comparing bytes.
pub fn resolve_action(bench_name: &str) -> (r: Option<(&'static str, &'static str)>)
    ensures
        match r {
            Some((p, a)) => exists|i: int|
                resolves_to(bench_name@, i) && p@ == bench_prefix(i) && a@ == bench_action(i),
            None => forall|i: int| 0 <= i < BENCH_COUNT ==> !has_bench_prefix(bench_name@, #[trigger] bench_prefix(i)),
        },
        r matches Some((p, a)) ==> a@ == "/guest/bench_"@ + dashes_to_underscores(p@) && has_bench_prefix(
            bench_name@,
            p@,
        ),
{
    let name = chars_of(bench_name);
    for i in 0..BENCH_COUNT
        invariant
            name@ == bench_name@,
            forall|j: int| 0 <= j < i ==> !has_bench_prefix(bench_name@, #[trigger] bench_prefix(j)),
    {
        let (prefix, action) = bench_entry(i);
        let pc = chars_of(prefix);
        if starts_with_dashed(&name, &pc) {
            assert(resolves_to(bench_name@, i as int));
            proof {
                lemma_bench_action_names(i as int);
            }
            return Some((prefix, action));
        }
    }
    None
}

/// What went wrong with a trace record.
#[derive(Debug)]
pub enum TraceError {
    /// The record has fewer than two fields.
    ShortRecord,
    /// The record's request field is not JSON.
    BadRecordJson(serde_json::Error),
    /// The request has no `bench` string.
    MissingBench,
    /// The request has no `payload` string.
    MissingPayload,
    /// The payload is not JSON.
    BadPayloadJson(serde_json::Error),
}

/// The invocations per minute of a record: its fields after the first two,
/// each read as a `u32`, 0 where it is not one.
pub open spec fn rpm_of_fields(fields: Seq<Seq<char>>) -> Seq<u32> {
    Seq::new(
        (fields.len() - 2) as nat,
        |i: int|
            match parse_u32_spec(fields[i + 2]) {
                Some(v) => v,
                None => 0u32,
            },
    )
}

/// The `bench` string of a record's request.
pub open spec fn record_bench(rec: Seq<Seq<char>>) -> Option<Seq<char>> {
    json_str_member(rec[1], "bench"@)
}

/// The `payload` string of a record's request.
pub open spec fn record_payload(rec: Seq<Seq<char>>) -> Option<Seq<char>> {
    json_str_member(rec[1], "payload"@)
}

/// A record has two fields, a JSON request with `bench` and `payload`
/// strings, and a payload that is JSON.
pub open spec fn record_ok(rec: Seq<Seq<char>>) -> bool {
    &&& rec.len() >= 2
    &&& json_parses(rec[1])
    &&& record_bench(rec) is Some
    &&& record_payload(rec) is Some
    &&& json_parses(record_payload(rec)->Some_0)
}

/// `e` is the error of a record that is not well formed: the first check
/// that fails, in the order two fields, request JSON, `bench` string,
/// `payload` string, payload JSON.
pub open spec fn record_error(rec: Seq<Seq<char>>, e: TraceError) -> bool {
    match e {
        TraceError::ShortRecord => rec.len() < 2,
        TraceError::BadRecordJson(_) => rec.len() >= 2 && !json_parses(rec[1]),
        TraceError::MissingBench => rec.len() >= 2 && json_parses(rec[1]) && record_bench(rec) is None,
        TraceError::MissingPayload => rec.len() >= 2 && json_parses(rec[1]) && record_bench(rec) is Some
            && record_payload(rec) is None,
        TraceError::BadPayloadJson(_) => rec.len() >= 2 && json_parses(rec[1]) && record_bench(rec) is Some
            && record_payload(rec) is Some && !json_parses(record_payload(rec)->Some_0),
    }
}

/// `row` is the row of record `rec`, whose benchmark resolves to a type:
/// that type and its action, the JSON value of the record's payload, and
/// the record's invocations per minute.
pub open spec fn row_of_record(rec: Seq<Seq<char>>, row: TraceRow) -> bool {
    &&& exists|i: int|
        resolves_to(record_bench(rec)->Some_0, i) && row.bench_type@ == bench_prefix(i)
            && row.action_path@ == bench_action(i)
    &&& row.payload == json_value(record_payload(rec)->Some_0)
    &&& row.rpm@ == rpm_of_fields(rec)
}

/// A well-formed record whose benchmark resolves to a type.
pub open spec fn record_known(rec: Seq<Seq<char>>) -> bool {
    record_ok(rec) && exists|i: int| 0 <= i < BENCH_COUNT && has_bench_prefix(record_bench(rec)->Some_0, #[trigger] bench_prefix(i))
}

/// A trace record read: a row, or the name of a benchmark that resolves to
/// no benchmark type.
pub enum TraceRecord {
    Row(TraceRow),
    UnknownBench(String),
}

/// The record of a trace line whose request names benchmark `bench` and
/// carries `payload`, with the invocations per minute in the fields after
/// the first two.
pub fn trace_record(bench: &str, payload: Value, fields: &Vec<String>) -> (r: TraceRecord)
    requires
        fields.len() >= 2,
    ensures
        match r {
            TraceRecord::Row(row) => exists|i: int|
                resolves_to(bench@, i) && row.bench_type@ == bench_prefix(i) && row.action_path@
                    == bench_action(i) && row.payload == payload && row.rpm@ == rpm_of_fields(fields.deep_view()),
            TraceRecord::UnknownBench(name) => name@ == bench@ && forall|i: int|
                0 <= i < BENCH_COUNT ==> !has_bench_prefix(bench@, #[trigger] bench_prefix(i)),
        },
{
    let (bench_type, action_path) = match resolve_action(bench) {
        Some(pair) => pair,
        None => {
            let c = chars_of(bench);
            return TraceRecord::UnknownBench(string_of(&c));
        },
    };
    let mut rpm: Vec<u32> = Vec::new();
    let num_minute_cols = fields.len() - 2;
    for i in 0..num_minute_cols
        invariant
            num_minute_cols == fields.len() - 2,
            rpm@ == rpm_of_fields(fields.deep_view()).take(i as int),
    {
        let v = match parse_u32(fields[i + 2].as_str()) {
            Some(v) => v,
            None => 0,
        };
        rpm.push(v);
        assert(rpm@ =~= rpm_of_fields(fields.deep_view()).take(i + 1));
    }
    assert(rpm@ =~= rpm_of_fields(fields.deep_view()));
    let bt = chars_of(bench_type);
    let ap = chars_of(action_path);
    TraceRecord::Row(TraceRow { bench_type: string_of(&bt), action_path: string_of(&ap), payload, rpm })
}

/// Reads one trace record: the request JSON in the second field (with a
/// `bench` name and a `payload` JSON text), and the invocations per minute
/// in the fields after it. The payload read is opaque to the library.
pub fn parse_trace_record(fields: &Vec<String>) -> (r: Result<TraceRecord, TraceError>)
    ensures
        match r {
            Err(e) => record_error(fields.deep_view(), e),
            Ok(TraceRecord::Row(row)) => record_ok(fields.deep_view()) && row_of_record(fields.deep_view(), row),
            Ok(TraceRecord::UnknownBench(name)) => record_ok(fields.deep_view()) && Some(name@)
                == record_bench(fields.deep_view()) && !record_known(fields.deep_view()),
        },
{
    let ghost fv = fields.deep_view();
    if fields.len() < 2 {
        return Err(TraceError::ShortRecord);
    }
    assert(fv[1] == fields@[1]@);
    let request = fields[1].as_str();
    match json_from_str(request) {
        Ok(_) => {},
        Err(e) => {
            return Err(TraceError::BadRecordJson(e));
        },
    }
    let bench = match json_member_str(request, "bench") {
        Some(b) => b,
        None => {
            return Err(TraceError::MissingBench);
        },
    };
    let payload_text = match json_member_str(request, "payload") {
        Some(p) => p,
        None => {
            return Err(TraceError::MissingPayload);
        },
    };
    let payload = match json_from_str(payload_text.as_str()) {
        Ok(v) => v,
        Err(e) => {
            return Err(TraceError::BadPayloadJson(e));
        },
    };
    let rec = trace_record(bench.as_str(), payload, fields);
    proof {
        match &rec {
            TraceRecord::Row(row) => {
                let i = choose|i: int|
                    resolves_to(bench@, i) && row.bench_type@ == bench_prefix(i) && row.action_path@
                        == bench_action(i) && row.payload == payload && row.rpm@ == rpm_of_fields(fv);
                assert(row_of_record(fv, *row));
            },
            TraceRecord::UnknownBench(_) => {},
        }
    }
    Ok(rec)
}

#[verifier::external_type_specification]
#[verifier::external_body]
pub struct ExCsvError(csv::Error);

/// The data records of a CSV text whose first row is a header, each as its
/// fields; records may have any number of fields. Nothing when the text is
/// not CSV (or not UTF-8).
pub uninterp spec fn csv_records_of(content: Seq<u8>) -> Option<Seq<Seq<Seq<char>>>>;

/// `csv::ReaderBuilder` with headers and flexible record lengths, reading
/// `content` and collecting `records()` as strings (named `csv_records_of`).
#[verifier::external_body]
fn csv_records(content: &[u8]) -> (r: Result<Vec<Vec<String>>, csv::Error>)
    ensures
        match r {
            Ok(v) => csv_records_of(content@) == Some(v.deep_view()),
            Err(_) => csv_records_of(content@) is None,
        },
{
    csv::ReaderBuilder::new()
        .has_headers(true)
        .flexible(true)
        .from_reader(content)
        .records()
        .map(|rec| rec.map(|fields| fields.iter().map(str::to_owned).collect()))
        .collect()
}

/// Why a trace file could not be read.
#[derive(Debug)]
pub enum TraceFileError {
    /// The text is not CSV.
    Csv(csv::Error),
    /// Data record `index` (counted from 0 after the header) is malformed.
    Record { index: usize, error: TraceError },
}

/// The indices of the records, in order, whose benchmark resolves to a type.
pub open spec fn known_indices(recs: Seq<Seq<Seq<char>>>) -> Seq<int>
    decreases recs.len(),
{
    if recs.len() == 0 {
        Seq::empty()
    } else if record_known(recs.last()) {
        known_indices(recs.drop_last()).push(recs.len() - 1)
    } else {
        known_indices(recs.drop_last())
    }
}

/// The indices of the well-formed records, in order, whose benchmark
/// resolves to no type.
pub open spec fn unknown_indices(recs: Seq<Seq<Seq<char>>>) -> Seq<int>
    decreases recs.len(),
{
    if recs.len() == 0 {
        Seq::empty()
    } else if record_ok(recs.last()) && !record_known(recs.last()) {
        unknown_indices(recs.drop_last()).push(recs.len() - 1)
    } else {
        unknown_indices(recs.drop_last())
    }
}

proof fn lemma_unknown_indices_bound(recs: Seq<Seq<Seq<char>>>)
    ensures
        forall|j: int| 0 <= j < unknown_indices(recs).len() ==> 0 <= #[trigger] unknown_indices(recs)[j] < recs.len(),
    decreases recs.len(),
{
    if recs.len() > 0 {
        let d = recs.drop_last();
        lemma_unknown_indices_bound(d);
        let ui = unknown_indices(d);
        assert forall|j: int| 0 <= j < unknown_indices(recs).len() implies 0 <= #[trigger] unknown_indices(
            recs,
        )[j] < recs.len() by {
            if j < ui.len() {
                assert(unknown_indices(recs)[j] == ui[j]);
            }
        }
    }
}

/// The rows come from exactly the well-formed records whose benchmark
/// resolves, each once and in file order; the unknown names from exactly
/// the well-formed records whose benchmark does not.
pub proof fn lemma_record_indices(recs: Seq<Seq<Seq<char>>>)
    ensures
        forall|k: int| 0 <= k < recs.len() ==> (record_known(#[trigger] recs[k]) <==> known_indices(recs).contains(k)),
        forall|k: int|
            0 <= k < recs.len() ==> (record_ok(#[trigger] recs[k]) && !record_known(recs[k]) <==> unknown_indices(
                recs,
            ).contains(k)),
        forall|j1: int, j2: int|
            0 <= j1 < j2 < known_indices(recs).len() ==> #[trigger] known_indices(recs)[j1] < #[trigger] known_indices(
                recs,
            )[j2],
        forall|j1: int, j2: int|
            0 <= j1 < j2 < unknown_indices(recs).len() ==> #[trigger] unknown_indices(recs)[j1]
                < #[trigger] unknown_indices(recs)[j2],
        forall|j: int| 0 <= j < known_indices(recs).len() ==> 0 <= #[trigger] known_indices(recs)[j] < recs.len(),
        forall|j: int| 0 <= j < unknown_indices(recs).len() ==> 0 <= #[trigger] unknown_indices(recs)[j] < recs.len(),
    decreases recs.len(),
{
    if recs.len() > 0 {
        let d = recs.drop_last();
        let n = recs.len() - 1;
        lemma_record_indices(d);
        let ki = known_indices(d);
        let ui = unknown_indices(d);
        assert(recs.last() == recs[n]);
        assert forall|k: int| 0 <= k < recs.len() implies (record_known(#[trigger] recs[k])
            <==> known_indices(recs).contains(k)) by {
            if k < n {
                assert(d[k] == recs[k]);
                if known_indices(recs).contains(k) {
                    let j = choose|j: int| 0 <= j < known_indices(recs).len() && known_indices(recs)[j] == k;
                    if j < ki.len() {
                        assert(known_indices(recs)[j] == ki[j]);
                        assert(ki.contains(k));
                    }
                }
                if ki.contains(k) {
                    let j = choose|j: int| 0 <= j < ki.len() && ki[j] == k;
                    assert(known_indices(recs)[j] == ki[j]);
                }
            } else {
                if record_known(recs[k]) {
                    assert(known_indices(recs)[ki.len() as int] == n);
                } else if known_indices(recs).contains(k) {
                    let j = choose|j: int| 0 <= j < known_indices(recs).len() && known_indices(recs)[j] == k;
                    assert(known_indices(recs)[j] == ki[j]);
                }
            }
        }
        assert forall|k: int| 0 <= k < recs.len() implies (record_ok(#[trigger] recs[k]) && !record_known(recs[k])
            <==> unknown_indices(recs).contains(k)) by {
            if k < n {
                assert(d[k] == recs[k]);
                if unknown_indices(recs).contains(k) {
                    let j = choose|j: int| 0 <= j < unknown_indices(recs).len() && unknown_indices(recs)[j] == k;
                    if j < ui.len() {
                        assert(unknown_indices(recs)[j] == ui[j]);
                        assert(ui.contains(k));
                    }
                }
                if ui.contains(k) {
                    let j = choose|j: int| 0 <= j < ui.len() && ui[j] == k;
                    assert(unknown_indices(recs)[j] == ui[j]);
                }
            } else {
                if record_ok(recs[k]) && !record_known(recs[k]) {
                    assert(unknown_indices(recs)[ui.len() as int] == n);
                } else if unknown_indices(recs).contains(k) {
                    let j = choose|j: int| 0 <= j < unknown_indices(recs).len() && unknown_indices(recs)[j] == k;
                    assert(unknown_indices(recs)[j] == ui[j]);
                }
            }
        }
        assert forall|j1: int, j2: int|
            0 <= j1 < j2 < known_indices(recs).len() implies #[trigger] known_indices(recs)[j1]
                < #[trigger] known_indices(recs)[j2] by {
            assert(known_indices(recs)[j1] == ki[j1]);
            if j2 < ki.len() {
                assert(known_indices(recs)[j2] == ki[j2]);
            }
        }
        assert forall|j1: int, j2: int|
            0 <= j1 < j2 < unknown_indices(recs).len() implies #[trigger] unknown_indices(recs)[j1]
                < #[trigger] unknown_indices(recs)[j2] by {
            assert(unknown_indices(recs)[j1] == ui[j1]);
            if j2 < ui.len() {
                assert(unknown_indices(recs)[j2] == ui[j2]);
            }
        }
        assert forall|j: int| 0 <= j < known_indices(recs).len() implies 0 <= #[trigger] known_indices(recs)[j]
            < recs.len() by {
            if j < ki.len() {
                assert(known_indices(recs)[j] == ki[j]);
            }
        }
        assert forall|j: int| 0 <= j < unknown_indices(recs).len() implies 0 <= #[trigger] unknown_indices(recs)[j]
            < recs.len() by {
            if j < ui.len() {
                assert(unknown_indices(recs)[j] == ui[j]);
            }
        }
    }
}

proof fn lemma_known_indices_bound(recs: Seq<Seq<Seq<char>>>)
    ensures
        forall|j: int| 0 <= j < known_indices(recs).len() ==> 0 <= #[trigger] known_indices(recs)[j] < recs.len(),
    decreases recs.len(),
{
    if recs.len() > 0 {
        let d = recs.drop_last();
        lemma_known_indices_bound(d);
        let ki = known_indices(d);
        assert forall|j: int| 0 <= j < known_indices(recs).len() implies 0 <= #[trigger] known_indices(
            recs,
        )[j] < recs.len() by {
            if j < ki.len() {
                assert(known_indices(recs)[j] == ki[j]);
            }
        }
    }
}

/// Reads a trace file: the rows of its records whose benchmark resolves to a
/// type, in order, with the names of the benchmarks that resolve to none,
/// in order; or the first malformed record, or a CSV error.
pub fn parse_trace(content: &[u8]) -> (r: Result<(Vec<TraceRow>, Vec<String>), TraceFileError>)
    ensures
        (r matches Err(TraceFileError::Csv(_))) <==> csv_records_of(content@) is None,
        csv_records_of(content@) matches Some(recs) ==> match r {
            Ok((rows, unknown)) => (forall|k: int| 0 <= k < recs.len() ==> record_ok(#[trigger] recs[k]))
                && rows.len() == known_indices(recs).len() && (forall|j: int|
                0 <= j < rows.len() ==> row_of_record(recs[known_indices(recs)[j]], #[trigger] rows@[j]))
                && unknown.len() == unknown_indices(recs).len() && forall|j: int|
                0 <= j < unknown.len() ==> Some((#[trigger] unknown@[j])@) == record_bench(
                    recs[unknown_indices(recs)[j]],
                ),
            Err(TraceFileError::Record { index, error }) => index < recs.len() && record_error(
                recs[index as int],
                error,
            ) && forall|k: int| 0 <= k < index ==> record_ok(#[trigger] recs[k]),
            Err(TraceFileError::Csv(_)) => false,
        },
{
    let records = match csv_records(content) {
        Ok(v) => v,
        Err(e) => {
            return Err(TraceFileError::Csv(e));
        },
    };
    let ghost recs = records.deep_view();
    let mut rows: Vec<TraceRow> = Vec::new();
    let mut unknown: Vec<String> = Vec::new();
    for k in 0..records.len()
        invariant
            recs == records.deep_view(),
            csv_records_of(content@) == Some(recs),
            forall|m: int| 0 <= m < k ==> record_ok(#[trigger] recs[m]),
            rows.len() == known_indices(recs.take(k as int)).len(),
            forall|j: int|
                0 <= j < rows.len() ==> row_of_record(recs[known_indices(recs.take(k as int))[j]], #[trigger] rows@[j]),
            unknown.len() == unknown_indices(recs.take(k as int)).len(),
            forall|j: int|
                0 <= j < unknown.len() ==> Some((#[trigger] unknown@[j])@) == record_bench(
                    recs[unknown_indices(recs.take(k as int))[j]],
                ),
    {
        assert(recs.take(k + 1).drop_last() =~= recs.take(k as int));
        assert(recs.take(k + 1).last() == recs[k as int]);
        assert(records[k as int].deep_view() == recs[k as int]);
        proof {
            lemma_known_indices_bound(recs.take(k as int));
            lemma_unknown_indices_bound(recs.take(k as int));
        }
        match parse_trace_record(&records[k]) {
            Ok(TraceRecord::Row(row)) => {
                rows.push(row);
                proof {
                    assert(unknown_indices(recs.take(k + 1)) == unknown_indices(recs.take(k as int)));
                    let ki = known_indices(recs.take(k as int));
                    assert(known_indices(recs.take(k + 1)) == ki.push(k as int));
                    assert forall|j: int| 0 <= j < rows.len() implies row_of_record(
                        recs[known_indices(recs.take(k + 1))[j]],
                        #[trigger] rows@[j],
                    ) by {
                        if j < rows.len() - 1 {
                            assert(known_indices(recs.take(k + 1))[j] == ki[j]);
                            assert(recs.take(k as int)[ki[j]] == recs[ki[j]]);
                        }
                    }
                }
            },
            Ok(TraceRecord::UnknownBench(name)) => {
                unknown.push(name);
                proof {
                    assert(known_indices(recs.take(k + 1)) == known_indices(recs.take(k as int)));
                    let ui = unknown_indices(recs.take(k as int));
                    assert(unknown_indices(recs.take(k + 1)) == ui.push(k as int));
                    assert forall|j: int| 0 <= j < unknown.len() implies Some((#[trigger] unknown@[j])@)
                        == record_bench(recs[unknown_indices(recs.take(k + 1))[j]]) by {
                        if j < unknown.len() - 1 {
                            assert(unknown_indices(recs.take(k + 1))[j] == ui[j]);
                        }
                    }
                }
            },
            Err(e) => {
                return Err(TraceFileError::Record { index: k, error: e });
            },
        }
    }
    assert(recs.take(records.len() as int) =~= recs);
    Ok((rows, unknown))
}

/// `s` without its leading `/` characters.
pub open spec fn strip_slashes(s: Seq<char>) -> Seq<char>
    decreases s.len(),
{
    if s.len() > 0 && s[0] == '/' {
        strip_slashes(s.drop_first())
    } else {
        s
    }
}

/// The URL that invokes the action at `action_path` (`namespace/action`,
/// leading slashes ignored) on the API host, or nothing when the path has no
/// `/` after its namespace.
pub open spec fn invocation_url_spec(api_host: Seq<char>, action_path: Seq<char>) -> Option<Seq<char>> {
    let t = strip_slashes(action_path);
    let k = index_of(t, '/');
    if k < 0 {
        None
    } else {
        Some(api_host + "/api/v1/namespaces/"@ + t.subrange(0, k) + "/actions/"@ + t.subrange(k + 1, t.len() as int))
    }
}

/// The URL that invokes an action.
pub fn invocation_url(api_host: &str, action_path: &str) -> (r: Option<String>)
    ensures
        match r {
            Some(u) => invocation_url_spec(api_host@, action_path@) == Some(u@),
            None => invocation_url_spec(api_host@, action_path@) is None,
        },
{
    let v = chars_of(action_path);
    let mut i: usize = 0;
    assert(v@.skip(0) =~= v@);
    while i < v.len() && v[i] == '/'
        invariant
            i <= v.len(),
            strip_slashes(v@) == strip_slashes(v@.skip(i as int)),
        decreases v.len() - i,
    {
        assert(v@.skip(i as int).drop_first() =~= v@.skip(i + 1));
        i = i + 1;
    }
    let t = sub_chars(&v, i, v.len());
    assert(t@ =~= v@.skip(i as int));
    let k = match find_char(&t, '/') {
        Some(k) => k,
        None => {
            return None;
        },
    };
    let namespace = string_of(&sub_chars(&t, 0, k));
    let action = string_of(&sub_chars(&t, k + 1, t.len()));
    let mut u = String::new();
    u.append(api_host);
    u.append("/api/v1/namespaces/");
    u.append(namespace.as_str());
    u.append("/actions/");
    u.append(action.as_str());
    assert(u@ =~= api_host@ + "/api/v1/namespaces/"@ + t@.subrange(0, k as int) + "/actions/"@
        + t@.subrange(k + 1, t@.len() as int));
    Some(u)
}

/// The target rate in a wall-clock minute: the starting rate plus the
/// increment for each minute already run (the minute count taken as a
/// `u32`), capped at `u32::MAX`.
pub open spec fn minute_rps(start_rps: u32, rps_increment: u32, wall_minute: u64) -> int {
    let add = (wall_minute as u32) as int * rps_increment as int;
    if start_rps + add > u32::MAX {
        u32::MAX as int
    } else {
        start_rps + add
    }
}

/// The rate and the number of invocations (60 per unit of rate) for a
/// wall-clock minute.
pub fn minute_target(start_rps: u32, rps_increment: u32, wall_minute: u64) -> (r: (u32, usize))
    requires
        (wall_minute as u32) as int * rps_increment as int <= u32::MAX,
        minute_rps(start_rps, rps_increment, wall_minute) * 60 <= usize::MAX,
    ensures
        r.0 == minute_rps(start_rps, rps_increment, wall_minute),
        r.1 == r.0 * 60,
{
    let rps = start_rps.saturating_add((wall_minute as u32) * rps_increment);
    (rps, rps as usize * 60)
}

/// Row `i` repeated `c[i]` times, for each row in order.
pub open spec fn expansion(c: Seq<usize>) -> Seq<usize>
    decreases c.len(),
{
    if c.len() == 0 {
        Seq::empty()
    } else {
        expansion(c.drop_last()) + Seq::new(c.last() as nat, |j: int| (c.len() - 1) as usize)
    }
}

proof fn lemma_expansion_len(c: Seq<usize>)
    ensures
        expansion(c).len() == counts_total(c),
    decreases c.len(),
{
    if c.len() > 0 {
        lemma_expansion_len(c.drop_last());
    }
}

/// The invocations of a minute as row indices: row `i` repeated
/// `counts[i]` times, rows in order.
pub fn expand_counts(counts: &Vec<usize>) -> (r: Vec<usize>)
    ensures
        r@ == expansion(counts@),
        r.len() == counts_total(counts@),
{
    let mut r: Vec<usize> = Vec::new();
    for i in 0..counts.len()
        invariant
            r@ == expansion(counts@.take(i as int)),
    {
        let ghost before = r@;
        let ci = counts[i];
        for j in 0..ci
            invariant
                i < counts.len(),
                r@ == before + Seq::new(j as nat, |m: int| i),
        {
            r.push(i);
            assert(r@ =~= before + Seq::new((j + 1) as nat, |m: int| i));
        }
        assert(counts@.take(i + 1).drop_last() =~= counts@.take(i as int));
        assert(r@ =~= expansion(counts@.take(i + 1)));
    }
    assert(counts@.take(counts.len() as int) =~= counts@);
    proof {
        lemma_expansion_len(counts@);
    }
    r
}

/// The row invocations of a minute with `n` invocations split by the
/// largest-remainder method over `weights`: exactly `n` of them, row `i`
/// appearing as often as its allocation.
pub fn minute_invocations(n: usize, weights: &Vec<u32>) -> (r: Vec<usize>)
    requires
        total_weight(weights@) > 0,
    ensures
        r.len() == n,
        exists|c: Seq<usize>|
            #![trigger expansion(c)]
            c.len() == weights.len() && (forall|i: int| 0 <= i < c.len() ==> c[i] == allocation(n as int, weights@, i))
                && r@ == expansion(c),
{
    let counts = allocate_counts(n, weights);
    expand_counts(&counts)
}

/// `rand::seq::SliceRandom::shuffle` with the thread-local generator. Which
/// order comes out is chance; the shuffle only swaps items, so the same
/// items come out.
#[verifier::external_body]
fn shuffle_indices(v: &mut Vec<usize>)
    ensures
        final(v)@.to_multiset() == old(v)@.to_multiset(),
{
    v.shuffle(&mut rand::thread_rng());
}

/// The row invocations of a minute in random order: exactly `n` of them,
/// row `i` appearing as often as its allocation.
pub fn shuffled_minute_invocations(n: usize, weights: &Vec<u32>) -> (r: Vec<usize>)
    requires
        total_weight(weights@) > 0,
    ensures
        r.len() == n,
        exists|c: Seq<usize>|
            #![trigger expansion(c)]
            c.len() == weights.len() && (forall|i: int| 0 <= i < c.len() ==> c[i] == allocation(n as int, weights@, i))
                && r@.to_multiset() == expansion(c).to_multiset(),
{
    let mut r = minute_invocations(n, weights);
    let ghost before = r@;
    shuffle_indices(&mut r);
    proof {
        vstd::seq_lib::to_multiset_len(r@);
        vstd::seq_lib::to_multiset_len(before);
    }
    r
}

/// An invocation counts as successful when its status is 2xx (202 included).
pub fn counts_as_ok(status: u16) -> (r: bool)
    ensures
        r == ((200 <= status && status < 300) || status == 202),
{
    (200 <= status && status < 300) || status == 202
}

/// The first-minute weights of the rows: each row's invocations in the
/// first trace minute, 0 for a row without minutes.
pub fn first_minute_weights(rows: &Vec<TraceRow>) -> (w: Vec<u32>)
    ensures
        w.len() == rows.len(),
        forall|i: int| 0 <= i < w.len() ==> #[trigger] w@[i] == if rows@[i].rpm@.len() > 0 {
            rows@[i].rpm@[0]
        } else {
            0u32
        },
{
    let mut w: Vec<u32> = Vec::new();
    for i in 0..rows.len()
        invariant
            w.len() == i,
            forall|k: int| 0 <= k < i ==> #[trigger] w@[k] == if rows@[k].rpm@.len() > 0 {
                rows@[k].rpm@[0]
            } else {
                0u32
            },
    {
        let v = if rows[i].rpm.len() > 0 {
            rows[i].rpm[0]
        } else {
            0
        };
        w.push(v);
    }
    w
}

/// The first-minute weight of benchmark type `t` among the first `k` rows.
pub open spec fn type_weight(rows: Seq<TraceRow>, w: Seq<u32>, t: Seq<char>, k: int) -> int
    decreases k,
{
    if k <= 0 {
        0
    } else {
        type_weight(rows, w, t, k - 1) + if rows[k - 1].bench_type@ == t {
            w[k - 1] as int
        } else {
            0int
        }
    }
}

/// The benchmark type of row `i` is listed in `mix`.
pub open spec fn type_listed(rows: Seq<TraceRow>, mix: Seq<(String, u64)>, i: int) -> bool {
    exists|k: int| 0 <= k < mix.len() && (#[trigger] mix[k]).0@ == rows[i].bench_type@
}

/// `mix` lists each benchmark type of the first `m` rows once, in
/// lexicographic order, with its total weight.
pub open spec fn is_mixture(rows: Seq<TraceRow>, w: Seq<u32>, m: int, mix: Seq<(String, u64)>) -> bool {
    &&& forall|k1: int, k2: int|
        0 <= k1 < k2 < mix.len() ==> lex_lt((#[trigger] mix[k1]).0@, (#[trigger] mix[k2]).0@)
    &&& forall|k: int| 0 <= k < mix.len() ==> exists|i: int| 0 <= i < m && rows[i].bench_type@ == (#[trigger] mix[k]).0@
    &&& forall|i: int| 0 <= i < m ==> #[trigger] type_listed(rows, mix, i)
    &&& forall|k: int| 0 <= k < mix.len() ==> (#[trigger] mix[k]).1 == type_weight(rows, w, mix[k].0@, m)
}

proof fn lemma_type_weight_bound(rows: Seq<TraceRow>, w: Seq<u32>, t: Seq<char>, k: int)
    requires
        0 <= k <= w.len(),
    ensures
        0 <= type_weight(rows, w, t, k) <= total_weight(w.take(k)),
    decreases k,
{
    if k > 0 {
        lemma_type_weight_bound(rows, w, t, k - 1);
        assert(w.take(k).drop_last() =~= w.take(k - 1));
    }
}

proof fn lemma_total_weight_prefix(w: Seq<u32>, k: int)
    requires
        0 <= k <= w.len(),
    ensures
        0 <= total_weight(w.take(k)) <= total_weight(w),
    decreases w.len() - k,
{
    if k < w.len() {
        lemma_total_weight_prefix(w, k + 1);
        assert(w.take(k + 1).drop_last() =~= w.take(k));
    } else {
        assert(w.take(k) =~= w);
    }
    if k > 0 {
        lemma_total_weight_nonneg(w.take(k));
    }
}

/// The first-minute mixture: for each benchmark type among the rows that
/// have a weight, its total weight, types in lexicographic order.
pub fn bench_mixture(rows: &Vec<TraceRow>, weights: &Vec<u32>) -> (mix: Vec<(String, u64)>)
    requires
        total_weight(weights@) <= u64::MAX,
    ensures
        is_mixture(
            rows@,
            weights@,
            if rows.len() < weights.len() {
                rows.len() as int
            } else {
                weights.len() as int
            },
            mix@,
        ),
{
    let m = if rows.len() < weights.len() {
        rows.len()
    } else {
        weights.len()
    };
    let mut types: Vec<Vec<char>> = Vec::new();
    for k in 0..m
        invariant
            m <= rows.len(),
            types.len() == k,
            forall|j: int| 0 <= j < k ==> (#[trigger] types@[j])@ == rows@[j].bench_type@,
    {
        types.push(chars_of(rows[k].bench_type.as_str()));
    }
    let mut mix: Vec<(String, u64)> = Vec::new();
    let mut last: Vec<char> = Vec::new();
    let mut has_last = false;
    loop
        invariant
            m <= rows.len(),
            m <= weights.len(),
            m == if rows.len() < weights.len() {
                rows.len()
            } else {
                weights.len()
            },
            total_weight(weights@) <= u64::MAX,
            types.len() == m,
            forall|j: int| 0 <= j < m ==> (#[trigger] types@[j])@ == rows@[j].bench_type@,
            has_last == (mix.len() > 0),
            has_last ==> last@ == mix@.last().0@,
            forall|k1: int, k2: int|
                0 <= k1 < k2 < mix.len() ==> lex_lt((#[trigger] mix@[k1]).0@, (#[trigger] mix@[k2]).0@),
            forall|k: int| 0 <= k < mix.len() ==> exists|i: int| 0 <= i < m && rows@[i].bench_type@ == (#[trigger] mix@[k]).0@,
            forall|i: int|
                0 <= i < m && has_last && !lex_lt(last@, rows@[i].bench_type@) ==> #[trigger] type_listed(rows@, mix@, i),
            forall|k: int| 0 <= k < mix.len() ==> (#[trigger] mix@[k]).1 == type_weight(rows@, weights@, mix@[k].0@, m as int),
        decreases below(m as int, |i: int| !has_last || lex_lt(last@, rows@[i].bench_type@)).len(),
    {
        let ghost cand = |i: int| !has_last || lex_lt(last@, rows@[i].bench_type@);
        let mut best: usize = 0;
        let mut found = false;
        for i in 0..m
            invariant
                m <= rows.len(),
                types.len() == m,
                forall|j: int| 0 <= j < m ==> (#[trigger] types@[j])@ == rows@[j].bench_type@,
                cand == (|i: int| !has_last || lex_lt(last@, rows@[i].bench_type@)),
                found ==> best < i && cand(best as int),
                found ==> forall|j: int|
                    0 <= j < i && #[trigger] cand(j) ==> rows@[best as int].bench_type@ == rows@[j].bench_type@
                        || lex_lt(rows@[best as int].bench_type@, rows@[j].bench_type@),
                !found ==> forall|j: int| 0 <= j < i ==> !#[trigger] cand(j),
        {
            if !has_last || lex_less(&last, &types[i]) {
                if !found || lex_less(&types[i], &types[best]) {
                    proof {
                        if found {
                            assert forall|j: int| 0 <= j < i + 1 && #[trigger] cand(j) implies rows@[i as int].bench_type@
                                == rows@[j].bench_type@ || lex_lt(rows@[i as int].bench_type@, rows@[j].bench_type@) by {
                                if j < i {
                                    let b = rows@[best as int].bench_type@;
                                    if b == rows@[j].bench_type@ {
                                    } else {
                                        lemma_lex_transitive(rows@[i as int].bench_type@, b, rows@[j].bench_type@);
                                    }
                                }
                            }
                        }
                    }
                    best = i;
                    found = true;
                } else {
                    proof {
                        let b = rows@[best as int].bench_type@;
                        let t = rows@[i as int].bench_type@;
                        if b != t {
                            lemma_lex_total(b, t);
                        }
                    }
                }
            }
        }
        if !found {
            proof {
                assert forall|i: int| 0 <= i < m implies #[trigger] type_listed(rows@, mix@, i) by {
                    assert(!cand(i));
                }
                assert(is_mixture(rows@, weights@, m as int, mix@));
            }
            return mix;
        }
        let name = string_of(&types[best]);
        let mut total: u64 = 0;
        for i in 0..m
            invariant
                m <= rows.len(),
                m <= weights.len(),
                total_weight(weights@) <= u64::MAX,
                types.len() == m,
                forall|j: int| 0 <= j < m ==> (#[trigger] types@[j])@ == rows@[j].bench_type@,
                best < m,
                total == type_weight(rows@, weights@, types@[best as int]@, i as int),
        {
            proof {
                lemma_type_weight_bound(rows@, weights@, types@[best as int]@, i + 1);
                lemma_total_weight_prefix(weights@, i + 1);
            }
            if same_chars(&types[i], &types[best]) {
                total = total + weights[i] as u64;
            }
        }
        let ghost old_mix = mix@;
        let ghost old_last = last@;
        let ghost old_has = has_last;
        let ghost old_set = below(m as int, cand);
        let ghost name_v = rows@[best as int].bench_type@;
        mix.push((name, total));
        last = types[best].clone();
        assert(last@ =~= types@[best as int]@) by {
            assert forall|j: int| 0 <= j < last@.len() implies last@[j] == types@[best as int]@[j] by {}
        }
        has_last = true;
        proof {
            let new_cand = |i: int| !has_last || lex_lt(last@, rows@[i].bench_type@);
            let new_set = below(m as int, new_cand);
            lemma_below_finite(m as int, cand);
            lemma_below_finite(m as int, new_cand);
            assert(new_set.subset_of(old_set.remove(best as int))) by {
                assert forall|j: int| new_set.contains(j) implies old_set.remove(best as int).contains(j) by {
                    if old_has {
                        lemma_lex_transitive(old_last, name_v, rows@[j].bench_type@);
                    }
                    lemma_lex_irreflexive(name_v);
                }
            }
            lemma_len_subset(new_set, old_set.remove(best as int));
            assert(old_set.contains(best as int));
            assert(mix@[mix.len() - 1].0@ == name_v);
            assert forall|k1: int, k2: int|
                0 <= k1 < k2 < mix.len() implies lex_lt((#[trigger] mix@[k1]).0@, (#[trigger] mix@[k2]).0@) by {
                if k2 == mix.len() - 1 {
                    assert(mix@[k1] == old_mix[k1]);
                    if k1 < old_mix.len() - 1 {
                        assert(lex_lt(old_mix[k1].0@, old_last));
                        lemma_lex_transitive(old_mix[k1].0@, old_last, name_v);
                    }
                }
            }
            assert forall|k: int| 0 <= k < mix.len() implies exists|i: int| 0 <= i < m && rows@[i].bench_type@ == (#[trigger] mix@[k]).0@ by {
                if k == mix.len() - 1 {
                    assert(rows@[best as int].bench_type@ == mix@[k].0@);
                } else {
                    assert(mix@[k] == old_mix[k]);
                }
            }
            assert forall|i: int|
                0 <= i < m && !lex_lt(last@, rows@[i].bench_type@) implies #[trigger] type_listed(rows@, mix@, i) by {
                let t = rows@[i].bench_type@;
                if cand(i) {
                    assert(name_v == t);
                    assert(mix@[mix.len() - 1].0@ == t);
                } else {
                    assert(type_listed(rows@, old_mix, i));
                    let k = choose|k: int| 0 <= k < old_mix.len() && (#[trigger] old_mix[k]).0@ == t;
                    assert(mix@[k] == old_mix[k]);
                }
            }
            assert forall|k: int| 0 <= k < mix.len() implies (#[trigger] mix@[k]).1 == type_weight(rows@, weights@, mix@[k].0@, m as int) by {
                if k < mix.len() - 1 {
                    assert(mix@[k] == old_mix[k]);
                }
            }
            lemma_below_ext(m as int, |i: int| !has_last || lex_lt(last@, rows@[i].bench_type@), new_cand);
        }
    }
}

/// The sum of the weights in a mixture.
pub open spec fn mix_sum(mix: Seq<(String, u64)>) -> int
    decreases mix.len(),
{
    if mix.len() == 0 {
        0
    } else {
        mix_sum(mix.drop_last()) + mix.last().1
    }
}

/// The weights of the mixture's types among the first `k` rows, added up.
spec fn mix_weight(rows: Seq<TraceRow>, w: Seq<u32>, mix: Seq<(String, u64)>, k: int) -> int
    decreases mix.len(),
{
    if mix.len() == 0 {
        0
    } else {
        mix_weight(rows, w, mix.drop_last(), k) + type_weight(rows, w, mix.last().0@, k)
    }
}

/// The number of entries of the mixture with type `t`.
spec fn type_entries(mix: Seq<(String, u64)>, t: Seq<char>) -> int
    decreases mix.len(),
{
    if mix.len() == 0 {
        0
    } else {
        type_entries(mix.drop_last(), t) + if mix.last().0@ == t {
            1int
        } else {
            0int
        }
    }
}

proof fn lemma_mix_sum_is_weight(rows: Seq<TraceRow>, w: Seq<u32>, mix: Seq<(String, u64)>, k: int)
    requires
        forall|j: int| 0 <= j < mix.len() ==> (#[trigger] mix[j]).1 == type_weight(rows, w, mix[j].0@, k),
    ensures
        mix_sum(mix) == mix_weight(rows, w, mix, k),
    decreases mix.len(),
{
    if mix.len() > 0 {
        let d = mix.drop_last();
        assert forall|j: int| 0 <= j < d.len() implies (#[trigger] d[j]).1 == type_weight(rows, w, d[j].0@, k) by {
            assert(d[j] == mix[j]);
        }
        lemma_mix_sum_is_weight(rows, w, d, k);
        assert(mix[mix.len() - 1] == mix.last());
    }
}

proof fn lemma_mix_weight_step(rows: Seq<TraceRow>, w: Seq<u32>, mix: Seq<(String, u64)>, k: int)
    requires
        0 < k,
    ensures
        mix_weight(rows, w, mix, k) == mix_weight(rows, w, mix, k - 1) + type_entries(
            mix,
            rows[k - 1].bench_type@,
        ) * w[k - 1],
    decreases mix.len(),
{
    if mix.len() > 0 {
        lemma_mix_weight_step(rows, w, mix.drop_last(), k);
        let c = type_entries(mix.drop_last(), rows[k - 1].bench_type@);
        assert(c * w[k - 1] + w[k - 1] == (c + 1) * w[k - 1]) by (nonlinear_arith);
    }
}

proof fn lemma_type_entries_one(mix: Seq<(String, u64)>, t: Seq<char>)
    requires
        forall|k1: int, k2: int| 0 <= k1 < k2 < mix.len() ==> (#[trigger] mix[k1]).0@ != (#[trigger] mix[k2]).0@,
        exists|k: int| 0 <= k < mix.len() && (#[trigger] mix[k]).0@ == t,
    ensures
        type_entries(mix, t) == 1,
    decreases mix.len(),
{
    let d = mix.drop_last();
    if mix.last().0@ == t {
        assert forall|k: int| 0 <= k < d.len() implies (#[trigger] d[k]).0@ != t by {
            assert(d[k] == mix[k]);
            assert(mix[mix.len() - 1] == mix.last());
        }
        lemma_type_entries_none(d, t);
    } else {
        let k = choose|k: int| 0 <= k < mix.len() && (#[trigger] mix[k]).0@ == t;
        assert(mix[mix.len() - 1] == mix.last());
        assert(d[k] == mix[k]);
        assert forall|k1: int, k2: int| 0 <= k1 < k2 < d.len() implies (#[trigger] d[k1]).0@ != (
        #[trigger] d[k2]).0@ by {
            assert(d[k1] == mix[k1]);
            assert(d[k2] == mix[k2]);
        }
        lemma_type_entries_one(d, t);
    }
}

proof fn lemma_type_entries_none(mix: Seq<(String, u64)>, t: Seq<char>)
    requires
        forall|k: int| 0 <= k < mix.len() ==> (#[trigger] mix[k]).0@ != t,
    ensures
        type_entries(mix, t) == 0,
    decreases mix.len(),
{
    if mix.len() > 0 {
        let d = mix.drop_last();
        assert forall|k: int| 0 <= k < d.len() implies (#[trigger] d[k]).0@ != t by {
            assert(d[k] == mix[k]);
        }
        lemma_type_entries_none(d, t);
    }
}

/// The mixture's weights add up to the weight of the rows it covers: each
/// row's weight is counted once, under its benchmark type.
pub proof fn lemma_mixture_total(rows: Seq<TraceRow>, w: Seq<u32>, m: int, mix: Seq<(String, u64)>)
    requires
        0 <= m <= rows.len(),
        m <= w.len(),
        is_mixture(rows, w, m, mix),
    ensures
        mix_sum(mix) == total_weight(w.take(m)),
{
    assert forall|k1: int, k2: int| 0 <= k1 < k2 < mix.len() implies (#[trigger] mix[k1]).0@ != (
    #[trigger] mix[k2]).0@ by {
        if mix[k1].0@ == mix[k2].0@ {
            lemma_lex_irreflexive(mix[k1].0@);
        }
    }
    lemma_mix_sum_is_weight(rows, w, mix, m);
    lemma_mix_weight_prefix(rows, w, m, mix, m);
}

proof fn lemma_mix_weight_prefix(rows: Seq<TraceRow>, w: Seq<u32>, m: int, mix: Seq<(String, u64)>, k: int)
    requires
        0 <= k <= m <= rows.len(),
        m <= w.len(),
        forall|k1: int, k2: int| 0 <= k1 < k2 < mix.len() ==> (#[trigger] mix[k1]).0@ != (#[trigger] mix[k2]).0@,
        forall|i: int| 0 <= i < m ==> #[trigger] type_listed(rows, mix, i),
    ensures
        mix_weight(rows, w, mix, k) == total_weight(w.take(k)),
    decreases k,
{
    if k == 0 {
        lemma_mix_weight_zero(rows, w, mix);
        assert(w.take(0) =~= Seq::<u32>::empty());
    } else {
        lemma_mix_weight_prefix(rows, w, m, mix, k - 1);
        lemma_mix_weight_step(rows, w, mix, k);
        assert(type_listed(rows, mix, k - 1));
        lemma_type_entries_one(mix, rows[k - 1].bench_type@);
        assert(w.take(k).drop_last() =~= w.take(k - 1));
    }
}

proof fn lemma_mix_weight_zero(rows: Seq<TraceRow>, w: Seq<u32>, mix: Seq<(String, u64)>)
    ensures
        mix_weight(rows, w, mix, 0) == 0,
    decreases mix.len(),
{
    if mix.len() > 0 {
        lemma_mix_weight_zero(rows, w, mix.drop_last());
    }
}

} // verus!
