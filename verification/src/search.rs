use vstd::prelude::*;
use vstd::arithmetic::div_mod::lemma_fundamental_div_mod_converse;

use crate::profile::{
    LayerExecutionResult, cost_sum, mem_sum, lemma_cost_sum_nonneg, lemma_cost_sum_split,
    lemma_mem_sum_nonneg, lemma_mem_sum_split,
};
use crate::partition::{
    cuts_latency, cuts_mem, max2, valid_cuts, lemma_aggregate_le_bound, lemma_cuts_combine,
    lemma_cuts_step_ge, lemma_cuts_step_le, lemma_stage_le_aggregate,
};

verus! {

/// Candidate `a` beats candidate `b`: strictly lower bottleneck latency,
/// or equal latency and strictly lower peak memory.
pub open spec fn strictly_better(
    layers: Seq<LayerExecutionResult>,
    a: Seq<int>,
    b: Seq<int>,
) -> bool {
    ||| cuts_latency(layers, a) < cuts_latency(layers, b)
    ||| (cuts_latency(layers, a) == cuts_latency(layers, b) && cuts_mem(layers, a) < cuts_mem(
        layers,
        b,
    ))
}

/// Of an earlier candidate `cur` and a later one `cand`, keep `cur` unless
/// `cand` is strictly better; a missing side yields the other. Scanning
/// candidates in ascending split order with this rule keeps the
/// lexicographically first among the optimal ones.
pub open spec fn pick_better(
    layers: Seq<LayerExecutionResult>,
    cur: Option<Seq<int>>,
    cand: Option<Seq<int>>,
) -> Option<Seq<int>> {
    match (cur, cand) {
        (None, c) => c,
        (Some(b), None) => Some(b),
        (Some(b), Some(c)) => if strictly_better(layers, c, b) {
            Some(c)
        } else {
            Some(b)
        },
    }
}

/// Joins a partition of `[start, k)` with one of `[k, end)`: the left
/// boundaries followed by the right ones, sharing the boundary `k` once.
/// A missing side makes the whole candidate missing.
pub open spec fn combine_opt(l: Option<Seq<int>>, r: Option<Seq<int>>) -> Option<Seq<int>> {
    if l is Some && r is Some {
        Some(l.unwrap() + r.unwrap().drop_first())
    } else {
        None
    }
}

/// Split position `p` enumerates the pairs `(k, n1)` of a range split at
/// layer `k` giving `n1` stages to the left half, in ascending
/// lexicographic order of `(k, n1)`: this is the boundary `k`.
pub open spec fn split_k(start: int, n: int, p: int) -> int {
    start + 1 + p / (n - 1)
}

/// The left-hand stage count `n1` encoded by split position `p`.
pub open spec fn split_n1(n: int, p: int) -> int {
    1 + p % (n - 1)
}

/// Number of split positions for the range `[start, end)` and `n` stages.
pub open spec fn split_count(start: int, end: int, n: int) -> int {
    (end - start - 1) * (n - 1)
}

/// The candidate partition at split position `p`: the best solutions of
/// the two halves joined, missing when either half has none.
pub open spec fn candidate_at(
    layers: Seq<LayerExecutionResult>,
    cap: int,
    start: int,
    end: int,
    n: int,
    p: int,
) -> Option<Seq<int>>
    decreases n, 0int, 0int,
{
    if n < 2 {
        None
    } else {
        let k = split_k(start, n, p);
        let n1 = split_n1(n, p);
        combine_opt(
            spec_best(layers, cap, start, k, n1),
            spec_best(layers, cap, k, end, n - n1),
        )
    }
}

/// The best among the candidates at split positions `0 .. p`, scanned in
/// ascending order with the tie-break of `pick_better`.
pub open spec fn scan_best(
    layers: Seq<LayerExecutionResult>,
    cap: int,
    start: int,
    end: int,
    n: int,
    p: int,
) -> Option<Seq<int>>
    decreases n, 1int, p,
{
    if p <= 0 || n < 2 {
        None
    } else {
        pick_better(
            layers,
            scan_best(layers, cap, start, end, n, p - 1),
            candidate_at(layers, cap, start, end, n, p - 1),
        )
    }
}

/// The optimal feasible partition of `[start, end)` into `n` stages under
/// per-stage memory capacity `cap`: minimum bottleneck latency, ties broken
/// by minimum peak memory, then by the lexicographically first split.
/// `None` when no partition of `n` stages fits the capacity.
pub open spec fn spec_best(
    layers: Seq<LayerExecutionResult>,
    cap: int,
    start: int,
    end: int,
    n: int,
) -> Option<Seq<int>>
    decreases n, 2int, 0int,
{
    if !(0 <= start < end <= layers.len()) || n < 1 {
        None
    } else if n == 1 {
        if mem_sum(layers, start, end) <= cap {
            Some(seq![start, end])
        } else {
            None
        }
    } else {
        scan_best(layers, cap, start, end, n, split_count(start, end, n))
    }
}

/// Joining partitions of `[start, k)` and `[k, end)` partitions
/// `[start, end)` with the stage counts added.
pub proof fn lemma_valid_cuts_combine(
    lc: Seq<int>,
    rc: Seq<int>,
    start: int,
    k: int,
    end: int,
    n1: int,
    n2: int,
)
    requires
        valid_cuts(lc, start, k, n1),
        valid_cuts(rc, k, end, n2),
        n1 >= 1,
        n2 >= 1,
    ensures
        valid_cuts(lc + rc.drop_first(), start, end, n1 + n2),
{
    let comb = lc + rc.drop_first();
    assert(comb.len() == n1 + n2 + 1);
    assert(comb[0] == start);
    assert(comb[n1 + n2] == rc[n2]);
    assert forall|i: int| 0 <= i < n1 + n2 implies (#[trigger] comb[i]) < comb[i + 1] by {
        if i < n1 {
            assert(comb[i] == lc[i]);
            if i + 1 <= n1 {
                assert(comb[i + 1] == lc[i + 1]);
            } else {
                assert(comb[i + 1] == rc[i + 1 - n1]);
            }
        } else {
            assert(comb[i] == rc[i - n1]);
            assert(comb[i + 1] == rc[i + 1 - n1]);
        }
    }
}

/// Tiling and feasibility of the search's answers: whenever the search
/// finds a partition, its stages are non-empty, contiguous, in increasing
/// order, tile `[start, end)` exactly, and each fits the capacity.
pub proof fn lemma_spec_best_valid(
    layers: Seq<LayerExecutionResult>,
    cap: int,
    start: int,
    end: int,
    n: int,
)
    ensures
        spec_best(layers, cap, start, end, n) matches Some(c) ==> valid_cuts(c, start, end, n)
            && cuts_mem(layers, c) <= cap && 0 <= start < end <= layers.len() && 1 <= n,
    decreases n, 2int, 0int,
{
    if 0 <= start < end <= layers.len() && n >= 2 {
        lemma_scan_valid(layers, cap, start, end, n, split_count(start, end, n));
    }
}

proof fn lemma_candidate_valid(
    layers: Seq<LayerExecutionResult>,
    cap: int,
    start: int,
    end: int,
    n: int,
    p: int,
)
    requires
        n >= 2,
    ensures
        candidate_at(layers, cap, start, end, n, p) matches Some(c) ==> valid_cuts(
            c,
            start,
            end,
            n,
        ) && cuts_mem(layers, c) <= cap && 0 <= start < end <= layers.len(),
    decreases n, 0int, 0int,
{
    let k = split_k(start, n, p);
    let n1 = split_n1(n, p);
    lemma_spec_best_valid(layers, cap, start, k, n1);
    lemma_spec_best_valid(layers, cap, k, end, n - n1);
    let l = spec_best(layers, cap, start, k, n1);
    let r = spec_best(layers, cap, k, end, n - n1);
    if l is Some && r is Some {
        lemma_valid_cuts_combine(l.unwrap(), r.unwrap(), start, k, end, n1, n - n1);
        lemma_cuts_combine(layers, l.unwrap(), r.unwrap());
    }
}

/// The scan never returns worse than any candidate it has passed: if the
/// candidate at position `q < p` exists, the scan over `0 .. p` returns a
/// partition, and one whose bottleneck latency is at most the candidate's.
proof fn lemma_scan_dominates(
    layers: Seq<LayerExecutionResult>,
    cap: int,
    start: int,
    end: int,
    n: int,
    p: int,
    q: int,
)
    requires
        n >= 2,
        0 <= q < p,
    ensures
        candidate_at(layers, cap, start, end, n, q) matches Some(c) ==> scan_best(
            layers,
            cap,
            start,
            end,
            n,
            p,
        ) matches Some(b) && cuts_latency(layers, b) <= cuts_latency(layers, c),
    decreases p,
{
    if candidate_at(layers, cap, start, end, n, q) is Some {
        if q < p - 1 {
            lemma_scan_dominates(layers, cap, start, end, n, p - 1, q);
        }
    }
}

/// Completeness and optimality of the search: any partition of
/// `[start, end)` into `n` stages whose every stage fits the capacity
/// witnesses that the search returns one, and the returned partition's
/// bottleneck latency is at most the witness's.
pub proof fn lemma_spec_best_complete(
    layers: Seq<LayerExecutionResult>,
    cap: int,
    cuts: Seq<int>,
    start: int,
    end: int,
    n: int,
)
    requires
        0 <= start,
        end <= layers.len(),
        1 <= n,
        valid_cuts(cuts, start, end, n),
        cuts_mem(layers, cuts) <= cap,
    ensures
        spec_best(layers, cap, start, end, n) is Some,
        cuts_latency(layers, spec_best(layers, cap, start, end, n).unwrap()) <= cuts_latency(
            layers,
            cuts,
        ),
    decreases n,
{
    lemma_cuts_step_ge(cuts, n, n);
    if n == 1 {
        assert(cuts =~= seq![start, end]);
    } else {
        let k = cuts[1];
        let lcuts = seq![start, k];
        let rcuts = cuts.drop_first();
        assert(rcuts.len() == n);
        assert forall|i: int| 0 <= i < n - 1 implies (#[trigger] rcuts[i]) < rcuts[i + 1] by {
            assert(rcuts[i] == cuts[i + 1] && rcuts[i + 1] == cuts[i + 2]);
            assert(cuts[i + 1] < cuts[i + 2]);
        }
        assert(valid_cuts(rcuts, k, end, n - 1));
        lemma_cuts_step_ge(rcuts, n - 1, n - 1);
        assert(cuts.drop_first() =~= rcuts);
        assert(cuts_mem(layers, cuts) == max2(
            mem_sum(layers, start, k),
            cuts_mem(layers, rcuts),
        ));
        assert(cuts_latency(layers, cuts) == max2(
            cost_sum(layers, start, k),
            cuts_latency(layers, rcuts),
        ));
        lemma_spec_best_complete(layers, cap, rcuts, k, end, n - 1);
        let rb = spec_best(layers, cap, k, end, n - 1).unwrap();
        lemma_spec_best_valid(layers, cap, k, end, n - 1);
        assert(spec_best(layers, cap, start, k, 1) == Some(lcuts)) by {
            assert(mem_sum(layers, start, k) <= cap);
            assert(seq![start, k] =~= lcuts);
        }
        assert(cuts[0] < cuts[1]);
        assert(start < k);
        assert(end >= k + (n - 1));
        let q0 = (k - start - 1) * (n - 1);
        assert(0 <= (k - start - 1) * (n - 1) && (k - start - 1) * (n - 1) < (end - start - 1) * (
        n - 1)) by (nonlinear_arith)
            requires
                0 <= k - start - 1,
                k - start - 1 < end - start - 1,
                n - 1 >= 1,
        ;
        lemma_fundamental_div_mod_converse(q0, n - 1, k - start - 1, 0);
        assert(split_k(start, n, q0) == k);
        assert(split_n1(n, q0) == 1);
        let comb = lcuts + rb.drop_first();
        assert(candidate_at(layers, cap, start, end, n, q0) == Some(comb));
        lemma_cuts_combine(layers, lcuts, rb);
        lemma_scan_dominates(layers, cap, start, end, n, split_count(start, end, n), q0);
    }
}

/// Feasibility of everything returned: every stage of a partition the
/// search returns fits the capacity.
pub proof fn lemma_stages_fit(
    layers: Seq<LayerExecutionResult>,
    cap: int,
    start: int,
    end: int,
    n: int,
)
    requires
        spec_best(layers, cap, start, end, n) is Some,
    ensures
        forall|i: int|
            0 <= i < n ==> mem_sum(
                layers,
                #[trigger] spec_best(layers, cap, start, end, n).unwrap()[i],
                spec_best(layers, cap, start, end, n).unwrap()[i + 1],
            ) <= cap,
{
    lemma_spec_best_valid(layers, cap, start, end, n);
    let c = spec_best(layers, cap, start, end, n).unwrap();
    assert forall|i: int| 0 <= i < n implies mem_sum(layers, #[trigger] c[i], c[i + 1])
        <= cap by {
        lemma_stage_le_aggregate(layers, c, i);
    }
}

/// More stages never worsen the bottleneck: when the search finds
/// partitions of the same range for both `n` and `n + 1` stages, the
/// optimum for `n + 1` stages is at most the optimum for `n`.
pub proof fn lemma_latency_monotonic(
    layers: Seq<LayerExecutionResult>,
    cap: int,
    start: int,
    end: int,
    n: int,
)
    requires
        spec_best(layers, cap, start, end, n) is Some,
        spec_best(layers, cap, start, end, n + 1) is Some,
    ensures
        cuts_latency(layers, spec_best(layers, cap, start, end, n + 1).unwrap()) <= cuts_latency(
            layers,
            spec_best(layers, cap, start, end, n).unwrap(),
        ),
{
    let c1 = spec_best(layers, cap, start, end, n).unwrap();
    let c2 = spec_best(layers, cap, start, end, n + 1).unwrap();
    lemma_spec_best_valid(layers, cap, start, end, n);
    lemma_spec_best_valid(layers, cap, start, end, n + 1);
    lemma_cuts_step_ge(c2, n + 1, n + 1);
    // Some stage of the n-way optimum spans at least two layers, since the
    // range holds at least n + 1.
    if !(exists|j: int| 0 <= j < n && (#[trigger] c1[j]) + 2 <= c1[j + 1]) {
        assert forall|t: int| 0 <= t < n implies (#[trigger] c1[t + 1]) <= c1[t] + 1 by {
            assert(!(0 <= t < n && c1[t] + 2 <= c1[t + 1]));
        }
        assert forall|t: int| 0 <= t < n implies (#[trigger] c1[t]) + 1 >= c1[t + 1] by {
            assert(c1[t + 1] <= c1[t] + 1);
        }
        lemma_cuts_step_le(c1, n, n);
        assert(false);
    }
    let j = choose|j: int| 0 <= j < n && (#[trigger] c1[j]) + 2 <= c1[j + 1];
    let m = c1[j] + 1;
    // Split stage j in two; every other stage is carried over unchanged.
    let c2p = c1.subrange(0, j + 1) + seq![m] + c1.subrange(j + 1, n + 1);
    assert(c2p.len() == n + 2);
    assert forall|i: int| 0 <= i < c2p.len() implies (#[trigger] c2p[i]) == spread_at(
        c1,
        j,
        m,
        i,
    ) by {
        if i <= j {
            assert(c2p[i] == c1.subrange(0, j + 1)[i]);
        } else if i == j + 1 {
            assert(c2p[i] == (c1.subrange(0, j + 1) + seq![m])[i]);
        } else {
            assert(c2p[i] == c1.subrange(j + 1, n + 1)[i - j - 2]);
        }
    }
    assert forall|i: int| 0 <= i < n + 1 implies (#[trigger] c2p[i]) < c2p[i + 1] by {
        if i < j {
            assert(c1[i] < c1[i + 1]);
        } else if i > j + 1 {
            assert(c1[i - 1] < c1[i]);
        }
    }
    assert(valid_cuts(c2p, start, end, n + 1));
    let lat1 = cuts_latency(layers, c1);
    assert forall|i: int|
        0 <= i < n + 1 implies mem_sum(layers, #[trigger] c2p[i], c2p[i + 1]) <= cap && cost_sum(
        layers,
        c2p[i],
        c2p[i + 1],
    ) <= lat1 by {
        if i < j {
            lemma_stage_le_aggregate(layers, c1, i);
        } else if i == j {
            lemma_stage_le_aggregate(layers, c1, j);
            lemma_mem_sum_split(layers, c1[j], m, c1[j + 1]);
            lemma_mem_sum_nonneg(layers, m, c1[j + 1]);
            lemma_cost_sum_split(layers, c1[j], m, c1[j + 1]);
            lemma_cost_sum_nonneg(layers, m, c1[j + 1]);
        } else if i == j + 1 {
            lemma_stage_le_aggregate(layers, c1, j);
            lemma_mem_sum_split(layers, c1[j], m, c1[j + 1]);
            lemma_mem_sum_nonneg(layers, c1[j], m);
            lemma_cost_sum_split(layers, c1[j], m, c1[j + 1]);
            lemma_cost_sum_nonneg(layers, c1[j], m);
        } else {
            lemma_stage_le_aggregate(layers, c1, i - 1);
        }
    }
    lemma_aggregate_le_bound(layers, c2p, lat1, cap);
    lemma_spec_best_complete(layers, cap, c2p, start, end, n + 1);
}

/// The boundary sequence that results from splitting stage `j` of `cuts`
/// at the extra boundary `m`.
spec fn spread_at(cuts: Seq<int>, j: int, m: int, i: int) -> int {
    if i <= j {
        cuts[i]
    } else if i == j + 1 {
        m
    } else {
        cuts[i - 1]
    }
}

/// A single stage over a range that fits the capacity is the search's
/// one-stage answer: its bottleneck latency is the range's whole cost and
/// its peak memory the range's whole memory.
pub proof fn lemma_single_stage(layers: Seq<LayerExecutionResult>, cap: int)
    requires
        layers.len() > 0,
        mem_sum(layers, 0, layers.len() as int) <= cap,
    ensures
        spec_best(layers, cap, 0, layers.len() as int, 1) == Some(
            seq![0int, layers.len() as int],
        ),
        cuts_latency(layers, seq![0int, layers.len() as int]) == cost_sum(
            layers,
            0,
            layers.len() as int,
        ),
        cuts_mem(layers, seq![0int, layers.len() as int]) == mem_sum(
            layers,
            0,
            layers.len() as int,
        ),
{
}

proof fn lemma_scan_valid(
    layers: Seq<LayerExecutionResult>,
    cap: int,
    start: int,
    end: int,
    n: int,
    p: int,
)
    requires
        n >= 2,
    ensures
        scan_best(layers, cap, start, end, n, p) matches Some(c) ==> valid_cuts(c, start, end, n)
            && cuts_mem(layers, c) <= cap && 0 <= start < end <= layers.len(),
    decreases n, 1int, p,
{
    if p > 0 {
        lemma_scan_valid(layers, cap, start, end, n, p - 1);
        lemma_candidate_valid(layers, cap, start, end, n, p - 1);
    }
}

} // verus!
