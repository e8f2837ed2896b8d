use vstd::prelude::*;
use vstd::arithmetic::div_mod::lemma_fundamental_div_mod_converse;

use crate::error::PlanError;
use crate::profile::{LayerExecutionResult, LayerProfileStore};
use crate::partition::{
    PipelineStage, PipelineTemplate, max2, template_matches, lemma_cuts_combine,
};
use crate::search::{
    candidate_at, scan_best, spec_best, split_count, split_k, split_n1, lemma_spec_best_valid,
};

verus! {

/// The found template records exactly the partition the search specifies:
/// present if and only if the search has one, and then stage for stage.
pub open spec fn matches_opt(
    r: Option<PipelineTemplate>,
    layers: Seq<LayerExecutionResult>,
    b: Option<Seq<int>>,
) -> bool {
    &&& (r is Some <==> b is Some)
    &&& (r is Some ==> template_matches(r.unwrap(), layers, b.unwrap()))
}

/// Number of memo slots for `l` layers and up to `n_cap` stages.
pub open spec fn memo_size(l: int, n_cap: int) -> int {
    (l + 1) * (l + 1) * (n_cap + 1)
}

/// Memo slot of the subproblem `(s, e, nn)`: best partition of layer range
/// `[s, e)` into `nn` stages.
pub open spec fn midx(l: int, n_cap: int, s: int, e: int, nn: int) -> int {
    (s * (l + 1) + e) * (n_cap + 1) + nn
}

/// Every computed memo entry agrees with the search: a missing result for
/// an infeasible subproblem, a matching template otherwise.
pub open spec fn memo_ok(
    m: Seq<Option<Option<PipelineTemplate>>>,
    layers: Seq<LayerExecutionResult>,
    cap: int,
    n_cap: int,
) -> bool {
    let l = layers.len() as int;
    &&& m.len() == memo_size(l, n_cap)
    &&& forall|s: int, e: int, nn: int|
        0 <= s < e <= l && 1 <= nn <= n_cap && m[#[trigger] midx(l, n_cap, s, e, nn)] is Some
            ==> matches_opt(
            m[midx(l, n_cap, s, e, nn)].unwrap(),
            layers,
            spec_best(layers, cap, s, e, nn),
        )
}

proof fn lemma_midx_recover(l: int, n_cap: int, s: int, e: int, nn: int)
    requires
        0 <= s <= l,
        0 <= e <= l,
        0 <= nn <= n_cap,
    ensures
        midx(l, n_cap, s, e, nn) / (n_cap + 1) == s * (l + 1) + e,
        midx(l, n_cap, s, e, nn) % (n_cap + 1) == nn,
        (s * (l + 1) + e) / (l + 1) == s,
        (s * (l + 1) + e) % (l + 1) == e,
{
    lemma_fundamental_div_mod_converse(midx(l, n_cap, s, e, nn), n_cap + 1, s * (l + 1) + e, nn);
    lemma_fundamental_div_mod_converse(s * (l + 1) + e, l + 1, s, e);
}

proof fn lemma_midx_bounds(l: int, n_cap: int, s: int, e: int, nn: int)
    requires
        0 <= s <= l,
        0 <= e <= l,
        0 <= nn <= n_cap,
    ensures
        0 <= midx(l, n_cap, s, e, nn) < memo_size(l, n_cap),
{
    assert(s * (l + 1) + e <= (l + 1) * (l + 1) - 1) by (nonlinear_arith)
        requires
            0 <= s <= l,
            0 <= e <= l,
    ;
    assert(0 <= s * (l + 1) + e) by (nonlinear_arith)
        requires
            0 <= s,
            0 <= l,
            0 <= e,
    ;
    assert(0 <= (s * (l + 1) + e) * (n_cap + 1) + nn < (l + 1) * (l + 1) * (n_cap + 1))
        by (nonlinear_arith)
        requires
            0 <= nn <= n_cap,
            0 <= s * (l + 1) + e <= (l + 1) * (l + 1) - 1,
    ;
}

proof fn lemma_midx_injective(
    l: int,
    n_cap: int,
    s: int,
    e: int,
    nn: int,
    s2: int,
    e2: int,
    nn2: int,
)
    requires
        0 <= s <= l,
        0 <= e <= l,
        0 <= nn <= n_cap,
        0 <= s2 <= l,
        0 <= e2 <= l,
        0 <= nn2 <= n_cap,
        midx(l, n_cap, s, e, nn) == midx(l, n_cap, s2, e2, nn2),
    ensures
        s == s2 && e == e2 && nn == nn2,
{
    lemma_midx_recover(l, n_cap, s, e, nn);
    lemma_midx_recover(l, n_cap, s2, e2, nn2);
}

/// Memo slot of `(s, e, nn)`, as executable index arithmetic.
fn memo_index(l: usize, n_cap: usize, s: usize, e: usize, nn: usize) -> (i: usize)
    requires
        s <= l,
        e <= l,
        nn <= n_cap,
        memo_size(l as int, n_cap as int) <= usize::MAX as int,
    ensures
        i == midx(l as int, n_cap as int, s as int, e as int, nn as int),
        i < memo_size(l as int, n_cap as int),
{
    proof {
        assert(s * (l + 1) + e <= (l + 1) * (l + 1) - 1) by (nonlinear_arith)
            requires
                0 <= s <= l,
                0 <= e <= l,
        ;
        assert((s * (l + 1) + e) * (n_cap + 1) + nn < (l + 1) * (l + 1) * (n_cap + 1))
            by (nonlinear_arith)
            requires
                0 <= nn <= n_cap,
                0 <= s * (l + 1) + e <= (l + 1) * (l + 1) - 1,
        ;
        assert((l + 1) * (l + 1) <= (l + 1) * (l + 1) * (n_cap + 1)) by (nonlinear_arith)
            requires
                n_cap as int + 1 >= 1,
        ;
        assert(l + 1 <= (l + 1) * (l + 1)) by (nonlinear_arith)
            requires
                l as int + 1 >= 1,
        ;
        assert(n_cap + 1 <= (l + 1) * (l + 1) * (n_cap + 1)) by (nonlinear_arith)
            requires
                l as int + 1 >= 1,
                n_cap as int + 1 >= 0,
        ;
    }
    (s * (l + 1) + e) * (n_cap + 1) + nn
}

/// Joins the templates of two adjacent layer ranges into one: the left
/// stages followed by the right ones; bottleneck latency and peak memory
/// are the maxima of the two sides'.
fn combine_templates(
    left: PipelineTemplate,
    right: PipelineTemplate,
    Ghost(layers): Ghost<Seq<LayerExecutionResult>>,
    Ghost(lc): Ghost<Seq<int>>,
    Ghost(rc): Ghost<Seq<int>>,
) -> (r: PipelineTemplate)
    requires
        template_matches(left, layers, lc),
        template_matches(right, layers, rc),
        lc.len() >= 2,
        rc.len() >= 2,
        lc[lc.len() - 1] == rc[0],
        lc.len() + rc.len() - 2 <= usize::MAX,
    ensures
        template_matches(r, layers, lc + rc.drop_first()),
{
    proof {
        lemma_cuts_combine(layers, lc, rc);
    }
    let ghost comb = lc + rc.drop_first();
    let PipelineTemplate { num_nodes: ln, stages: mut stages, latency: llat, mem_required: lmem } =
        left;
    let PipelineTemplate { num_nodes: rn, stages: rstages, latency: rlat, mem_required: rmem } =
        right;
    let ghost lstages = stages@;
    let mut i: usize = 0;
    while i < rstages.len()
        invariant
            i <= rstages@.len(),
            stages@ == lstages + rstages@.take(i as int),
        decreases rstages@.len() - i,
    {
        stages.push(rstages[i]);
        proof {
            assert(rstages@.take(i + 1) =~= rstages@.take(i as int).push(rstages@[i as int]));
        }
        i += 1;
    }
    proof {
        assert(rstages@.take(rstages@.len() as int) =~= rstages@);
    }
    let latency = if llat >= rlat {
        llat
    } else {
        rlat
    };
    let mem_required = if lmem >= rmem {
        lmem
    } else {
        rmem
    };
    let num_nodes = ln + rn;
    let t = PipelineTemplate { num_nodes, stages, latency, mem_required };
    proof {
        assert forall|j: int| 0 <= j < t.stages@.len() implies (#[trigger] t.stages@[j]).start
            == comb[j] && t.stages@[j].end == comb[j + 1] by {
            if j < ln {
                assert(t.stages@[j] == lstages[j]);
                assert(comb[j] == lc[j]);
                assert(comb[j + 1] == lc[j + 1]);
            } else {
                assert(t.stages@[j] == rstages@[j - ln]);
                if j == ln {
                    assert(comb[j] == lc[j]);
                } else {
                    assert(comb[j] == rc.drop_first()[j - lc.len() as int]);
                }
                assert(comb[j + 1] == rc.drop_first()[j + 1 - lc.len() as int]);
            }
        }
    }
    t
}

/// Solves the subproblem `(start, end, n)` by memoized recursion: the
/// result is exactly what the search specifies, present if and only if a
/// feasible partition exists.
fn solve(
    store: &LayerProfileStore,
    capacity: u64,
    n_cap: usize,
    memo: &mut Vec<Option<Option<PipelineTemplate>>>,
    start: usize,
    end: usize,
    n: usize,
) -> (r: Option<PipelineTemplate>)
    requires
        store.wf(),
        start < end,
        end <= store@.len(),
        1 <= n <= n_cap,
        memo_size(store@.len() as int, n_cap as int) <= usize::MAX as int,
        memo_ok(old(memo)@, store@, capacity as int, n_cap as int),
    ensures
        memo_ok(final(memo)@, store@, capacity as int, n_cap as int),
        matches_opt(
            r,
            store@,
            spec_best(store@, capacity as int, start as int, end as int, n as int),
        ),
    decreases n,
{
    let ghost layers = store@;
    let ghost cap_i = capacity as int;
    let ghost li = store@.len() as int;
    let l = store.num_layers();
    let idx = memo_index(l, n_cap, start, end, n);
    proof {
        assert(idx == midx(li, n_cap as int, start as int, end as int, n as int));
    }
    match &memo[idx] {
        Some(entry) => {
            let cached: Option<PipelineTemplate> = match entry {
                Some(t) => Some(t.clone()),
                None => None,
            };
            return cached;
        },
        None => {},
    }
    let result: Option<PipelineTemplate>;
    if n == 1 {
        let m = store.range_memory(start, end);
        if m <= capacity {
            let c = store.range_cost(start, end);
            let mut stages: Vec<PipelineStage> = Vec::new();
            stages.push(PipelineStage { start, end });
            let t = PipelineTemplate { num_nodes: 1, stages, latency: c, mem_required: m };
            proof {
                let cuts = seq![start as int, end as int];
                assert(spec_best(layers, cap_i, start as int, end as int, 1)
                    == Some::<Seq<int>>(cuts));
                assert(t.stages@ =~= seq![PipelineStage { start, end }]);
                assert(template_matches(t, layers, cuts));
            }
            result = Some(t);
        } else {
            result = None;
        }
    } else {
        let mut best: Option<PipelineTemplate> = None;
        let ghost mut pos: int = 0;
        let mut k: usize = start + 1;
        while k < end
            invariant
                store.wf(),
                layers == store@,
                cap_i == capacity as int,
                li == store@.len() as int,
                start < end <= store@.len(),
                2 <= n <= n_cap,
                memo_size(li, n_cap as int) <= usize::MAX as int,
                memo_ok(memo@, layers, cap_i, n_cap as int),
                start + 1 <= k <= end,
                pos == (k - start - 1) * (n - 1),
                matches_opt(
                    best,
                    layers,
                    scan_best(layers, cap_i, start as int, end as int, n as int, pos),
                ),
            decreases end - k,
        {
            let mut n1: usize = 1;
            while n1 < n
                invariant
                    store.wf(),
                    layers == store@,
                    cap_i == capacity as int,
                    li == store@.len() as int,
                    start < end <= store@.len(),
                    2 <= n <= n_cap,
                    memo_size(li, n_cap as int) <= usize::MAX as int,
                    memo_ok(memo@, layers, cap_i, n_cap as int),
                    start + 1 <= k < end,
                    1 <= n1 <= n,
                    pos == (k - start - 1) * (n - 1) + (n1 - 1),
                    matches_opt(
                        best,
                        layers,
                        scan_best(layers, cap_i, start as int, end as int, n as int, pos),
                    ),
                decreases n - n1,
            {
                let left = solve(store, capacity, n_cap, memo, start, k, n1);
                let right = solve(store, capacity, n_cap, memo, k, end, n - n1);
                let ghost lb = spec_best(layers, cap_i, start as int, k as int, n1 as int);
                let ghost rb = spec_best(
                    layers,
                    cap_i,
                    k as int,
                    end as int,
                    n as int - n1 as int,
                );
                proof {
                    assert(pos >= 0) by (nonlinear_arith)
                        requires
                            pos == (k as int - start as int - 1) * (n as int - 1) + (n1 as int
                                - 1),
                            k as int - start as int - 1 >= 0,
                            n as int - 1 >= 1,
                            n1 as int - 1 >= 0,
                    ;
                    lemma_fundamental_div_mod_converse(
                        pos,
                        n as int - 1,
                        k as int - start as int - 1,
                        n1 as int - 1,
                    );
                    assert(split_k(start as int, n as int, pos) == k as int);
                    assert(split_n1(n as int, pos) == n1 as int);
                    lemma_spec_best_valid(layers, cap_i, start as int, k as int, n1 as int);
                    lemma_spec_best_valid(
                        layers,
                        cap_i,
                        k as int,
                        end as int,
                        n as int - n1 as int,
                    );
                }
                let cand: Option<PipelineTemplate> = match (left, right) {
                    (Some(lt), Some(rt)) => Some(
                        combine_templates(lt, rt, Ghost(layers), Ghost(lb.unwrap()), Ghost(
                            rb.unwrap(),
                        )),
                    ),
                    _ => None,
                };
                proof {
                    assert(matches_opt(
                        cand,
                        layers,
                        candidate_at(layers, cap_i, start as int, end as int, n as int, pos),
                    ));
                }
                best = match (best, cand) {
                    (None, c) => c,
                    (Some(b), None) => Some(b),
                    (Some(b), Some(c)) => {
                        if c.latency < b.latency || (c.latency == b.latency && c.mem_required
                            < b.mem_required) {
                            Some(c)
                        } else {
                            Some(b)
                        }
                    },
                };
                proof {
                    pos = pos + 1;
                }
                n1 += 1;
            }
            proof {
                assert((k as int - start as int - 1) * (n as int - 1) + (n as int - 1) == ((k
                    as int + 1) - start as int - 1) * (n as int - 1)) by (nonlinear_arith);
            }
            k += 1;
        }
        proof {
            assert(pos == split_count(start as int, end as int, n as int));
        }
        result = best;
    }
    let saved: Option<PipelineTemplate> = match &result {
        Some(t) => Some(t.clone()),
        None => None,
    };
    let ghost before = memo@;
    memo[idx] = Some(saved);
    proof {
        let lc = li;
        let nc = n_cap as int;
        assert forall|s: int, e: int, nn: int|
            0 <= s < e <= lc && 1 <= nn <= nc && memo@[#[trigger] midx(lc, nc, s, e, nn)]
                is Some implies matches_opt(
            memo@[midx(lc, nc, s, e, nn)].unwrap(),
            layers,
            spec_best(layers, cap_i, s, e, nn),
        ) by {
            lemma_midx_bounds(lc, nc, s, e, nn);
            if midx(lc, nc, s, e, nn) == idx as int {
                lemma_midx_injective(
                    lc,
                    nc,
                    s,
                    e,
                    nn,
                    start as int,
                    end as int,
                    n as int,
                );
            } else {
                assert(memo@[midx(lc, nc, s, e, nn)] == before[midx(lc, nc, s, e, nn)]);
            }
        }
    }
    result
}

/// Whether the memo table for `num_layers` layers and stage counts up to
/// `max_nodes` is addressable on this machine; the searches ask for this
/// bound, and a caller establishes it with this check.
pub fn memo_fits(num_layers: usize, max_nodes: usize) -> (r: bool)
    ensures
        r == (memo_size(num_layers as int, max_nodes as int) <= usize::MAX as int),
{
    if num_layers == usize::MAX || max_nodes == usize::MAX {
        proof {
            assert((num_layers as int + 1) * (num_layers as int + 1) * (max_nodes as int + 1)
                > usize::MAX as int) by (nonlinear_arith)
                requires
                    num_layers as int + 1 >= 1,
                    max_nodes as int + 1 >= 1,
                    num_layers as int + 1 > usize::MAX as int || max_nodes as int + 1
                        > usize::MAX as int,
            ;
        }
        return false;
    }
    let l1 = num_layers + 1;
    let n1 = max_nodes + 1;
    proof {
        assert((l1 as int) * (l1 as int) <= u128::MAX as int) by (nonlinear_arith)
            requires
                0 <= l1 as int <= u64::MAX as int,
        ;
    }
    let p1: u128 = (l1 as u128) * (l1 as u128);
    if p1 > usize::MAX as u128 {
        proof {
            assert((l1 as int) * (l1 as int) * (n1 as int) >= (l1 as int) * (l1 as int))
                by (nonlinear_arith)
                requires
                    n1 as int >= 1,
                    (l1 as int) * (l1 as int) >= 0,
            ;
        }
        return false;
    }
    proof {
        assert((p1 as int) * (n1 as int) <= u128::MAX as int) by (nonlinear_arith)
            requires
                0 <= p1 as int <= u64::MAX as int,
                0 <= n1 as int <= u64::MAX as int,
        ;
    }
    let p2: u128 = p1 * (n1 as u128);
    p2 <= usize::MAX as u128
}

/// The largest requested node count; `0` when nothing is requested.
pub open spec fn max_count(counts: Seq<usize>) -> int
    decreases counts.len(),
{
    if counts.len() == 0 {
        0
    } else {
        max2(max_count(counts.drop_last()), counts.last() as int)
    }
}

pub proof fn lemma_max_count_ge(counts: Seq<usize>, i: int)
    requires
        0 <= i < counts.len(),
    ensures
        max_count(counts) >= counts[i],
    decreases counts.len(),
{
    if i < counts.len() - 1 {
        lemma_max_count_ge(counts.drop_last(), i);
        assert(counts.drop_last()[i] == counts[i]);
    }
}

fn contains_count(counts: &Vec<usize>, n: usize) -> (r: bool)
    ensures
        r == counts@.contains(n),
{
    let mut i: usize = 0;
    while i < counts.len()
        invariant
            i <= counts@.len(),
            forall|t: int| 0 <= t < i ==> counts@[t] != n,
        decreases counts@.len() - i,
    {
        if counts[i] == n {
            return true;
        }
        i += 1;
    }
    false
}

/// One entry of a batch answer: a requested node count together with the
/// template the search specifies for it.
pub open spec fn batch_entry_ok(
    counts: Seq<usize>,
    layers: Seq<LayerExecutionResult>,
    cap: int,
    e: (usize, PipelineTemplate),
) -> bool {
    let b = spec_best(layers, cap, 0, layers.len() as int, e.0 as int);
    &&& counts.contains(e.0)
    &&& b is Some
    &&& template_matches(e.1, layers, b.unwrap())
}

/// The search engine: owns the layer profiles, the per-node memory
/// capacity, and the optimal template found for each node count so far.
pub struct PipelineTemplateGenerator {
    store: LayerProfileStore,
    capacity: u64,
    results: Vec<Option<PipelineTemplate>>,
}

impl PipelineTemplateGenerator {
    /// The layer profiles the generator plans over.
    pub closed spec fn layers(&self) -> Seq<LayerExecutionResult> {
        self.store@
    }

    /// The per-node memory capacity every stage must fit.
    pub closed spec fn capacity_spec(&self) -> u64 {
        self.capacity
    }

    /// The largest node count the search has covered; `0` before any run.
    pub closed spec fn solved_spec(&self) -> int {
        self.results@.len() - 1
    }

    /// Each recorded answer agrees with the search over the full range.
    pub closed spec fn wf(&self) -> bool {
        &&& self.store.wf()
        &&& self.results@.len() >= 1
        &&& forall|nn: int|
            1 <= nn < self.results@.len() ==> matches_opt(
                #[trigger] self.results@[nn],
                self.store@,
                spec_best(self.store@, self.capacity as int, 0, self.store@.len() as int, nn),
            )
    }

    /// Binds the generator to one model's profiles and one capacity.
    pub fn new(store: LayerProfileStore, capacity: u64) -> (g: Self)
        requires
            store.wf(),
        ensures
            g.wf(),
            g.layers() == store@,
            g.capacity_spec() == capacity,
            g.solved_spec() == 0,
    {
        let mut results: Vec<Option<PipelineTemplate>> = Vec::new();
        results.push(None);
        PipelineTemplateGenerator { store, capacity, results }
    }

    /// Runs the search for every node count from 1 to `max_nodes`,
    /// memoizing shared subproblems. Fails with `EmptyModel` on an empty
    /// layer sequence, and with `Infeasible` when no node count in the
    /// range has any feasible partition; a mix of feasible and infeasible
    /// counts is a success.
    pub fn solve_up_to(&mut self, max_nodes: usize) -> (r: Result<(), PlanError>)
        requires
            old(self).wf(),
            max_nodes >= 1,
            memo_size(old(self).layers().len() as int, max_nodes as int) <= usize::MAX as int,
        ensures
            final(self).wf(),
            final(self).layers() == old(self).layers(),
            final(self).capacity_spec() == old(self).capacity_spec(),
            old(self).layers().len() == 0 ==> r == Err::<(), PlanError>(PlanError::EmptyModel)
                && final(self).solved_spec() == old(self).solved_spec(),
            old(self).layers().len() > 0 ==> final(self).solved_spec() == max2(
                old(self).solved_spec(),
                max_nodes as int,
            ),
            old(self).layers().len() > 0 ==> match r {
                Ok(_) => exists|nn: int|
                    1 <= nn <= max_nodes && spec_best(
                        old(self).layers(),
                        old(self).capacity_spec() as int,
                        0,
                        old(self).layers().len() as int,
                        nn,
                    ) is Some,
                Err(e) => e == PlanError::Infeasible && forall|nn: int|
                    1 <= nn <= max_nodes ==> spec_best(
                        old(self).layers(),
                        old(self).capacity_spec() as int,
                        0,
                        old(self).layers().len() as int,
                        nn,
                    ) is None,
            },
    {
        let l = self.store.num_layers();
        if l == 0 {
            return Err(PlanError::EmptyModel);
        }
        let ghost layers = self.store@;
        let ghost cap_i = self.capacity as int;
        proof {
            assert(max_nodes as int + 1 <= (l as int + 1) * (l as int + 1) * (max_nodes as int
                + 1) && l as int + 1 <= (l as int + 1) * (l as int + 1) && (l as int + 1) * (l
                as int + 1) <= (l as int + 1) * (l as int + 1) * (max_nodes as int + 1))
                by (nonlinear_arith)
                requires
                    l as int >= 1,
                    max_nodes as int >= 1,
            ;
        }
        if max_nodes + 1 > self.results.len() {
            let total = (l + 1) * (l + 1) * (max_nodes + 1);
            let mut memo: Vec<Option<Option<PipelineTemplate>>> = Vec::new();
            while memo.len() < total
                invariant
                    memo@.len() <= total,
                    forall|t: int| 0 <= t < memo@.len() ==> memo@[t] is None,
                decreases total - memo@.len(),
            {
                memo.push(None);
            }
            proof {
                assert forall|s: int, e: int, nn2: int|
                    0 <= s < e <= l as int && 1 <= nn2 <= max_nodes as int implies memo@[
                    #[trigger] midx(l as int, max_nodes as int, s, e, nn2)] is None by {
                    lemma_midx_bounds(l as int, max_nodes as int, s, e, nn2);
                }
                assert(memo_ok(memo@, layers, cap_i, max_nodes as int));
            }
            let mut nn: usize = self.results.len();
            while nn <= max_nodes
                invariant
                    self.store.wf(),
                    layers == self.store@,
                    cap_i == self.capacity as int,
                    l == self.store@.len(),
                    l > 0,
                    1 <= nn <= max_nodes + 1,
                    self.results@.len() == nn,
                    max_nodes as int + 1 <= usize::MAX as int,
                    memo_size(l as int, max_nodes as int) <= usize::MAX as int,
                    memo_ok(memo@, layers, cap_i, max_nodes as int),
                    self.wf(),
                decreases max_nodes + 1 - nn,
            {
                let t = solve(&self.store, self.capacity, max_nodes, &mut memo, 0, l, nn);
                self.results.push(t);
                nn += 1;
            }
        }
        let mut found = false;
        let mut j: usize = 1;
        while j <= max_nodes
            invariant
                self.wf(),
                layers == self.store@,
                cap_i == self.capacity as int,
                l == self.store@.len(),
                1 <= j <= max_nodes + 1,
                max_nodes as int + 1 <= usize::MAX as int,
                max_nodes < self.results@.len(),
                found <==> exists|nn: int|
                    1 <= nn < j && spec_best(layers, cap_i, 0, l as int, nn) is Some,
            decreases max_nodes + 1 - j,
        {
            match &self.results[j] {
                Some(_) => {
                    found = true;
                },
                None => {},
            }
            j += 1;
        }
        if found {
            Ok(())
        } else {
            Err(PlanError::Infeasible)
        }
    }

    /// Answers a batch request: runs the search up to the largest
    /// requested node count and returns, in ascending order of node count,
    /// the optimal template of every requested count that has one.
    /// Requested counts with no feasible partition are absent from the
    /// answer, not errors; the whole call fails only on an empty model or
    /// when no count up to the largest requested has a feasible partition.
    pub fn templates_for_counts(&mut self, counts: &Vec<usize>) -> (r: Result<
        Vec<(usize, PipelineTemplate)>,
        PlanError,
    >)
        requires
            old(self).wf(),
            counts@.len() >= 1,
            forall|i: int| 0 <= i < counts@.len() ==> 1 <= #[trigger] counts@[i],
            memo_size(old(self).layers().len() as int, max_count(counts@)) <= usize::MAX as int,
        ensures
            final(self).wf(),
            final(self).layers() == old(self).layers(),
            final(self).capacity_spec() == old(self).capacity_spec(),
            ({
                let layers = old(self).layers();
                let cap = old(self).capacity_spec() as int;
                match r {
                    Ok(v) => {
                        &&& layers.len() > 0
                        &&& forall|i: int|
                            0 <= i < v@.len() ==> batch_entry_ok(
                                counts@,
                                layers,
                                cap,
                                #[trigger] v@[i],
                            )
                        &&& forall|i: int, j: int|
                            #![trigger v@[i], v@[j]]
                            0 <= i < j < v@.len() ==> v@[i].0 < v@[j].0
                        &&& forall|c: usize|
                            #[trigger] counts@.contains(c) && spec_best(
                                layers,
                                cap,
                                0,
                                layers.len() as int,
                                c as int,
                            ) is Some ==> exists|i: int| 0 <= i < v@.len() && (#[trigger] v@[i]).0 == c
                    },
                    Err(e) => if layers.len() == 0 {
                        e == PlanError::EmptyModel
                    } else {
                        e == PlanError::Infeasible && forall|nn: int|
                            1 <= nn <= max_count(counts@) ==> spec_best(
                                layers,
                                cap,
                                0,
                                layers.len() as int,
                                nn,
                            ) is None
                    },
                }
            }),
    {
        let ghost layers = self.store@;
        let ghost cap_i = self.capacity as int;
        let ghost li = self.store@.len() as int;
        let mut max_nodes: usize = 0;
        let mut i: usize = 0;
        while i < counts.len()
            invariant
                i <= counts@.len(),
                max_nodes as int == max_count(counts@.take(i as int)),
            decreases counts@.len() - i,
        {
            let c = counts[i];
            proof {
                assert(counts@.take(i + 1).drop_last() =~= counts@.take(i as int));
                assert(counts@.take(i + 1).last() == counts@[i as int]);
            }
            if c > max_nodes {
                max_nodes = c;
            }
            i += 1;
        }
        proof {
            assert(counts@.take(counts@.len() as int) =~= counts@);
            lemma_max_count_ge(counts@, 0);
        }
        match self.solve_up_to(max_nodes) {
            Ok(_) => {},
            Err(e) => {
                return Err(e);
            },
        }
        let mut out: Vec<(usize, PipelineTemplate)> = Vec::new();
        let mut n: usize = 1;
        proof {
            assert(max_nodes as int + 1 <= (li + 1) * (li + 1) * (max_nodes as int + 1))
                by (nonlinear_arith)
                requires
                    li >= 1,
                    max_nodes as int >= 1,
            ;
        }
        while n <= max_nodes
            invariant
                self.wf(),
                layers == self.layers(),
                cap_i == self.capacity_spec() as int,
                li == self.layers().len() as int,
                li >= 1,
                self.solved_spec() >= max_nodes,
                1 <= n <= max_nodes + 1,
                max_nodes as int + 1 <= usize::MAX as int,
                forall|t: int|
                    0 <= t < out@.len() ==> batch_entry_ok(counts@, layers, cap_i, #[trigger] out@[t]),
                forall|t: int, u: int|
                    #![trigger out@[t], out@[u]]
                    0 <= t < u < out@.len() ==> out@[t].0 < out@[u].0,
                forall|t: int| 0 <= t < out@.len() ==> (#[trigger] out@[t]).0 < n,
                forall|c: usize|
                    #[trigger] counts@.contains(c) && 1 <= c < n && spec_best(
                        layers,
                        cap_i,
                        0,
                        li,
                        c as int,
                    ) is Some ==> exists|t: int| 0 <= t < out@.len() && (#[trigger] out@[t]).0 == c,
            decreases max_nodes + 1 - n,
        {
            let ghost old_out = out@;
            let requested = contains_count(counts, n);
            if requested {
                match self.template_for(n) {
                    Ok(t) => {
                        let copy = t.clone();
                        out.push((n, copy));
                        proof {
                            assert(out@[out@.len() - 1].0 == n);
                        }
                    },
                    Err(_) => {},
                }
            }
            proof {
                assert forall|c: usize|
                    #[trigger] counts@.contains(c) && 1 <= c < n + 1 && spec_best(
                        layers,
                        cap_i,
                        0,
                        li,
                        c as int,
                    ) is Some implies exists|t: int|
                    0 <= t < out@.len() && (#[trigger] out@[t]).0 == c by {
                    if c < n {
                        let t0 = choose|t0: int|
                            0 <= t0 < old_out.len() && (#[trigger] old_out[t0]).0 == c;
                        assert(out@[t0].0 == c);
                    } else if out@.len() > old_out.len() {
                        assert(out@[out@.len() - 1].0 == c);
                    }
                }
            }
            n += 1;
        }
        proof {
            assert forall|c: usize|
                #[trigger] counts@.contains(c) && spec_best(layers, cap_i, 0, li, c as int)
                    is Some implies exists|t: int| 0 <= t < out@.len() && (#[trigger] out@[t]).0
                == c by {
                let w = choose|w: int| 0 <= w < counts@.len() && counts@[w] == c;
                lemma_max_count_ge(counts@, w);
            }
        }
        Ok(out)
    }

    /// The optimal template for `num_nodes` stages over the whole layer
    /// sequence. Fails with `NotSolved` when the search has not covered
    /// `num_nodes`, and with `Infeasible` when no partition of that many
    /// stages fits the capacity.
    pub fn template_for(&self, num_nodes: usize) -> (r: Result<&PipelineTemplate, PlanError>)
        requires
            self.wf(),
        ensures
            ({
                let b = spec_best(
                    self.layers(),
                    self.capacity_spec() as int,
                    0,
                    self.layers().len() as int,
                    num_nodes as int,
                );
                match r {
                    Ok(t) => 1 <= num_nodes <= self.solved_spec() && b is Some
                        && template_matches(*t, self.layers(), b.unwrap()),
                    Err(e) => if !(1 <= num_nodes <= self.solved_spec()) {
                        e == PlanError::NotSolved
                    } else {
                        e == PlanError::Infeasible && b is None
                    },
                }
            }),
    {
        if num_nodes == 0 || num_nodes >= self.results.len() {
            return Err(PlanError::NotSolved);
        }
        match &self.results[num_nodes] {
            Some(t) => Ok(t),
            None => Err(PlanError::Infeasible),
        }
    }
}

} // verus!
