use vstd::prelude::*;

use crate::profile::{LayerExecutionResult, cost_sum, mem_sum};

verus! {

/// A contiguous half-open range `[start, end)` of layer indices assigned to
/// one compute node.
#[derive(Clone, Copy, PartialEq, Eq, Structural, Debug)]
pub struct PipelineStage {
    pub start: usize,
    pub end: usize,
}

/// A complete assignment of a layer range to `num_nodes` sequential stages,
/// with the derived bottleneck latency and peak per-stage memory.
#[derive(Debug)]
pub struct PipelineTemplate {
    /// Number of stages, one per compute node.
    pub num_nodes: usize,
    /// The stages, in execution order; they tile the layer range.
    pub stages: Vec<PipelineStage>,
    /// Bottleneck latency: the maximum aggregate cost over the stages.
    pub latency: u64,
    /// Peak memory: the maximum aggregate memory over the stages.
    pub mem_required: u64,
}

/// The layer indices a stage holds, in execution order.
pub open spec fn stage_modules(s: PipelineStage) -> Seq<u64> {
    Seq::new(
        if s.end >= s.start {
            (s.end - s.start) as nat
        } else {
            0
        },
        |t: int| (s.start + t) as u64,
    )
}

impl PipelineTemplate {
    /// Bottleneck latency of the template.
    pub fn latency(&self) -> (r: u64)
        ensures
            r == self.latency,
    {
        self.latency
    }

    /// Peak per-stage memory of the template.
    pub fn mem_required(&self) -> (r: u64)
        ensures
            r == self.mem_required,
    {
        self.mem_required
    }

    /// The layer indices assigned to each stage, in stage order: the
    /// layer-to-module mapping a downstream pipeline runtime consumes.
    pub fn get_modules_per_stage(&self) -> (r: Vec<Vec<u64>>)
        ensures
            r@.len() == self.stages@.len(),
            forall|i: int|
                0 <= i < r@.len() ==> (#[trigger] r@[i])@ == stage_modules(self.stages@[i]),
    {
        let mut r: Vec<Vec<u64>> = Vec::new();
        let mut i: usize = 0;
        while i < self.stages.len()
            invariant
                i <= self.stages@.len(),
                r@.len() == i,
                forall|t: int| 0 <= t < i ==> (#[trigger] r@[t])@ == stage_modules(self.stages@[t]),
            decreases self.stages@.len() - i,
        {
            let s = self.stages[i];
            let mut inner: Vec<u64> = Vec::new();
            if s.start < s.end {
                let mut x: usize = s.start;
                while x < s.end
                    invariant
                        s.start <= x <= s.end,
                        inner@.len() == x - s.start,
                        forall|t: int|
                            0 <= t < inner@.len() ==> (#[trigger] inner@[t]) == (s.start + t)
                                as u64,
                    decreases s.end - x,
                {
                    inner.push(x as u64);
                    x += 1;
                }
            }
            proof {
                assert(inner@ =~= stage_modules(s));
            }
            r.push(inner);
            i += 1;
        }
        r
    }
}

impl Clone for PipelineTemplate {
    /// A copy with the same stages, latency and memory.
    fn clone(&self) -> (r: Self)
        ensures
            r.num_nodes == self.num_nodes,
            r.stages@ == self.stages@,
            r.latency == self.latency,
            r.mem_required == self.mem_required,
    {
        let mut stages: Vec<PipelineStage> = Vec::new();
        let mut i: usize = 0;
        while i < self.stages.len()
            invariant
                i <= self.stages@.len(),
                stages@ == self.stages@.take(i as int),
            decreases self.stages@.len() - i,
        {
            stages.push(self.stages[i]);
            proof {
                assert(self.stages@.take(i + 1) =~= self.stages@.take(i as int).push(
                    self.stages@[i as int],
                ));
            }
            i += 1;
        }
        proof {
            assert(self.stages@.take(self.stages@.len() as int) =~= self.stages@);
        }
        PipelineTemplate {
            num_nodes: self.num_nodes,
            stages,
            latency: self.latency,
            mem_required: self.mem_required,
        }
    }
}

/// The larger of two mathematical integers.
pub open spec fn max2(a: int, b: int) -> int {
    if a >= b {
        a
    } else {
        b
    }
}

/// `cuts` describes a partition of `[start, end)` into `n` non-empty
/// contiguous stages: `n + 1` strictly increasing boundaries from `start`
/// to `end`; stage `i` is `[cuts[i], cuts[i + 1])`.
pub open spec fn valid_cuts(cuts: Seq<int>, start: int, end: int, n: int) -> bool {
    &&& cuts.len() == n + 1
    &&& cuts[0] == start
    &&& cuts[n] == end
    &&& forall|i: int| 0 <= i < n ==> (#[trigger] cuts[i]) < cuts[i + 1]
}

/// Bottleneck latency of a partition: the maximum stage cost.
pub open spec fn cuts_latency(layers: Seq<LayerExecutionResult>, cuts: Seq<int>) -> int
    decreases cuts.len(),
{
    if cuts.len() <= 1 {
        0
    } else if cuts.len() == 2 {
        cost_sum(layers, cuts[0], cuts[1])
    } else {
        max2(cost_sum(layers, cuts[0], cuts[1]), cuts_latency(layers, cuts.drop_first()))
    }
}

/// Peak memory of a partition: the maximum stage memory.
pub open spec fn cuts_mem(layers: Seq<LayerExecutionResult>, cuts: Seq<int>) -> int
    decreases cuts.len(),
{
    if cuts.len() <= 1 {
        0
    } else if cuts.len() == 2 {
        mem_sum(layers, cuts[0], cuts[1])
    } else {
        max2(mem_sum(layers, cuts[0], cuts[1]), cuts_mem(layers, cuts.drop_first()))
    }
}

/// The template records exactly the partition `cuts` and its derived
/// bottleneck latency and peak memory.
pub open spec fn template_matches(
    t: PipelineTemplate,
    layers: Seq<LayerExecutionResult>,
    cuts: Seq<int>,
) -> bool {
    &&& t.num_nodes == cuts.len() - 1
    &&& t.stages@.len() == cuts.len() - 1
    &&& forall|i: int|
        0 <= i < t.stages@.len() ==> (#[trigger] t.stages@[i]).start == cuts[i]
            && t.stages@[i].end == cuts[i + 1]
    &&& t.latency == cuts_latency(layers, cuts)
    &&& t.mem_required == cuts_mem(layers, cuts)
}

/// Joining a partition of `[start, k)` with one of `[k, end)` gives a
/// partition of `[start, end)` whose bottleneck latency and peak memory are
/// the maxima of the two sides'.
pub proof fn lemma_cuts_combine(
    layers: Seq<LayerExecutionResult>,
    lc: Seq<int>,
    rc: Seq<int>,
)
    requires
        lc.len() >= 2,
        rc.len() >= 2,
        lc[lc.len() - 1] == rc[0],
    ensures
        cuts_latency(layers, lc + rc.drop_first()) == max2(
            cuts_latency(layers, lc),
            cuts_latency(layers, rc),
        ),
        cuts_mem(layers, lc + rc.drop_first()) == max2(
            cuts_mem(layers, lc),
            cuts_mem(layers, rc),
        ),
    decreases lc.len(),
{
    let comb = lc + rc.drop_first();
    assert(comb.len() == lc.len() + rc.len() - 1);
    assert(comb[0] == lc[0] && comb[1] == lc[1]);
    if lc.len() == 2 {
        // lc ends where rc starts, so dropping the one extra boundary at
        // the front of the joined sequence leaves exactly rc.
        assert(comb.drop_first() =~= rc);
        assert(cuts_latency(layers, comb) == max2(
            cost_sum(layers, comb[0], comb[1]),
            cuts_latency(layers, comb.drop_first()),
        ));
    } else {
        lemma_cuts_combine(layers, lc.drop_first(), rc);
        assert(comb.drop_first() =~= lc.drop_first() + rc.drop_first());
        assert(cuts_latency(layers, comb) == max2(
            cost_sum(layers, comb[0], comb[1]),
            cuts_latency(layers, comb.drop_first()),
        ));
        assert(cuts_latency(layers, lc) == max2(
            cost_sum(layers, lc[0], lc[1]),
            cuts_latency(layers, lc.drop_first()),
        ));
    }
}

/// Strictly increasing boundaries grow by at least one per stage.
pub proof fn lemma_cuts_step_ge(cuts: Seq<int>, n: int, i: int)
    requires
        cuts.len() == n + 1,
        forall|t: int| 0 <= t < n ==> (#[trigger] cuts[t]) < cuts[t + 1],
        0 <= i <= n,
    ensures
        cuts[i] >= cuts[0] + i,
    decreases i,
{
    if i > 0 {
        lemma_cuts_step_ge(cuts, n, i - 1);
        assert(cuts[i - 1] < cuts[i]);
    }
}

/// Boundaries that grow by at most one per stage stay within that pace.
pub proof fn lemma_cuts_step_le(cuts: Seq<int>, n: int, i: int)
    requires
        cuts.len() == n + 1,
        forall|t: int| 0 <= t < n ==> (#[trigger] cuts[t + 1]) <= cuts[t] + 1,
        0 <= i <= n,
    ensures
        cuts[i] <= cuts[0] + i,
    decreases i,
{
    if i > 0 {
        lemma_cuts_step_le(cuts, n, i - 1);
        assert(cuts[(i - 1) + 1] <= cuts[i - 1] + 1);
    }
}

/// Every stage's cost is bounded by the partition's bottleneck latency,
/// and every stage's memory by the partition's peak memory.
pub proof fn lemma_stage_le_aggregate(
    layers: Seq<LayerExecutionResult>,
    cuts: Seq<int>,
    i: int,
)
    requires
        0 <= i < cuts.len() - 1,
    ensures
        cost_sum(layers, cuts[i], cuts[i + 1]) <= cuts_latency(layers, cuts),
        mem_sum(layers, cuts[i], cuts[i + 1]) <= cuts_mem(layers, cuts),
    decreases cuts.len(),
{
    if i > 0 {
        lemma_stage_le_aggregate(layers, cuts.drop_first(), i - 1);
    }
}

/// A bound that holds of every stage's cost holds of the bottleneck
/// latency, and likewise for memory.
pub proof fn lemma_aggregate_le_bound(
    layers: Seq<LayerExecutionResult>,
    cuts: Seq<int>,
    cost_bound: int,
    mem_bound: int,
)
    requires
        cuts.len() >= 2,
        forall|i: int|
            0 <= i < cuts.len() - 1 ==> cost_sum(layers, #[trigger] cuts[i], cuts[i + 1])
                <= cost_bound,
        forall|i: int|
            0 <= i < cuts.len() - 1 ==> mem_sum(layers, #[trigger] cuts[i], cuts[i + 1])
                <= mem_bound,
    ensures
        cuts_latency(layers, cuts) <= cost_bound,
        cuts_mem(layers, cuts) <= mem_bound,
    decreases cuts.len(),
{
    if cuts.len() > 2 {
        let tail = cuts.drop_first();
        assert forall|i: int| 0 <= i < tail.len() - 1 implies cost_sum(
            layers,
            #[trigger] tail[i],
            tail[i + 1],
        ) <= cost_bound && mem_sum(layers, tail[i], tail[i + 1]) <= mem_bound by {
            assert(tail[i] == cuts[i + 1] && tail[i + 1] == cuts[i + 2]);
        }
        lemma_aggregate_le_bound(layers, tail, cost_bound, mem_bound);
    }
}

} // verus!
