use vstd::prelude::*;

use crate::error::PlanError;

verus! {

/// Execution profile of one model layer: forward and backward latency and
/// the memory footprint of the layer's parameters and activations.
#[derive(Clone, Copy, PartialEq, Eq, Structural, Debug)]
pub struct LayerExecutionResult {
    /// Position of the layer in the model's execution order.
    pub index: u64,
    /// Latency of the layer's forward pass.
    pub forward_latency: u64,
    /// Latency of the layer's backward pass.
    pub backward_latency: u64,
    /// Bytes of memory the layer needs on the node that runs it.
    pub memory_required: u64,
}

/// Combined cost of running one layer: forward plus backward latency.
pub open spec fn layer_cost(l: LayerExecutionResult) -> int {
    l.forward_latency + l.backward_latency
}

/// Total cost of the contiguous layer range `[i, j)`.
pub open spec fn cost_sum(layers: Seq<LayerExecutionResult>, i: int, j: int) -> int
    decreases j - i,
{
    if i >= j {
        0
    } else {
        layer_cost(layers[i]) + cost_sum(layers, i + 1, j)
    }
}

/// Total memory of the contiguous layer range `[i, j)`.
pub open spec fn mem_sum(layers: Seq<LayerExecutionResult>, i: int, j: int) -> int
    decreases j - i,
{
    if i >= j {
        0
    } else {
        layers[i].memory_required + mem_sum(layers, i + 1, j)
    }
}

/// Every layer's recorded index equals its position in the sequence.
pub open spec fn indices_contiguous(layers: Seq<LayerExecutionResult>) -> bool {
    forall|t: int| 0 <= t < layers.len() ==> (#[trigger] layers[t].index) == t
}

/// The aggregate cost and memory of the whole sequence stay within `u64`.
pub open spec fn sums_fit(layers: Seq<LayerExecutionResult>) -> bool {
    &&& cost_sum(layers, 0, layers.len() as int) <= u64::MAX
    &&& mem_sum(layers, 0, layers.len() as int) <= u64::MAX
}

pub proof fn lemma_cost_sum_nonneg(layers: Seq<LayerExecutionResult>, i: int, j: int)
    ensures
        cost_sum(layers, i, j) >= 0,
    decreases j - i,
{
    if i < j {
        lemma_cost_sum_nonneg(layers, i + 1, j);
    }
}

pub proof fn lemma_mem_sum_nonneg(layers: Seq<LayerExecutionResult>, i: int, j: int)
    ensures
        mem_sum(layers, i, j) >= 0,
    decreases j - i,
{
    if i < j {
        lemma_mem_sum_nonneg(layers, i + 1, j);
    }
}

pub proof fn lemma_cost_sum_split(layers: Seq<LayerExecutionResult>, i: int, k: int, j: int)
    requires
        i <= k <= j,
    ensures
        cost_sum(layers, i, j) == cost_sum(layers, i, k) + cost_sum(layers, k, j),
    decreases k - i,
{
    if i < k {
        lemma_cost_sum_split(layers, i + 1, k, j);
    }
}

pub proof fn lemma_mem_sum_split(layers: Seq<LayerExecutionResult>, i: int, k: int, j: int)
    requires
        i <= k <= j,
    ensures
        mem_sum(layers, i, j) == mem_sum(layers, i, k) + mem_sum(layers, k, j),
    decreases k - i,
{
    if i < k {
        lemma_mem_sum_split(layers, i + 1, k, j);
    }
}

/// Ordered per-layer profiles of one model together with prefix sums of
/// cost and memory, so any range aggregate is answered in constant time.
pub struct LayerProfileStore {
    layers: Vec<LayerExecutionResult>,
    cost_prefix: Vec<u64>,
    mem_prefix: Vec<u64>,
}

impl View for LayerProfileStore {
    type V = Seq<LayerExecutionResult>;

    closed spec fn view(&self) -> Seq<LayerExecutionResult> {
        self.layers@
    }
}

impl LayerProfileStore {
    /// The prefix tables agree with the layer sequence and the recorded
    /// layer indices are contiguous.
    pub closed spec fn wf(&self) -> bool {
        &&& self.cost_prefix@.len() == self.layers@.len() + 1
        &&& self.mem_prefix@.len() == self.layers@.len() + 1
        &&& forall|t: int|
            0 <= t <= self.layers@.len() ==> (#[trigger] self.cost_prefix@[t]) == cost_sum(
                self.layers@,
                0,
                t,
            )
        &&& forall|t: int|
            0 <= t <= self.layers@.len() ==> (#[trigger] self.mem_prefix@[t]) == mem_sum(
                self.layers@,
                0,
                t,
            )
        &&& indices_contiguous(self.layers@)
    }

    /// Builds the store and its prefix sums. Returns `None` when a layer's
    /// recorded index disagrees with its position, or when the aggregate
    /// cost or memory of the whole sequence does not fit in `u64`.
    pub fn new(layers: Vec<LayerExecutionResult>) -> (r: Option<LayerProfileStore>)
        ensures
            r is Some <==> (indices_contiguous(layers@) && sums_fit(layers@)),
            r is Some ==> r.unwrap().wf() && r.unwrap()@ == layers@,
    {
        let n = layers.len();
        let mut cost_prefix: Vec<u64> = Vec::new();
        let mut mem_prefix: Vec<u64> = Vec::new();
        cost_prefix.push(0);
        mem_prefix.push(0);
        let mut i: usize = 0;
        while i < n
            invariant
                n == layers@.len(),
                i <= n,
                cost_prefix@.len() == i + 1,
                mem_prefix@.len() == i + 1,
                forall|t: int|
                    0 <= t <= i ==> (#[trigger] cost_prefix@[t]) == cost_sum(layers@, 0, t),
                forall|t: int|
                    0 <= t <= i ==> (#[trigger] mem_prefix@[t]) == mem_sum(layers@, 0, t),
                forall|t: int| 0 <= t < i ==> (#[trigger] layers@[t].index) == t,
            decreases n - i,
        {
            if layers[i].index != i as u64 {
                return None;
            }
            let fwd = layers[i].forward_latency;
            let bwd = layers[i].backward_latency;
            let mem = layers[i].memory_required;
            let cost_so_far = cost_prefix[i];
            let mem_so_far = mem_prefix[i];
            proof {
                lemma_cost_sum_split(layers@, 0, i as int, n as int);
                lemma_cost_sum_nonneg(layers@, i + 1, n as int);
                lemma_mem_sum_split(layers@, 0, i as int, n as int);
                lemma_mem_sum_nonneg(layers@, i + 1, n as int);
            }
            if bwd > u64::MAX - fwd {
                return None;
            }
            let lc = fwd + bwd;
            if lc > u64::MAX - cost_so_far {
                return None;
            }
            if mem > u64::MAX - mem_so_far {
                return None;
            }
            cost_prefix.push(cost_so_far + lc);
            mem_prefix.push(mem_so_far + mem);
            proof {
                lemma_cost_sum_split(layers@, 0, i as int, i + 1);
                lemma_mem_sum_split(layers@, 0, i as int, i + 1);
                assert(cost_sum(layers@, i + 1, i + 1) == 0);
                assert(mem_sum(layers@, i + 1, i + 1) == 0);
                assert(cost_sum(layers@, i as int, i + 1) == layer_cost(layers@[i as int]));
                assert(mem_sum(layers@, i as int, i + 1) == layers@[i as int].memory_required);
            }
            i += 1;
        }
        proof {
            assert(cost_prefix@[n as int] == cost_sum(layers@, 0, n as int));
            assert(mem_prefix@[n as int] == mem_sum(layers@, 0, n as int));
        }
        Some(LayerProfileStore { layers, cost_prefix, mem_prefix })
    }

    /// Number of layers in the profile.
    pub fn num_layers(&self) -> (r: usize)
        ensures
            r == self@.len(),
    {
        self.layers.len()
    }

    /// The profile record of layer `i`.
    pub fn layer(&self, i: usize) -> (r: Result<LayerExecutionResult, PlanError>)
        ensures
            match r {
                Ok(l) => i < self@.len() && l == self@[i as int],
                Err(e) => e == PlanError::InvalidRange && i >= self@.len(),
            },
    {
        if i < self.layers.len() {
            Ok(self.layers[i])
        } else {
            Err(PlanError::InvalidRange)
        }
    }

    /// Aggregate forward-plus-backward cost of the layer range `[i, j)`,
    /// answered from the prefix table.
    pub(crate) fn range_cost(&self, i: usize, j: usize) -> (r: u64)
        requires
            self.wf(),
            i < j,
            j <= self@.len(),
        ensures
            r == cost_sum(self@, i as int, j as int),
    {
        proof {
            lemma_cost_sum_split(self.layers@, 0, i as int, j as int);
            lemma_cost_sum_nonneg(self.layers@, i as int, j as int);
            lemma_cost_sum_nonneg(self.layers@, 0, i as int);
        }
        self.cost_prefix[j] - self.cost_prefix[i]
    }

    /// Aggregate memory of the layer range `[i, j)`, answered from the
    /// prefix table.
    pub(crate) fn range_memory(&self, i: usize, j: usize) -> (r: u64)
        requires
            self.wf(),
            i < j,
            j <= self@.len(),
        ensures
            r == mem_sum(self@, i as int, j as int),
    {
        proof {
            lemma_mem_sum_split(self.layers@, 0, i as int, j as int);
            lemma_mem_sum_nonneg(self.layers@, i as int, j as int);
            lemma_mem_sum_nonneg(self.layers@, 0, i as int);
        }
        self.mem_prefix[j] - self.mem_prefix[i]
    }

    /// Aggregate forward-plus-backward cost of the layer range `[i, j)`.
    pub fn cost(&self, i: usize, j: usize) -> (r: Result<u64, PlanError>)
        requires
            self.wf(),
        ensures
            match r {
                Ok(c) => i < j && j <= self@.len() && c == cost_sum(self@, i as int, j as int),
                Err(e) => e == PlanError::InvalidRange && !(i < j && j <= self@.len()),
            },
    {
        if i < j && j <= self.layers.len() {
            Ok(self.range_cost(i, j))
        } else {
            Err(PlanError::InvalidRange)
        }
    }

    /// Aggregate memory of the layer range `[i, j)`.
    pub fn memory(&self, i: usize, j: usize) -> (r: Result<u64, PlanError>)
        requires
            self.wf(),
        ensures
            match r {
                Ok(m) => i < j && j <= self@.len() && m == mem_sum(self@, i as int, j as int),
                Err(e) => e == PlanError::InvalidRange && !(i < j && j <= self@.len()),
            },
    {
        if i < j && j <= self.layers.len() {
            Ok(self.range_memory(i, j))
        } else {
            Err(PlanError::InvalidRange)
        }
    }
}

} // verus!
