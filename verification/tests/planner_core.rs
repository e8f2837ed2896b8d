use planner::error::PlanError;
use planner::generator::PipelineTemplateGenerator;
use planner::profile::{LayerExecutionResult, LayerProfileStore};

fn layer(index: u64, cost: u64, mem: u64) -> LayerExecutionResult {
    LayerExecutionResult {
        index,
        forward_latency: cost,
        backward_latency: 0,
        memory_required: mem,
    }
}

fn store(costs: &[u64], mems: &[u64]) -> LayerProfileStore {
    assert_eq!(costs.len(), mems.len());
    let mut layers = Vec::new();
    for i in 0..costs.len() {
        layers.push(layer(i as u64, costs[i], mems[i]));
    }
    LayerProfileStore::new(layers).unwrap()
}

fn solved(costs: &[u64], mems: &[u64], capacity: u64, max_nodes: usize) -> PipelineTemplateGenerator {
    let mut g = PipelineTemplateGenerator::new(store(costs, mems), capacity);
    g.solve_up_to(max_nodes).unwrap();
    g
}

#[test]
fn scenario_two_stages_uniform() {
    let g = solved(&[1, 1, 1, 1], &[1, 1, 1, 1], 10, 2);
    let t = g.template_for(2).unwrap();
    assert_eq!(t.latency(), 2);
    assert_eq!(t.mem_required(), 2);
    assert_eq!(t.num_nodes, 2);
    assert_eq!(t.stages.len(), 2);
    assert_eq!((t.stages[0].start, t.stages[0].end), (0, 2));
    assert_eq!((t.stages[1].start, t.stages[1].end), (2, 4));
}

#[test]
fn scenario_tight_capacity() {
    let g = solved(&[1, 1, 1, 1], &[1, 1, 1, 1], 1, 4);
    assert_eq!(g.template_for(1).unwrap_err(), PlanError::Infeasible);
    assert_eq!(g.template_for(2).unwrap_err(), PlanError::Infeasible);
    assert_eq!(g.template_for(3).unwrap_err(), PlanError::Infeasible);
    let t = g.template_for(4).unwrap();
    assert_eq!(t.latency(), 1);
    assert_eq!(t.mem_required(), 1);
    assert_eq!(t.stages.len(), 4);
    for i in 0..4 {
        assert_eq!((t.stages[i].start, t.stages[i].end), (i, i + 1));
    }
}

#[test]
fn scenario_heavy_head() {
    let g = solved(&[5, 1, 1, 1], &[1, 1, 1, 1], 10, 2);
    let t = g.template_for(2).unwrap();
    assert_eq!(t.latency(), 5);
    assert_eq!(t.mem_required(), 3);
    assert_eq!((t.stages[0].start, t.stages[0].end), (0, 1));
    assert_eq!((t.stages[1].start, t.stages[1].end), (1, 4));
}

#[test]
fn base_case_single_stage() {
    let g = solved(&[2, 3, 4], &[1, 1, 1], 100, 1);
    let t = g.template_for(1).unwrap();
    assert_eq!(t.latency(), 9);
    assert_eq!(t.mem_required(), 3);
    assert_eq!(t.stages.len(), 1);
    assert_eq!((t.stages[0].start, t.stages[0].end), (0, 3));
}

#[test]
fn monotonic_latency_concrete() {
    let g = solved(&[1, 1, 1, 1], &[1, 1, 1, 1], 10, 4);
    let mut prev = g.template_for(1).unwrap().latency();
    for n in 2..=4 {
        let cur = g.template_for(n).unwrap().latency();
        assert!(cur <= prev);
        prev = cur;
    }
}

#[test]
fn tiling_invariant_concrete() {
    let g = solved(&[3, 1, 4, 1, 5], &[2, 2, 2, 2, 2], 100, 3);
    let t = g.template_for(3).unwrap();
    assert_eq!(t.stages[0].start, 0);
    for i in 1..t.stages.len() {
        assert_eq!(t.stages[i].start, t.stages[i - 1].end);
        assert!(t.stages[i].start < t.stages[i].end);
    }
    assert_eq!(t.stages[t.stages.len() - 1].end, 5);
}

#[test]
fn tie_break_prefers_smallest_split() {
    // Both splits of [1,2,1] into two stages have latency 3 and peak
    // memory 3; the earlier boundary must win.
    let g = solved(&[1, 2, 1], &[1, 2, 1], 10, 2);
    let t = g.template_for(2).unwrap();
    assert_eq!((t.stages[0].start, t.stages[0].end), (0, 1));
    assert_eq!((t.stages[1].start, t.stages[1].end), (1, 3));
}

#[test]
fn determinism_repeated_runs() {
    let a = solved(&[4, 2, 7, 3, 3, 1], &[5, 1, 2, 4, 1, 3], 9, 4);
    let b = solved(&[4, 2, 7, 3, 3, 1], &[5, 1, 2, 4, 1, 3], 9, 4);
    for n in 1..=4 {
        match (a.template_for(n), b.template_for(n)) {
            (Ok(ta), Ok(tb)) => {
                assert_eq!(ta.num_nodes, tb.num_nodes);
                assert_eq!(ta.latency(), tb.latency());
                assert_eq!(ta.mem_required(), tb.mem_required());
                assert_eq!(ta.stages, tb.stages);
            }
            (Err(ea), Err(eb)) => assert_eq!(ea, eb),
            _ => panic!("runs disagree on feasibility of {}", n),
        }
    }
}

#[test]
fn incremental_solving_extends_coverage() {
    let mut g = PipelineTemplateGenerator::new(store(&[1, 1, 1, 1], &[1, 1, 1, 1]), 10);
    g.solve_up_to(2).unwrap();
    assert_eq!(g.template_for(3).unwrap_err(), PlanError::NotSolved);
    g.solve_up_to(4).unwrap();
    assert_eq!(g.template_for(3).unwrap().latency(), 2);
    assert_eq!(g.template_for(4).unwrap().latency(), 1);
    // A later run with a smaller bound keeps the earlier coverage.
    g.solve_up_to(2).unwrap();
    assert!(g.template_for(4).is_ok());
}

#[test]
fn batch_request_omits_infeasible_counts() {
    // Capacity 1 over four unit layers: only four single-layer stages fit,
    // so of the requested counts {2, 4, 3} only 4 is answered, in order.
    let mut g = PipelineTemplateGenerator::new(
        store(&[1, 1, 1, 1], &[1, 1, 1, 1]),
        1,
    );
    let pairs = g.templates_for_counts(&vec![2, 4, 3]).unwrap();
    assert_eq!(pairs.len(), 1);
    assert_eq!(pairs[0].0, 4);
    assert_eq!(pairs[0].1.latency(), 1);
}

#[test]
fn batch_request_orders_counts() {
    let mut g = PipelineTemplateGenerator::new(
        store(&[5, 1, 1, 1], &[1, 1, 1, 1]),
        10,
    );
    let pairs = g.templates_for_counts(&vec![3, 1, 2]).unwrap();
    let ns: Vec<usize> = pairs.iter().map(|p| p.0).collect();
    assert_eq!(ns, vec![1, 2, 3]);
    assert_eq!(pairs[0].1.latency(), 8);
    assert_eq!(pairs[1].1.latency(), 5);
    assert_eq!(pairs[2].1.latency(), 5);
}

#[test]
fn modules_per_stage_contents() {
    let g = solved(&[1, 1, 1, 1], &[1, 1, 1, 1], 10, 2);
    let t = g.template_for(2).unwrap();
    let modules = t.get_modules_per_stage();
    assert_eq!(modules, vec![vec![0, 1], vec![2, 3]]);
}
