use planner::error::PlanError;
use planner::generator::PipelineTemplateGenerator;
use planner::profile::{LayerExecutionResult, LayerProfileStore};

fn layer(index: u64, cost: u64, mem: u64) -> LayerExecutionResult {
    LayerExecutionResult {
        index,
        forward_latency: cost,
        backward_latency: 0,
        memory_required: mem,
    }
}

#[test]
fn store_rejects_misordered_indices() {
    let layers = vec![layer(1, 1, 1), layer(0, 1, 1)];
    assert!(LayerProfileStore::new(layers).is_none());
}

#[test]
fn store_rejects_cost_overflow() {
    let layers = vec![
        LayerExecutionResult {
            index: 0,
            forward_latency: u64::MAX,
            backward_latency: 1,
            memory_required: 0,
        },
    ];
    assert!(LayerProfileStore::new(layers).is_none());
}

#[test]
fn store_rejects_memory_overflow() {
    let layers = vec![layer(0, 1, u64::MAX), layer(1, 1, 1)];
    assert!(LayerProfileStore::new(layers).is_none());
}

#[test]
fn store_range_aggregates() {
    let layers = vec![
        LayerExecutionResult {
            index: 0,
            forward_latency: 2,
            backward_latency: 3,
            memory_required: 10,
        },
        LayerExecutionResult {
            index: 1,
            forward_latency: 1,
            backward_latency: 1,
            memory_required: 20,
        },
        LayerExecutionResult {
            index: 2,
            forward_latency: 4,
            backward_latency: 0,
            memory_required: 30,
        },
    ];
    let s = LayerProfileStore::new(layers).unwrap();
    assert_eq!(s.cost(0, 3).unwrap(), 11);
    assert_eq!(s.cost(1, 2).unwrap(), 2);
    assert_eq!(s.memory(0, 2).unwrap(), 30);
    assert_eq!(s.memory(2, 3).unwrap(), 30);
}

#[test]
fn store_invalid_ranges() {
    let layers = vec![layer(0, 1, 1), layer(1, 1, 1)];
    let s = LayerProfileStore::new(layers).unwrap();
    assert_eq!(s.cost(1, 1).unwrap_err(), PlanError::InvalidRange);
    assert_eq!(s.cost(2, 1).unwrap_err(), PlanError::InvalidRange);
    assert_eq!(s.cost(0, 3).unwrap_err(), PlanError::InvalidRange);
    assert_eq!(s.memory(1, 1).unwrap_err(), PlanError::InvalidRange);
    assert_eq!(s.memory(0, 5).unwrap_err(), PlanError::InvalidRange);
    assert_eq!(s.layer(2).unwrap_err(), PlanError::InvalidRange);
    assert_eq!(s.layer(1).unwrap().index, 1);
}

#[test]
fn memo_fits_bounds() {
    assert!(planner::generator::memo_fits(4, 2));
    assert!(planner::generator::memo_fits(1000, 64));
    assert!(!planner::generator::memo_fits(usize::MAX, 1));
    assert!(!planner::generator::memo_fits(1, usize::MAX));
}

#[test]
fn empty_model_error() {
    let s = LayerProfileStore::new(Vec::new()).unwrap();
    let mut g = PipelineTemplateGenerator::new(s, 10);
    assert_eq!(g.solve_up_to(3).unwrap_err(), PlanError::EmptyModel);
}

#[test]
fn not_solved_error() {
    let s = LayerProfileStore::new(vec![layer(0, 1, 1), layer(1, 1, 1)]).unwrap();
    let mut g = PipelineTemplateGenerator::new(s, 10);
    assert_eq!(g.template_for(1).unwrap_err(), PlanError::NotSolved);
    g.solve_up_to(2).unwrap();
    assert!(g.template_for(1).is_ok());
    assert!(g.template_for(2).is_ok());
    assert_eq!(g.template_for(3).unwrap_err(), PlanError::NotSolved);
    assert_eq!(g.template_for(0).unwrap_err(), PlanError::NotSolved);
}

#[test]
fn infeasible_all_counts() {
    let s = LayerProfileStore::new(vec![layer(0, 1, 2), layer(1, 1, 2)]).unwrap();
    let mut g = PipelineTemplateGenerator::new(s, 1);
    assert_eq!(g.solve_up_to(2).unwrap_err(), PlanError::Infeasible);
    assert_eq!(g.template_for(1).unwrap_err(), PlanError::Infeasible);
    assert_eq!(g.template_for(2).unwrap_err(), PlanError::Infeasible);
}

#[test]
fn partial_feasibility_is_success() {
    // One node cannot hold both layers, two can: the batch still succeeds
    // and only the infeasible count is absent.
    let s = LayerProfileStore::new(vec![layer(0, 1, 2), layer(1, 1, 2)]).unwrap();
    let mut g = PipelineTemplateGenerator::new(s, 2);
    assert!(g.solve_up_to(2).is_ok());
    assert_eq!(g.template_for(1).unwrap_err(), PlanError::Infeasible);
    assert!(g.template_for(2).is_ok());
}
