use chidori_core::execution_state::{DependencyGraphMutation, ExecutionState};
use chidori_core::operation::{passthrough_body, ExecutionBackend, ExecutionFailure, OperationResult};

struct ScriptedBackend {
    calls: Vec<(usize, Vec<Option<Vec<u8>>>)>,
}

impl ScriptedBackend {
    fn new() -> ScriptedBackend {
        ScriptedBackend { calls: Vec::new() }
    }
}

impl ExecutionBackend for ScriptedBackend {
    fn invoke(&mut self, operation_id: usize, args: Vec<Option<Vec<u8>>>) -> OperationResult {
        self.calls.push((operation_id, args.clone()));
        match operation_id {
            1 => OperationResult::Success(Some(vec![1])),
            2 => {
                let first = args[0].as_ref().expect("slot 0 must be filled");
                OperationResult::Success(Some(vec![first[0] + 1]))
            },
            _ => OperationResult::Success(None),
        }
    }
}

/// Fails operation 1 fatally; succeeds for everything else, recording what
/// each dependent saw in its argument slots.
struct FailingBackend {
    calls: Vec<(usize, Vec<Option<Vec<u8>>>)>,
}

impl ExecutionBackend for FailingBackend {
    fn invoke(&mut self, operation_id: usize, args: Vec<Option<Vec<u8>>>) -> OperationResult {
        self.calls.push((operation_id, args.clone()));
        match operation_id {
            1 => OperationResult::Failure(ExecutionFailure::Fatal("backend exploded".to_string())),
            _ => OperationResult::Success(Some(vec![9])),
        }
    }
}

/// Fails operation 1 recoverably twice, then succeeds.
struct FlakyBackend {
    attempts: usize,
}

impl ExecutionBackend for FlakyBackend {
    fn invoke(&mut self, _operation_id: usize, _args: Vec<Option<Vec<u8>>>) -> OperationResult {
        self.attempts += 1;
        if self.attempts <= 2 {
            OperationResult::Failure(ExecutionFailure::Recoverable("try again".to_string()))
        } else {
            OperationResult::Success(Some(vec![7]))
        }
    }
}

#[test]
fn test_state_insert_and_get_value() {
    let mut exec_state = ExecutionState::new();
    let operation_id: usize = 1;
    let value: Option<Vec<u8>> = Some(vec![1, 2, 3]);
    exec_state.state_insert(operation_id, value.clone());

    assert_eq!(exec_state.state_get_value(&operation_id).unwrap(), vec![1, 2, 3]);
    assert!(exec_state.check_if_previously_set(&operation_id));
}

#[test]
fn test_dependency_graph_mutation() {
    let exec_state = ExecutionState::new();
    let operation_id: usize = 1;
    let depends_on: Vec<(usize, usize)> = vec![(2, 0)];
    let mutation = DependencyGraphMutation::Create { operation_id, depends_on: depends_on.clone() };

    let exec_state = exec_state.apply_dependency_graph_mutations(vec![mutation]);
    assert_eq!(exec_state.dependency_graph_entry(&operation_id), Some(depends_on));
}

#[test]
fn test_dependency_graph_deletion() {
    let exec_state = ExecutionState::new();
    let operation_id: usize = 1;
    let depends_on: Vec<(usize, usize)> = vec![(2, 0)];
    let create_mutation = DependencyGraphMutation::Create { operation_id, depends_on };
    let exec_state = exec_state.apply_dependency_graph_mutations(vec![create_mutation]);

    let delete_mutation = DependencyGraphMutation::Delete { operation_id };
    let exec_state = exec_state.apply_dependency_graph_mutations(vec![delete_mutation]);

    assert!(exec_state.dependency_graph_entry(&operation_id).is_none());
}

#[test]
fn test_create_then_delete_exact_ids() {
    let exec_state = ExecutionState::new();
    let exec_state = exec_state.apply_dependency_graph_mutations(vec![
        DependencyGraphMutation::Create { operation_id: 5, depends_on: vec![(3, 0), (3, 1)] },
    ]);
    assert_eq!(exec_state.dependency_graph_entry(&5), Some(vec![(3, 0), (3, 1)]));
    let exec_state = exec_state
        .apply_dependency_graph_mutations(vec![DependencyGraphMutation::Delete { operation_id: 5 }]);
    assert!(exec_state.dependency_graph_entry(&5).is_none());
}

#[test]
fn test_create_twice_replaces_edges() {
    let exec_state = ExecutionState::new();
    let exec_state = exec_state.apply_dependency_graph_mutations(vec![
        DependencyGraphMutation::Create { operation_id: 5, depends_on: vec![(1, 0)] },
        DependencyGraphMutation::Create { operation_id: 5, depends_on: vec![(2, 0), (2, 1)] },
    ]);
    assert_eq!(exec_state.dependency_graph_entry(&5), Some(vec![(2, 0), (2, 1)]));
}

#[test]
fn test_create_drops_duplicate_edges() {
    let exec_state = ExecutionState::new();
    let exec_state = exec_state.apply_dependency_graph_mutations(vec![
        DependencyGraphMutation::Create {
            operation_id: 7,
            depends_on: vec![(1, 0), (1, 0), (2, 1)],
        },
    ]);
    assert_eq!(exec_state.dependency_graph_entry(&7), Some(vec![(1, 0), (2, 1)]));
}

#[test]
fn test_two_tick_pipeline() {
    // Node 1 has arity 0 and returns the constant 1; node 2 has arity 1,
    // depends on node 1 at slot 0, and returns its input plus one.
    let mut state = ExecutionState::new();
    let state2 = state.add_operation(1, 0);
    state = state2;
    let state2 = state.add_operation(2, 1);
    state = state2;
    let state = state.apply_dependency_graph_mutations(vec![
        DependencyGraphMutation::Create { operation_id: 1, depends_on: vec![] },
        DependencyGraphMutation::Create { operation_id: 2, depends_on: vec![(1, 0)] },
    ]);

    let mut backend = ScriptedBackend::new();

    // Tick 1: node 1 fires and stores 1; node 2 has no prior generation to
    // read from and does not fire.
    let tick1 = state.step_execution(&mut backend);
    assert_eq!(tick1.state_get_value(&1), Some(vec![1]));
    assert!(tick1.state_get(&2).is_none());
    assert_eq!(backend.calls.len(), 1);
    assert_eq!(backend.calls[0].0, 1);

    // Tick 2: node 2 reads node 1's value and stores 2; node 1 does not
    // refire, and its consumed value is evicted.
    let tick2 = tick1.step_execution(&mut backend);
    assert_eq!(tick2.state_get_value(&2), Some(vec![2]));
    assert!(tick2.state_get(&1).is_none());
    assert_eq!(backend.calls.len(), 2);
    assert_eq!(backend.calls[1].0, 2);
    assert_eq!(backend.calls[1].1, vec![Some(vec![1])]);
    assert_eq!(tick2.state_keys(), vec![2]);
}

#[test]
fn test_zero_arity_fires_at_most_once() {
    let mut state = ExecutionState::new();
    let state2 = state.add_operation(1, 0);
    state = state2;
    let state = state.apply_dependency_graph_mutations(vec![DependencyGraphMutation::Create {
        operation_id: 1,
        depends_on: vec![],
    }]);

    let mut backend = ScriptedBackend::new();
    let tick1 = state.step_execution(&mut backend);
    let tick2 = tick1.step_execution(&mut backend);
    let tick3 = tick2.step_execution(&mut backend);

    // The zero-arity node ran exactly once across the whole chain, and its
    // unconsumed value survives.
    assert_eq!(backend.calls.len(), 1);
    assert_eq!(tick3.state_get_value(&1), Some(vec![1]));
}

#[test]
fn test_consumed_value_evicted_without_firing() {
    // Node 3 needs two slots; only source 1 holds a value, so node 3 never
    // fires, yet source 1's value is consumed and evicted.
    let mut state = ExecutionState::new();
    let state2 = state.add_operation(1, 0);
    state = state2;
    let state2 = state.add_operation(2, 1);
    state = state2;
    let state2 = state.add_operation(3, 2);
    state = state2;
    let mut state = state.apply_dependency_graph_mutations(vec![DependencyGraphMutation::Create {
        operation_id: 3,
        depends_on: vec![(1, 0), (2, 1)],
    }]);
    state.state_insert(1, Some(vec![9]));

    let mut backend = ScriptedBackend::new();
    let tick = state.step_execution(&mut backend);

    assert!(tick.state_get(&3).is_none());
    assert!(tick.state_get(&1).is_none());
    assert_eq!(backend.calls.len(), 0);
}

#[test]
fn test_step_plan_contents() {
    let mut state = ExecutionState::new();
    let state2 = state.add_operation(1, 0);
    state = state2;
    let state2 = state.add_operation(2, 1);
    state = state2;
    let mut state = state.apply_dependency_graph_mutations(vec![DependencyGraphMutation::Create {
        operation_id: 2,
        depends_on: vec![(1, 0)],
    }]);
    state.state_insert(1, Some(vec![9]));

    let plan = state.step_plan();
    // Node 1 already produced output, node 2's only slot is filled from it.
    assert_eq!(plan.runnable.len(), 1);
    assert_eq!(plan.runnable[0].0, 2);
    assert_eq!(plan.runnable[0].1, vec![Some(vec![9])]);
    assert_eq!(plan.marked_for_consumption, vec![1]);
}

#[test]
fn test_order_only_dependency_transfers_no_value() {
    let mut state = ExecutionState::new();
    let state2 = state.add_operation(1, 0);
    state = state2;
    let state2 = state.add_operation(2, 1);
    state = state2;
    let mut state = state.apply_dependency_graph_mutations(vec![DependencyGraphMutation::Create {
        operation_id: 2,
        depends_on: vec![(1, chidori_core::ids::ORDER_ONLY_DEPENDENCY)],
    }]);
    state.state_insert(1, Some(vec![9]));

    let plan = state.step_plan();
    // The order-only edge fills no slot, so node 2 stays unfired, but the
    // read still consumes the source.
    assert_eq!(plan.runnable.len(), 0);
    assert_eq!(plan.marked_for_consumption, vec![1]);
}

#[test]
fn test_get_dependency_graph_projection() {
    let state = ExecutionState::new();
    let state = state.apply_dependency_graph_mutations(vec![DependencyGraphMutation::Create {
        operation_id: 1,
        depends_on: vec![(2, 0), (2, 1), (3, 5)],
    }]);
    let g = state.get_dependency_graph();
    assert_eq!(g.node_count(), 3);
    assert!(g.contains_node(1));
    assert!(g.contains_node(2));
    assert!(g.contains_node(3));
    assert_eq!(g.edge_weight(2, 1), Some(&vec![0, 1]));
    assert_eq!(g.edge_weight(3, 1), Some(&vec![5]));
    assert!(g.edge_weight(1, 2).is_none());
}

#[test]
fn test_state_consume_marked() {
    let mut state = ExecutionState::new();
    state.state_insert(1, Some(vec![1]));
    state.state_insert(2, Some(vec![2]));
    state.state_consume_marked(vec![1]);
    assert!(state.state_get(&1).is_none());
    assert_eq!(state.state_get_value(&2), Some(vec![2]));
    assert!(state.check_if_previously_set(&1));
}

#[test]
fn test_prior_snapshots_stay_valid() {
    let mut base = ExecutionState::new();
    base.state_insert(1, Some(vec![5]));
    let next = base.apply_dependency_graph_mutations(vec![DependencyGraphMutation::Create {
        operation_id: 9,
        depends_on: vec![(1, 0)],
    }]);
    // The successor sees the new entry; the base snapshot is untouched.
    assert!(next.dependency_graph_entry(&9).is_some());
    assert!(base.dependency_graph_entry(&9).is_none());
    assert_eq!(base.state_get_value(&1), Some(vec![5]));
}

#[test]
fn test_fatal_failure_marks_node_and_feeds_sentinel() {
    // Node 1 (arity 0) fails fatally; node 2 (arity 1) depends on it.
    let mut state = ExecutionState::new();
    let state2 = state.add_operation(1, 0);
    state = state2;
    let state2 = state.add_operation(2, 1);
    state = state2;
    let state = state.apply_dependency_graph_mutations(vec![
        DependencyGraphMutation::Create { operation_id: 1, depends_on: vec![] },
        DependencyGraphMutation::Create { operation_id: 2, depends_on: vec![(1, 0)] },
    ]);

    let mut backend = FailingBackend { calls: Vec::new() };
    let tick1 = state.step_execution(&mut backend);

    // The failure is recorded with its reason, the node is settled (it will
    // not rerun), and the store holds the absent-buffer sentinel.
    assert_eq!(tick1.failed_reason(&1).map(|r| r.as_str()), Some("backend exploded"));
    assert!(tick1.check_if_previously_set(&1));
    assert_eq!(tick1.state_get(&1), Some(&None));

    // Next tick the dependent fires, sees the sentinel in its slot, and the
    // failed node does not run again.
    let tick2 = tick1.step_execution(&mut backend);
    assert_eq!(backend.calls.len(), 2);
    assert_eq!(backend.calls[1].0, 2);
    assert_eq!(backend.calls[1].1, vec![None]);
    assert_eq!(tick2.state_get_value(&2), Some(vec![9]));
    assert!(tick2.state_get(&1).is_none());
    assert_eq!(tick2.failed_reason(&1).map(|r| r.as_str()), Some("backend exploded"));
}

#[test]
fn test_recoverable_failure_retries_on_later_ticks() {
    let mut state = ExecutionState::new();
    let state2 = state.add_operation(1, 0);
    state = state2;
    let state = state.apply_dependency_graph_mutations(vec![DependencyGraphMutation::Create {
        operation_id: 1,
        depends_on: vec![],
    }]);

    let mut backend = FlakyBackend { attempts: 0 };
    let tick1 = state.step_execution(&mut backend);
    // A recoverable failure stores nothing and marks nothing.
    assert!(tick1.state_get(&1).is_none());
    assert!(!tick1.check_if_previously_set(&1));
    assert!(tick1.failed_reason(&1).is_none());

    let tick2 = tick1.step_execution(&mut backend);
    let tick3 = tick2.step_execution(&mut backend);
    // The node was retried each tick until it succeeded.
    assert_eq!(backend.attempts, 3);
    assert_eq!(tick3.state_get_value(&1), Some(vec![7]));
    assert!(tick3.check_if_previously_set(&1));

    let tick4 = tick3.step_execution(&mut backend);
    assert_eq!(backend.attempts, 3);
    assert_eq!(tick4.state_get_value(&1), Some(vec![7]));
}

#[test]
fn test_stalled_operations_are_surfaced() {
    // Node 3 needs two inputs; only one arrives, so it stalls. Node 2 has
    // one input that did arrive, so it does not stall.
    let mut state = ExecutionState::new();
    let state2 = state.add_operation(1, 0);
    state = state2;
    let state2 = state.add_operation(2, 1);
    state = state2;
    let state2 = state.add_operation(3, 2);
    state = state2;
    let mut state = state.apply_dependency_graph_mutations(vec![
        DependencyGraphMutation::Create { operation_id: 2, depends_on: vec![(1, 0)] },
        DependencyGraphMutation::Create { operation_id: 3, depends_on: vec![(1, 0), (2, 1)] },
    ]);
    state.state_insert(1, Some(vec![5]));

    let mut stalled = state.stalled_operations();
    stalled.sort();
    assert_eq!(stalled, vec![3]);
}

#[test]
fn test_check_step_ready() {
    let mut state = ExecutionState::new();
    let state2 = state.add_operation(2, 1);
    state = state2;
    let state = state.apply_dependency_graph_mutations(vec![DependencyGraphMutation::Create {
        operation_id: 2,
        depends_on: vec![(1, 0)],
    }]);
    // Source 1 has no registered operation yet.
    assert!(!state.check_step_ready());

    let mut state = state;
    let state = state.add_operation(1, 0);
    assert!(state.check_step_ready());

    // An edge aimed at a slot beyond its target's arity is refused.
    let bad = state.apply_dependency_graph_mutations(vec![DependencyGraphMutation::Create {
        operation_id: 2,
        depends_on: vec![(1, 3)],
    }]);
    assert!(!bad.check_step_ready());
}

#[test]
fn test_passthrough_body_echoes_sole_input() {
    assert_eq!(passthrough_body(&vec![Some(vec![4, 5])]), Some(vec![4, 5]));
    assert_eq!(passthrough_body(&vec![]), None);
    assert_eq!(passthrough_body(&vec![None, Some(vec![1])]), None);
}
