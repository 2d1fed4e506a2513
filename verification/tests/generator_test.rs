use audio_gen::generator::plan_generator;
use audio_gen::scheduler::{nodes_to_references, Reference, ScheduleError};

fn node(id: usize, child_ids: Vec<usize>) -> Reference {
    Reference { id, child_ids }
}

#[test]
fn test_plan_chain() {
    let references = nodes_to_references(&vec![node(0, vec![]), node(1, vec![0]), node(2, vec![1])]).unwrap();
    let plan = plan_generator(references).unwrap();
    assert_eq!(plan.max_id, 2);
    assert_eq!(plan.root_id, 2);
    assert_eq!(plan.schedule, vec![0, 1, 2]);
    assert_eq!(plan.layers, vec![vec![0], vec![1], vec![2]]);
}

#[test]
fn test_plan_drops_isolated_nodes() {
    // Node 5 is isolated; it takes no part but still counts for the largest id.
    let references =
        nodes_to_references(&vec![node(5, vec![]), node(0, vec![]), node(1, vec![0, 0])]).unwrap();
    let plan = plan_generator(references).unwrap();
    assert_eq!(plan.max_id, 5);
    assert_eq!(plan.root_id, 1);
    assert_eq!(plan.schedule, vec![0, 1]);
    assert_eq!(plan.layers, vec![vec![0], vec![1]]);
}

#[test]
fn test_plan_single_node() {
    // A graph of a single node keeps it: isolated nodes are removed only
    // from graphs of several nodes.
    let references = nodes_to_references(&vec![node(3, vec![])]).unwrap();
    let plan = plan_generator(references).unwrap();
    assert_eq!(plan.max_id, 3);
    assert_eq!(plan.root_id, 3);
    assert_eq!(plan.schedule, vec![3]);
    assert_eq!(plan.layers, vec![vec![3]]);
}

#[test]
fn test_plan_errors() {
    assert!(matches!(plan_generator(vec![]), Err(ScheduleError::NoNodes)));
    let unknown = nodes_to_references(&vec![node(0, vec![7])]).unwrap();
    assert!(matches!(plan_generator(unknown), Err(ScheduleError::UnknownChild { id: 7 })));
    let two_roots = nodes_to_references(&vec![
        node(0, vec![]),
        node(1, vec![0]),
        node(2, vec![0]),
    ])
    .unwrap();
    assert!(matches!(plan_generator(two_roots), Err(ScheduleError::NotSingleRooted)));
    let looped = nodes_to_references(&vec![node(0, vec![1]), node(1, vec![0])]).unwrap();
    assert!(matches!(plan_generator(looped), Err(ScheduleError::EmptyGraph)));
    let cycle_below_root = nodes_to_references(&vec![
        node(0, vec![]),
        node(1, vec![0, 2]),
        node(2, vec![1]),
        node(3, vec![1]),
    ])
    .unwrap();
    assert!(matches!(
        plan_generator(cycle_below_root),
        Err(ScheduleError::Incomplete { received: 4, scheduled: 1 })
    ));
    let no_leaves = nodes_to_references(&vec![node(0, vec![1]), node(1, vec![1])]).unwrap();
    assert!(matches!(plan_generator(no_leaves), Err(ScheduleError::NoLeaves)));
}
