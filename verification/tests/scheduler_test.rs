use audio_gen::scheduler::{
    build_parallel_schedule, build_schedule, is_graph_single_rooted, nodes_to_references,
    remove_isolated_references, reversed_references, root_id, Reference, ScheduleError,
};
use rand::seq::SliceRandom;

fn node(id: usize, child_ids: Vec<usize>) -> Reference {
    Reference { id, child_ids }
}

fn float_source(id: usize) -> Reference {
    node(id, vec![])
}

fn echo_node(id: usize, value_source_id: usize) -> Reference {
    node(id, vec![value_source_id])
}

fn sum_node(id: usize, value_source1_id: usize, value_source2_id: usize) -> Reference {
    node(id, vec![value_source1_id, value_source2_id])
}

#[test]
fn scheduler_test_build_schedule_linear() {
    let mut nodes: Vec<Reference> = vec![
        float_source(0),
        echo_node(1, 0),
        echo_node(2, 1),
        echo_node(3, 2),
    ];

    let mut rng = rand::rng();
    nodes.shuffle(&mut rng);
    let references = nodes_to_references(&nodes).unwrap();
    let schedule = build_schedule(references, 3).unwrap();
    let expected_id_order: Vec<usize> = vec![0, 1, 2, 3];
    assert_eq!(schedule, expected_id_order);
}

#[test]
fn scheduler_test_build_schedule_branching() {
    let mut nodes: Vec<Reference> = vec![
        float_source(0),
        float_source(1),
        sum_node(2, 0, 1),
        echo_node(3, 2),
        echo_node(4, 3),
        sum_node(5, 4, 2),
    ];

    let mut rng = rand::rng();
    nodes.shuffle(&mut rng);

    let references = nodes_to_references(&nodes).unwrap();
    let schedule = build_schedule(references, 5).unwrap();

    // There are two valid orders since nodes 0 and 1 don't depend on each other
    let expected_id_order_1: Vec<usize> = vec![0, 1, 2, 3, 4, 5];
    let expected_id_order_2: Vec<usize> = vec![1, 0, 2, 3, 4, 5];

    assert!(
        schedule == expected_id_order_1 || schedule == expected_id_order_2,
        "expected ID order {:?} or {:?}, got {:?}",
        expected_id_order_1,
        expected_id_order_2,
        schedule
    );
}

#[test]
fn test_error_on_cycle() {
    let nodes: Vec<Reference> = vec![float_source(0), sum_node(1, 0, 2), echo_node(2, 1)];

    let references = nodes_to_references(&nodes).unwrap();
    let schedule = build_schedule(references, 2);
    assert!(schedule.is_err());
}

#[test]
fn test_multiple_roots() {
    let nodes: Vec<Reference> = vec![float_source(0), float_source(1)];

    let references = nodes_to_references(&nodes).unwrap();
    assert!(!is_graph_single_rooted(&references));
}

#[test]
fn test_single_root() {
    let nodes: Vec<Reference> = vec![float_source(0), echo_node(1, 0)];

    let references = nodes_to_references(&nodes).unwrap();
    assert!(is_graph_single_rooted(&references));
}

#[test]
fn test_remove_isolated_nodes() {
    let nodes: Vec<Reference> = vec![float_source(0), float_source(1), echo_node(2, 0)];

    let references = nodes_to_references(&nodes).unwrap();
    let trimmed_nodes = remove_isolated_references(references);
    assert_eq!(trimmed_nodes.len(), 2);
}

#[test]
fn test_build_parallel_schedule() {
    let nodes: Vec<Reference> = vec![
        float_source(0),
        echo_node(1, 0),
        echo_node(2, 1),
        echo_node(3, 2),
    ];

    let references = nodes_to_references(&nodes).unwrap();
    let root_id = root_id(&references).unwrap();
    let schedule = build_parallel_schedule(&references, 3, root_id).unwrap();
    assert!(schedule.len() == 4);
    for layer in schedule {
        assert!(layer.len() == 1)
    }
}

#[test]
fn test_build_parallel_schedule_branching() {
    let mut nodes: Vec<Reference> = vec![
        float_source(0),
        float_source(1),
        sum_node(2, 0, 1),
        echo_node(3, 2),
        echo_node(4, 3),
        sum_node(5, 4, 2),
    ];

    let mut rng = rand::rng();
    nodes.shuffle(&mut rng);

    let references = nodes_to_references(&nodes).unwrap();
    let root_id = root_id(&references).unwrap();
    let schedule = build_parallel_schedule(&references, 5, root_id).unwrap();

    assert!(schedule.len() == 5);
}

#[test]
fn test_build_parallel_schedule_join() {
    let mut nodes: Vec<Reference> = vec![
        float_source(0),
        float_source(1),
        sum_node(2, 0, 1),
        float_source(3),
        float_source(4),
        sum_node(5, 3, 4),
        sum_node(6, 5, 2),
    ];

    let mut rng = rand::rng();
    nodes.shuffle(&mut rng);

    let references = nodes_to_references(&nodes).unwrap();
    let root_id = root_id(&references).unwrap();
    let schedule = build_parallel_schedule(&references, 6, root_id).unwrap();

    assert!(schedule.len() == 3);
}

#[test]
fn test_parallel_layers_of_join() {
    let nodes: Vec<Reference> = vec![
        float_source(0),
        float_source(1),
        sum_node(2, 0, 1),
        float_source(3),
        float_source(4),
        sum_node(5, 3, 4),
        sum_node(6, 5, 2),
    ];
    let references = nodes_to_references(&nodes).unwrap();
    let schedule = build_parallel_schedule(&references, 6, 6).unwrap();
    assert_eq!(schedule, vec![vec![0, 1, 3, 4], vec![2, 5], vec![6]]);
}

#[test]
fn test_parallel_layer_is_above_deepest_child() {
    // 3 reads 0 directly and through 1 and 2, so it sits above 2.
    let nodes: Vec<Reference> = vec![
        float_source(0),
        echo_node(1, 0),
        echo_node(2, 1),
        sum_node(3, 0, 2),
    ];
    let references = nodes_to_references(&nodes).unwrap();
    let schedule = build_parallel_schedule(&references, 3, 3).unwrap();
    assert_eq!(schedule, vec![vec![0], vec![1], vec![2], vec![3]]);
}

#[test]
fn test_schedule_not_single_rooted() {
    let references = vec![float_source(0), float_source(1)];
    assert_eq!(build_schedule(references.clone(), 1), Err(ScheduleError::NotSingleRooted));
    assert_eq!(
        build_parallel_schedule(&references, 1, 0),
        Err(ScheduleError::NotSingleRooted)
    );
}

#[test]
fn test_schedule_no_leaves() {
    // 1 reads itself, so no node is free of dependencies.
    let references = vec![echo_node(0, 1), echo_node(1, 1)];
    assert!(is_graph_single_rooted(&references));
    assert_eq!(build_schedule(references, 1), Err(ScheduleError::NoLeaves));
}

#[test]
fn test_schedule_incomplete_on_cycle_below_root() {
    let references = vec![
        float_source(0),
        sum_node(1, 0, 2),
        echo_node(2, 1),
        echo_node(3, 1),
    ];
    assert_eq!(
        build_schedule(references.clone(), 3),
        Err(ScheduleError::Incomplete { received: 4, scheduled: 1 })
    );
    assert_eq!(build_parallel_schedule(&references, 3, 3), Err(ScheduleError::Cycle));
}

#[test]
fn test_parallel_schedule_wrong_root() {
    let references = vec![float_source(0), echo_node(1, 0)];
    assert_eq!(
        build_parallel_schedule(&references, 1, 0),
        Err(ScheduleError::MissingReference { id: 1 })
    );
    assert_eq!(build_parallel_schedule(&references, 1, 1), Ok(vec![vec![0], vec![1]]));
}

#[test]
fn test_root_id_errors() {
    let unknown_child = vec![echo_node(0, 5)];
    assert_eq!(root_id(&unknown_child), Err(ScheduleError::UnknownChild { id: 5 }));
    let no_root = vec![echo_node(0, 1), echo_node(1, 0)];
    assert_eq!(root_id(&no_root), Err(ScheduleError::EmptyGraph));
    let empty: Vec<Reference> = vec![];
    assert_eq!(root_id(&empty), Err(ScheduleError::EmptyGraph));
}

#[test]
fn test_root_id_first_root() {
    let references = vec![float_source(0), echo_node(1, 0), float_source(2)];
    assert_eq!(root_id(&references), Ok(1));
}

#[test]
fn test_nodes_to_references_merges_ids() {
    let nodes = vec![float_source(0), echo_node(1, 0), echo_node(1, 2), float_source(2)];
    let references = nodes_to_references(&nodes).unwrap();
    assert_eq!(references.len(), 3);
    assert_eq!(references[0].id, 0);
    assert_eq!(references[1].id, 1);
    assert_eq!(references[1].child_ids, vec![0, 2]);
    assert_eq!(references[2].id, 2);
    assert!(references[2].child_ids.is_empty());
}

#[test]
fn test_reversed_references_lists_parents() {
    let references = vec![float_source(0), echo_node(1, 0), sum_node(2, 0, 1)];
    let reversed = reversed_references(&references, 2).unwrap();
    assert_eq!(reversed.len(), 3);
    assert_eq!(reversed[&0].child_ids, vec![1, 2]);
    assert_eq!(reversed[&1].child_ids, vec![2]);
    assert!(reversed[&2].child_ids.is_empty());
}

#[test]
fn test_remove_isolated_keeps_order() {
    let references = vec![echo_node(3, 0), float_source(1), float_source(0), float_source(2)];
    let trimmed = remove_isolated_references(references);
    let ids: Vec<usize> = trimmed.iter().map(|reference| reference.id).collect();
    assert_eq!(ids, vec![3, 0]);
}

#[test]
fn test_single_node_is_single_rooted() {
    let references = vec![float_source(0)];
    assert!(is_graph_single_rooted(&references));
    assert_eq!(build_schedule(references.clone(), 0), Ok(vec![0]));
    assert_eq!(build_parallel_schedule(&references, 0, 0), Ok(vec![vec![0]]));
}

#[test]
fn test_remove_isolated_twice_changes_nothing() {
    let references = vec![
        float_source(0),
        float_source(1),
        echo_node(2, 0),
        float_source(3),
        sum_node(4, 2, 3),
    ];
    let once = remove_isolated_references(references);
    let once_ids: Vec<usize> = once.iter().map(|reference| reference.id).collect();
    assert_eq!(once_ids, vec![0, 2, 3, 4]);
    let twice = remove_isolated_references(once.clone());
    let twice_ids: Vec<usize> = twice.iter().map(|reference| reference.id).collect();
    assert_eq!(twice_ids, once_ids);
}

#[test]
fn test_build_schedule_removes_isolated_nodes() {
    // Node 2 has no dependencies and no dependents in a graph of several nodes.
    let references = vec![float_source(0), echo_node(1, 0), float_source(2)];
    assert_eq!(build_schedule(references, 2), Ok(vec![0, 1]));
}

#[test]
fn test_cycle_not_connected_to_root() {
    // 1 is the only node without dependents, but 2 and 3 never reach it.
    let references = vec![float_source(0), echo_node(1, 0), echo_node(2, 3), echo_node(3, 2)];
    assert!(!is_graph_single_rooted(&references));
    assert_eq!(build_schedule(references.clone(), 3), Err(ScheduleError::NotSingleRooted));
    assert_eq!(
        build_parallel_schedule(&references, 3, 1),
        Err(ScheduleError::NotSingleRooted)
    );
}

#[test]
fn test_connected_cycle_is_single_rooted() {
    // The cycle 2 <-> 3 feeds the root 1, so the graph is single-rooted, but
    // it cannot be scheduled.
    let references = vec![float_source(0), sum_node(1, 0, 2), echo_node(2, 3), echo_node(3, 2)];
    assert!(is_graph_single_rooted(&references));
    assert_eq!(
        build_schedule(references, 3),
        Err(ScheduleError::Incomplete { received: 4, scheduled: 1 })
    );
}

#[test]
fn test_remove_isolated_keeps_single_node() {
    let trimmed = remove_isolated_references(vec![float_source(0)]);
    assert_eq!(trimmed.len(), 1);
    assert_eq!(trimmed[0].id, 0);
    // Two references of one node are still a single node.
    let trimmed = remove_isolated_references(vec![float_source(4), float_source(4)]);
    assert_eq!(trimmed.len(), 2);
}

#[test]
fn test_parallel_schedule_skips_unreached_cycle() {
    // No walk up from the leaf 0 enters the cycle 2 <-> 3, so the layers are
    // built and the cycle's nodes stay in layer 0.
    let references = vec![float_source(0), sum_node(1, 0, 2), echo_node(2, 3), echo_node(3, 2)];
    assert_eq!(
        build_parallel_schedule(&references, 3, 1),
        Ok(vec![vec![0, 2, 3], vec![1]])
    );
}
