use audio_gen::graph::NodeRegistry;
use audio_gen::node_signature::{NodeSignature, NodeType};

fn float_signature(value: f32) -> NodeSignature {
    NodeSignature::new_with_data(NodeType::Float, vec![], value.to_string())
}

#[test]
fn test_dedupe_chain() {
    let num_chains = 10;
    let mut graph = NodeRegistry::new(true);
    for _ in 0..num_chains {
        let (multiplicand_id, _) = graph.register(float_signature(1.0));
        let (mulitplier_id, _) = graph.register(float_signature(2.0));
        graph.register(NodeSignature::new(
            NodeType::Multiply,
            vec![multiplicand_id, mulitplier_id],
        ));
    }

    assert_eq!(graph.current_id(), 3);
}

#[test]
fn test_registry_starts_at_zero() {
    let registry = NodeRegistry::new(true);
    assert_eq!(registry.current_id(), 0);
    assert!(registry.dedupe());
}

#[test]
fn test_repeat_signature_keeps_id() {
    let mut registry = NodeRegistry::new(true);
    assert_eq!(registry.register(float_signature(1.0)), (0, false));
    assert_eq!(registry.register(NodeSignature::new(NodeType::Sine, vec![0])), (1, false));
    assert_eq!(registry.register(float_signature(1.0)), (0, true));
    assert_eq!(registry.register(NodeSignature::new(NodeType::Sine, vec![0])), (1, true));
    assert_eq!(registry.current_id(), 2);
}

#[test]
fn test_without_dedupe_every_node_is_new() {
    let mut registry = NodeRegistry::new(false);
    assert!(!registry.dedupe());
    assert_eq!(registry.register(float_signature(1.0)), (0, false));
    assert_eq!(registry.register(float_signature(1.0)), (1, false));
    assert_eq!(registry.register(float_signature(1.0)), (2, false));
    assert_eq!(registry.current_id(), 3);
}

#[test]
fn test_fresh_id_is_never_shared() {
    let mut registry = NodeRegistry::new(true);
    assert_eq!(registry.register(float_signature(1.0)), (0, false));
    assert_eq!(registry.fresh_id(), 1);
    assert_eq!(registry.fresh_id(), 2);
    assert_eq!(registry.register(float_signature(1.0)), (0, true));
    assert_eq!(registry.register(float_signature(3.0)), (3, false));
}
