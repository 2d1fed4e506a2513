use audio_gen::node_signature::{NodeSignature, NodeType};

#[test]
fn test_node_signature_equivalence() {
    let signature1 = NodeSignature::new(NodeType::Sine, vec![0]);
    let signature2 = NodeSignature::new(NodeType::Sine, vec![0]);
    assert_eq!(signature1, signature2);
}

#[test]
fn test_node_signature_ancillary_difference() {
    let signature1 = NodeSignature::new(NodeType::Sine, vec![0]);
    let signature2 = NodeSignature::new_with_data(
        NodeType::Sine,
        vec![0],
        String::from("some differentiating data"),
    );
    assert_ne!(signature1, signature2);
}

#[test]
fn test_node_signature_dependency_difference() {
    let signature1 = NodeSignature::new(NodeType::Sine, vec![0]);
    let signature2 = NodeSignature::new(NodeType::Sine, vec![1]);
    assert_ne!(signature1, signature2);
}

#[test]
fn test_node_signature_node_type_difference() {
    let signature1 = NodeSignature::new(NodeType::Sine, vec![0]);
    let signature2 = NodeSignature::new(NodeType::Saw, vec![0]);
    assert_ne!(signature1, signature2);
}

#[test]
fn test_node_signature_dependency_order_matters() {
    let signature1 = NodeSignature::new(NodeType::Sum, vec![0, 1]);
    let signature2 = NodeSignature::new(NodeType::Sum, vec![1, 0]);
    assert_ne!(signature1, signature2);
    assert!(!signature1.equals(&signature2));
}

#[test]
fn test_node_signature_dependency_length_matters() {
    let signature1 = NodeSignature::new(NodeType::Sum, vec![0, 1]);
    let signature2 = NodeSignature::new(NodeType::Sum, vec![0, 1, 1]);
    assert_ne!(signature1, signature2);
}

#[test]
fn test_node_signature_same_data_is_equal() {
    let signature1 = NodeSignature::new_with_data(NodeType::Float, vec![], String::from("0.5"));
    let signature2 = NodeSignature::new_with_data(NodeType::Float, vec![], String::from("0.5"));
    let signature3 = NodeSignature::new_with_data(NodeType::Float, vec![], String::from("0.25"));
    assert_eq!(signature1, signature2);
    assert!(signature1.equals(&signature2));
    assert_ne!(signature1, signature3);
}

#[test]
fn test_node_signature_empty_data_differs_from_no_data() {
    let signature1 = NodeSignature::new(NodeType::Media, vec![]);
    let signature2 = NodeSignature::new_with_data(NodeType::Media, vec![], String::new());
    assert_ne!(signature1, signature2);
}
