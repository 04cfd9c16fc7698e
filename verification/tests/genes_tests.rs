use neatlight::activation_functions::ActivationFunctions;
use neatlight::genes::{NodeGene, NodeType};

#[test]
fn test_calculate_value() {
    let mut node = NodeGene::new(
        0,
        NodeType::Hidden,
        1.0f32.to_bits(),
        ActivationFunctions::NoSquash,
        0.0f32.to_bits(),
    );

    assert_eq!(f32::from_bits(node.get_output()), 1.0);
}

#[test]
fn test_add_value_accumulates() {
    let mut node = NodeGene::new(
        7,
        NodeType::Hidden,
        0.0f32.to_bits(),
        ActivationFunctions::NoSquash,
        1.5f32.to_bits(),
    );
    node.add_value(2.25f32.to_bits());
    assert_eq!(f32::from_bits(node.value), 3.75);
}
