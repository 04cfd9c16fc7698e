use neatlight::activation_functions::ActivationFunctions;
use neatlight::genes::{ConnectionGene, NodeGene, NodeType};
use neatlight::nn::NN;

fn z() -> u32 {
    0.0f32.to_bits()
}

fn plain(id: u32, node_type: NodeType) -> NodeGene {
    NodeGene::new(id, node_type, z(), ActivationFunctions::NoSquash, z())
}

#[test]
fn test_mutate_weight() {
    let node_genes_network = vec![];
    let node_genes = vec![];

    let connection_genes = vec![ConnectionGene {
        from: 0,
        to: 0,
        weight: z(),
        gater: -1,
    }];

    let mut nn = NN {
        node_genes_network,
        node_genes,
        connection_genes,
        fitness: z(),
        next_id: 0,
    };

    nn.mutate_weight();

    assert_ne!(f32::from_bits(nn.connection_genes[0].weight), 0.0);
}

#[test]
fn test_mutate_bias() {
    let node_genes_network = vec![vec![0]];
    let node = plain(0, NodeType::Hidden);
    let node_genes = vec![node];

    let mut nn = NN {
        node_genes_network,
        node_genes,
        connection_genes: vec![],
        fitness: z(),
        next_id: 0,
    };

    nn.mutate_bias();
    match nn.node_genes.iter().find(|n| n.id == 0) {
        Some(node) => assert_ne!(f32::from_bits(node.bias), 0.0),
        e => panic!("{:?}", e),
    }
}

#[test]
fn test_mutate_new_node() {
    let input_nodes = vec![plain(0, NodeType::Input)];
    let output_nodes = vec![plain(1, NodeType::Output)];
    let mut nn = NN::new(input_nodes, output_nodes);
    nn.mutate_new_node();

    assert_eq!(nn.connection_genes.len(), 3);
    assert_eq!(nn.node_genes_network.len(), 3);
    assert_eq!(nn.node_genes_network[1].len(), 1);

    match nn.node_genes.iter().find(|n| n.id == 2) {
        Some(node) => assert_eq!(node.id, 2),
        e => panic!("{:?}", e),
    }
}

#[test]
fn test_mutate_new_connection() {
    let input_nodes = vec![plain(0, NodeType::Input)];
    let output_nodes = vec![plain(1, NodeType::Output)];
    let mut nn = NN::new(input_nodes, output_nodes);
    nn.mutate_new_connection();

    // it should not add if exists
    assert_eq!(nn.connection_genes.len(), 1);

    nn.connection_genes.pop();

    nn.mutate_new_connection();

    assert_eq!(nn.connection_genes.len(), 1);
}

#[test]
fn test_mutate_squash() {
    let input_nodes = vec![plain(0, NodeType::Input)];
    let output_nodes = vec![plain(1, NodeType::Output)];

    let mut nn = NN::new(input_nodes, output_nodes);
    nn.mutate_squash();

    match nn.node_genes.iter().find(|n| n.id == 0) {
        Some(node1) => match nn.node_genes.iter().find(|n| n.id == 1) {
            Some(node2) => {
                assert!(
                    node1.squash != ActivationFunctions::NoSquash
                        || node2.squash != ActivationFunctions::NoSquash
                )
            },
            e => panic!("{:?}", e),
        },
        e => panic!("{:?}", e),
    }
}

#[test]
fn test_mutate_remove_node() {
    let input_nodes = vec![plain(0, NodeType::Input)];
    let output_nodes = vec![plain(1, NodeType::Output)];

    let hidden_node = plain(2, NodeType::Hidden);

    let mut nn = NN::new(input_nodes, output_nodes);
    nn.node_genes_network.insert(1, vec![2]);
    nn.node_genes.push(hidden_node);

    let conn1 = ConnectionGene::new(0, 2, z(), -1);
    let conn2 = ConnectionGene::new(2, 1, z(), -1);
    nn.connection_genes.push(conn1);
    nn.connection_genes.push(conn2);

    nn.mutate_remove_node();
    assert_eq!(nn.connection_genes.len(), 1);
    assert_eq!(nn.node_genes_network.len(), 2);
    match nn.node_genes.iter().find(|n| n.id == 2) {
        Some(node) => panic!("Should not give: {:?}", node),
        _ => (),
    }
}

#[test]
fn test_mutate_remove_connection() {
    let input_nodes = vec![plain(0, NodeType::Input)];
    let output_nodes = vec![plain(1, NodeType::Output)];

    let mut nn = NN::new(input_nodes, output_nodes);

    nn.mutate_remove_connection();
    assert_eq!(nn.connection_genes.len(), 0);
}

#[test]
fn test_mutate_new_node_counts_and_penalty() {
    let input_nodes = vec![plain(0, NodeType::Input), plain(1, NodeType::Input)];
    let output_nodes = vec![plain(2, NodeType::Output)];
    let mut nn = NN::new(input_nodes, output_nodes);
    let nodes_before = nn.node_genes.len();
    let conns_before = nn.connection_genes.len();
    let fitness_before = f32::from_bits(nn.fitness);

    nn.mutate_new_node();

    assert_eq!(nn.node_genes.len(), nodes_before + 1);
    assert_eq!(nn.connection_genes.len(), conns_before + 2);
    assert_eq!(f32::from_bits(nn.fitness), fitness_before - 1.0);
}

#[test]
fn test_mutate_weight_delta_bounded() {
    for _ in 0..50 {
        let mut nn = NN {
            node_genes_network: vec![],
            node_genes: vec![],
            connection_genes: vec![ConnectionGene::new(0, 0, z(), -1)],
            fitness: z(),
            next_id: 0,
        };
        nn.mutate_weight();
        let w = f32::from_bits(nn.connection_genes[0].weight);
        assert!(w >= -1.0 && w <= 1.0);
    }
}
