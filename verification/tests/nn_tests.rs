use neatlight::activation_functions::ActivationFunctions;
use neatlight::genes::{ConnectionGene, NodeGene, NodeType};
use neatlight::nn::NN;

fn z() -> u32 {
    0.0f32.to_bits()
}

fn plain(id: u32, node_type: NodeType, bias: f32, value: f32) -> NodeGene {
    NodeGene::new(
        id,
        node_type,
        bias.to_bits(),
        ActivationFunctions::NoSquash,
        value.to_bits(),
    )
}

#[test]
fn test_nn_new() {
    let input = vec![
        plain(0, NodeType::Input, 0.0, 0.0),
        plain(1, NodeType::Input, 0.0, 0.0),
        plain(2, NodeType::Hidden, 0.0, 0.0),
    ];

    let output = vec![
        plain(3, NodeType::Output, 0.0, 0.0),
        plain(4, NodeType::Hidden, 0.0, 0.0),
        plain(5, NodeType::Output, 0.0, 0.0),
    ];

    let nn = NN::new(input, output);

    println!("{:?}", nn.connection_genes);

    assert_eq!(nn.connection_genes[0].to, 3);
    assert_eq!(nn.connection_genes[0].from, 0);
    assert_eq!(nn.connection_genes[1].to, 5);
    assert_eq!(nn.connection_genes[1].from, 0);
    assert_eq!(nn.connection_genes[2].to, 3);
    assert_eq!(nn.connection_genes[2].from, 1);
    assert_eq!(nn.connection_genes[3].to, 5);
    assert_eq!(nn.connection_genes[3].from, 1);
}

#[test]
fn test_nn_clone() {
    let input_layer = vec![plain(0, NodeType::Input, 0.0, 0.0)];
    let output_layer = vec![plain(1, NodeType::Output, 0.0, 0.0)];

    let nn = NN::new(input_layer, output_layer);

    let nn_clone = NN::clone(&nn);

    assert_eq!(nn.node_genes_network[0], nn_clone.node_genes_network[0]);
    assert_eq!(nn.node_genes_network[1], nn_clone.node_genes_network[1]);
    assert_eq!(nn.connection_genes[0], nn_clone.connection_genes[0]);
    assert_eq!(nn.fitness, nn_clone.fitness);
}

#[test]
fn test_get_output() {
    let node_genes_network = vec![vec![0, 1], vec![4], vec![2, 3]];

    let node_genes = vec![
        plain(0, NodeType::Input, 0.0, 1.0),
        plain(1, NodeType::Input, 0.0, 2.0),
        plain(2, NodeType::Output, 0.0, 0.0),
        plain(3, NodeType::Output, 0.0, 0.0),
        plain(4, NodeType::Output, 1.0, 1.0),
    ];

    let connection_genes = vec![
        ConnectionGene::new(0, 2, 1.0f32.to_bits(), -1),
        ConnectionGene::new(0, 3, 1.0f32.to_bits(), -1),
        ConnectionGene::new(0, 4, 2.0f32.to_bits(), -1),
        ConnectionGene::new(1, 2, 1.0f32.to_bits(), -1),
        ConnectionGene::new(1, 3, 1.0f32.to_bits(), -1),
        ConnectionGene::new(4, 3, 2.0f32.to_bits(), -1),
    ];

    let mut nn = NN {
        node_genes_network,
        node_genes,
        connection_genes,
        fitness: z(),
        next_id: 0,
    };

    let res = nn.get_output();

    assert_eq!(res, 1);

    match nn.node_genes.iter().find(|n| n.id == 2) {
        Some(node) => assert_eq!(f32::from_bits(node.value), 3.0),
        None => panic!("It should return a value"),
    };

    match nn.node_genes.iter().find(|n| n.id == 3) {
        Some(node) => assert_eq!(f32::from_bits(node.value), 6.0),
        None => panic!("It should return a value"),
    };
}

#[test]
fn test_calculate_fitness() {
    let node_genes_network = vec![vec![0, 1], vec![3], vec![2]];

    let nn = NN {
        node_genes_network,
        node_genes: vec![],
        connection_genes: vec![ConnectionGene::new(1, 0, z(), -1)],
        fitness: 10.0f32.to_bits(),
        next_id: 0,
    };

    assert_eq!(f32::from_bits(nn.calculate_fitness()), 5.0);
}

#[test]
fn test_update() {
    let input = vec![
        plain(0, NodeType::Input, 0.0, 0.0),
        plain(1, NodeType::Input, 0.0, 0.0),
    ];

    let output = vec![
        plain(2, NodeType::Output, 0.0, 0.0),
        plain(3, NodeType::Output, 0.0, 0.0),
    ];

    let hidden = plain(4, NodeType::Hidden, 1.0, 1.0);

    let con1 = ConnectionGene::new(0, 4, 1.0f32.to_bits(), -1);
    let con2 = ConnectionGene::new(4, 2, 1.0f32.to_bits(), -1);

    let mut nn = NN::new(input, output);
    nn.node_genes_network.insert(1, vec![4]);
    nn.node_genes.push(hidden);
    nn.connection_genes.insert(2, con1);
    nn.connection_genes.push(con2);
    let res = nn.update(vec![1.0f32.to_bits(), 2.0f32.to_bits()]);

    assert_eq!(res, 0);

    match nn.node_genes.iter().find(|n| n.id == 2) {
        Some(node) => assert_eq!(f32::from_bits(node.value), 0.0),
        e => println!("{:?}", e),
    }

    match nn.node_genes.iter().find(|n| n.id == 3) {
        Some(node) => assert_eq!(f32::from_bits(node.value), 0.0),
        e => println!("{:?}", e),
    }
}

#[test]
fn test_reset_gene_value() {
    let node = plain(0, NodeType::Input, 0.0, 1.0);

    let mut nn = NN::new(vec![node], vec![]);
    nn.reset_gene_value();
    match nn.node_genes.iter().find(|n| n.id == 0) {
        Some(node) => assert_eq!(f32::from_bits(node.value), 0.0),
        e => panic!("{:?}", e),
    }
}

#[test]
fn test_reward_accumulates() {
    let mut nn = NN::new(
        vec![plain(0, NodeType::Input, 0.0, 0.0)],
        vec![plain(1, NodeType::Output, 0.0, 0.0)],
    );
    nn.reward(2.5f32.to_bits());
    assert_eq!(f32::from_bits(nn.fitness), 2.5);
    nn.reward((-1.25f32).to_bits());
    assert_eq!(f32::from_bits(nn.fitness), 1.25);
}
