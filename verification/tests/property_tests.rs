use neatlight::activation_functions::ActivationFunctions;
use neatlight::environment::Environment;
use neatlight::genes::{NodeGene, NodeType};
use neatlight::nn::NN;

fn z() -> u32 {
    0.0f32.to_bits()
}

fn plain(id: u32, node_type: NodeType) -> NodeGene {
    NodeGene::new(id, node_type, z(), ActivationFunctions::NoSquash, z())
}

#[test]
fn test_new_fully_connects_every_pair_once() {
    let inputs = vec![plain(2, NodeType::Input), plain(3, NodeType::Input)];
    let outputs = vec![plain(0, NodeType::Output), plain(1, NodeType::Output)];
    let nn = NN::new(inputs, outputs);

    assert_eq!(nn.connection_genes.len(), 4);
    for from in [2u32, 3] {
        for to in [0u32, 1] {
            let occurrences = nn
                .connection_genes
                .iter()
                .filter(|c| c.from == from && c.to == to)
                .count();
            assert_eq!(occurrences, 1);
        }
    }
}

#[test]
fn test_clone_is_equal_then_independent() {
    let nn = NN::new(
        vec![plain(0, NodeType::Input)],
        vec![plain(1, NodeType::Output)],
    );
    let snapshot = NN::clone(&nn);
    let mut copy = NN::clone(&nn);
    assert_eq!(nn, copy);

    copy.mutate_new_node();
    assert_ne!(nn, copy);
    assert_eq!(nn, snapshot);
}

#[test]
fn test_update_index_in_range_and_values_reset() {
    let mut env = Environment::new(3, 3, 2);
    for _ in 0..5 {
        env.next_generation(false);
    }
    for nn in env.species.iter_mut() {
        let inputs = vec![1.0f32.to_bits(), 0.0f32.to_bits(), 1.0f32.to_bits()];
        let idx = nn.update(inputs);
        assert!(idx < nn.node_genes_network.last().unwrap().len());
        for node in &nn.node_genes {
            assert_eq!(f32::from_bits(node.value), 0.0);
        }
    }
}

#[test]
fn test_fitness_penalty_formula() {
    let mut nn = NN::new(
        vec![plain(2, NodeType::Input), plain(3, NodeType::Input)],
        vec![plain(0, NodeType::Output), plain(1, NodeType::Output)],
    );
    nn.fitness = 10.0f32.to_bits();
    // four nodes and four connections: 10 - 4 - 4
    assert_eq!(f32::from_bits(nn.calculate_fitness()), 2.0);
}

#[test]
fn test_remove_node_scenario() {
    let mut nn = NN::new(
        vec![plain(0, NodeType::Input)],
        vec![plain(1, NodeType::Output)],
    );
    nn.mutate_new_node();
    assert_eq!(nn.node_genes_network.len(), 3);
    let conns_before = nn.connection_genes.len();
    assert_eq!(conns_before, 3);

    nn.mutate_remove_node();
    assert_eq!(nn.node_genes_network.len(), 2);
    assert_eq!(nn.node_genes.len(), 2);
    // both connections through the hidden node are gone
    assert_eq!(nn.connection_genes.len(), 1);
    assert!(nn.node_genes.iter().all(|n| n.id != 2));
}

#[test]
fn test_elitism_keeps_parent_unmutated() {
    let mut env = Environment::new(5, 2, 2);
    let mut parent = NN::clone(&env.species[0]);
    parent.fitness = z();

    env.next_generation(false);

    assert_eq!(env.species.len(), 5);
    assert_eq!(env.species[4], parent);
    assert_eq!(f32::from_bits(env.species[4].fitness), 0.0);
}
