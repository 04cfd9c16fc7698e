use neatlight::activation_functions::ActivationFunctions;
use neatlight::environment::Environment;
use neatlight::genes::{NodeGene, NodeType};
use neatlight::nn::NN;

fn z() -> u32 {
    0.0f32.to_bits()
}

fn plain(id: u32, node_type: NodeType) -> NodeGene {
    NodeGene::new(id, node_type, z(), ActivationFunctions::NoSquash, z())
}

#[test]
fn test_environment_new() {
    let num_of_species = 2;

    let env = Environment::new(num_of_species, 2, 2);

    assert_eq!(env.species.len(), 2);
}

#[test]
fn test_best_species() {
    let input_layer = vec![plain(0, NodeType::Input)];
    let output_layer = vec![plain(1, NodeType::Output)];

    let nn1 = NN::new(input_layer, output_layer);
    let mut nn2 = NN::clone(&nn1);
    let mut nn3 = NN::clone(&nn1);
    let mut nn4 = NN::clone(&nn1);
    let mut nn5 = NN::clone(&nn1);
    let mut nn1 = nn1;

    nn1.fitness = 1.0f32.to_bits();
    nn2.fitness = z();

    let mut env = Environment::new(0, 0, 0);
    env.species.push(nn1);
    env.species.push(nn2);

    assert_eq!(f32::from_bits(env.get_best_specie().fitness), 1.0);

    nn3.fitness = 2.0f32.to_bits();
    nn4.fitness = 2.0f32.to_bits();
    nn5.fitness = z();

    let mut env = Environment::new(0, 0, 0);
    env.species.push(nn5);
    env.species.push(nn3);
    env.species.push(nn4);

    assert_eq!(f32::from_bits(env.get_best_specie().fitness), 2.0);
}

#[test]
fn test_next_generation_counts() {
    let mut env = Environment::new(4, 2, 2);
    assert_eq!(env.generation, 1);
    env.next_generation(false);
    assert_eq!(env.generation, 2);
    assert_eq!(env.species.len(), 4);
    env.next_generation(true);
    assert_eq!(env.generation, 3);
    assert_eq!(env.species.len(), 4);
}
