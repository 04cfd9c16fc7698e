use neatlight::activation_functions::ActivationFunctions;

fn af(t: ActivationFunctions, x: f32) -> f32 {
    f32::from_bits(ActivationFunctions::get_output(t, x.to_bits()))
}

#[test]
fn test_logistic_function() {
    assert_eq!(af(ActivationFunctions::Logistics, 1.0).round(), 1.0);
    assert_eq!(af(ActivationFunctions::Logistics, -0.5).round(), 0.0);
    assert_eq!(af(ActivationFunctions::Logistics, 0.0), 0.5);
}

#[test]
fn test_hyperbolic_tangent_function() {
    assert_eq!(af(ActivationFunctions::HyperbolicTangent, 1.0).round(), 1.0);
    assert_eq!(af(ActivationFunctions::HyperbolicTangent, 0.5).round(), 0.0);
}

#[test]
fn test_identity_function() {
    assert_eq!(af(ActivationFunctions::Identity, 1.0), 1.0);
}

#[test]
fn test_binary_step_function() {
    assert_eq!(af(ActivationFunctions::BinaryStep, -1.0), 0.0);
    assert_eq!(af(ActivationFunctions::BinaryStep, 1.0), 1.0);
}

#[test]
fn test_relu_function() {
    assert_eq!(af(ActivationFunctions::ReLU, -1.0), 0.0);
    assert_eq!(af(ActivationFunctions::ReLU, 1.0), 1.0);
}

#[test]
fn test_softsign_function() {
    assert_eq!(af(ActivationFunctions::Softsign, 1.0), 0.5);
    assert_eq!(af(ActivationFunctions::Softsign, -1.0), -0.5);
}

#[test]
fn test_gaussian_function() {
    assert_eq!(af(ActivationFunctions::Gaussian, 1.0).round(), 0.0);
    assert_eq!(af(ActivationFunctions::Gaussian, 0.5).round(), 1.0);
}

#[test]
fn test_sinusodial_function() {
    assert_eq!(af(ActivationFunctions::Sinusiodial, 1.0).round(), 1.0);
    assert_eq!(af(ActivationFunctions::Sinusiodial, 0.0), 0.0);
}

#[test]
fn test_bent_identity_function() {
    assert_eq!(af(ActivationFunctions::BentIdentity, 1.0).round(), 1.0);
    assert_eq!(af(ActivationFunctions::BentIdentity, 0.0), 0.0);
}

#[test]
fn test_selu_function() {
    assert_eq!(af(ActivationFunctions::SELU, -1.0).round(), -1.0);
    assert_eq!(af(ActivationFunctions::SELU, 1.0).round(), 1.0);
}

#[test]
fn test_selu_scales_positive_values() {
    assert_eq!(af(ActivationFunctions::SELU, 2.0), 2.0 * 1.0507);
}

#[test]
fn test_sinusodial_bends_the_input() {
    assert_eq!(af(ActivationFunctions::Sinusiodial, 2.0).round(), 1.0);
}

#[test]
fn test_get_random_never_passthrough() {
    for _ in 0..200 {
        assert_ne!(
            ActivationFunctions::get_random(),
            ActivationFunctions::NoSquash
        );
    }
}
