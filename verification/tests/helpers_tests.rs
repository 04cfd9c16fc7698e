use neatlight::helpers::{gaussian_rand, std0};

#[test]
fn test_guessian_rand() {
    let num = f32::from_bits(gaussian_rand());
    assert!(num >= 0.0 && num <= 1.0);
}

#[test]
fn test_std0() {
    let num = f32::from_bits(std0());
    assert!(num >= -1.0 && num <= 1.0)
}

#[test]
fn test_delta_always_in_unit_range() {
    for _ in 0..500 {
        let g = f32::from_bits(gaussian_rand());
        assert!(g >= 0.0 && g <= 1.0);
        let d = f32::from_bits(std0());
        assert!(d >= -1.0 && d <= 1.0);
    }
}
