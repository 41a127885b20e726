use boids::vec2::Vec2;

#[test]
fn test_vec2_eq() {
    assert_eq!(Vec2::zero(), Vec2::zero());
    assert_eq!(Vec2::from(10), Vec2::from(10));
    assert_eq!(Vec2::from(4313), Vec2::from(4313));

    assert_ne!(Vec2::from(254), Vec2::from(507).div_num(2));
    assert_ne!(Vec2::new(94, 56), Vec2::new(126, 57));
}

#[test]
fn test_vec2_arithmetic() {
    let a = Vec2::new(3, -4);
    let b = Vec2::new(10, 20);
    assert_eq!(a.add_vec(&b), Vec2::new(13, 16));
    assert_eq!(a.sub_vec(&b), Vec2::new(-7, -24));
    assert_eq!(a.add_num(5), Vec2::new(8, 1));
    assert_eq!(a.sub_num(5), Vec2::new(-2, -9));
    assert_eq!(a.mul_num(3), Vec2::new(9, -12));
    assert_eq!(a.mul_vec(&b), Vec2::new(30, -80));
    assert_eq!(a.neg(), Vec2::new(-3, 4));
    assert_eq!(a.keep_x(), Vec2::new(3, 0));
    assert_eq!(a.keep_y(), Vec2::new(0, -4));
}

#[test]
fn test_div_num_truncates_towards_zero() {
    assert_eq!(Vec2::new(7, -7).div_num(2), Vec2::new(3, -3));
    assert_eq!(Vec2::new(9, -1).div_num(3), Vec2::new(3, 0));
}

#[test]
fn test_length_and_distance() {
    assert_eq!(Vec2::new(30, 40).length_squared(), 2500);
    assert_eq!(Vec2::new(30, 40).length(), 50);
    // the length is the floor of the real length
    assert_eq!(Vec2::new(1, 1).length(), 1);
    assert_eq!(Vec2::new(0, 0).length(), 0);
    let a = Vec2::new(10, 20);
    let b = Vec2::new(40, 60);
    assert_eq!(a.distance_squared(&b), 2500);
    assert_eq!(a.distance(&b), 50);
    assert_eq!(a.distance(&a), 0);
}

#[test]
fn test_clamp_length() {
    // longer than max: scaled down onto the max circle
    assert_eq!(Vec2::new(30, 40).clamp_length(0, 10), Vec2::new(6, 8));
    // shorter than min: scaled up onto the min circle
    assert_eq!(Vec2::new(3, 4).clamp_length(10, 100), Vec2::new(6, 8));
    // within range: unchanged
    assert_eq!(Vec2::new(3, 4).clamp_length(0, 10), Vec2::new(3, 4));
    assert_eq!(Vec2::new(3, 4).clamp_length(5, 5), Vec2::new(3, 4));
    // a zero vector has no direction and is left alone
    assert_eq!(Vec2::zero().clamp_length(10, 100), Vec2::zero());
    // exactly on the boundary stays
    assert_eq!(Vec2::new(30, 40).clamp_length(0, 50), Vec2::new(30, 40));
    assert_eq!(Vec2::new(30, 40).clamp_length(50, 100), Vec2::new(30, 40));
}
