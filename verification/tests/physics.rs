use ferrum::physics::{
    GRAVITY, JUMP_VELOCITY, PLAYER_HEIGHT_TENTHS, PLAYER_WIDTH_TENTHS, TERMINAL_VELOCITY_TENTHS,
};

#[test]
fn test_gravity_constant() {
    // Minecraft gravity is -32 m/s² (or blocks/s²)
    assert_eq!(GRAVITY as f32, -32.0);
}

#[test]
fn constants_of_the_player() {
    assert_eq!(JUMP_VELOCITY as f32, 10.0);
    assert_eq!(TERMINAL_VELOCITY_TENTHS as f32 / 10.0, -78.4);
    assert_eq!(PLAYER_WIDTH_TENTHS as f32 / 10.0, 0.6);
    assert_eq!(PLAYER_HEIGHT_TENTHS as f32 / 10.0, 1.8);
}
