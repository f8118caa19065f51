use ferrum::block::BlockId;

#[test]
fn test_block_id_creation() {
    let air = BlockId::new(0);
    let stone = BlockId::new(1);

    assert_eq!(air.as_u16(), 0);
    assert_eq!(stone.as_u16(), 1);
    assert_ne!(air, stone);
}

#[test]
fn test_block_id_equality() {
    let stone1 = BlockId::new(1);
    let stone2 = BlockId::new(1);
    let dirt = BlockId::new(3);

    assert_eq!(stone1, stone2);
    assert_ne!(stone1, dirt);
}
