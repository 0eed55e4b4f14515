use catris::game_logic::blocks::BlockType;
use catris::game_logic::blocks::FallingBlock;
use catris::game_logic::blocks::Shape;
use catris::game_logic::BlockRelativeCoords;
use std::collections::HashSet;

#[test]
fn test_rotation_center_of_cursed_blocks() {
    for _ in 0..50 {
        // Random-generate a long cursed I-block. Repeat a few times, in case only some of them are good.
        let block = loop {
            let block = FallingBlock::new(BlockType::Cursed(Shape::I));
            if block.get_relative_coords().iter().all(|(_, y)| *y == 0) {
                break block;
            }
        };

        // It must be centered around (0,0).
        // Otherwise it wouldn't rotate around its center.
        assert_eq!(
            block
                .get_relative_coords()
                .iter()
                .copied()
                .collect::<HashSet<BlockRelativeCoords>>(),
            HashSet::from([(-2, 0), (-1, 0), (0, 0), (1, 0), (2, 0)])
        );
    }
}

#[test]
fn test_block_types_from_score() {
    for _ in 0..200 {
        // no cursed blocks below 500 points and no drills before any points
        let t = BlockType::from_score(0);
        assert!(matches!(t, BlockType::Normal(_) | BlockType::Bomb), "{:?}", t);
        let t = BlockType::from_score(400);
        assert!(!matches!(t, BlockType::Cursed(_)), "{:?}", t);
    }
    // with many points, every kind appears
    let mut kinds = HashSet::new();
    for _ in 0..5000 {
        let kind = match BlockType::from_score(100000) {
            BlockType::Normal(_) => 0,
            BlockType::Cursed(_) => 1,
            BlockType::Drill => 2,
            BlockType::Bomb => 3,
        };
        kinds.insert(kind);
    }
    assert_eq!(kinds.len(), 4);
}

#[test]
fn test_block_type_of_index() {
    assert_eq!(BlockType::block_type_of(0, Shape::T), BlockType::Normal(Shape::T));
    assert_eq!(BlockType::block_type_of(1, Shape::S), BlockType::Cursed(Shape::S));
    assert_eq!(BlockType::block_type_of(2, Shape::L), BlockType::Drill);
    assert_eq!(BlockType::block_type_of(3, Shape::L), BlockType::Bomb);
}
