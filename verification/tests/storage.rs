use voxel_core::block::Block;
use voxel_core::chunk::Chunk;
use voxel_core::col::Col;
use voxel_core::pos::{CHUNK_S1, MAX_HEIGHT};

#[test]
fn fresh_chunk_is_all_air() {
    let c = Chunk::new();
    for x in 0..CHUNK_S1 {
        for y in 0..CHUNK_S1 {
            for z in 0..CHUNK_S1 {
                assert_eq!(c.get((x, y, z)), Block::Air);
            }
        }
    }
}

#[test]
fn filled_chunk_holds_the_block_everywhere() {
    let c = Chunk::filled(Block::Stone);
    for x in 0..CHUNK_S1 {
        for z in 0..CHUNK_S1 {
            assert_eq!(c.get((x, 0, z)), Block::Stone);
            assert_eq!(c.get((x, 31, z)), Block::Stone);
        }
    }
}

#[test]
fn set_if_empty_writes_only_air_cells() {
    let mut c = Chunk::new();
    assert!(c.set_if_empty((1, 2, 3), Block::Stone));
    assert_eq!(c.get((1, 2, 3)), Block::Stone);
    // a second write on the now-solid cell reports false and changes nothing
    assert!(!c.set_if_empty((1, 2, 3), Block::Dirt));
    assert_eq!(c.get((1, 2, 3)), Block::Stone);
}

#[test]
fn empty_column_tops_out_at_bedrock() {
    let col = Col::new();
    assert_eq!(col.top((0, 0)), (Block::Bedrock, 0));
    assert_eq!(col.top((31, 31)), (Block::Bedrock, 0));
}

#[test]
fn set_then_get_round_trips_and_allocates() {
    let mut col = Col::new();
    assert_eq!(col.get((5, 100, 7)), Block::Air);
    col.set((5, 100, 7), Block::GrassBlock);
    assert_eq!(col.get((5, 100, 7)), Block::GrassBlock);
    // neighbors of the written cell stay air
    assert_eq!(col.get((5, 101, 7)), Block::Air);
    assert_eq!(col.get((6, 100, 7)), Block::Air);
    // the written cell is now the top of its vertical run
    assert_eq!(col.top((5, 7)), (Block::GrassBlock, 100));
}

#[test]
fn top_finds_the_highest_non_air_cell() {
    let mut col = Col::new();
    col.set((3, 10, 4), Block::Stone);
    col.set((3, 40, 4), Block::Dirt);
    assert_eq!(col.top((3, 4)), (Block::Dirt, 40));
    assert_eq!(col.top((4, 4)), (Block::Bedrock, 0));
}

#[test]
fn fill_up_fills_an_empty_column_entirely() {
    let mut col = Col::new();
    col.fill_up(Block::Stone);
    for y in [0, 1, 100, (MAX_HEIGHT - 1) as i32] {
        assert_eq!(col.get((0, y, 0)), Block::Stone);
        assert_eq!(col.get((31, y, 31)), Block::Stone);
    }
}

#[test]
fn fill_up_stops_under_obstructions_and_is_idempotent() {
    let mut col = Col::new();
    // an obstruction inside the first chunk slot
    col.set((2, 5, 2), Block::SequoiaLog);
    col.fill_up(Block::Stone);
    // below the obstruction: filled
    for y in 0..5 {
        assert_eq!(col.get((2, y, 2)), Block::Stone);
    }
    // the obstruction itself is never overwritten
    assert_eq!(col.get((2, 5, 2)), Block::SequoiaLog);
    // above the obstruction in the same run: untouched
    assert_eq!(col.get((2, 6, 2)), Block::Air);
    // an unobstructed run of the same chunk fills to the slot top
    for y in 0..32 {
        assert_eq!(col.get((0, y, 0)), Block::Stone);
    }
    // a second fill changes no non-air cell
    col.fill_up(Block::Dirt);
    assert_eq!(col.get((2, 4, 2)), Block::Stone);
    assert_eq!(col.get((2, 5, 2)), Block::SequoiaLog);
    assert_eq!(col.get((0, 31, 0)), Block::Stone);
}
