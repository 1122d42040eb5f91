use voxel_core::block::{Block, Face, Tint};
use voxel_core::mesh::{create_mesh, TextureMap};
use voxel_core::pos::{BlockPos, ChunkPos, ColPos, Realm, CHUNK_S1};
use voxel_core::world::Blocks;

fn chunk_origin() -> ChunkPos {
    ChunkPos { realm: Realm::Overworld, x: 0, y: 0, z: 0 }
}

fn fill_solid_chunk(world: &mut Blocks, cx: i32, cz: i32) {
    for dx in 0..CHUNK_S1 as i32 {
        for y in 0..CHUNK_S1 as i32 {
            for dz in 0..CHUNK_S1 as i32 {
                world.set_block(
                    BlockPos {
                        realm: Realm::Overworld,
                        x: cx * 32 + dx,
                        y,
                        z: cz * 32 + dz,
                    },
                    Block::Stone,
                );
            }
        }
    }
}

#[test]
fn meshing_an_air_chunk_yields_zero_quads() {
    let world = Blocks::new();
    let tm = TextureMap::new();
    let md = create_mesh(&world, chunk_origin(), &tm, 1);
    assert_eq!(md.quads.len(), 0);
    assert_eq!(md.positions.len(), 0);
    assert_eq!(md.indices.len(), 0);
}

#[test]
fn meshing_a_solid_isolated_chunk_yields_six_full_quads() {
    let mut world = Blocks::new();
    fill_solid_chunk(&mut world, 0, 0);
    let tm = TextureMap::new();
    let md = create_mesh(&world, chunk_origin(), &tm, 1);
    // greedy merging collapses each outer face into one full-size quad
    assert_eq!(md.quads.len(), 6);
    for q in md.quads.iter() {
        assert_eq!(q.w, 32);
        assert_eq!(q.h, 32);
        assert_eq!(q.block, Block::Stone);
    }
    let mut faces: Vec<Face> = md.quads.iter().map(|q| q.face).collect();
    faces.dedup();
    assert_eq!(faces.len(), 6);
    assert_eq!(md.positions.len(), 24);
    assert_eq!(md.indices.len(), 36);
}

#[test]
fn shared_face_between_solid_chunks_is_occluded() {
    let mut world = Blocks::new();
    fill_solid_chunk(&mut world, 0, 0);
    fill_solid_chunk(&mut world, 1, 0);
    let tm = TextureMap::new();
    let md = create_mesh(&world, chunk_origin(), &tm, 1);
    // the +x face is covered by the neighbor chunk: five faces remain
    assert_eq!(md.quads.len(), 5);
    assert!(md.quads.iter().all(|q| q.face != Face::Right));
    // and the neighbor chunk in turn shows no -x face
    let neighbor = ChunkPos { realm: Realm::Overworld, x: 1, y: 0, z: 0 };
    let md2 = create_mesh(&world, neighbor, &tm, 1);
    assert_eq!(md2.quads.len(), 5);
    assert!(md2.quads.iter().all(|q| q.face != Face::Left));
}

#[test]
fn texture_layers_and_tints_follow_the_rules() {
    let mut world = Blocks::new();
    world.set_block(
        BlockPos { realm: Realm::Overworld, x: 3, y: 4, z: 5 },
        Block::GrassBlock,
    );
    let mut tm = TextureMap::new();
    tm.add(Block::GrassBlock, Face::Up, 7);
    assert_eq!(tm.get(Block::GrassBlock, Face::Up), Some(7));
    assert_eq!(tm.get(Block::GrassBlock, Face::Down), None);
    let md = create_mesh(&world, chunk_origin(), &tm, 1);
    // one isolated cube: six unit quads
    assert_eq!(md.quads.len(), 6);
    for (k, q) in md.quads.iter().enumerate() {
        let expected_layer = if q.face == Face::Up { 7 } else { 0 };
        for j in 0..4 {
            assert_eq!(md.layers[4 * k + j], expected_layer);
            let expected_tint = if q.face == Face::Up { Tint::GrassTop } else { Tint::White };
            assert_eq!(md.tints[4 * k + j], expected_tint);
        }
    }
    // five of the six faces had no texture mapping
    assert_eq!(md.unmapped, 5);
}

#[test]
fn reduced_detail_scales_geometry_and_skips_margins() {
    let mut world = Blocks::new();
    fill_solid_chunk(&mut world, 0, 0);
    // neighbor data exists but must be ignored at reduced detail
    fill_solid_chunk(&mut world, 1, 0);
    let tm = TextureMap::new();
    let md = create_mesh(&world, chunk_origin(), &tm, 4);
    // all six faces visible (margins are air at reduced detail), each 8x8
    assert_eq!(md.quads.len(), 6);
    for q in md.quads.iter() {
        assert_eq!(q.w, 8);
        assert_eq!(q.h, 8);
    }
    // positions are scaled back up by the stride
    assert!(md.positions.iter().all(|p| {
        0 <= p.0 && p.0 <= 32 && 0 <= p.1 && p.1 <= 32 && 0 <= p.2 && p.2 <= 32
    }));
}

#[test]
fn index_buffer_walks_quads_in_two_triangles() {
    let mut world = Blocks::new();
    world.set_block(
        BlockPos { realm: Realm::Overworld, x: 0, y: 0, z: 0 },
        Block::Dirt,
    );
    let tm = TextureMap::new();
    let md = create_mesh(&world, chunk_origin(), &tm, 1);
    assert_eq!(md.quads.len(), 6);
    for k in 0..md.quads.len() {
        let i = md.indices[6 * k..6 * k + 6].to_vec();
        assert_eq!(i, vec![4 * k, 4 * k + 1, 4 * k + 2, 4 * k + 2, 4 * k + 1, 4 * k + 3]);
    }
}

#[test]
fn world_reads_fall_back_to_air_and_track_columns() {
    let mut world = Blocks::new();
    let p = BlockPos { realm: Realm::Overworld, x: -5, y: 10, z: 70 };
    assert_eq!(world.get_block(p), Block::Air);
    world.set_block(p, Block::SequoiaLog);
    assert_eq!(world.get_block(p), Block::SequoiaLog);
    assert!(world.contains_col(ColPos { realm: Realm::Overworld, x: -1, z: 2 }));
    let (top, h) = world.top_block(voxel_core::pos::BlockPos2d {
        realm: Realm::Overworld,
        x: -5,
        z: 70,
    });
    assert_eq!((top, h), (Block::SequoiaLog, 10));
    world.remove_col(ColPos { realm: Realm::Overworld, x: -1, z: 2 });
    assert_eq!(world.get_block(p), Block::Air);
    // removing a never-loaded column is a no-op
    assert!(world.remove_col(ColPos { realm: Realm::Overworld, x: 9, z: 9 }).is_none());
}

#[test]
fn attribute_resolution_recovers_block_and_face() {
    let mut world = Blocks::new();
    fill_solid_chunk(&mut world, 0, 0);
    let tm = TextureMap::new();
    let md = create_mesh(&world, chunk_origin(), &tm, 1);
    let buffer = voxel_core::mesh::fill_padded_chunk(&world, chunk_origin(), 1);
    for q in md.quads.iter() {
        let (block, face) = voxel_core::mesh::chunked_face_pos(&buffer, CHUNK_S1, *q);
        assert_eq!(block, q.block);
        assert_eq!(face, q.face);
    }
}
