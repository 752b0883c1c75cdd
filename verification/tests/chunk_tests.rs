use voxelith::chunk::{Chunk, ChunkPos, LocalPos, CHUNK_VOLUME};
use voxelith::voxel::Voxel;

#[test]
fn test_chunk_size() {
    assert_eq!(CHUNK_VOLUME * std::mem::size_of::<Voxel>(), 262144);
}

#[test]
fn test_local_pos_index_roundtrip() {
    for i in 0..CHUNK_VOLUME {
        let pos = LocalPos::from_index(i);
        assert_eq!(pos.to_index(), i);
    }
}

#[test]
fn test_chunk_solid_count() {
    let mut chunk = Chunk::new();
    assert_eq!(chunk.solid_count(), 0);
    assert!(chunk.is_empty());

    chunk.set(0, 0, 0, Voxel::from_rgb(255, 0, 0));
    assert_eq!(chunk.solid_count(), 1);

    chunk.set(0, 0, 0, Voxel::air());
    assert_eq!(chunk.solid_count(), 0);
}

#[test]
fn test_chunk_pos_from_world() {
    assert_eq!(ChunkPos::from_world_pos(0, 0, 0), ChunkPos::new(0, 0, 0));
    assert_eq!(ChunkPos::from_world_pos(31, 31, 31), ChunkPos::new(0, 0, 0));
    assert_eq!(ChunkPos::from_world_pos(32, 0, 0), ChunkPos::new(1, 0, 0));
    assert_eq!(ChunkPos::from_world_pos(-1, 0, 0), ChunkPos::new(-1, 0, 0));
    assert_eq!(ChunkPos::from_world_pos(-32, 0, 0), ChunkPos::new(-1, 0, 0));
    assert_eq!(ChunkPos::from_world_pos(-33, 0, 0), ChunkPos::new(-2, 0, 0));
}

#[test]
fn test_voxel_size() {
    assert_eq!(std::mem::size_of::<Voxel>(), 8);
}

#[test]
fn test_air_detection() {
    assert!(Voxel::air().is_air());
    assert!(!Voxel::air().is_solid());

    let solid = Voxel::from_rgb(255, 0, 0);
    assert!(!solid.is_air());
    assert!(solid.is_solid());
}
