use voxelith::chunk::{Chunk, CHUNK_SIZE, CHUNK_VOLUME};
use voxelith::project::{rle_decode_chunk, rle_encode_chunk, Project};
use voxelith::vox::{export_vox, import_vox};
use voxelith::voxel::Voxel;
use voxelith::world::World;

#[test]
fn test_project_roundtrip() {
    let mut world = World::new();
    world.set_voxel(0, 0, 0, Voxel::from_rgb(255, 0, 0));
    world.set_voxel(1, 1, 1, Voxel::from_rgb(0, 255, 0));
    world.set_voxel(31, 31, 31, Voxel::from_rgb(0, 0, 255));

    let project = Project::from_world(&world);

    let buffer = project.save().unwrap();

    let loaded = Project::load(buffer.as_slice()).unwrap();
    let loaded_world = loaded.to_world();

    assert!(loaded_world.get_voxel(0, 0, 0).is_solid());
    assert_eq!(loaded_world.get_voxel(0, 0, 0).r, 255);
    assert!(loaded_world.get_voxel(1, 1, 1).is_solid());
    assert_eq!(loaded_world.get_voxel(1, 1, 1).g, 255);
}

#[test]
fn test_rle_encoding() {
    let mut chunk = Chunk::new();
    for x in 0..CHUNK_SIZE {
        for y in 0..CHUNK_SIZE {
            for z in 0..CHUNK_SIZE {
                chunk.set(x, y, z, Voxel::from_rgb(128, 64, 32));
            }
        }
    }

    let encoded = rle_encode_chunk(&chunk);
    assert!(encoded.len() < CHUNK_VOLUME * 8);

    let decoded = rle_decode_chunk(&encoded).unwrap();
    assert_eq!(decoded.get(0, 0, 0).r, 128);
    assert_eq!(decoded.get(15, 15, 15).g, 64);
}

#[test]
fn test_roundtrip() {
    let mut world = World::new();
    world.set_voxel(0, 0, 0, Voxel::from_rgb(255, 0, 0));
    world.set_voxel(1, 0, 0, Voxel::from_rgb(0, 255, 0));
    world.set_voxel(0, 1, 0, Voxel::from_rgb(0, 0, 255));

    let buffer = export_vox(&world).unwrap();

    let imported = import_vox(buffer.as_slice()).unwrap();

    assert!(imported.get_voxel(0, 0, 0).is_solid());
    assert!(imported.get_voxel(1, 0, 0).is_solid());
    assert!(imported.get_voxel(0, 1, 0).is_solid());
}
