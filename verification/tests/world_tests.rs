use voxelith::voxel::Voxel;
use voxelith::world::{World, WorldBounds};

#[test]
fn test_world_get_set() {
    let mut world = World::new();

    let voxel = Voxel::from_rgb(255, 0, 0);
    world.set_voxel(10, 20, 30, voxel);
    assert_eq!(world.get_voxel(10, 20, 30), voxel);

    assert!(world.get_voxel(0, 0, 0).is_air());
}

#[test]
fn test_world_cross_chunk() {
    let mut world = World::new();

    world.set_voxel(-1, 0, 0, Voxel::from_rgb(255, 0, 0));
    world.set_voxel(0, 0, 0, Voxel::from_rgb(0, 255, 0));
    world.set_voxel(32, 0, 0, Voxel::from_rgb(0, 0, 255));

    assert_eq!(world.chunk_count(), 3);
}

#[test]
fn test_bounded_world() {
    let bounds = WorldBounds::centered(1);
    let mut world = World::bounded(bounds);

    world.set_voxel(0, 0, 0, Voxel::from_rgb(255, 0, 0));
    assert!(!world.get_voxel(0, 0, 0).is_air());

    assert!(world.get_voxel(1000, 1000, 1000).is_air());
}
