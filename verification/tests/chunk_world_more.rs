use voxelith::chunk::{Chunk, ChunkPos, LocalPos, CHUNK_SIZE, CHUNK_VOLUME};
use voxelith::voxel::{Material, Voxel};
use voxelith::world::{Paint, World, WorldBounds};

#[test]
fn voxel_constructors_set_every_field() {
    let v = Voxel::new(7, 1, 2, 3);
    assert_eq!((v.material, v.r, v.g, v.b, v.a, v.flags), (7, 1, 2, 3, 255, 0));
    let w = Voxel::from_rgba(9, 8, 7, 6);
    assert_eq!((w.material, w.r, w.g, w.b, w.a), (1, 9, 8, 7, 6));
    assert_eq!(w.color(), [9, 8, 7, 6]);
    assert_eq!(Voxel::default(), Voxel::air());
    assert!(Material::air().is_air());
    assert!(Material(3).is_solid());
    assert!(!Material(0).is_solid());
}

#[test]
fn emissive_flag_touches_bit_zero_only() {
    let mut v = Voxel::from_rgb(1, 2, 3);
    v.flags = 0b1010_1010;
    assert!(!v.is_emissive());
    v.set_emissive(true);
    assert!(v.is_emissive());
    assert_eq!(v.flags, 0b1010_1011);
    v.set_emissive(true);
    assert_eq!(v.flags, 0b1010_1011);
    v.set_emissive(false);
    assert!(!v.is_emissive());
    assert_eq!(v.flags, 0b1010_1010);
    assert_eq!((v.r, v.g, v.b), (1, 2, 3));
}

#[test]
fn set_then_get_reads_the_voxel_back() {
    let mut chunk = Chunk::new();
    let v = Voxel::from_rgba(10, 20, 30, 40);
    for &(x, y, z) in &[(0, 0, 0), (31, 31, 31), (5, 17, 29), (31, 0, 16)] {
        chunk.set(x, y, z, v);
        assert_eq!(chunk.get(x, y, z), v);
    }
    assert_eq!(chunk.get(1, 0, 0), Voxel::air());
    assert_eq!(chunk.solid_count(), 4);
}

#[test]
fn flat_index_has_x_fastest() {
    assert_eq!(LocalPos::new(1, 0, 0).to_index(), 1);
    assert_eq!(LocalPos::new(0, 1, 0).to_index(), 32);
    assert_eq!(LocalPos::new(0, 0, 1).to_index(), 1024);
    assert_eq!(LocalPos::new(3, 4, 5).to_index(), 3 + 4 * 32 + 5 * 1024);
    assert_eq!(LocalPos::from_index(32767), LocalPos::new(31, 31, 31));
    assert_eq!(LocalPos::from_index(1025), LocalPos::new(1, 0, 1));
    let mut chunk = Chunk::new();
    chunk.set(3, 4, 5, Voxel::from_rgb(1, 1, 1));
    assert!(chunk.voxels()[3 + 4 * 32 + 5 * 1024].is_solid());
}

#[test]
fn local_pos_of_negative_coordinates() {
    assert_eq!(LocalPos::from_world_pos(-1, -32, -33), LocalPos::new(31, 0, 31));
    assert_eq!(LocalPos::from_world_pos(32, 63, 64), LocalPos::new(0, 31, 0));
    assert_eq!(
        ChunkPos::from_world_pos(i32::MIN, i32::MAX, -1),
        ChunkPos::new(-67108864, 67108863, -1)
    );
}

#[test]
fn chunk_pos_origin_and_neighbor() {
    assert_eq!(ChunkPos::new(2, -1, 0).world_origin(), (64, -32, 0));
    assert_eq!(ChunkPos::new(2, -1, 0).neighbor(-3, 1, 5), ChunkPos::new(-1, 0, 5));
    assert_eq!(ChunkPos::default(), ChunkPos::zero());
}

#[test]
fn solid_count_follows_every_kind_of_write() {
    let mut chunk = Chunk::new();
    let a = Voxel::from_rgb(1, 1, 1);
    let b = Voxel::from_rgb(2, 2, 2);
    chunk.set(1, 1, 1, a);
    chunk.set(1, 1, 1, b);
    assert_eq!(chunk.solid_count(), 1);
    chunk.set(2, 1, 1, a);
    assert_eq!(chunk.solid_count(), 2);
    chunk.set(3, 1, 1, Voxel::air());
    assert_eq!(chunk.solid_count(), 2);
    chunk.set(1, 1, 1, Voxel::air());
    chunk.set(2, 1, 1, Voxel::air());
    assert_eq!(chunk.solid_count(), 0);
    assert!(chunk.is_empty());
}

#[test]
fn filled_chunk_is_full_or_empty() {
    let full = Chunk::filled(Voxel::from_rgb(9, 9, 9));
    assert!(full.is_full());
    assert!(!full.is_empty());
    assert_eq!(full.solid_count() as usize, CHUNK_VOLUME);
    assert_eq!(full.get(31, 31, 31).r, 9);
    let empty = Chunk::filled(Voxel::air());
    assert!(empty.is_empty());
    assert!(!empty.is_full());
}

#[test]
fn dirty_flag_is_raised_by_writes_and_lowered_on_request() {
    let mut chunk = Chunk::new();
    assert!(chunk.is_dirty());
    chunk.clear_dirty();
    assert!(!chunk.is_dirty());
    chunk.set(0, 0, 0, Voxel::air());
    assert!(chunk.is_dirty());
    chunk.clear_dirty();
    chunk.mark_dirty();
    assert!(chunk.is_dirty());
    let copy = chunk.clone();
    assert!(copy.is_dirty());
    assert_eq!(copy.solid_count(), 0);
}

#[test]
fn get_safe_checks_the_range() {
    let mut chunk = Chunk::new();
    let v = Voxel::from_rgb(4, 5, 6);
    chunk.set(31, 0, 0, v);
    assert_eq!(chunk.get_safe(31, 0, 0), Some(v));
    assert_eq!(chunk.get_safe(0, 0, 0), Some(Voxel::air()));
    assert_eq!(chunk.get_safe(32, 0, 0), None);
    assert_eq!(chunk.get_safe(-1, 0, 0), None);
    assert_eq!(chunk.get_safe(0, 32, 0), None);
    assert_eq!(chunk.get_safe(0, 0, -5), None);
}

#[test]
fn chunk_fill_region_is_clamped() {
    let mut chunk = Chunk::new();
    chunk.clear_dirty();
    let v = Voxel::from_rgb(7, 7, 7);
    chunk.fill_region((30, 30, 30), (40, 40, 40), v);
    assert_eq!(chunk.solid_count(), 8);
    assert_eq!(chunk.get(31, 31, 31), v);
    assert_eq!(chunk.get(29, 30, 30), Voxel::air());
    assert!(chunk.is_dirty());

    let mut other = Chunk::new();
    other.clear_dirty();
    other.fill_region((5, 5, 5), (4, 9, 9), v);
    assert_eq!(other.solid_count(), 0);
    assert!(!other.is_dirty());
    other.fill_region((32, 0, 0), (40, 1, 1), v);
    assert_eq!(other.solid_count(), 0);
    assert!(!other.is_dirty());
    other.fill_region((1, 2, 3), (2, 2, 3), v);
    assert_eq!(other.solid_count(), 2);
    assert_eq!(other.get(2, 2, 3), v);
}

#[test]
fn iter_solid_lists_solid_cells_in_flat_order() {
    let mut chunk = Chunk::new();
    let a = Voxel::from_rgb(1, 0, 0);
    let b = Voxel::from_rgb(2, 0, 0);
    chunk.set(0, 0, 1, b);
    chunk.set(5, 0, 0, a);
    let solid = chunk.iter_solid();
    assert_eq!(solid.len(), 2);
    assert_eq!(solid[0], (LocalPos::new(5, 0, 0), a));
    assert_eq!(solid[1], (LocalPos::new(0, 0, 1), b));
    let all = chunk.iter_voxels();
    assert_eq!(all.len(), CHUNK_VOLUME);
    assert_eq!(all[5], (LocalPos::new(5, 0, 0), a));
    assert_eq!(all[6].1, Voxel::air());
    assert_eq!(CHUNK_SIZE, 32);
}

#[test]
fn world_bounds_contains_and_size() {
    let b = WorldBounds::centered(2);
    assert!(b.contains(ChunkPos::new(2, -2, 0)));
    assert!(!b.contains(ChunkPos::new(3, 0, 0)));
    assert!(!b.contains(ChunkPos::new(0, 0, -3)));
    assert_eq!(b.size(), (5, 5, 5));
    assert_eq!(b.size_voxels(), (160, 160, 160));
    let one = WorldBounds::single_chunk();
    assert_eq!(one.size(), (1, 1, 1));
    assert!(one.contains(ChunkPos::zero()));
    let n = WorldBounds::new(ChunkPos::new(-1, 0, 3), ChunkPos::new(1, 0, 4));
    assert_eq!(n.size(), (3, 1, 2));
    assert_eq!(n.size_voxels(), (96, 32, 64));
}

#[test]
fn reads_do_not_load_chunks() {
    let world = World::new();
    assert!(world.get_voxel(100, -100, 7).is_air());
    assert_eq!(world.chunk_count(), 0);
    assert!(world.get_chunk(ChunkPos::zero()).is_none());
    assert!(!world.has_chunk(ChunkPos::zero()));
    assert!(world.bounds().is_none());
}

#[test]
fn writes_outside_the_bounds_are_dropped() {
    let mut world = World::bounded(WorldBounds::centered(1));
    let v = Voxel::from_rgb(255, 0, 0);
    world.set_voxel(63, 0, -32, v);
    assert_eq!(world.get_voxel(63, 0, -32), v);
    world.set_voxel(64, 0, 0, v);
    assert!(world.get_voxel(64, 0, 0).is_air());
    world.set_voxel(0, -65, 0, v);
    assert!(world.get_voxel(0, -65, 0).is_air());
    assert_eq!(world.chunk_count(), 1);
    assert!(world.has_dirty_chunks());
    assert_eq!(world.bounds().unwrap().max, ChunkPos::new(1, 1, 1));
}

#[test]
fn get_or_create_chunk_hands_out_a_spare_outside_the_bounds() {
    let mut world = World::single_chunk();
    assert_eq!(world.chunk_count(), 1);
    {
        let chunk = world.get_or_create_chunk(ChunkPos::new(5, 5, 5));
        assert!(chunk.is_empty());
        chunk.set(0, 0, 0, Voxel::from_rgb(1, 2, 3));
    }
    assert_eq!(world.chunk_count(), 1);
    assert!(world.get_voxel(160, 160, 160).is_air());
    {
        let chunk = world.get_or_create_chunk(ChunkPos::new(5, 5, 5));
        assert!(chunk.is_empty());
    }
    {
        let chunk = world.get_or_create_chunk(ChunkPos::zero());
        chunk.set(1, 2, 3, Voxel::from_rgb(1, 2, 3));
    }
    assert_eq!(world.get_voxel(1, 2, 3).b, 3);
}

#[test]
fn dirty_chunks_and_clearing() {
    let mut world = World::new();
    assert!(!world.has_dirty_chunks());
    let v = Voxel::from_rgb(1, 1, 1);
    world.set_voxel(0, 0, 0, v);
    world.set_voxel(40, 0, 0, v);
    let mut dirty = world.dirty_chunks();
    dirty.sort_by_key(|p| p.x);
    assert_eq!(dirty, vec![ChunkPos::new(0, 0, 0), ChunkPos::new(1, 0, 0)]);
    world.clear_dirty_flags();
    assert!(!world.has_dirty_chunks());
    assert!(world.dirty_chunks().is_empty());
    assert_eq!(world.get_voxel(40, 0, 0), v);
    world.set_voxel(41, 0, 0, v);
    assert_eq!(world.dirty_chunks(), vec![ChunkPos::new(1, 0, 0)]);
    let mut positions = world.chunk_positions();
    positions.sort_by_key(|p| p.x);
    assert_eq!(positions, vec![ChunkPos::new(0, 0, 0), ChunkPos::new(1, 0, 0)]);
    assert_eq!(world.chunks().len(), 2);
}

#[test]
fn prune_removes_empty_chunks_only() {
    let mut world = World::new();
    let v = Voxel::from_rgb(1, 1, 1);
    world.set_voxel(0, 0, 0, v);
    world.set_voxel(-1, 0, 0, v);
    world.set_voxel(-1, 0, 0, Voxel::air());
    assert_eq!(world.chunk_count(), 2);
    world.prune_empty_chunks();
    assert_eq!(world.chunk_count(), 1);
    assert!(world.has_chunk(ChunkPos::zero()));
    assert_eq!(world.get_voxel(0, 0, 0), v);
    world.clear();
    assert_eq!(world.chunk_count(), 0);
    assert!(world.has_dirty_chunks());
}

#[test]
fn world_fill_region_crosses_chunks() {
    let mut world = World::new();
    let v = Voxel::from_rgb(3, 3, 3);
    world.fill_region((-1, 0, 31), (0, 1, 32), v);
    assert_eq!(world.chunk_count(), 4);
    for x in -1..=0 {
        for y in 0..=1 {
            for z in 31..=32 {
                assert_eq!(world.get_voxel(x, y, z), v);
            }
        }
    }
    assert!(world.get_voxel(1, 0, 31).is_air());
    let mut untouched = World::new();
    untouched.fill_region((1, 0, 0), (0, 5, 5), v);
    assert_eq!(untouched.chunk_count(), 0);
    assert!(!untouched.has_dirty_chunks());
}

#[test]
fn test_ground_and_cube_are_painted() {
    let mut world = World::new();
    world.create_test_ground(4, 3);
    assert_eq!(world.get_voxel(-2, 2, 2), Voxel::from_rgb(76, 153, 0));
    assert_eq!(world.get_voxel(2, 0, -2), Voxel::from_rgb(139, 90, 43));
    assert_eq!(world.get_voxel(0, 1, 0), Voxel::from_rgb(139, 90, 43));
    assert!(world.get_voxel(3, 0, 0).is_air());
    assert!(world.get_voxel(0, 3, 0).is_air());

    let mut cube = World::new();
    cube.create_test_cube((10, 10, 10), 1);
    assert_eq!(cube.get_voxel(10, 10, 10), Voxel::from_rgb(255, 0, 0));
    assert_eq!(cube.get_voxel(11, 10, 10), Voxel::from_rgb(0, 255, 0));
    assert_eq!(cube.get_voxel(9, 9, 10), Voxel::from_rgb(0, 0, 255));
    assert_eq!(cube.get_voxel(11, 11, 11), Voxel::from_rgb(255, 255, 0));
    assert_eq!(cube.get_voxel(9, 9, 9), Voxel::from_rgb(255, 255, 0));
    assert!(cube.get_voxel(12, 10, 10).is_air());

    assert_eq!(Paint::Solid(Voxel::air()).voxel_at(1, 2, 3), Voxel::air());
    assert_eq!(Paint::Ground { top: 2 }.voxel_at(0, 2, 0).g, 153);
    assert_eq!(Paint::Cube { center: (0, 0, 0) }.voxel_at(-2, -2, 0), Voxel::from_rgb(255, 0, 255));
    assert_eq!(Paint::Cube { center: (0, 0, 0) }.voxel_at(5, 0, 0), Voxel::from_rgb(0, 255, 255));

    let mut edge = World::new();
    edge.create_test_cube((i32::MAX, 0, 0), 1);
    assert!(edge.get_voxel(i32::MAX, 1, -1).is_solid());
    assert!(edge.get_voxel(i32::MAX - 1, 0, 0).is_solid());
}

#[test]
fn world_from_a_list_of_voxels() {
    let a = Voxel::from_rgb(1, 0, 0);
    let b = Voxel::from_rgb(2, 0, 0);
    let world = World::from_voxels(&vec![((0, 0, 0), a), ((-33, 5, 64), b), ((0, 0, 0), b)]);
    assert_eq!(world.get_voxel(0, 0, 0), b);
    assert_eq!(world.get_voxel(-33, 5, 64), b);
    assert_eq!(world.chunk_count(), 2);
    assert!(world.bounds().is_none());
    assert_eq!(World::from_voxels(&Vec::new()).chunk_count(), 0);
    assert_eq!(World::default().chunk_count(), 0);
    assert_eq!(ChunkPos::from((1, -2, 3)), ChunkPos::new(1, -2, 3));
    assert_eq!(ChunkPos::from([4, 5, -6]), ChunkPos::new(4, 5, -6));
}

#[test]
fn chunk_indexing_reads_cells() {
    let mut chunk = Chunk::new();
    let v = Voxel::from_rgb(8, 9, 10);
    chunk.set(3, 4, 5, v);
    assert_eq!(chunk[LocalPos::new(3, 4, 5)], v);
    assert_eq!(chunk[(3, 4, 5)], v);
    assert_eq!(chunk[(4, 3, 5)], Voxel::air());
    assert_eq!(chunk[LocalPos::from_index(0)], Voxel::air());
}

#[test]
fn writing_at_a_local_position_keeps_the_counter() {
    let mut chunk = Chunk::new();
    chunk.clear_dirty();
    let v = Voxel::from_rgb(8, 9, 10);
    chunk.set_at(LocalPos::new(3, 4, 5), v);
    assert_eq!(chunk.get(3, 4, 5), v);
    assert_eq!(chunk[LocalPos::new(3, 4, 5)], v);
    assert_eq!(chunk.solid_count(), 1);
    assert!(chunk.is_dirty());
    chunk.set_at(LocalPos::new(3, 4, 5), Voxel::from_rgb(1, 1, 1));
    assert_eq!(chunk.solid_count(), 1);
    chunk.set_at(LocalPos::new(31, 31, 31), v);
    assert_eq!(chunk.solid_count(), 2);
    chunk.set_at(LocalPos::new(3, 4, 5), Voxel::air());
    assert_eq!(chunk.solid_count(), 1);
    assert_eq!(chunk.get(3, 4, 5), Voxel::air());
}
