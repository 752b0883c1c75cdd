use voxelith::commands::{Command, CommandHistory};
use voxelith::tools::{flood_fill, BrushTool};
use voxelith::voxel::Voxel;
use voxelith::world::World;

#[test]
fn test_undo_redo() {
    let mut world = World::new();
    let mut history = CommandHistory::new(100);

    let cmd = Command::set_voxel(&world, (0, 0, 0), Voxel::from_rgb(255, 0, 0));
    history.execute(cmd, &mut world);

    assert!(!world.get_voxel(0, 0, 0).is_air());

    history.undo(&mut world);
    assert!(world.get_voxel(0, 0, 0).is_air());

    history.redo(&mut world);
    assert!(!world.get_voxel(0, 0, 0).is_air());
}

#[test]
fn test_noop_command() {
    let world = World::new();
    let cmd = Command::set_voxel(&world, (0, 0, 0), Voxel::air());
    assert!(cmd.is_noop());
}

#[test]
fn test_brush_positions() {
    let positions = BrushTool::get_brush_positions((0, 0, 0), 1);
    assert_eq!(positions.len(), 1);
    assert!(positions.contains(&(0, 0, 0)));

    let positions = BrushTool::get_brush_positions((0, 0, 0), 2);
    assert!(positions.len() > 1);
}

#[test]
fn test_flood_fill() {
    let mut world = World::new();
    let mut history = CommandHistory::new(100);

    for x in 0..3 {
        for z in 0..3 {
            world.set_voxel(x, 0, z, Voxel::from_rgb(100, 100, 100));
        }
    }
    world.clear_dirty_flags();

    let count = flood_fill(
        &mut world,
        &mut history,
        (1, 0, 1),
        Voxel::from_rgb(255, 0, 0),
        1000,
    );

    assert_eq!(count, 9);
    assert_eq!(world.get_voxel(0, 0, 0).r, 255);
}
