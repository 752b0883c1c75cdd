use voxelith::commands::{Command, CommandHistory, VoxelChange};
use voxelith::editor::Editor;
use voxelith::tools::{eyedrop, flood_fill, BrushTool, EditorTool, RaycastHit, Tool, ToolContext};
use voxelith::voxel::Voxel;
use voxelith::world::{World, WorldBounds};

fn hit_at(voxel_pos: (i32, i32, i32), adjacent_pos: (i32, i32, i32)) -> RaycastHit {
    RaycastHit { voxel_pos, adjacent_pos, normal: (0, 1, 0) }
}

#[test]
fn undo_restores_the_voxel_that_was_there() {
    let mut world = World::new();
    let mut history = CommandHistory::new(10);
    let first = Voxel::from_rgb(1, 2, 3);
    let second = Voxel::from_rgba(4, 5, 6, 7);
    world.set_voxel(-5, 8, 40, first);
    let cmd = Command::set_voxel(&world, (-5, 8, 40), second);
    history.execute(cmd, &mut world);
    assert_eq!(world.get_voxel(-5, 8, 40), second);
    assert!(history.can_undo());
    assert!(!history.can_redo());
    assert!(history.undo(&mut world));
    assert_eq!(world.get_voxel(-5, 8, 40), first);
    assert!(history.can_redo());
    assert_eq!(history.undo_count(), 0);
    assert_eq!(history.redo_count(), 1);
    assert!(history.redo(&mut world));
    assert_eq!(world.get_voxel(-5, 8, 40), second);
    assert_eq!(history.undo_count(), 1);
    assert_eq!(history.redo_count(), 0);
}

#[test]
fn noop_commands_are_not_recorded() {
    let mut world = World::new();
    let mut history = CommandHistory::new(10);
    let v = Voxel::from_rgb(1, 2, 3);
    world.set_voxel(0, 0, 0, v);
    world.clear_dirty_flags();
    let cmd = Command::set_voxel(&world, (0, 0, 0), v);
    assert!(cmd.is_noop());
    history.execute(cmd, &mut world);
    assert_eq!(history.undo_count(), 0);
    assert!(!world.has_dirty_chunks());
    history.execute(Command::set_voxels(Vec::new()), &mut world);
    assert_eq!(history.undo_count(), 0);
    let same = VoxelChange { pos: (1, 1, 1), old_voxel: v, new_voxel: v };
    assert!(Command::set_voxels(vec![same, same]).is_noop());
    let differs = VoxelChange { pos: (1, 1, 1), old_voxel: v, new_voxel: Voxel::air() };
    assert!(!Command::set_voxels(vec![same, differs]).is_noop());
    assert!(Command::fill_region(&world, (5, 5, 5), (6, 6, 6), Voxel::air()).is_noop());
    assert!(!Command::fill_region(&world, (0, 0, 0), (1, 0, 0), Voxel::air()).is_noop());
}

#[test]
fn empty_stacks_report_false() {
    let mut world = World::new();
    let mut history = CommandHistory::new(10);
    assert!(!history.undo(&mut world));
    assert!(!history.redo(&mut world));
    assert!(!history.can_undo());
    assert_eq!(world.chunk_count(), 0);
}

#[test]
fn new_commands_clear_the_redo_stack() {
    let mut world = World::new();
    let mut history = CommandHistory::new(10);
    let a = Command::set_voxel(&world, (0, 0, 0), Voxel::from_rgb(1, 1, 1));
    history.execute(a, &mut world);
    history.undo(&mut world);
    assert_eq!(history.redo_count(), 1);
    let b = Command::set_voxel(&world, (1, 0, 0), Voxel::from_rgb(2, 2, 2));
    history.execute_merge(b, &mut world, 500);
    assert_eq!(history.redo_count(), 0);
    assert_eq!(history.undo_count(), 1);
    assert!(!history.redo(&mut world));
    history.clear();
    assert_eq!(history.undo_count(), 0);
}

#[test]
fn history_keeps_the_newest_commands() {
    let mut world = World::new();
    let mut history = CommandHistory::new(2);
    for x in 0..5 {
        let cmd = Command::set_voxel(&world, (x, 0, 0), Voxel::from_rgb(1, 1, 1));
        history.execute(cmd, &mut world);
    }
    assert_eq!(history.undo_count(), 2);
    assert!(history.undo(&mut world));
    assert!(history.undo(&mut world));
    assert!(!history.undo(&mut world));
    assert!(world.get_voxel(4, 0, 0).is_air());
    assert!(world.get_voxel(3, 0, 0).is_air());
    assert!(world.get_voxel(2, 0, 0).is_solid());

    let mut none = CommandHistory::new(0);
    let cmd = Command::set_voxel(&world, (9, 0, 0), Voxel::from_rgb(1, 1, 1));
    none.execute(cmd, &mut world);
    assert!(world.get_voxel(9, 0, 0).is_solid());
    assert_eq!(none.undo_count(), 0);
}

#[test]
fn fill_region_command_records_and_restores() {
    let mut world = World::new();
    let old = Voxel::from_rgb(9, 9, 9);
    world.set_voxel(1, 0, 0, old);
    let cmd = Command::fill_region(&world, (0, 0, 0), (2, 1, 0), Voxel::from_rgb(5, 5, 5));
    match &cmd {
        Command::FillRegion { old_voxels, .. } => {
            assert_eq!(old_voxels.len(), 6);
            assert_eq!(old_voxels[0], ((0, 0, 0), Voxel::air()));
            assert_eq!(old_voxels[1], ((1, 0, 0), old));
            assert_eq!(old_voxels[3], ((0, 1, 0), Voxel::air()));
        }
        _ => panic!("a fill command"),
    }
    let copy = cmd.clone();
    cmd.execute(&mut world);
    assert_eq!(world.get_voxel(2, 1, 0).r, 5);
    assert_eq!(world.get_voxel(1, 0, 0).r, 5);
    copy.undo(&mut world);
    assert_eq!(world.get_voxel(1, 0, 0), old);
    assert!(world.get_voxel(2, 1, 0).is_air());
}

#[test]
fn batched_command_applies_in_order() {
    let mut world = World::new();
    let a = Voxel::from_rgb(1, 0, 0);
    let b = Voxel::from_rgb(2, 0, 0);
    let changes = vec![
        VoxelChange { pos: (0, 0, 0), old_voxel: Voxel::air(), new_voxel: a },
        VoxelChange { pos: (0, 0, 0), old_voxel: a, new_voxel: b },
        VoxelChange { pos: (1, 0, 0), old_voxel: Voxel::air(), new_voxel: a },
    ];
    let cmd = Command::set_voxels(changes);
    cmd.execute(&mut world);
    assert_eq!(world.get_voxel(0, 0, 0), b);
    assert_eq!(world.get_voxel(1, 0, 0), a);
    cmd.undo(&mut world);
    assert_eq!(world.get_voxel(0, 0, 0), a);
    assert!(world.get_voxel(1, 0, 0).is_air());
}

#[test]
fn brush_positions_are_a_sphere_in_walk_order() {
    assert_eq!(BrushTool::get_brush_positions((3, 4, 5), 0), vec![(3, 4, 5)]);
    let two = BrushTool::get_brush_positions((0, 0, 0), 2);
    assert_eq!(
        two,
        vec![
            (0, -1, -1),
            (-1, 0, -1),
            (0, 0, -1),
            (1, 0, -1),
            (0, 1, -1),
            (-1, -1, 0),
            (0, -1, 0),
            (1, -1, 0),
            (-1, 0, 0),
            (0, 0, 0),
            (1, 0, 0),
            (-1, 1, 0),
            (0, 1, 0),
            (1, 1, 0),
            (0, -1, 1),
            (-1, 0, 1),
            (0, 0, 1),
            (1, 0, 1),
            (0, 1, 1),
        ]
    );
    let three = BrushTool::get_brush_positions((10, 10, 10), 3);
    assert_eq!(three.len(), 81);
    assert!(three.contains(&(12, 10, 10)));
    assert!(three.contains(&(12, 11, 11)));
    assert!(!three.contains(&(12, 12, 10)));
    assert!(!three.contains(&(13, 10, 10)));
    let edge = BrushTool::get_brush_positions((i32::MAX, 0, 0), 2);
    assert_eq!(edge.len(), 14);
    assert!(!edge.iter().any(|p| p.0 < i32::MAX - 1));
}

#[test]
fn place_brush_works_on_the_empty_side() {
    let mut world = World::new();
    let mut history = CommandHistory::new(10);
    let color = Voxel::from_rgb(200, 100, 50);
    world.set_voxel(0, 0, 0, Voxel::from_rgb(1, 1, 1));
    let hit = hit_at((0, 0, 0), (0, 1, 0));
    {
        let mut ctx = ToolContext {
            world: &mut world,
            history: &mut history,
            brush_color: color,
            brush_size: 1,
        };
        BrushTool::new(Tool::Place).apply(&mut ctx, &hit);
    }
    assert_eq!(world.get_voxel(0, 1, 0), color);
    assert_eq!(world.get_voxel(0, 0, 0).r, 1);
    assert_eq!(history.undo_count(), 1);
    {
        let mut ctx = ToolContext {
            world: &mut world,
            history: &mut history,
            brush_color: color,
            brush_size: 1,
        };
        BrushTool::new(Tool::Place).apply(&mut ctx, &hit);
    }
    assert_eq!(history.undo_count(), 1);
    history.undo(&mut world);
    assert!(world.get_voxel(0, 1, 0).is_air());
}

#[test]
fn remove_and_paint_skip_air() {
    let mut world = World::new();
    let mut history = CommandHistory::new(10);
    let color = Voxel::from_rgb(200, 100, 50);
    world.set_voxel(0, 0, 0, Voxel::from_rgb(1, 1, 1));
    world.set_voxel(1, 0, 0, color);
    let hit = hit_at((0, 0, 0), (0, 1, 0));
    {
        let mut ctx = ToolContext {
            world: &mut world,
            history: &mut history,
            brush_color: color,
            brush_size: 2,
        };
        BrushTool::new(Tool::Paint).apply(&mut ctx, &hit);
    }
    assert_eq!(world.get_voxel(0, 0, 0), color);
    assert!(world.get_voxel(0, 1, 0).is_air());
    assert_eq!(history.undo_count(), 1);
    {
        let mut ctx = ToolContext {
            world: &mut world,
            history: &mut history,
            brush_color: color,
            brush_size: 2,
        };
        BrushTool::new(Tool::Paint).apply(&mut ctx, &hit);
        BrushTool::new(Tool::Eyedropper).apply(&mut ctx, &hit);
        BrushTool::new(Tool::Fill).apply(&mut ctx, &hit);
    }
    assert_eq!(history.undo_count(), 1);
    {
        let mut ctx = ToolContext {
            world: &mut world,
            history: &mut history,
            brush_color: color,
            brush_size: 2,
        };
        BrushTool::new(Tool::Remove).apply(&mut ctx, &hit);
    }
    assert!(world.get_voxel(0, 0, 0).is_air());
    assert!(world.get_voxel(1, 0, 0).is_air());
    assert_eq!(history.undo_count(), 2);
    history.undo(&mut world);
    assert_eq!(world.get_voxel(1, 0, 0), color);
}

#[test]
fn preview_positions_follow_the_mode() {
    let hit = hit_at((0, 0, 0), (0, 1, 0));
    assert_eq!(BrushTool::new(Tool::Place).preview_positions(&hit, 1), vec![(0, 1, 0)]);
    assert_eq!(BrushTool::new(Tool::Remove).preview_positions(&hit, 1), vec![(0, 0, 0)]);
    assert_eq!(BrushTool::new(Tool::Paint).preview_positions(&hit, 2).len(), 19);
    assert_eq!(BrushTool::new(Tool::Fill).preview_positions(&hit, 9), vec![(0, 0, 0)]);
    assert_eq!(BrushTool::new(Tool::Eyedropper).preview_positions(&hit, 9), vec![(0, 0, 0)]);
}

#[test]
fn tool_names_and_shortcuts() {
    assert_eq!(Tool::Place.name(), "Place");
    assert_eq!(Tool::Remove.name(), "Remove");
    assert_eq!(Tool::Paint.name(), "Paint");
    assert_eq!(Tool::Eyedropper.name(), "Eyedropper");
    assert_eq!(Tool::Fill.name(), "Fill");
    assert_eq!(Tool::Place.shortcut(), "1");
    assert_eq!(Tool::Remove.shortcut(), "2");
    assert_eq!(Tool::Paint.shortcut(), "3");
    assert_eq!(Tool::Eyedropper.shortcut(), "4 / Alt");
    assert_eq!(Tool::Fill.shortcut(), "5");
}

#[test]
fn eyedropper_picks_solid_voxels_only() {
    let mut world = World::new();
    let v = Voxel::from_rgba(1, 2, 3, 4);
    world.set_voxel(2, 2, 2, v);
    assert_eq!(eyedrop(&world, &hit_at((2, 2, 2), (2, 3, 2))), Some(v));
    assert_eq!(eyedrop(&world, &hit_at((2, 3, 2), (2, 2, 2))), None);
}

#[test]
fn flood_fill_recolors_every_cell_of_the_patch() {
    let mut world = World::new();
    let mut history = CommandHistory::new(100);
    let gray = Voxel::from_rgb(100, 100, 100);
    let red = Voxel::from_rgb(255, 0, 0);
    for x in 0..3 {
        for z in 0..3 {
            world.set_voxel(x, 0, z, gray);
        }
    }
    world.set_voxel(5, 0, 0, gray);
    let count = flood_fill(&mut world, &mut history, (1, 0, 1), red, 1000);
    assert_eq!(count, 9);
    for x in 0..3 {
        for z in 0..3 {
            assert_eq!(world.get_voxel(x, 0, z), red);
        }
    }
    assert_eq!(world.get_voxel(5, 0, 0), gray);
    assert_eq!(history.undo_count(), 1);
    history.undo(&mut world);
    assert_eq!(world.get_voxel(2, 0, 2), gray);
}

#[test]
fn flood_fill_stops_at_the_limit() {
    let mut world = World::new();
    let mut history = CommandHistory::new(100);
    let gray = Voxel::from_rgb(100, 100, 100);
    let red = Voxel::from_rgb(255, 0, 0);
    for x in 0..10 {
        world.set_voxel(x, 0, 0, gray);
    }
    assert_eq!(flood_fill(&mut world, &mut history, (0, 0, 0), red, 4), 4);
    let changed = (0..10).filter(|&x| world.get_voxel(x, 0, 0) == red).count();
    assert_eq!(changed, 4);
    assert_eq!(flood_fill(&mut world, &mut history, (9, 0, 0), red, 0), 0);
    assert_eq!(history.undo_count(), 1);
    assert_eq!(flood_fill(&mut world, &mut history, (0, 0, 0), red, 10), 0);
    assert_eq!(flood_fill(&mut world, &mut history, (50, 0, 0), red, 7), 7);
}

#[test]
fn flood_fill_in_a_bounded_world_counts_dropped_writes() {
    let mut world = World::bounded(WorldBounds::single_chunk());
    let mut history = CommandHistory::new(100);
    let red = Voxel::from_rgb(255, 0, 0);
    let count = flood_fill(&mut world, &mut history, (31, 0, 0), red, 3);
    assert_eq!(count, 3);
    assert_eq!(world.get_voxel(31, 0, 0), red);
    assert!(world.get_voxel(32, 0, 0).is_air());
}

#[test]
fn editor_starts_with_its_defaults() {
    let mut editor = Editor::new();
    assert_eq!(editor.current_tool, Tool::Place);
    assert_eq!(editor.brush_color, Voxel::from_rgb(200, 100, 50));
    assert_eq!(editor.brush_size, 1);
    assert!(editor.hovered_voxel.is_none());
    assert_eq!(editor.palette.len(), 20);
    assert_eq!(editor.palette[0], Voxel::from_rgb(255, 255, 255));
    assert_eq!(editor.palette[12], Voxel::from_rgb(139, 90, 43));
    assert_eq!(editor.palette[19], Voxel::from_rgb(0, 128, 128));
    editor.set_tool(Tool::Paint);
    assert_eq!(editor.current_tool, Tool::Paint);
    editor.set_palette_color(6);
    assert_eq!(editor.brush_color, Voxel::from_rgb(255, 0, 0));
    editor.set_palette_color(20);
    assert_eq!(editor.brush_color, Voxel::from_rgb(255, 0, 0));
    let mut world = World::new();
    assert!(!editor.can_undo());
    editor.history.execute(Command::set_voxel(&world, (0, 0, 0), editor.brush_color), &mut world);
    assert!(editor.can_undo());
    editor.undo(&mut world);
    assert!(world.get_voxel(0, 0, 0).is_air());
    assert!(editor.can_redo());
    editor.redo(&mut world);
    assert!(world.get_voxel(0, 0, 0).is_solid());
}

#[test]
fn capped_flood_fill_grows_from_the_seed() {
    let gray = Voxel::from_rgb(100, 100, 100);
    let red = Voxel::from_rgb(255, 0, 0);
    let mut world = World::new();
    let mut history = CommandHistory::new(100);
    world.set_voxel(0, 0, 0, gray);
    world.set_voxel(1, 0, 0, gray);
    assert_eq!(flood_fill(&mut world, &mut history, (0, 0, 0), red, 1), 1);
    assert_eq!(world.get_voxel(0, 0, 0), red);
    assert_eq!(world.get_voxel(1, 0, 0), gray);

    let mut line = World::new();
    for x in 0..20 {
        line.set_voxel(x, 0, 0, gray);
    }
    assert_eq!(flood_fill(&mut line, &mut history, (10, 0, 0), red, 5), 5);
    assert_eq!(line.get_voxel(10, 0, 0), red);
    let changed: Vec<i32> = (0..20).filter(|&x| line.get_voxel(x, 0, 0) == red).collect();
    assert_eq!(changed.len(), 5);
    assert_eq!(changed[4] - changed[0], 4);
}
