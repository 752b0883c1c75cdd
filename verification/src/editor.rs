//! The editor's state: the active tool, the brush and the edit history.

use crate::commands::{CommandHistory, HistoryState};
use crate::tools::{RaycastHit, Tool};
use crate::voxel::Voxel;
use crate::world::World;
use vstd::prelude::*;

verus! {

/// The opaque voxel of material 1 with the given color.
pub open spec fn rgb(r: u8, g: u8, b: u8) -> Voxel {
    Voxel { material: 1, r, g, b, a: 255, flags: 0, _reserved: 0 }
}

/// The colors of the editor's palette: six grays from white to black,
/// six primary colors, four earth tones and four vivid colors.
pub open spec fn editor_palette() -> Seq<Voxel> {
    seq![
        rgb(255, 255, 255),
        rgb(200, 200, 200),
        rgb(150, 150, 150),
        rgb(100, 100, 100),
        rgb(50, 50, 50),
        rgb(0, 0, 0),
        rgb(255, 0, 0),
        rgb(0, 255, 0),
        rgb(0, 0, 255),
        rgb(255, 255, 0),
        rgb(255, 0, 255),
        rgb(0, 255, 255),
        rgb(139, 90, 43),
        rgb(76, 153, 0),
        rgb(194, 178, 128),
        rgb(128, 128, 128),
        rgb(255, 128, 0),
        rgb(128, 0, 255),
        rgb(255, 192, 203),
        rgb(0, 128, 128),
    ]
}

/// The state of an editing session.
pub struct Editor {
    /// The active tool.
    pub current_tool: Tool,
    /// The undo and redo stacks.
    pub history: CommandHistory,
    /// The voxel that the brush places and paints with.
    pub brush_color: Voxel,
    /// The size of the brush; its radius is one less.
    pub brush_size: u8,
    /// The voxel under the pointer, if any.
    pub hovered_voxel: Option<RaycastHit>,
    /// The colors to pick the brush color from.
    pub palette: Vec<Voxel>,
}

impl Editor {
    /// An editor with the place tool, an empty history of at most 100
    /// commands, an orange brush of size 1 and the editor's palette.
    pub fn new() -> (e: Editor)
        ensures
            e.current_tool == Tool::Place,
            e.history@ == (HistoryState { undo: Seq::empty(), redo: Seq::empty(), max_size: 100 }),
            e.brush_color == rgb(200, 100, 50),
            e.brush_size == 1,
            e.hovered_voxel is None,
            e.palette@ == editor_palette(),
    {
        Editor {
            current_tool: Tool::Place,
            history: CommandHistory::new(100),
            brush_color: Voxel::from_rgb(200, 100, 50),
            brush_size: 1,
            hovered_voxel: None,
            palette: Editor::default_palette(),
        }
    }

    /// The editor's palette.
    pub fn default_palette() -> (palette: Vec<Voxel>)
        ensures
            palette@ == editor_palette(),
    {
        let mut palette: Vec<Voxel> = Vec::new();
        palette.push(Voxel::from_rgb(255, 255, 255));
        palette.push(Voxel::from_rgb(200, 200, 200));
        palette.push(Voxel::from_rgb(150, 150, 150));
        palette.push(Voxel::from_rgb(100, 100, 100));
        palette.push(Voxel::from_rgb(50, 50, 50));
        palette.push(Voxel::from_rgb(0, 0, 0));
        palette.push(Voxel::from_rgb(255, 0, 0));
        palette.push(Voxel::from_rgb(0, 255, 0));
        palette.push(Voxel::from_rgb(0, 0, 255));
        palette.push(Voxel::from_rgb(255, 255, 0));
        palette.push(Voxel::from_rgb(255, 0, 255));
        palette.push(Voxel::from_rgb(0, 255, 255));
        palette.push(Voxel::from_rgb(139, 90, 43));
        palette.push(Voxel::from_rgb(76, 153, 0));
        palette.push(Voxel::from_rgb(194, 178, 128));
        palette.push(Voxel::from_rgb(128, 128, 128));
        palette.push(Voxel::from_rgb(255, 128, 0));
        palette.push(Voxel::from_rgb(128, 0, 255));
        palette.push(Voxel::from_rgb(255, 192, 203));
        palette.push(Voxel::from_rgb(0, 128, 128));
        assert(palette@ =~= editor_palette());
        palette
    }

    /// Makes `tool` the active tool.
    pub fn set_tool(&mut self, tool: Tool)
        ensures
            final(self).current_tool == tool,
            final(self).history == old(self).history,
            final(self).brush_color == old(self).brush_color,
            final(self).brush_size == old(self).brush_size,
            final(self).hovered_voxel == old(self).hovered_voxel,
            final(self).palette == old(self).palette,
    {
        self.current_tool = tool;
    }

    /// Makes the palette's color `index` the brush color. An index
    /// outside the palette changes nothing.
    pub fn set_palette_color(&mut self, index: usize)
        ensures
            final(self).brush_color == (if index < old(self).palette@.len() {
                old(self).palette@[index as int]
            } else {
                old(self).brush_color
            }),
            final(self).current_tool == old(self).current_tool,
            final(self).history == old(self).history,
            final(self).brush_size == old(self).brush_size,
            final(self).hovered_voxel == old(self).hovered_voxel,
            final(self).palette == old(self).palette,
    {
        if index < self.palette.len() {
            self.brush_color = self.palette[index];
        }
    }

    /// Takes the newest command back, if there is one.
    pub fn undo(&mut self, world: &mut World)
        requires
            old(world).wf(),
        ensures
            final(world).wf(),
            final(self).history@ == old(self).history@.undone(old(world)@).0,
            final(world)@ == old(self).history@.undone(old(world)@).1,
            final(self).current_tool == old(self).current_tool,
            final(self).brush_color == old(self).brush_color,
            final(self).brush_size == old(self).brush_size,
            final(self).hovered_voxel == old(self).hovered_voxel,
            final(self).palette == old(self).palette,
    {
        self.history.undo(world);
    }

    /// Applies the newest undone command again, if there is one.
    pub fn redo(&mut self, world: &mut World)
        requires
            old(world).wf(),
        ensures
            final(world).wf(),
            final(self).history@ == old(self).history@.redone(old(world)@).0,
            final(world)@ == old(self).history@.redone(old(world)@).1,
            final(self).current_tool == old(self).current_tool,
            final(self).brush_color == old(self).brush_color,
            final(self).brush_size == old(self).brush_size,
            final(self).hovered_voxel == old(self).hovered_voxel,
            final(self).palette == old(self).palette,
    {
        self.history.redo(world);
    }

    /// Whether there is a command to undo.
    pub fn can_undo(&self) -> (b: bool)
        ensures
            b == (self.history@.undo.len() > 0),
    {
        self.history.can_undo()
    }

    /// Whether there is a command to redo.
    pub fn can_redo(&self) -> (b: bool)
        ensures
            b == (self.history@.redo.len() > 0),
    {
        self.history.can_redo()
    }
}

impl Default for Editor {
    fn default() -> (e: Editor)
        ensures
            e.current_tool == Tool::Place,
            e.history@ == (HistoryState { undo: Seq::empty(), redo: Seq::empty(), max_size: 100 }),
            e.brush_color == rgb(200, 100, 50),
            e.brush_size == 1,
            e.hovered_voxel is None,
            e.palette@ == editor_palette(),
    {
        Editor::new()
    }
}

} // verus!
