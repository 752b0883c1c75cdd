//! Reversible edits and the undo/redo history that holds them.

use crate::listing::{point, walks_before};
use crate::voxel::Voxel;
use crate::world::{box_cells, cells_before, written, Paint, World, WorldState};
use vstd::prelude::*;

verus! {

/// One voxel of a batched edit: where it is, what it held and what it gets.
#[derive(Debug, Clone, Copy)]
pub struct VoxelChange {
    pub pos: (i32, i32, i32),
    pub old_voxel: Voxel,
    pub new_voxel: Voxel,
}

/// A reversible edit. It owns copies of the voxels it replaces.
#[derive(Debug)]
pub enum Command {
    /// Sets one voxel.
    SetVoxel { pos: (i32, i32, i32), old_voxel: Voxel, new_voxel: Voxel },
    /// Sets a list of voxels, in order.
    SetVoxels { changes: Vec<VoxelChange> },
    /// Fills the box from `min` to `max`; `old_voxels` holds what it held.
    FillRegion {
        min: (i32, i32, i32),
        max: (i32, i32, i32),
        old_voxels: Vec<((i32, i32, i32), Voxel)>,
        new_voxel: Voxel,
    },
}

/// What a command does, as a value of the specification: a `Command` with
/// sequences in place of vectors.
pub enum Edit {
    SetVoxel { pos: (i32, i32, i32), old_voxel: Voxel, new_voxel: Voxel },
    SetVoxels { changes: Seq<VoxelChange> },
    FillRegion {
        min: (i32, i32, i32),
        max: (i32, i32, i32),
        old_voxels: Seq<((i32, i32, i32), Voxel)>,
        new_voxel: Voxel,
    },
}

impl View for Command {
    type V = Edit;

    open spec fn view(&self) -> Edit {
        match self {
            Command::SetVoxel { pos, old_voxel, new_voxel } => Edit::SetVoxel {
                pos: *pos,
                old_voxel: *old_voxel,
                new_voxel: *new_voxel,
            },
            Command::SetVoxels { changes } => Edit::SetVoxels { changes: changes@ },
            Command::FillRegion { min, max, old_voxels, new_voxel } => Edit::FillRegion {
                min: *min,
                max: *max,
                old_voxels: old_voxels@,
                new_voxel: *new_voxel,
            },
        }
    }
}

impl Clone for Command {
    fn clone(&self) -> (cmd: Command)
        ensures
            cmd@ == self@,
    {
        match self {
            Command::SetVoxel { pos, old_voxel, new_voxel } => Command::SetVoxel {
                pos: *pos,
                old_voxel: *old_voxel,
                new_voxel: *new_voxel,
            },
            Command::SetVoxels { changes } => {
                let copy = changes.clone();
                assert(copy@ =~= changes@);
                Command::SetVoxels { changes: copy }
            },
            Command::FillRegion { min, max, old_voxels, new_voxel } => {
                let copy = copy_writes(old_voxels);
                Command::FillRegion { min: *min, max: *max, old_voxels: copy, new_voxel: *new_voxel }
            },
        }
    }
}

/// The writes that apply `changes`.
pub open spec fn new_writes(changes: Seq<VoxelChange>) -> Seq<((i32, i32, i32), Voxel)> {
    changes.map_values(|c: VoxelChange| (c.pos, c.new_voxel))
}

/// The writes that take `changes` back.
pub open spec fn old_writes(changes: Seq<VoxelChange>) -> Seq<((i32, i32, i32), Voxel)> {
    changes.map_values(|c: VoxelChange| (c.pos, c.old_voxel))
}

/// Whether `cells` lists the positions of `region`, each once, `x` running
/// fastest, then `y`, then `z`, each with the voxel it holds in `w`.
pub open spec fn lists_cells(
    w: WorldState,
    region: Set<(int, int, int)>,
    cells: Seq<((i32, i32, i32), Voxel)>,
) -> bool {
    &&& forall|i: int|
        0 <= i < cells.len() ==> {
            &&& region.contains(point((#[trigger] cells[i]).0))
            &&& cells[i].1 == w.voxel_at(
                cells[i].0.0 as int,
                cells[i].0.1 as int,
                cells[i].0.2 as int,
            )
        }
    &&& forall|i: int, j: int|
        0 <= i < j < cells.len() ==> walks_before((#[trigger] cells[i]).0, (#[trigger] cells[j]).0)
    &&& forall|p: (i32, i32, i32)|
        region.contains(point(p)) ==> exists|i: int|
            0 <= i < cells.len() && (#[trigger] cells[i]).0 == p
}

/// Whether `cells` lists the positions of the box from `min` to `max` with
/// the voxels they hold in `w`.
pub open spec fn is_snapshot(
    w: WorldState,
    min: (i32, i32, i32),
    max: (i32, i32, i32),
    cells: Seq<((i32, i32, i32), Voxel)>,
) -> bool {
    lists_cells(w, box_cells(point(min), point(max)), cells)
}

fn copy_writes(writes: &Vec<((i32, i32, i32), Voxel)>) -> (copy: Vec<((i32, i32, i32), Voxel)>)
    ensures
        copy@ == writes@,
{
    let mut copy: Vec<((i32, i32, i32), Voxel)> = Vec::with_capacity(writes.len());
    let mut i: usize = 0;
    while i < writes.len()
        invariant
            i <= writes.len(),
            copy@ == writes@.take(i as int),
        decreases writes.len() - i,
    {
        copy.push(writes[i]);
        i = i + 1;
        assert(copy@ =~= writes@.take(i as int));
    }
    assert(copy@ =~= writes@);
    copy
}

impl Edit {
    /// The world after the edit has been applied.
    pub open spec fn applied(self, w: WorldState) -> WorldState {
        match self {
            Edit::SetVoxel { pos, new_voxel, .. } => w.set_voxel(
                pos.0 as int,
                pos.1 as int,
                pos.2 as int,
                new_voxel,
            ),
            Edit::SetVoxels { changes } => written(w, new_writes(changes)),
            Edit::FillRegion { min, max, new_voxel, .. } => w.painted(
                box_cells(point(min), point(max)),
                Paint::Solid(new_voxel),
            ),
        }
    }

    /// The world after the edit has been taken back: the recorded voxels
    /// are written, first to last.
    pub open spec fn reverted(self, w: WorldState) -> WorldState {
        match self {
            Edit::SetVoxel { pos, old_voxel, .. } => w.set_voxel(
                pos.0 as int,
                pos.1 as int,
                pos.2 as int,
                old_voxel,
            ),
            Edit::SetVoxels { changes } => written(w, old_writes(changes)),
            Edit::FillRegion { old_voxels, .. } => written(w, old_voxels),
        }
    }

    /// Whether every voxel that the edit writes is the voxel it recorded.
    pub open spec fn is_noop(self) -> bool {
        match self {
            Edit::SetVoxel { old_voxel, new_voxel, .. } => old_voxel == new_voxel,
            Edit::SetVoxels { changes } => forall|i: int|
                0 <= i < changes.len() ==> (#[trigger] changes[i]).old_voxel
                    == changes[i].new_voxel,
            Edit::FillRegion { old_voxels, new_voxel, .. } => forall|i: int|
                0 <= i < old_voxels.len() ==> (#[trigger] old_voxels[i]).1 == new_voxel,
        }
    }
}

impl Command {
    pub open spec fn spec_is_noop(&self) -> bool {
        self@.is_noop()
    }

    /// The command that sets the voxel at `pos` to `new_voxel`; it records
    /// what `world` holds there.
    pub fn set_voxel(world: &World, pos: (i32, i32, i32), new_voxel: Voxel) -> (cmd: Command)
        requires
            world.wf(),
        ensures
            cmd@ == (Edit::SetVoxel {
                pos,
                old_voxel: world@.voxel_at(pos.0 as int, pos.1 as int, pos.2 as int),
                new_voxel,
            }),
    {
        let old_voxel = world.get_voxel(pos.0, pos.1, pos.2);
        Command::SetVoxel { pos, old_voxel, new_voxel }
    }

    /// The command that applies `changes` in order.
    pub fn set_voxels(changes: Vec<VoxelChange>) -> (cmd: Command)
        ensures
            cmd@ == (Edit::SetVoxels { changes: changes@ }),
    {
        Command::SetVoxels { changes }
    }

    /// The command that fills the box from `min` to `max` with `new_voxel`;
    /// it records what `world` holds at every position of the box.
    #[verifier::rlimit(50)]
    pub fn fill_region(
        world: &World,
        min: (i32, i32, i32),
        max: (i32, i32, i32),
        new_voxel: Voxel,
    ) -> (cmd: Command)
        requires
            world.wf(),
        ensures
            cmd@ matches Edit::FillRegion { min: m0, max: m1, old_voxels, new_voxel: v } && m0
                == min && m1 == max && v == new_voxel && is_snapshot(world@, min, max, old_voxels),
    {
        let mut old_voxels: Vec<((i32, i32, i32), Voxel)> = Vec::new();
        let ghost lo = point(min);
        let ghost hi = point(max);
        if min.0 > max.0 || min.1 > max.1 || min.2 > max.2 {
            return Command::FillRegion { min, max, old_voxels, new_voxel };
        }
        let mut z: i64 = min.2 as i64;
        while z <= max.2 as i64
            invariant
                world.wf(),
                lo == point(min),
                hi == point(max),
                min.0 <= max.0,
                min.1 <= max.1,
                min.2 <= z <= max.2 + 1,
                lists_cells(
                    world@,
                    cells_before(lo, hi, (min.0 as int, min.1 as int, z as int)),
                    old_voxels@,
                ),
            decreases max.2 + 1 - z,
        {
            let mut y: i64 = min.1 as i64;
            while y <= max.1 as i64
                invariant
                    world.wf(),
                    lo == point(min),
                    hi == point(max),
                    min.0 <= max.0,
                    min.1 <= y <= max.1 + 1,
                    min.2 <= z <= max.2,
                    lists_cells(
                        world@,
                        cells_before(lo, hi, (min.0 as int, y as int, z as int)),
                        old_voxels@,
                    ),
                decreases max.1 + 1 - y,
            {
                let mut x: i64 = min.0 as i64;
                while x <= max.0 as i64
                    invariant
                        world.wf(),
                        lo == point(min),
                        hi == point(max),
                        min.0 <= x <= max.0 + 1,
                        min.1 <= y <= max.1,
                        min.2 <= z <= max.2,
                        lists_cells(
                            world@,
                            cells_before(lo, hi, (x as int, y as int, z as int)),
                            old_voxels@,
                        ),
                    decreases max.0 + 1 - x,
                {
                    let pos = (x as i32, y as i32, z as i32);
                    let voxel = world.get_voxel(pos.0, pos.1, pos.2);
                    let ghost before = old_voxels@;
                    let ghost done = cells_before(lo, hi, point(pos));
                    old_voxels.push((pos, voxel));
                    proof {
                        let next = cells_before(lo, hi, (x + 1, y as int, z as int));
                        assert(next =~= done.insert(point(pos)));
                        assert forall|p: (i32, i32, i32)| next.contains(point(p)) implies exists|
                            i: int,
                        |
                            0 <= i < old_voxels@.len() && (#[trigger] old_voxels@[i]).0 == p by {
                            if p == pos {
                                assert(old_voxels@[before.len() as int].0 == p);
                            } else {
                                assert(done.contains(point(p)));
                                let i = choose|i: int|
                                    0 <= i < before.len() && (#[trigger] before[i]).0 == p;
                                assert(old_voxels@[i].0 == p);
                            }
                        }
                        assert forall|i: int, j: int|
                            0 <= i < j < old_voxels@.len() implies walks_before(
                            (#[trigger] old_voxels@[i]).0,
                            (#[trigger] old_voxels@[j]).0,
                        ) by {
                            assert(old_voxels@[i] == before[i]);
                            if j < before.len() {
                                assert(old_voxels@[j] == before[j]);
                            } else {
                                assert(done.contains(point(before[i].0)));
                            }
                        }
                        assert forall|i: int| 0 <= i < old_voxels@.len() implies next.contains(
                            point((#[trigger] old_voxels@[i]).0),
                        ) && old_voxels@[i].1 == world@.voxel_at(
                            old_voxels@[i].0.0 as int,
                            old_voxels@[i].0.1 as int,
                            old_voxels@[i].0.2 as int,
                        ) by {
                            if i < before.len() {
                                assert(old_voxels@[i] == before[i]);
                                assert(done.contains(point(before[i].0)));
                            }
                        }
                    }
                    x = x + 1;
                }
                proof {
                    assert(cells_before(lo, hi, (x as int, y as int, z as int)) =~= cells_before(
                        lo,
                        hi,
                        (min.0 as int, y + 1, z as int),
                    ));
                }
                y = y + 1;
            }
            proof {
                assert(cells_before(lo, hi, (min.0 as int, y as int, z as int)) =~= cells_before(
                    lo,
                    hi,
                    (min.0 as int, min.1 as int, z + 1),
                ));
            }
            z = z + 1;
        }
        proof {
            assert(cells_before(lo, hi, (min.0 as int, min.1 as int, z as int)) =~= box_cells(
                lo,
                hi,
            ));
        }
        Command::FillRegion { min, max, old_voxels, new_voxel }
    }

    /// Applies the command to `world`.
    pub fn execute(&self, world: &mut World)
        requires
            old(world).wf(),
        ensures
            final(world).wf(),
            final(world)@ == self@.applied(old(world)@),
    {
        match self {
            Command::SetVoxel { pos, new_voxel, .. } => {
                world.set_voxel(pos.0, pos.1, pos.2, *new_voxel);
            },
            Command::SetVoxels { changes } => {
                let ghost start = world@;
                let ghost writes = new_writes(changes@);
                let mut i: usize = 0;
                while i < changes.len()
                    invariant
                        i <= changes.len(),
                        world.wf(),
                        writes == new_writes(changes@),
                        world@ == written(start, writes.take(i as int)),
                    decreases changes.len() - i,
                {
                    let change = changes[i];
                    world.set_voxel(change.pos.0, change.pos.1, change.pos.2, change.new_voxel);
                    proof {
                        assert(writes.take(i + 1).drop_last() =~= writes.take(i as int));
                    }
                    i = i + 1;
                }
                assert(writes.take(i as int) =~= writes);
            },
            Command::FillRegion { min, max, new_voxel, .. } => {
                world.fill_region(*min, *max, *new_voxel);
            },
        }
    }

    /// Takes the command back: writes the recorded voxels to `world`.
    pub fn undo(&self, world: &mut World)
        requires
            old(world).wf(),
        ensures
            final(world).wf(),
            final(world)@ == self@.reverted(old(world)@),
    {
        match self {
            Command::SetVoxel { pos, old_voxel, .. } => {
                world.set_voxel(pos.0, pos.1, pos.2, *old_voxel);
            },
            Command::SetVoxels { changes } => {
                let ghost start = world@;
                let ghost writes = old_writes(changes@);
                let mut i: usize = 0;
                while i < changes.len()
                    invariant
                        i <= changes.len(),
                        world.wf(),
                        writes == old_writes(changes@),
                        world@ == written(start, writes.take(i as int)),
                    decreases changes.len() - i,
                {
                    let change = changes[i];
                    world.set_voxel(change.pos.0, change.pos.1, change.pos.2, change.old_voxel);
                    proof {
                        assert(writes.take(i + 1).drop_last() =~= writes.take(i as int));
                    }
                    i = i + 1;
                }
                assert(writes.take(i as int) =~= writes);
            },
            Command::FillRegion { old_voxels, .. } => {
                let ghost start = world@;
                let mut i: usize = 0;
                while i < old_voxels.len()
                    invariant
                        i <= old_voxels.len(),
                        world.wf(),
                        world@ == written(start, old_voxels@.take(i as int)),
                    decreases old_voxels.len() - i,
                {
                    let (pos, voxel) = old_voxels[i];
                    world.set_voxel(pos.0, pos.1, pos.2, voxel);
                    proof {
                        assert(old_voxels@.take(i + 1).drop_last() =~= old_voxels@.take(i as int));
                    }
                    i = i + 1;
                }
                assert(old_voxels@.take(i as int) =~= old_voxels@);
            },
        }
    }

    /// Whether the command changes nothing: every voxel it writes is the
    /// voxel it recorded.
    #[verifier::when_used_as_spec(spec_is_noop)]
    pub fn is_noop(&self) -> (b: bool)
        ensures
            b == self.spec_is_noop(),
    {
        match self {
            Command::SetVoxel { old_voxel, new_voxel, .. } => *old_voxel == *new_voxel,
            Command::SetVoxels { changes } => {
                let mut i: usize = 0;
                while i < changes.len()
                    invariant
                        i <= changes.len(),
                        self@ == (Edit::SetVoxels { changes: changes@ }),
                        forall|j: int|
                            0 <= j < i ==> (#[trigger] changes@[j]).old_voxel
                                == changes@[j].new_voxel,
                    decreases changes.len() - i,
                {
                    if changes[i].old_voxel != changes[i].new_voxel {
                        proof {
                            let change = self@->SetVoxels_changes[i as int];
                            assert(change == changes@[i as int]);
                            assert(change.old_voxel != change.new_voxel);
                        }
                        return false;
                    }
                    i = i + 1;
                }
                true
            },
            Command::FillRegion { old_voxels, new_voxel, .. } => {
                let mut i: usize = 0;
                while i < old_voxels.len()
                    invariant
                        i <= old_voxels.len(),
                        self@ matches Edit::FillRegion { old_voxels: o, new_voxel: n, .. } && o
                            == old_voxels@ && n == *new_voxel,
                        forall|j: int| 0 <= j < i ==> (#[trigger] old_voxels@[j]).1 == *new_voxel,
                    decreases old_voxels.len() - i,
                {
                    if old_voxels[i].1 != *new_voxel {
                        assert(old_voxels@[i as int].1 != *new_voxel);
                        return false;
                    }
                    i = i + 1;
                }
                true
            },
        }
    }
}

/// What a history holds: the commands that can be undone, oldest first, the
/// commands that can be redone, and the most commands it keeps for undo.
pub struct HistoryState {
    pub undo: Seq<Edit>,
    pub redo: Seq<Edit>,
    pub max_size: nat,
}

impl HistoryState {
    /// The newest `max` commands of `stack`.
    pub open spec fn trimmed(stack: Seq<Edit>, max: nat) -> Seq<Edit> {
        if stack.len() > max {
            stack.subrange(stack.len() - max, stack.len() as int)
        } else {
            stack
        }
    }

    /// History and world after `cmd` has been executed through the history. A
    /// command that changes nothing leaves both as they were. Any other is
    /// applied and becomes the newest undo entry, the redo entries are
    /// dropped, and so are the oldest undo entries beyond `max_size`.
    pub open spec fn executed(self, cmd: Edit, w: WorldState) -> (HistoryState, WorldState) {
        if cmd.is_noop() {
            (self, w)
        } else {
            (
                HistoryState {
                    undo: HistoryState::trimmed(self.undo.push(cmd), self.max_size),
                    redo: Seq::empty(),
                    ..self
                },
                cmd.applied(w),
            )
        }
    }

    /// History and world after an undo: the newest undo entry is taken back
    /// and becomes the newest redo entry. Nothing changes where there is no
    /// undo entry.
    pub open spec fn undone(self, w: WorldState) -> (HistoryState, WorldState) {
        if self.undo.len() == 0 {
            (self, w)
        } else {
            (
                HistoryState {
                    undo: self.undo.drop_last(),
                    redo: self.redo.push(self.undo.last()),
                    ..self
                },
                self.undo.last().reverted(w),
            )
        }
    }

    /// History and world after a redo: the newest redo entry is applied and
    /// becomes the newest undo entry. Nothing changes where there is no redo
    /// entry.
    pub open spec fn redone(self, w: WorldState) -> (HistoryState, WorldState) {
        if self.redo.len() == 0 {
            (self, w)
        } else {
            (
                HistoryState {
                    undo: self.undo.push(self.redo.last()),
                    redo: self.redo.drop_last(),
                    ..self
                },
                self.redo.last().applied(w),
            )
        }
    }
}

/// The undo and redo stacks of an editing session.
pub struct CommandHistory {
    undo_stack: Vec<Command>,
    redo_stack: Vec<Command>,
    max_size: usize,
}

impl View for CommandHistory {
    type V = HistoryState;

    closed spec fn view(&self) -> HistoryState {
        HistoryState {
            undo: self.undo_stack@.map_values(|c: Command| c@),
            redo: self.redo_stack@.map_values(|c: Command| c@),
            max_size: self.max_size as nat,
        }
    }
}

impl CommandHistory {
    /// An empty history that keeps at most `max_size` commands for undo.
    pub fn new(max_size: usize) -> (h: CommandHistory)
        ensures
            h@ == (HistoryState {
                undo: Seq::empty(),
                redo: Seq::empty(),
                max_size: max_size as nat,
            }),
    {
        let h = CommandHistory { undo_stack: Vec::new(), redo_stack: Vec::new(), max_size };
        assert(h@.undo =~= Seq::empty() && h@.redo =~= Seq::empty());
        h
    }

    /// Executes `command` on `world` and records it for undo, unless it
    /// changes nothing.
    pub fn execute(&mut self, command: Command, world: &mut World)
        requires
            old(world).wf(),
        ensures
            final(world).wf(),
            final(self)@ == old(self)@.executed(command@, old(world)@).0,
            final(world)@ == old(self)@.executed(command@, old(world)@).1,
    {
        if command.is_noop() {
            return ;
        }
        command.execute(world);
        self.undo_stack.push(command);
        self.redo_stack.clear();
        let ghost full = self@.undo;
        proof {
            assert(full =~= old(self)@.undo.push(command@));
            assert(self@.redo =~= Seq::empty());
        }
        while self.undo_stack.len() > self.max_size
            invariant
                self.max_size == old(self).max_size,
                self@.redo == Seq::<Edit>::empty(),
                self@.undo.len() <= full.len(),
                self@.undo.len() >= self.max_size || self@.undo.len() == full.len(),
                self@.undo == full.subrange(full.len() - self@.undo.len(), full.len() as int),
            decreases self.undo_stack.len(),
        {
            let ghost before = self@.undo;
            self.undo_stack.remove(0);
            assert(self@.undo =~= before.subrange(1, before.len() as int));
            assert(self@.undo =~= full.subrange(full.len() - self@.undo.len(), full.len() as int));
        }
        proof {
            assert(self@.undo =~= HistoryState::trimmed(full, self.max_size as nat));
        }
    }

    /// Executes `command` as `execute` does. The merge window is not used.
    pub fn execute_merge(&mut self, command: Command, world: &mut World, merge_window_ms: u128)
        requires
            old(world).wf(),
        ensures
            final(world).wf(),
            final(self)@ == old(self)@.executed(command@, old(world)@).0,
            final(world)@ == old(self)@.executed(command@, old(world)@).1,
    {
        self.execute(command, world);
    }

    /// Takes the newest command back and keeps it for redo. Returns whether
    /// there was a command to take back.
    pub fn undo(&mut self, world: &mut World) -> (done: bool)
        requires
            old(world).wf(),
        ensures
            final(world).wf(),
            done == (old(self)@.undo.len() > 0),
            final(self)@ == old(self)@.undone(old(world)@).0,
            final(world)@ == old(self)@.undone(old(world)@).1,
    {
        match self.undo_stack.pop() {
            Some(command) => {
                command.undo(world);
                self.redo_stack.push(command);
                proof {
                    assert(self@.undo =~= old(self)@.undo.drop_last());
                    assert(self@.redo =~= old(self)@.redo.push(command@));
                    assert(old(self)@.undo.last() == command@);
                }
                true
            },
            None => false,
        }
    }

    /// Applies the newest undone command again and keeps it for undo.
    /// Returns whether there was a command to apply.
    pub fn redo(&mut self, world: &mut World) -> (done: bool)
        requires
            old(world).wf(),
        ensures
            final(world).wf(),
            done == (old(self)@.redo.len() > 0),
            final(self)@ == old(self)@.redone(old(world)@).0,
            final(world)@ == old(self)@.redone(old(world)@).1,
    {
        match self.redo_stack.pop() {
            Some(command) => {
                command.execute(world);
                self.undo_stack.push(command);
                proof {
                    assert(self@.redo =~= old(self)@.redo.drop_last());
                    assert(self@.undo =~= old(self)@.undo.push(command@));
                    assert(old(self)@.redo.last() == command@);
                }
                true
            },
            None => false,
        }
    }

    /// Whether there is a command to undo.
    pub fn can_undo(&self) -> (b: bool)
        ensures
            b == (self@.undo.len() > 0),
    {
        !self.undo_stack.is_empty()
    }

    /// Whether there is a command to redo.
    pub fn can_redo(&self) -> (b: bool)
        ensures
            b == (self@.redo.len() > 0),
    {
        !self.redo_stack.is_empty()
    }

    /// The number of commands that can be undone.
    pub fn undo_count(&self) -> (n: usize)
        ensures
            n == self@.undo.len(),
    {
        self.undo_stack.len()
    }

    /// The number of commands that can be redone.
    pub fn redo_count(&self) -> (n: usize)
        ensures
            n == self@.redo.len(),
    {
        self.redo_stack.len()
    }

    /// Forgets every command.
    pub fn clear(&mut self)
        ensures
            final(self)@ == (HistoryState {
                undo: Seq::empty(),
                redo: Seq::empty(),
                ..old(self)@
            }),
    {
        self.undo_stack.clear();
        self.redo_stack.clear();
        assert(self@.undo =~= Seq::empty() && self@.redo =~= Seq::empty());
    }
}

/// A list of writes keeps the world well formed and leaves its bounds alone.
pub proof fn lemma_written_wf(w: WorldState, writes: Seq<((i32, i32, i32), Voxel)>)
    requires
        w.wf(),
    ensures
        written(w, writes).wf(),
        written(w, writes).bounds == w.bounds,
    decreases writes.len(),
{
    if writes.len() > 0 {
        lemma_written_wf(w, writes.drop_last());
        let p = point(writes.last().0);
        written(w, writes.drop_last()).lemma_set_voxel_reads(p, writes.last().1, p);
    }
}

/// Whether `writes` holds a write to `q`.
pub open spec fn writes_to(writes: Seq<((i32, i32, i32), Voxel)>, q: (int, int, int)) -> bool {
    exists|i: int| 0 <= i < writes.len() && point((#[trigger] writes[i]).0) == q
}

/// What a position reads after writes of one voxel `v`: `v` where the
/// position was written and the world stores writes to it, else what it
/// read before.
pub proof fn lemma_written_reads(
    w: WorldState,
    writes: Seq<((i32, i32, i32), Voxel)>,
    v: Voxel,
    q: (i32, i32, i32),
)
    requires
        w.wf(),
        forall|i: int| 0 <= i < writes.len() ==> (#[trigger] writes[i]).1 == v,
    ensures
        written(w, writes).voxel_at(q.0 as int, q.1 as int, q.2 as int) == (if writes_to(
            writes,
            point(q),
        ) && w.writable(q.0 as int, q.1 as int, q.2 as int) {
            v
        } else {
            w.voxel_at(q.0 as int, q.1 as int, q.2 as int)
        }),
    decreases writes.len(),
{
    if writes.len() > 0 {
        let rest = writes.drop_last();
        let last = writes.last();
        lemma_written_reads(w, rest, v, q);
        lemma_written_wf(w, rest);
        written(w, rest).lemma_set_voxel_reads(point(last.0), last.1, point(q));
        if writes_to(rest, point(q)) {
            let i = choose|i: int| 0 <= i < rest.len() && point((#[trigger] rest[i]).0) == point(q);
            assert(point(writes[i].0) == point(q));
        }
        if writes_to(writes, point(q)) && point(last.0) != point(q) {
            let i = choose|i: int|
                0 <= i < writes.len() && point((#[trigger] writes[i]).0) == point(q);
            assert(point(rest[i].0) == point(q));
        }
        if point(last.0) == point(q) {
            assert(point(writes[writes.len() - 1].0) == point(q));
        }
    }
}

/// Undo and redo of one voxel write. Let a history that keeps at least one
/// command execute the command that sets the voxel at `pos` to `new_voxel`,
/// then undo, then redo. If the voxel was `new_voxel` already, the command
/// changes nothing: it is not recorded, and history and world stay as they
/// were. Otherwise the command is the newest undo entry; after the undo
/// every position `q` holds what it held at the start and the command is
/// the newest redo entry; after the redo every position holds what it held
/// after the command was executed, which at `pos` is `new_voxel` where the
/// world stores writes to `pos`.
pub proof fn lemma_undo_redo_set_voxel(
    h: HistoryState,
    w: WorldState,
    pos: (i32, i32, i32),
    new_voxel: Voxel,
    q: (i32, i32, i32),
)
    requires
        w.wf(),
        h.max_size > 0,
    ensures
        ({
            let old_voxel = w.voxel_at(pos.0 as int, pos.1 as int, pos.2 as int);
            let cmd = Edit::SetVoxel { pos, old_voxel, new_voxel };
            let (h1, w1) = h.executed(cmd, w);
            let (h2, w2) = h1.undone(w1);
            let (h3, w3) = h2.redone(w2);
            &&& old_voxel == new_voxel ==> h1 == h && w1 == w
            &&& old_voxel != new_voxel ==> {
                &&& h1.undo.len() > 0 && h1.undo.last() == cmd && h1.redo.len() == 0
                &&& w.writable(pos.0 as int, pos.1 as int, pos.2 as int) ==> w1.voxel_at(
                    pos.0 as int,
                    pos.1 as int,
                    pos.2 as int,
                ) == new_voxel
                &&& h2.redo.len() > 0 && h2.redo.last() == cmd
                &&& w2.voxel_at(q.0 as int, q.1 as int, q.2 as int) == w.voxel_at(
                    q.0 as int,
                    q.1 as int,
                    q.2 as int,
                )
                &&& h3.undo == h1.undo && h3.redo.len() == 0
                &&& w3.voxel_at(q.0 as int, q.1 as int, q.2 as int) == w1.voxel_at(
                    q.0 as int,
                    q.1 as int,
                    q.2 as int,
                )
            }
        }),
{
    let old_voxel = w.voxel_at(pos.0 as int, pos.1 as int, pos.2 as int);
    let cmd = Edit::SetVoxel { pos, old_voxel, new_voxel };
    if old_voxel != new_voxel {
        let (h1, w1) = h.executed(cmd, w);
        let (h2, w2) = h1.undone(w1);
        let (h3, w3) = h2.redone(w2);
        assert(h3.undo =~= h1.undo);
        assert(h3.redo =~= Seq::<Edit>::empty());
        w.lemma_set_voxel_reads(point(pos), new_voxel, point(q));
        w.lemma_set_voxel_reads(point(pos), new_voxel, point(pos));
        w1.lemma_set_voxel_reads(point(pos), old_voxel, point(q));
        w2.lemma_set_voxel_reads(point(pos), new_voxel, point(q));
        w1.lemma_set_voxel_reads(point(pos), old_voxel, point(pos));
    }
}

} // verus!
