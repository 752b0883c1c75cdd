//! Editing tools: the brush, the flood fill and the eyedropper.

use crate::commands::{Command, CommandHistory, Edit, HistoryState, VoxelChange};
use crate::listing::{
    lemma_listing_is, lemma_listing_push, lies_before, listing, lists_positions, point, walked,
};
use crate::packing::{key_of, pack};
use crate::voxel::Voxel;
use crate::world::{is_voxel_coord, World, WorldState};
use vstd::prelude::*;

verus! {

/// The editing tools.
#[derive(Debug, Clone, Copy, PartialEq, Eq, Structural)]
pub enum Tool {
    /// Places voxels on the empty side of the face that was hit.
    Place,
    /// Removes voxels.
    Remove,
    /// Recolors solid voxels.
    Paint,
    /// Picks the color of a voxel.
    Eyedropper,
    /// Fills a connected region.
    Fill,
}

impl Tool {
    /// The tool's name as shown to the user.
    pub fn name(&self) -> (s: &'static str)
        ensures
            s@ == (match self {
                Tool::Place => "Place"@,
                Tool::Remove => "Remove"@,
                Tool::Paint => "Paint"@,
                Tool::Eyedropper => "Eyedropper"@,
                Tool::Fill => "Fill"@,
            }),
    {
        match self {
            Tool::Place => "Place",
            Tool::Remove => "Remove",
            Tool::Paint => "Paint",
            Tool::Eyedropper => "Eyedropper",
            Tool::Fill => "Fill",
        }
    }

    /// The keys that select the tool.
    pub fn shortcut(&self) -> (s: &'static str)
        ensures
            s@ == (match self {
                Tool::Place => "1"@,
                Tool::Remove => "2"@,
                Tool::Paint => "3"@,
                Tool::Eyedropper => "4 / Alt"@,
                Tool::Fill => "5"@,
            }),
    {
        match self {
            Tool::Place => "1",
            Tool::Remove => "2",
            Tool::Paint => "3",
            Tool::Eyedropper => "4 / Alt",
            Tool::Fill => "5",
        }
    }
}

/// Where a ray met the world: the solid voxel it hit, the empty voxel it
/// came from, and the normal of the face between them.
#[derive(Debug, Clone, Copy)]
pub struct RaycastHit {
    pub voxel_pos: (i32, i32, i32),
    pub adjacent_pos: (i32, i32, i32),
    pub normal: (i32, i32, i32),
}

/// The radius of a brush of size `size`, in voxels: one less than the size.
pub open spec fn brush_radius(size: u8) -> int {
    if size == 0 {
        0
    } else {
        size - 1
    }
}

/// The square of the distance between two points.
pub open spec fn dist_sq(a: (int, int, int), b: (int, int, int)) -> int {
    (a.0 - b.0) * (a.0 - b.0) + (a.1 - b.1) * (a.1 - b.1) + (a.2 - b.2) * (a.2 - b.2)
}

/// The voxels of a brush of size `size` at `center`: the voxel coordinates
/// less than the radius plus a half away from the center. As squared
/// distances are whole numbers, this is `dist_sq <= r * r + r`.
pub open spec fn brush_cells(center: (i32, i32, i32), size: u8) -> Set<(int, int, int)> {
    Set::new(
        |c: (int, int, int)|
            is_voxel_coord(c) && dist_sq(c, point(center)) <= brush_radius(size) * brush_radius(
                size,
            ) + brush_radius(size),
    )
}

/// The voxels of a brush in walk order.
pub open spec fn brush_positions(center: (i32, i32, i32), size: u8) -> Seq<(i32, i32, i32)> {
    listing(brush_cells(center, size))
}

/// No voxel of a brush is farther than the radius from the center along an axis.
pub proof fn lemma_brush_bounds(center: (i32, i32, i32), size: u8, c: (int, int, int))
    requires
        brush_cells(center, size).contains(c),
    ensures
        center.0 - brush_radius(size) <= c.0 <= center.0 + brush_radius(size),
        center.1 - brush_radius(size) <= c.1 <= center.1 + brush_radius(size),
        center.2 - brush_radius(size) <= c.2 <= center.2 + brush_radius(size),
{
    let r = brush_radius(size);
    let d0 = c.0 - center.0;
    let d1 = c.1 - center.1;
    let d2 = c.2 - center.2;
    assert(d0 * d0 + d1 * d1 + d2 * d2 <= r * r + r);
    assert(d0 * d0 >= 0 && d1 * d1 >= 0 && d2 * d2 >= 0) by (nonlinear_arith);
    lemma_square_bound(d0, d1 * d1 + d2 * d2, r);
    lemma_square_bound(d1, d0 * d0 + d2 * d2, r);
    lemma_square_bound(d2, d0 * d0 + d1 * d1, r);
}

proof fn lemma_square_bound(d: int, rest: int, r: int)
    requires
        r >= 0,
        rest >= 0,
        d * d + rest <= r * r + r,
    ensures
        -r <= d <= r,
{
    assert(-r <= d <= r) by (nonlinear_arith)
        requires
            r >= 0,
            d * d <= r * r + r,
    {
        if d > r {
            assert(d * d >= (r + 1) * (r + 1));
        }
        if d < -r {
            assert(d * d >= (r + 1) * (r + 1));
        }
    }
}

/// A brush: one of the tools that set voxels around the place that was hit.
pub struct BrushTool {
    pub mode: Tool,
}

impl BrushTool {
    pub fn new(mode: Tool) -> (t: BrushTool)
        ensures
            t.mode == mode,
    {
        BrushTool { mode }
    }

    /// The voxels of a brush of size `size` at `center`, in walk order.
    #[verifier::rlimit(50)]
    pub fn get_brush_positions(center: (i32, i32, i32), size: u8) -> (out: Vec<(i32, i32, i32)>)
        ensures
            lists_positions(brush_cells(center, size), out@),
            out@ == brush_positions(center, size),
    {
        let mut out: Vec<(i32, i32, i32)> = Vec::new();
        let r: i64 = if size == 0 {
            0
        } else {
            (size - 1) as i64
        };
        assert(r * r + r <= 64770) by (nonlinear_arith)
            requires
                0 <= r <= 254,
        ;
        let limit: i64 = r * r + r;
        let ghost cells = brush_cells(center, size);
        let ghost c0 = point(center);
        proof {
            assert forall|c: (int, int, int)| cells.contains(c) implies c0.0 - r <= c.0 <= c0.0 + r
                && c0.1 - r <= c.1 <= c0.1 + r && c0.2 - r <= c.2 <= c0.2 + r by {
                lemma_brush_bounds(center, size, c);
            }
            assert(walked(cells, (c0.0 - r, c0.1 - r, c0.2 - r)) =~= Set::empty());
        }
        let mut dz: i64 = -r;
        while dz <= r
            invariant
                0 <= r <= 254,
                r == brush_radius(size),
                limit == r * r + r,
                cells == brush_cells(center, size),
                c0 == point(center),
                -r <= dz <= r + 1,
                forall|c: (int, int, int)|
                    cells.contains(c) ==> c0.0 - r <= c.0 <= c0.0 + r && c0.1 - r <= c.1 <= c0.1 + r
                        && c0.2 - r <= c.2 <= c0.2 + r,
                lists_positions(walked(cells, (c0.0 - r, c0.1 - r, c0.2 + dz)), out@),
            decreases r + 1 - dz,
        {
            let mut dy: i64 = -r;
            while dy <= r
                invariant
                    0 <= r <= 254,
                    r == brush_radius(size),
                    limit == r * r + r,
                    cells == brush_cells(center, size),
                    c0 == point(center),
                    -r <= dz <= r,
                    -r <= dy <= r + 1,
                    forall|c: (int, int, int)|
                        cells.contains(c) ==> c0.0 - r <= c.0 <= c0.0 + r && c0.1 - r <= c.1 <= c0.1
                            + r && c0.2 - r <= c.2 <= c0.2 + r,
                    lists_positions(walked(cells, (c0.0 - r, c0.1 + dy, c0.2 + dz)), out@),
                decreases r + 1 - dy,
            {
                let mut dx: i64 = -r;
                while dx <= r
                    invariant
                        0 <= r <= 254,
                        r == brush_radius(size),
                        limit == r * r + r,
                        cells == brush_cells(center, size),
                        c0 == point(center),
                        -r <= dz <= r,
                        -r <= dy <= r,
                        -r <= dx <= r + 1,
                        lists_positions(walked(cells, (c0.0 + dx, c0.1 + dy, c0.2 + dz)), out@),
                    decreases r + 1 - dx,
                {
                    assert(0 <= dx * dx <= 64516 && 0 <= dy * dy <= 64516 && 0 <= dz * dz <= 64516)
                        by (nonlinear_arith)
                        requires
                            -254 <= dx <= 254,
                            -254 <= dy <= 254,
                            -254 <= dz <= 254,
                    ;
                    let dist: i64 = dx * dx + dy * dy + dz * dz;
                    let x: i64 = center.0 as i64 + dx;
                    let y: i64 = center.1 as i64 + dy;
                    let z: i64 = center.2 as i64 + dz;
                    let ghost at = (x as int, y as int, z as int);
                    let ghost done = walked(cells, at);
                    if dist <= limit && i32::MIN as i64 <= x && x <= i32::MAX as i64 && i32::MIN as i64
                        <= y && y <= i32::MAX as i64 && i32::MIN as i64 <= z && z <= i32::MAX as i64 {
                        let p = (x as i32, y as i32, z as i32);
                        proof {
                            assert(cells.contains(at));
                            lemma_listing_push(done, out@, p);
                            assert(walked(cells, (x + 1, y as int, z as int)) =~= done.insert(at));
                        }
                        out.push(p);
                    } else {
                        proof {
                            assert(!cells.contains(at));
                            assert(walked(cells, (x + 1, y as int, z as int)) =~= done);
                        }
                    }
                    dx = dx + 1;
                }
                proof {
                    assert(walked(cells, (c0.0 + dx, c0.1 + dy, c0.2 + dz)) =~= walked(
                        cells,
                        (c0.0 - r, c0.1 + dy + 1, c0.2 + dz),
                    ));
                }
                dy = dy + 1;
            }
            proof {
                assert(walked(cells, (c0.0 - r, c0.1 + dy, c0.2 + dz)) =~= walked(
                    cells,
                    (c0.0 - r, c0.1 - r, c0.2 + dz + 1),
                ));
            }
            dz = dz + 1;
        }
        proof {
            assert(walked(cells, (c0.0 - r, c0.1 - r, c0.2 + dz)) =~= cells);
            lemma_listing_is(cells, out@);
        }
        out
    }
}

/// The change that a brush in mode `mode` with color `color` makes to the
/// voxel at `pos`, if any. Placing sets every voxel that is not the brush
/// color already; removing clears every voxel that is not air; painting
/// recolors every solid voxel that is not the brush color already.
pub open spec fn brush_change(mode: Tool, color: Voxel, w: WorldState, pos: (i32, i32, i32)) -> Option<
    VoxelChange,
> {
    let old_voxel = w.voxel_at(pos.0 as int, pos.1 as int, pos.2 as int);
    match mode {
        Tool::Place => if old_voxel != color {
            Some(VoxelChange { pos, old_voxel, new_voxel: color })
        } else {
            None
        },
        Tool::Remove => if !old_voxel.is_air() {
            Some(VoxelChange { pos, old_voxel, new_voxel: Voxel::air() })
        } else {
            None
        },
        Tool::Paint => if !old_voxel.is_air() && old_voxel != color {
            Some(VoxelChange { pos, old_voxel, new_voxel: color })
        } else {
            None
        },
        _ => None,
    }
}

/// The changes that a brush makes to the voxels at `positions`, in order.
pub open spec fn brush_changes(
    mode: Tool,
    color: Voxel,
    w: WorldState,
    positions: Seq<(i32, i32, i32)>,
) -> Seq<VoxelChange>
    decreases positions.len(),
{
    if positions.len() == 0 {
        Seq::empty()
    } else {
        let rest = brush_changes(mode, color, w, positions.drop_last());
        match brush_change(mode, color, w, positions.last()) {
            Some(change) => rest.push(change),
            None => rest,
        }
    }
}

/// Where a brush in mode `mode` is centered for `hit`: placing works on the
/// empty side of the face that was hit, the other modes on the voxel hit.
pub open spec fn brush_center(mode: Tool, hit: RaycastHit) -> (i32, i32, i32) {
    if mode == Tool::Place {
        hit.adjacent_pos
    } else {
        hit.voxel_pos
    }
}

/// History and world after a brush stroke. The changes that the stroke makes
/// are executed through the history as one batched command. A stroke that
/// changes nothing leaves both as they were, and so do the tools that are
/// no brush.
pub open spec fn brush_applied(
    mode: Tool,
    color: Voxel,
    size: u8,
    hit: RaycastHit,
    h: HistoryState,
    w: WorldState,
) -> (HistoryState, WorldState) {
    let changes = brush_changes(
        mode,
        color,
        w,
        brush_positions(brush_center(mode, hit), size),
    );
    if mode != Tool::Eyedropper && mode != Tool::Fill && changes.len() > 0 {
        h.executed(Edit::SetVoxels { changes }, w)
    } else {
        (h, w)
    }
}

/// What the tools work on: the world, its history and the brush settings.
pub struct ToolContext<'a> {
    pub world: &'a mut World,
    pub history: &'a mut CommandHistory,
    pub brush_color: Voxel,
    pub brush_size: u8,
}

/// A tool that is applied where a ray hit the world.
pub trait EditorTool {
    /// Applies the tool at `hit`.
    fn apply(&self, ctx: &mut ToolContext, hit: &RaycastHit)
        requires
            old(ctx).world.wf(),
        ensures
            final(ctx).world.wf(),
            *final(final(ctx).world) == *final(old(ctx).world),
            *final(final(ctx).history) == *final(old(ctx).history),
    ;

    /// The voxels that the tool would work on at `hit`.
    fn preview_positions(&self, hit: &RaycastHit, brush_size: u8) -> Vec<(i32, i32, i32)>;
}

fn brush_change_at(mode: Tool, color: Voxel, world: &World, pos: (i32, i32, i32)) -> (change: Option<
    VoxelChange,
>)
    requires
        world.wf(),
    ensures
        change == brush_change(mode, color, world@, pos),
{
    let old_voxel = world.get_voxel(pos.0, pos.1, pos.2);
    match mode {
        Tool::Place => if old_voxel != color {
            Some(VoxelChange { pos, old_voxel, new_voxel: color })
        } else {
            None
        },
        Tool::Remove => if !old_voxel.is_air() {
            Some(VoxelChange { pos, old_voxel, new_voxel: Voxel::air() })
        } else {
            None
        },
        Tool::Paint => if !old_voxel.is_air() && old_voxel != color {
            Some(VoxelChange { pos, old_voxel, new_voxel: color })
        } else {
            None
        },
        _ => None,
    }
}

impl EditorTool for BrushTool {
    /// Sets the voxels of the brush around the place that was hit, as one
    /// command of the history. Nothing is recorded where nothing changes.
    #[verifier::rlimit(50)]
    fn apply(&self, ctx: &mut ToolContext, hit: &RaycastHit)
        ensures
            final(ctx).brush_color == old(ctx).brush_color,
            final(ctx).brush_size == old(ctx).brush_size,
            final(ctx).history@ == brush_applied(
                self.mode,
                old(ctx).brush_color,
                old(ctx).brush_size,
                *hit,
                old(ctx).history@,
                old(ctx).world@,
            ).0,
            final(ctx).world@ == brush_applied(
                self.mode,
                old(ctx).brush_color,
                old(ctx).brush_size,
                *hit,
                old(ctx).history@,
                old(ctx).world@,
            ).1,
    {
        let mode = self.mode;
        let color = ctx.brush_color;
        let center = match mode {
            Tool::Place => hit.adjacent_pos,
            Tool::Remove | Tool::Paint => hit.voxel_pos,
            Tool::Eyedropper | Tool::Fill => {
                return ;
            },
        };
        let positions = BrushTool::get_brush_positions(center, ctx.brush_size);
        let mut changes: Vec<VoxelChange> = Vec::new();
        let mut i: usize = 0;
        while i < positions.len()
            invariant
                i <= positions.len(),
                ctx.world.wf(),
                changes@ == brush_changes(mode, color, ctx.world@, positions@.take(i as int)),
            decreases positions.len() - i,
        {
            proof {
                assert(positions@.take(i + 1).drop_last() =~= positions@.take(i as int));
            }
            match brush_change_at(mode, color, ctx.world, positions[i]) {
                Some(change) => {
                    changes.push(change);
                },
                None => {},
            }
            i = i + 1;
        }
        proof {
            assert(positions@.take(i as int) =~= positions@);
        }
        if !changes.is_empty() {
            let cmd = Command::set_voxels(changes);
            ctx.history.execute(cmd, ctx.world);
        }
    }

    /// The voxels that the brush would work on at `hit`: the brush around
    /// the place that was hit, or for the tools that are no brush the voxel
    /// that was hit.
    fn preview_positions(&self, hit: &RaycastHit, brush_size: u8) -> (out: Vec<(i32, i32, i32)>)
        ensures
            out@ == (match self.mode {
                Tool::Place => brush_positions(hit.adjacent_pos, brush_size),
                Tool::Remove | Tool::Paint => brush_positions(hit.voxel_pos, brush_size),
                Tool::Eyedropper | Tool::Fill => seq![hit.voxel_pos],
            }),
    {
        match self.mode {
            Tool::Place => BrushTool::get_brush_positions(hit.adjacent_pos, brush_size),
            Tool::Remove | Tool::Paint => BrushTool::get_brush_positions(hit.voxel_pos, brush_size),
            Tool::Eyedropper | Tool::Fill => {
                let mut out: Vec<(i32, i32, i32)> = Vec::new();
                out.push(hit.voxel_pos);
                assert(out@ =~= seq![hit.voxel_pos]);
                out
            },
        }
    }
}

/// The voxel that was hit, or `None` where it is air.
pub fn eyedrop(world: &World, hit: &RaycastHit) -> (picked: Option<Voxel>)
    requires
        world.wf(),
    ensures
        picked == (if world@.voxel_at(
            hit.voxel_pos.0 as int,
            hit.voxel_pos.1 as int,
            hit.voxel_pos.2 as int,
        ).is_air() {
            None
        } else {
            Some(
                world@.voxel_at(
                    hit.voxel_pos.0 as int,
                    hit.voxel_pos.1 as int,
                    hit.voxel_pos.2 as int,
                ),
            )
        }),
{
    let voxel = world.get_voxel(hit.voxel_pos.0, hit.voxel_pos.1, hit.voxel_pos.2);
    if !voxel.is_air() {
        Some(voxel)
    } else {
        None
    }
}

/// Whether two points are neighbors: one step apart along one axis.
pub open spec fn adjacent(a: (int, int, int), b: (int, int, int)) -> bool {
    ||| a.1 == b.1 && a.2 == b.2 && (a.0 - b.0 == 1 || b.0 - a.0 == 1)
    ||| a.0 == b.0 && a.2 == b.2 && (a.1 - b.1 == 1 || b.1 - a.1 == 1)
    ||| a.0 == b.0 && a.1 == b.1 && (a.2 - b.2 == 1 || b.2 - a.2 == 1)
}

/// Whether `path` leads from `from` to `to`, from neighbor to neighbor,
/// over voxels that all hold `target` in `w`.
pub open spec fn is_fill_path(
    w: WorldState,
    target: Voxel,
    from: (int, int, int),
    to: (int, int, int),
    path: Seq<(int, int, int)>,
) -> bool {
    &&& path.len() > 0
    &&& path[0] == from
    &&& path.last() == to
    &&& forall|i: int|
        0 <= i < path.len() ==> is_voxel_coord(#[trigger] path[i]) && w.voxel_at(
            path[i].0,
            path[i].1,
            path[i].2,
        ) == target
    &&& forall|i: int| 0 <= i < path.len() - 1 ==> adjacent(#[trigger] path[i], path[i + 1])
}

/// The voxels that a flood fill from `start` can reach: those joined to
/// `start` by a path over voxels that hold what `start` holds.
pub open spec fn flood_region(w: WorldState, start: (i32, i32, i32)) -> Set<(int, int, int)> {
    Set::new(
        |c: (int, int, int)|
            exists|path: Seq<(int, int, int)>|
                is_fill_path(
                    w,
                    w.voxel_at(start.0 as int, start.1 as int, start.2 as int),
                    point(start),
                    c,
                    path,
                ),
    )
}

/// Whether `changes` changes the voxel at `p`.
pub open spec fn changes_at(changes: Seq<VoxelChange>, p: (int, int, int)) -> bool {
    exists|i: int| 0 <= i < changes.len() && point((#[trigger] changes[i]).pos) == p
}

/// Whether one of the first `n` changes is of a neighbor of `p`.
pub open spec fn joins_changes(changes: Seq<VoxelChange>, n: int, p: (int, int, int)) -> bool {
    exists|j: int|
        0 <= j < n && j < changes.len() && adjacent(point((#[trigger] changes[j]).pos), p)
}

/// Whether `changes` grows from `start` as a walk from neighbor to
/// neighbor does: the first change is of the voxel at `start`, and every
/// later change is of a neighbor of a voxel changed before it.
pub open spec fn grows_from(changes: Seq<VoxelChange>, start: (i32, i32, i32)) -> bool {
    &&& changes.len() > 0 ==> changes[0].pos == start
    &&& forall|i: int|
        0 < i < changes.len() ==> joins_changes(changes, i, point((#[trigger] changes[i]).pos))
}

/// Whether `changes` is what a flood fill from `start` with `new_voxel`
/// may record when it stops after `max_voxels` voxels: at most that many
/// changes, each of another voxel of the region that `start` reaches, each
/// from what `start` holds to `new_voxel`; the changes grow from `start`;
/// and, unless the limit was reached, there is a change for every voxel
/// of the region.
pub open spec fn is_flood(
    w: WorldState,
    start: (i32, i32, i32),
    new_voxel: Voxel,
    max_voxels: nat,
    changes: Seq<VoxelChange>,
) -> bool {
    &&& changes.len() <= max_voxels
    &&& forall|i: int|
        0 <= i < changes.len() ==> {
            &&& flood_region(w, start).contains(point((#[trigger] changes[i]).pos))
            &&& changes[i].old_voxel == w.voxel_at(start.0 as int, start.1 as int, start.2 as int)
            &&& changes[i].new_voxel == new_voxel
        }
    &&& forall|i: int, j: int|
        0 <= i < changes.len() && 0 <= j < changes.len() && i != j ==> (#[trigger] changes[i]).pos
            != (#[trigger] changes[j]).pos
    &&& grows_from(changes, start)
    &&& changes.len() < max_voxels ==> forall|c: (int, int, int)|
        flood_region(w, start).contains(c) ==> changes_at(changes, c)
}

/// The start of a flood fill lies in its region.
pub proof fn lemma_flood_start(w: WorldState, start: (i32, i32, i32))
    ensures
        flood_region(w, start).contains(point(start)),
{
    let path = seq![point(start)];
    assert(is_fill_path(
        w,
        w.voxel_at(start.0 as int, start.1 as int, start.2 as int),
        point(start),
        point(start),
        path,
    ));
}

/// A neighbor of a voxel of the region that holds what the start holds
/// lies in the region too.
pub proof fn lemma_flood_step(
    w: WorldState,
    start: (i32, i32, i32),
    a: (int, int, int),
    b: (int, int, int),
)
    requires
        flood_region(w, start).contains(a),
        adjacent(a, b),
        is_voxel_coord(b),
        w.voxel_at(b.0, b.1, b.2) == w.voxel_at(start.0 as int, start.1 as int, start.2 as int),
    ensures
        flood_region(w, start).contains(b),
{
    let target = w.voxel_at(start.0 as int, start.1 as int, start.2 as int);
    let path = choose|path: Seq<(int, int, int)>| is_fill_path(w, target, point(start), a, path);
    let longer = path.push(b);
    assert forall|i: int| 0 <= i < longer.len() implies is_voxel_coord(#[trigger] longer[i])
        && w.voxel_at(longer[i].0, longer[i].1, longer[i].2) == target by {
        if i < path.len() {
            assert(longer[i] == path[i]);
        }
    }
    assert forall|i: int| 0 <= i < longer.len() - 1 implies adjacent(
        #[trigger] longer[i],
        longer[i + 1],
    ) by {
        assert(longer[i] == path[i]);
        if i < path.len() - 1 {
            assert(longer[i + 1] == path[i + 1]);
        }
    }
    assert(is_fill_path(w, target, point(start), b, longer));
}

/// What a position reads after a flood fill that did not reach its limit:
/// the new voxel where the position lies in the region that the start
/// reaches and the world stores writes to it, else what it read before.
pub proof fn lemma_flood_reads(
    w: WorldState,
    start: (i32, i32, i32),
    new_voxel: Voxel,
    max_voxels: nat,
    changes: Seq<VoxelChange>,
    q: (i32, i32, i32),
)
    requires
        w.wf(),
        is_flood(w, start, new_voxel, max_voxels, changes),
        changes.len() < max_voxels,
    ensures
        (Edit::SetVoxels { changes }).applied(w).voxel_at(q.0 as int, q.1 as int, q.2 as int) == (
        if flood_region(w, start).contains(point(q)) && w.writable(
            q.0 as int,
            q.1 as int,
            q.2 as int,
        ) {
            new_voxel
        } else {
            w.voxel_at(q.0 as int, q.1 as int, q.2 as int)
        }),
{
    let writes = crate::commands::new_writes(changes);
    assert forall|i: int| 0 <= i < writes.len() implies (#[trigger] writes[i]).1 == new_voxel by {
        assert(changes[i].new_voxel == new_voxel);
    }
    crate::commands::lemma_written_reads(w, writes, new_voxel, q);
    if crate::commands::writes_to(writes, point(q)) {
        let i = choose|i: int| 0 <= i < writes.len() && point((#[trigger] writes[i]).0) == point(q);
        assert(point(changes[i].pos) == point(q));
    }
    if flood_region(w, start).contains(point(q)) {
        assert(changes_at(changes, point(q)));
        let i = choose|i: int|
            0 <= i < changes.len() && point((#[trigger] changes[i]).pos) == point(q);
        assert(point(writes[i].0) == point(q));
    }
}

/// Whether the traversal has closed the changed voxels: every neighbor of
/// a changed voxel that holds `target` is changed or waits on the stack.
spec fn flood_closed(
    w: WorldState,
    target: Voxel,
    changes: Seq<VoxelChange>,
    stack: Seq<(i32, i32, i32)>,
) -> bool {
    forall|i: int, n: (int, int, int)|
        0 <= i < changes.len() && #[trigger] adjacent(point(changes[i].pos), n) && is_voxel_coord(n)
            && w.voxel_at(n.0, n.1, n.2) == target ==> changes_at(changes, n) || stack.contains(
            (n.0 as i32, n.1 as i32, n.2 as i32),
        )
}

/// Once nothing waits on the stack, the changed voxels hold every voxel of
/// a path that starts at a changed voxel.
proof fn lemma_flood_complete(
    w: WorldState,
    target: Voxel,
    changes: Seq<VoxelChange>,
    path: Seq<(int, int, int)>,
    k: int,
)
    requires
        flood_closed(w, target, changes, Seq::empty()),
        is_fill_path(w, target, path[0], path.last(), path),
        changes_at(changes, path[0]),
        0 <= k < path.len(),
    ensures
        changes_at(changes, path[k]),
    decreases k,
{
    if k > 0 {
        lemma_flood_complete(w, target, changes, path, k - 1);
        let i = choose|i: int| 0 <= i < changes.len() && point((#[trigger] changes[i]).pos) == path[k - 1];
        assert(adjacent(path[k - 1], path[k - 1 + 1]));
        assert(adjacent(point(changes[i].pos), path[k]));
    }
}

/// Puts `n` on the stack unless it has been visited.
fn push_unvisited(
    stack: &mut Vec<(i32, i32, i32)>,
    visited: &std::collections::HashSet<u128>,
    n: (i32, i32, i32),
)
    ensures
        final(stack)@ == (if visited@.contains(pack(n)) {
            old(stack)@
        } else {
            old(stack)@.push(n)
        }),
{
    broadcast use vstd::std_specs::hash::group_hash_axioms;

    let key = key_of(n.0, n.1, n.2);
    if !visited.contains(&key) {
        stack.push(n);
    }
}

/// Whether `after` is `before` with neighbors of `pos` put on top, among
/// them every neighbor that `visited` does not hold.
spec fn neighbors_pushed(
    before: Seq<(i32, i32, i32)>,
    after: Seq<(i32, i32, i32)>,
    visited: Set<u128>,
    pos: (i32, i32, i32),
) -> bool {
    &&& before.len() <= after.len()
    &&& forall|j: int| 0 <= j < before.len() ==> #[trigger] after[j] == before[j]
    &&& forall|j: int|
        before.len() <= j < after.len() ==> adjacent(point(pos), point(#[trigger] after[j]))
    &&& forall|n: (i32, i32, i32)| #[trigger]
        adjacent(point(pos), point(n)) ==> visited.contains(pack(n)) || after.contains(n)
}

/// One more neighbor on the stack keeps what was on it.
proof fn lemma_neighbor_pushed(
    before: Seq<(i32, i32, i32)>,
    mid: Seq<(i32, i32, i32)>,
    after: Seq<(i32, i32, i32)>,
    visited: Set<u128>,
    pos: (i32, i32, i32),
    n: (i32, i32, i32),
    done: Set<(i32, i32, i32)>,
)
    requires
        before.len() <= mid.len(),
        forall|j: int| 0 <= j < before.len() ==> #[trigger] mid[j] == before[j],
        forall|j: int|
            before.len() <= j < mid.len() ==> adjacent(point(pos), point(#[trigger] mid[j])),
        forall|m: (i32, i32, i32)| #[trigger]
            done.contains(m) ==> visited.contains(pack(m)) || mid.contains(m),
        adjacent(point(pos), point(n)),
        after == (if visited.contains(pack(n)) {
            mid
        } else {
            mid.push(n)
        }),
    ensures
        before.len() <= after.len(),
        forall|j: int| 0 <= j < before.len() ==> #[trigger] after[j] == before[j],
        forall|j: int|
            before.len() <= j < after.len() ==> adjacent(point(pos), point(#[trigger] after[j])),
        forall|m: (i32, i32, i32)| #[trigger]
            done.insert(n).contains(m) ==> visited.contains(pack(m)) || after.contains(m),
{
    assert forall|m: (i32, i32, i32)| #[trigger] done.insert(n).contains(m) implies visited.contains(
        pack(m),
    ) || after.contains(m) by {
        if m == n {
            if !visited.contains(pack(n)) {
                assert(after[mid.len() as int] == n);
            }
        } else if !visited.contains(pack(m)) {
            let j = choose|j: int| 0 <= j < mid.len() && mid[j] == m;
            assert(after[j] == m);
        }
    }
}

/// Puts the unvisited neighbors of `pos` on the stack.
fn push_neighbors(
    stack: &mut Vec<(i32, i32, i32)>,
    visited: &std::collections::HashSet<u128>,
    pos: (i32, i32, i32),
)
    ensures
        neighbors_pushed(old(stack)@, final(stack)@, visited@, pos),
{
    let ghost s0 = stack@;
    let ghost v = visited@;
    let ghost mut done: Set<(i32, i32, i32)> = Set::empty();
    if pos.0 < i32::MAX {
        let n = (pos.0 + 1, pos.1, pos.2);
        let ghost mid = stack@;
        push_unvisited(stack, visited, n);
        proof {
            lemma_neighbor_pushed(s0, mid, stack@, v, pos, n, done);
            done = done.insert(n);
        }
    }
    if pos.0 > i32::MIN {
        let n = (pos.0 - 1, pos.1, pos.2);
        let ghost mid = stack@;
        push_unvisited(stack, visited, n);
        proof {
            lemma_neighbor_pushed(s0, mid, stack@, v, pos, n, done);
            done = done.insert(n);
        }
    }
    if pos.1 < i32::MAX {
        let n = (pos.0, pos.1 + 1, pos.2);
        let ghost mid = stack@;
        push_unvisited(stack, visited, n);
        proof {
            lemma_neighbor_pushed(s0, mid, stack@, v, pos, n, done);
            done = done.insert(n);
        }
    }
    if pos.1 > i32::MIN {
        let n = (pos.0, pos.1 - 1, pos.2);
        let ghost mid = stack@;
        push_unvisited(stack, visited, n);
        proof {
            lemma_neighbor_pushed(s0, mid, stack@, v, pos, n, done);
            done = done.insert(n);
        }
    }
    if pos.2 < i32::MAX {
        let n = (pos.0, pos.1, pos.2 + 1);
        let ghost mid = stack@;
        push_unvisited(stack, visited, n);
        proof {
            lemma_neighbor_pushed(s0, mid, stack@, v, pos, n, done);
            done = done.insert(n);
        }
    }
    if pos.2 > i32::MIN {
        let n = (pos.0, pos.1, pos.2 - 1);
        let ghost mid = stack@;
        push_unvisited(stack, visited, n);
        proof {
            lemma_neighbor_pushed(s0, mid, stack@, v, pos, n, done);
            done = done.insert(n);
        }
    }
    proof {
        assert forall|n: (i32, i32, i32)| #[trigger]
            adjacent(point(pos), point(n)) implies done.contains(n) by {}
    }
}

/// Whether every voxel that waits on the stack is the start, while
/// nothing has been changed, or a neighbor of a changed voxel.
spec fn stack_joined(
    changes: Seq<VoxelChange>,
    stack: Seq<(i32, i32, i32)>,
    start: (i32, i32, i32),
) -> bool {
    if changes.len() == 0 {
        stack =~= seq![start]
    } else {
        forall|j: int|
            0 <= j < stack.len() ==> joins_changes(
                changes,
                changes.len() as int,
                point(#[trigger] stack[j]),
            )
    }
}

/// A step of the traversal that changes the voxel on top of the stack
/// keeps the changes growing from the start.
proof fn lemma_grows_visit(
    start: (i32, i32, i32),
    old_changes: Seq<VoxelChange>,
    old_stack: Seq<(i32, i32, i32)>,
    change: VoxelChange,
    stack: Seq<(i32, i32, i32)>,
    visited: Set<u128>,
)
    requires
        grows_from(old_changes, start),
        stack_joined(old_changes, old_stack, start),
        old_stack.len() > 0,
        change.pos == old_stack.last(),
        neighbors_pushed(old_stack.drop_last(), stack, visited, change.pos),
    ensures
        grows_from(old_changes.push(change), start),
        stack_joined(old_changes.push(change), stack, start),
{
    let changes = old_changes.push(change);
    let base = old_stack.drop_last();
    let last = old_changes.len() as int;
    assert(changes[last] == change);
    assert forall|i: int| 0 <= i < last implies changes[i] == old_changes[i] by {}
    assert forall|i: int| 0 < i < changes.len() implies joins_changes(
        changes,
        i,
        point((#[trigger] changes[i]).pos),
    ) by {
        if i < last {
            assert(joins_changes(old_changes, i, point(old_changes[i].pos)));
            let j = choose|j: int|
                0 <= j < i && j < old_changes.len() && adjacent(
                    point((#[trigger] old_changes[j]).pos),
                    point(old_changes[i].pos),
                );
            assert(adjacent(point(changes[j].pos), point(changes[i].pos)));
        } else {
            assert(joins_changes(old_changes, last, point(old_stack[old_stack.len() - 1])));
            let j = choose|j: int|
                0 <= j < last && j < old_changes.len() && adjacent(
                    point((#[trigger] old_changes[j]).pos),
                    point(change.pos),
                );
            assert(adjacent(point(changes[j].pos), point(changes[i].pos)));
        }
    }
    assert forall|j: int| 0 <= j < stack.len() implies joins_changes(
        changes,
        changes.len() as int,
        point(#[trigger] stack[j]),
    ) by {
        if j < base.len() {
            assert(stack[j] == base[j]);
            assert(base[j] == old_stack[j]);
            assert(joins_changes(old_changes, last, point(old_stack[j])));
            let i = choose|i: int|
                0 <= i < last && i < old_changes.len() && adjacent(
                    point((#[trigger] old_changes[i]).pos),
                    point(old_stack[j]),
                );
            assert(adjacent(point(changes[i].pos), point(stack[j])));
        } else {
            assert(adjacent(point(changes[last].pos), point(stack[j])));
        }
    }
}

/// A step of the traversal that drops the top of the stack keeps every
/// waiting voxel a neighbor of a changed voxel.
proof fn lemma_grows_skip(
    start: (i32, i32, i32),
    changes: Seq<VoxelChange>,
    old_stack: Seq<(i32, i32, i32)>,
)
    requires
        stack_joined(changes, old_stack, start),
        changes.len() > 0,
        old_stack.len() > 0,
    ensures
        stack_joined(changes, old_stack.drop_last(), start),
{
    let stack = old_stack.drop_last();
    assert forall|j: int| 0 <= j < stack.len() implies joins_changes(
        changes,
        changes.len() as int,
        point(#[trigger] stack[j]),
    ) by {
        assert(stack[j] == old_stack[j]);
    }
}

/// A step of the traversal that changes the voxel at `pos` keeps the
/// changed voxels closed and the start in sight.
#[verifier::rlimit(50)]
proof fn lemma_flood_visit(
    w: WorldState,
    target: Voxel,
    start: (i32, i32, i32),
    old_changes: Seq<VoxelChange>,
    old_stack: Seq<(i32, i32, i32)>,
    change: VoxelChange,
    stack: Seq<(i32, i32, i32)>,
    visited: Set<u128>,
)
    requires
        old_stack.len() > 0,
        change.pos == old_stack.last(),
        forall|k: u128|
            visited.contains(k) <==> exists|i: int|
                0 <= i < old_changes.push(change).len() && pack(
                    (#[trigger] old_changes.push(change)[i]).pos,
                ) == k,
        flood_closed(w, target, old_changes, old_stack),
        changes_at(old_changes, point(start)) || old_stack.contains(start),
        neighbors_pushed(old_stack.drop_last(), stack, visited, change.pos),
    ensures
        flood_closed(w, target, old_changes.push(change), stack),
        changes_at(old_changes.push(change), point(start)) || stack.contains(start),
{
    let changes = old_changes.push(change);
    let base = old_stack.drop_last();
    let pos = change.pos;
    let last = old_changes.len() as int;
    assert(changes[last].pos == pos);
    assert forall|i: int| 0 <= i < old_changes.len() implies changes[i] == old_changes[i] by {}
    assert forall|i: int, n: (int, int, int)|
        0 <= i < changes.len() && #[trigger] adjacent(point(changes[i].pos), n) && is_voxel_coord(n)
            && w.voxel_at(n.0, n.1, n.2) == target implies changes_at(changes, n) || stack.contains(
        (n.0 as i32, n.1 as i32, n.2 as i32),
    ) by {
        let m = (n.0 as i32, n.1 as i32, n.2 as i32);
        if i < last {
            assert(adjacent(point(old_changes[i].pos), n));
            if changes_at(old_changes, n) {
                let i2 = choose|i2: int|
                    0 <= i2 < old_changes.len() && point((#[trigger] old_changes[i2]).pos) == n;
                assert(point(changes[i2].pos) == n);
            } else {
                assert(old_stack.contains(m));
                let j = choose|j: int| 0 <= j < old_stack.len() && old_stack[j] == m;
                if j < base.len() {
                    assert(stack[j] == base[j]);
                } else {
                    assert(point(changes[last].pos) == n);
                }
            }
        } else {
            assert(adjacent(point(pos), point(m)));
            if visited.contains(pack(m)) {
                let i2 = choose|i2: int|
                    0 <= i2 < changes.len() && pack((#[trigger] changes[i2]).pos) == pack(m);
                crate::packing::lemma_pack_injective(changes[i2].pos, m);
                assert(point(changes[i2].pos) == n);
            }
        }
    }
    if changes_at(old_changes, point(start)) {
        let i2 = choose|i2: int|
            0 <= i2 < old_changes.len() && point((#[trigger] old_changes[i2]).pos) == point(start);
        assert(point(changes[i2].pos) == point(start));
    } else {
        let j = choose|j: int| 0 <= j < old_stack.len() && old_stack[j] == start;
        if j < base.len() {
            assert(stack[j] == base[j]);
        } else {
            assert(point(changes[last].pos) == point(start));
        }
    }
}

/// A step of the traversal that drops the top of the stack, because it has
/// been changed or does not hold the target, keeps the changed voxels
/// closed and the start in sight.
proof fn lemma_flood_skip(
    w: WorldState,
    target: Voxel,
    start: (i32, i32, i32),
    changes: Seq<VoxelChange>,
    old_stack: Seq<(i32, i32, i32)>,
)
    requires
        old_stack.len() > 0,
        changes_at(changes, point(old_stack.last())) || w.voxel_at(
            old_stack.last().0 as int,
            old_stack.last().1 as int,
            old_stack.last().2 as int,
        ) != target,
        target == w.voxel_at(start.0 as int, start.1 as int, start.2 as int),
        flood_closed(w, target, changes, old_stack),
        changes_at(changes, point(start)) || old_stack.contains(start),
    ensures
        flood_closed(w, target, changes, old_stack.drop_last()),
        changes_at(changes, point(start)) || old_stack.drop_last().contains(start),
{
    let stack = old_stack.drop_last();
    assert forall|i: int, n: (int, int, int)|
        0 <= i < changes.len() && #[trigger] adjacent(point(changes[i].pos), n) && is_voxel_coord(n)
            && w.voxel_at(n.0, n.1, n.2) == target implies changes_at(changes, n) || stack.contains(
        (n.0 as i32, n.1 as i32, n.2 as i32),
    ) by {
        let m = (n.0 as i32, n.1 as i32, n.2 as i32);
        if !changes_at(changes, n) {
            assert(old_stack.contains(m));
            let j = choose|j: int| 0 <= j < old_stack.len() && old_stack[j] == m;
            if j < stack.len() {
                assert(stack[j] == m);
            }
        }
    }
    if !changes_at(changes, point(start)) {
        let j = choose|j: int| 0 <= j < old_stack.len() && old_stack[j] == start;
        if j < stack.len() {
            assert(stack[j] == start);
        }
    }
}

/// Recolors the voxels joined to `start` by voxels that hold what `start`
/// holds, as one command of the history, and returns how many it changed.
/// The fill stops once it has changed `max_voxels` voxels. Nothing happens
/// where `start` holds `new_voxel` already.
#[verifier::rlimit(50)]
pub fn flood_fill(
    world: &mut World,
    history: &mut CommandHistory,
    start: (i32, i32, i32),
    new_voxel: Voxel,
    max_voxels: usize,
) -> (count: usize)
    requires
        old(world).wf(),
    ensures
        final(world).wf(),
        old(world)@.voxel_at(start.0 as int, start.1 as int, start.2 as int) == new_voxel ==> count
            == 0 && final(world)@ == old(world)@ && final(history)@ == old(history)@,
        old(world)@.voxel_at(start.0 as int, start.1 as int, start.2 as int) != new_voxel
            ==> exists|changes: Seq<VoxelChange>|
            {
                &&& #[trigger] is_flood(old(world)@, start, new_voxel, max_voxels as nat, changes)
                &&& count == changes.len()
                &&& changes.len() == 0 ==> final(world)@ == old(world)@ && final(history)@ == old(
                    history,
                )@
                &&& changes.len() > 0 ==> final(history)@ == old(history)@.executed(
                    Edit::SetVoxels { changes },
                    old(world)@,
                ).0 && final(world)@ == old(history)@.executed(
                    Edit::SetVoxels { changes },
                    old(world)@,
                ).1
            },
{
    broadcast use vstd::std_specs::hash::group_hash_axioms;

    let target = world.get_voxel(start.0, start.1, start.2);
    if target == new_voxel {
        return 0;
    }
    let ghost w = world@;
    let mut changes: Vec<VoxelChange> = Vec::new();
    let mut visited: std::collections::HashSet<u128> = std::collections::HashSet::new();
    let mut stack: Vec<(i32, i32, i32)> = Vec::new();
    stack.push(start);
    proof {
        lemma_flood_start(w, start);
        assert(stack@[0] == start);
        assert(stack@ =~= seq![start]);
    }
    while stack.len() > 0 && changes.len() < max_voxels
        invariant
            world.wf(),
            world@ == w,
            target == w.voxel_at(start.0 as int, start.1 as int, start.2 as int),
            changes@.len() <= max_voxels,
            forall|k: u128|
                visited@.contains(k) <==> exists|i: int|
                    0 <= i < changes@.len() && pack((#[trigger] changes@[i]).pos) == k,
            forall|i: int|
                0 <= i < changes@.len() ==> {
                    &&& flood_region(w, start).contains(point((#[trigger] changes@[i]).pos))
                    &&& changes@[i].old_voxel == target
                    &&& changes@[i].new_voxel == new_voxel
                },
            forall|i: int, j: int|
                0 <= i < changes@.len() && 0 <= j < changes@.len() && i != j ==> (
                #[trigger] changes@[i]).pos != (#[trigger] changes@[j]).pos,
            forall|j: int|
                0 <= j < stack@.len() && w.voxel_at(
                    (#[trigger] stack@[j]).0 as int,
                    stack@[j].1 as int,
                    stack@[j].2 as int,
                ) == target ==> flood_region(w, start).contains(point(stack@[j])),
            flood_closed(w, target, changes@, stack@),
            changes_at(changes@, point(start)) || stack@.contains(start),
            grows_from(changes@, start),
            stack_joined(changes@, stack@, start),
        decreases max_voxels - changes.len(), stack.len(),
    {
        let ghost old_stack = stack@;
        let ghost old_changes = changes@;
        let pos = match stack.pop() {
            Some(pos) => pos,
            None => start,
        };
        assert(pos == old_stack.last() && stack@ == old_stack.drop_last());
        let key = key_of(pos.0, pos.1, pos.2);
        let seen = visited.contains(&key);
        let current = world.get_voxel(pos.0, pos.1, pos.2);
        if !seen && current == target {
            let change = VoxelChange { pos, old_voxel: current, new_voxel };
            visited.insert(key);
            changes.push(change);
            proof {
                let last = old_changes.len() as int;
                assert(changes@[last] == change);
                assert forall|i: int| 0 <= i < old_changes.len() implies changes@[i]
                    == old_changes[i] by {}
                assert forall|k: u128|
                    visited@.contains(k) <==> exists|i: int|
                        0 <= i < changes@.len() && pack((#[trigger] changes@[i]).pos) == k by {
                    if visited@.contains(k) && k != key {
                        let i = choose|i: int|
                            0 <= i < old_changes.len() && pack((#[trigger] old_changes[i]).pos)
                                == k;
                        assert(pack(changes@[i].pos) == k);
                    }
                    if exists|i: int|
                        0 <= i < changes@.len() && pack((#[trigger] changes@[i]).pos) == k {
                        let i = choose|i: int|
                            0 <= i < changes@.len() && pack((#[trigger] changes@[i]).pos) == k;
                        if i < last {
                            assert(pack(old_changes[i].pos) == k);
                        }
                    }
                }
                assert forall|i: int| 0 <= i < old_changes.len() implies (
                #[trigger] old_changes[i]).pos != pos by {
                    if old_changes[i].pos == pos {
                        assert(pack(old_changes[i].pos) == key);
                    }
                }
            }
            push_neighbors(&mut stack, &visited, pos);
            proof {
                assert forall|j: int|
                    0 <= j < stack@.len() && w.voxel_at(
                        (#[trigger] stack@[j]).0 as int,
                        stack@[j].1 as int,
                        stack@[j].2 as int,
                    ) == target implies flood_region(w, start).contains(point(stack@[j])) by {
                    if j >= old_stack.len() - 1 {
                        lemma_flood_step(w, start, point(pos), point(stack@[j]));
                    } else {
                        assert(stack@[j] == old_stack.drop_last()[j]);
                    }
                }
                lemma_flood_visit(
                    w,
                    target,
                    start,
                    old_changes,
                    old_stack,
                    change,
                    stack@,
                    visited@,
                );
                lemma_grows_visit(start, old_changes, old_stack, change, stack@, visited@);
            }
        } else {
            proof {
                if changes@.len() == 0 {
                    assert(old_stack[0] == start);
                    assert(!visited@.contains(key));
                }
                lemma_grows_skip(start, changes@, old_stack);
                if seen {
                    let i2 = choose|i2: int|
                        0 <= i2 < changes@.len() && pack((#[trigger] changes@[i2]).pos) == key;
                    crate::packing::lemma_pack_injective(changes@[i2].pos, pos);
                    assert(changes_at(changes@, point(pos)));
                }
                lemma_flood_skip(w, target, start, changes@, old_stack);
                assert forall|j: int| 0 <= j < stack@.len() implies stack@[j] == old_stack[j] by {}
            }
        }
    }
    let count = changes.len();
    proof {
        if count < max_voxels {
            assert(stack@ =~= Seq::empty());
            assert forall|c: (int, int, int)| flood_region(w, start).contains(c) implies changes_at(
                changes@,
                c,
            ) by {
                let path = choose|path: Seq<(int, int, int)>|
                    is_fill_path(w, target, point(start), c, path);
                lemma_flood_complete(w, target, changes@, path, path.len() - 1);
            }
        }
        assert(is_flood(w, start, new_voxel, max_voxels as nat, changes@));
    }
    if count > 0 {
        let cmd = Command::set_voxels(changes);
        history.execute(cmd, world);
    }
    count
}

} // verus!
