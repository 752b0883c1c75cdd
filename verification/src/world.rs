//! The world: a sparse map from chunk positions to chunks, with optional
//! bounds, addressed in voxel coordinates.

use crate::chunk::{
    cell_index, chunk_coord, count_solid, local_coord, Chunk, ChunkPos, LocalPos, CHUNK_VOLUME,
};
use crate::packing::{coords_of, is_key, lemma_pack_unpack, lemma_unpack_pack, pack, unpack};
use crate::voxel::Voxel;
use std::collections::hash_map::Entry;
use std::collections::HashMap;
use vstd::prelude::*;
use vstd::std_specs::iter::IteratorSpec;

verus! {

broadcast use vstd::std_specs::hash::group_hash_axioms;

/// The chunk positions of a finite world: a box from `min` to `max`, both
/// corners included.
#[derive(Debug, Clone, Copy)]
pub struct WorldBounds {
    pub min: ChunkPos,
    pub max: ChunkPos,
}

impl WorldBounds {
    pub open spec fn spec_contains(&self, pos: ChunkPos) -> bool {
        &&& self.min.x <= pos.x <= self.max.x
        &&& self.min.y <= pos.y <= self.max.y
        &&& self.min.z <= pos.z <= self.max.z
    }

    pub fn new(min: ChunkPos, max: ChunkPos) -> (b: WorldBounds)
        ensures
            b == (WorldBounds { min, max }),
    {
        WorldBounds { min, max }
    }

    /// The bounds that hold the chunk at the origin and no other.
    pub fn single_chunk() -> (b: WorldBounds)
        ensures
            b == (WorldBounds { min: ChunkPos::zero(), max: ChunkPos::zero() }),
    {
        WorldBounds { min: ChunkPos::zero(), max: ChunkPos::zero() }
    }

    /// The bounds that reach `half_size` chunks from the origin in every direction.
    pub fn centered(half_size: i32) -> (b: WorldBounds)
        requires
            half_size > i32::MIN,
        ensures
            b.min == (ChunkPos { x: (-half_size) as i32, y: (-half_size) as i32, z: (-half_size) as i32 }),
            b.max == (ChunkPos { x: half_size, y: half_size, z: half_size }),
    {
        WorldBounds {
            min: ChunkPos::new(-half_size, -half_size, -half_size),
            max: ChunkPos::new(half_size, half_size, half_size),
        }
    }

    /// Whether `pos` lies inside the bounds.
    #[verifier::when_used_as_spec(spec_contains)]
    pub fn contains(&self, pos: ChunkPos) -> (b: bool)
        ensures
            b == self.spec_contains(pos),
    {
        pos.x >= self.min.x && pos.x <= self.max.x && pos.y >= self.min.y && pos.y <= self.max.y
            && pos.z >= self.min.z && pos.z <= self.max.z
    }

    /// The number of chunk positions between `lo` and `hi` on one axis, both included.
    pub open spec fn extent(lo: i32, hi: i32) -> int {
        hi - lo + 1
    }

    /// The number of chunks along each axis.
    pub fn size(&self) -> (s: (u32, u32, u32))
        requires
            0 <= WorldBounds::extent(self.min.x, self.max.x) <= u32::MAX,
            0 <= WorldBounds::extent(self.min.y, self.max.y) <= u32::MAX,
            0 <= WorldBounds::extent(self.min.z, self.max.z) <= u32::MAX,
        ensures
            s.0 == WorldBounds::extent(self.min.x, self.max.x),
            s.1 == WorldBounds::extent(self.min.y, self.max.y),
            s.2 == WorldBounds::extent(self.min.z, self.max.z),
    {
        (
            (self.max.x as i64 - self.min.x as i64 + 1) as u32,
            (self.max.y as i64 - self.min.y as i64 + 1) as u32,
            (self.max.z as i64 - self.min.z as i64 + 1) as u32,
        )
    }

    /// The number of voxels along each axis.
    pub fn size_voxels(&self) -> (s: (u32, u32, u32))
        requires
            0 <= WorldBounds::extent(self.min.x, self.max.x) * 32 <= u32::MAX,
            0 <= WorldBounds::extent(self.min.y, self.max.y) * 32 <= u32::MAX,
            0 <= WorldBounds::extent(self.min.z, self.max.z) * 32 <= u32::MAX,
        ensures
            s.0 == WorldBounds::extent(self.min.x, self.max.x) * 32,
            s.1 == WorldBounds::extent(self.min.y, self.max.y) * 32,
            s.2 == WorldBounds::extent(self.min.z, self.max.z) * 32,
    {
        let (cx, cy, cz) = self.size();
        (cx * 32, cy * 32, cz * 32)
    }
}

/// What a chunk holds: its voxels in flat order and its dirty flag.
pub struct ChunkState {
    pub voxels: Seq<Voxel>,
    pub dirty: bool,
}

impl ChunkState {
    /// A chunk as `Chunk::new` makes it: all air, and dirty.
    pub open spec fn empty() -> ChunkState {
        ChunkState { voxels: Seq::new(CHUNK_VOLUME as nat, |i: int| Voxel::air()), dirty: true }
    }

    pub open spec fn wf(self) -> bool {
        self.voxels.len() == CHUNK_VOLUME
    }

    /// Whether no voxel is solid.
    pub open spec fn is_empty(self) -> bool {
        count_solid(self.voxels) == 0
    }
}

impl Chunk {
    /// The voxels and the dirty flag together.
    pub open spec fn state(&self) -> ChunkState {
        ChunkState { voxels: self@, dirty: self.spec_is_dirty() }
    }
}

/// What a world holds: its loaded chunks, its bounds and its any-dirty flag.
pub struct WorldState {
    pub chunks: Map<ChunkPos, ChunkState>,
    pub bounds: Option<WorldBounds>,
    pub any_dirty: bool,
}

impl WorldState {
    /// Every loaded chunk has 32768 voxels and lies inside the bounds.
    pub open spec fn wf(self) -> bool {
        forall|p: ChunkPos| #[trigger]
            self.chunks.contains_key(p) ==> self.chunks[p].wf() && self.in_bounds(p)
    }

    /// Whether a chunk may be loaded at `p`.
    pub open spec fn in_bounds(self, p: ChunkPos) -> bool {
        match self.bounds {
            Some(b) => b.contains(p),
            None => true,
        }
    }

    /// The chunk at `p`, or an empty one where none is loaded.
    pub open spec fn chunk_or_empty(self, p: ChunkPos) -> ChunkState {
        if self.chunks.contains_key(p) {
            self.chunks[p]
        } else {
            ChunkState::empty()
        }
    }

    /// The voxel at `(x, y, z)`: air where no chunk is loaded.
    pub open spec fn voxel_at(self, x: int, y: int, z: int) -> Voxel {
        self.chunk_or_empty(ChunkPos::spec_from_world_pos(x, y, z)).voxels[cell_index(
            local_coord(x),
            local_coord(y),
            local_coord(z),
        )]
    }

    /// The positions of the loaded chunks that are dirty.
    pub open spec fn dirty_positions(self) -> Set<ChunkPos> {
        Set::new(|p: ChunkPos| self.chunks.contains_key(p) && self.chunks[p].dirty)
    }

    /// Whether the any-dirty flag is raised or some loaded chunk is dirty.
    pub open spec fn has_dirty(self) -> bool {
        self.any_dirty || exists|p: ChunkPos| #[trigger]
            self.chunks.contains_key(p) && self.chunks[p].dirty
    }

    /// The world with every dirty flag lowered.
    pub open spec fn cleaned(self) -> WorldState {
        WorldState {
            chunks: Map::new(
                |p: ChunkPos| self.chunks.contains_key(p),
                |p: ChunkPos| ChunkState { dirty: false, ..self.chunks[p] },
            ),
            any_dirty: false,
            ..self
        }
    }

    /// The world without the chunks that hold no solid voxel.
    pub open spec fn pruned(self) -> WorldState {
        WorldState {
            chunks: Map::new(
                |p: ChunkPos| self.chunks.contains_key(p) && !self.chunks[p].is_empty(),
                |p: ChunkPos| self.chunks[p],
            ),
            ..self
        }
    }

    /// Whether painting `cells` writes to the chunk at `p`: the chunk lies
    /// inside the bounds and holds one of the cells.
    pub open spec fn touched(self, p: ChunkPos, cells: Set<(int, int, int)>) -> bool {
        self.in_bounds(p) && exists|i: int|
            0 <= i < 32768 && cells.contains(#[trigger] cell_coord(p, i))
    }

    /// The world after `paint` has been written to every voxel of `cells`:
    /// each chunk inside the bounds that holds one of the cells is loaded if
    /// need be, takes the voxels and becomes dirty. The any-dirty flag is
    /// raised unless `cells` is empty.
    pub open spec fn painted(self, cells: Set<(int, int, int)>, paint: Paint) -> WorldState {
        WorldState {
            chunks: Map::new(
                |p: ChunkPos| self.chunks.contains_key(p) || self.touched(p, cells),
                |p: ChunkPos|
                    if self.touched(p, cells) {
                        ChunkState {
                            voxels: Seq::new(
                                CHUNK_VOLUME as nat,
                                |i: int|
                                    if cells.contains(cell_coord(p, i)) {
                                        paint.color(cell_coord(p, i))
                                    } else {
                                        self.chunk_or_empty(p).voxels[i]
                                    },
                            ),
                            dirty: true,
                        }
                    } else {
                        self.chunks[p]
                    },
            ),
            any_dirty: self.any_dirty || exists|c: (int, int, int)| cells.contains(c),
            ..self
        }
    }

    /// Whether a write to `(x, y, z)` is stored: the chunk that holds the
    /// position lies inside the bounds.
    pub open spec fn writable(self, x: int, y: int, z: int) -> bool {
        self.in_bounds(ChunkPos::spec_from_world_pos(x, y, z))
    }

    /// A write keeps the world well formed. Inside the bounds it is read
    /// back; outside them it is dropped, and the position reads as air as it
    /// did before. No other position changes.
    pub proof fn lemma_set_voxel_reads(self, c: (int, int, int), v: Voxel, q: (int, int, int))
        requires
            self.wf(),
            is_voxel_coord(c),
            is_voxel_coord(q),
        ensures
            self.set_voxel(c.0, c.1, c.2, v).wf(),
            self.set_voxel(c.0, c.1, c.2, v).bounds == self.bounds,
            self.set_voxel(c.0, c.1, c.2, v).voxel_at(q.0, q.1, q.2) == (if q == c && self.writable(
                c.0,
                c.1,
                c.2,
            ) {
                v
            } else {
                self.voxel_at(q.0, q.1, q.2)
            }),
            !self.writable(c.0, c.1, c.2) ==> self.voxel_at(c.0, c.1, c.2) == Voxel::air(),
    {
        lemma_coord_cell(c);
        lemma_coord_cell(q);
        let after = self.set_voxel(c.0, c.1, c.2, v);
        let p = ChunkPos::spec_from_world_pos(c.0, c.1, c.2);
        assert forall|r: ChunkPos| #[trigger] after.chunks.contains_key(r) implies after.chunks[r].wf()
            && after.in_bounds(r) by {
            if r != p {
                assert(self.chunks.contains_key(r));
            }
        }
    }

    /// What a position reads after painting: the paint where the position was
    /// painted and its chunk lies inside the bounds, else what it read before.
    pub proof fn lemma_painted_reads(self, cells: Set<(int, int, int)>, paint: Paint, q: (int, int, int))
        requires
            self.wf(),
            is_voxel_coord(q),
        ensures
            self.painted(cells, paint).wf(),
            self.painted(cells, paint).bounds == self.bounds,
            self.painted(cells, paint).voxel_at(q.0, q.1, q.2) == (if cells.contains(q)
                && self.writable(q.0, q.1, q.2) {
                paint.color(q)
            } else {
                self.voxel_at(q.0, q.1, q.2)
            }),
    {
        lemma_coord_cell(q);
        let after = self.painted(cells, paint);
        let p = ChunkPos::spec_from_world_pos(q.0, q.1, q.2);
        assert forall|r: ChunkPos| #[trigger] after.chunks.contains_key(r) implies after.chunks[r].wf()
            && after.in_bounds(r) by {
            if !self.touched(r, cells) {
                assert(self.chunks.contains_key(r));
            }
        }
        if cells.contains(q) && self.in_bounds(p) {
            assert(cells.contains(cell_coord(p, coord_index(q))));
            assert(self.touched(p, cells));
        }
        if self.chunks.contains_key(p) {
            assert(self.chunks[p].wf());
        }
    }

    /// Painting no voxel changes nothing.
    pub proof fn lemma_painted_none(self, cells: Set<(int, int, int)>, paint: Paint)
        requires
            forall|c: (int, int, int)| !cells.contains(c),
        ensures
            self.painted(cells, paint) == self,
    {
        assert(self.painted(cells, paint).chunks =~= self.chunks);
    }

    /// Painting one more voxel is a write of its color.
    #[verifier::rlimit(50)]
    pub proof fn lemma_painted_insert(self, cells: Set<(int, int, int)>, c: (int, int, int), paint: Paint)
        requires
            self.wf(),
            is_voxel_coord(c),
            !cells.contains(c),
        ensures
            self.painted(cells.insert(c), paint) == self.painted(cells, paint).set_voxel(
                c.0,
                c.1,
                c.2,
                paint.color(c),
            ),
    {
        let more = cells.insert(c);
        let lhs = self.painted(more, paint);
        let mid = self.painted(cells, paint);
        let rhs = mid.set_voxel(c.0, c.1, c.2, paint.color(c));
        let p0 = ChunkPos::spec_from_world_pos(c.0, c.1, c.2);
        let i0 = coord_index(c);
        lemma_coord_cell(c);
        assert(more.contains(c));
        assert forall|p: ChunkPos, i: int| 0 <= i < 32768 implies (#[trigger] cell_coord(p, i) == c
            <==> p == p0 && i == i0) by {
            lemma_cell_coord(p, i);
        }
        assert forall|p: ChunkPos| self.touched(p, more) <==> (self.touched(p, cells) || (p == p0
            && self.in_bounds(p0))) by {
            if self.touched(p, more) {
                let i = choose|i: int| 0 <= i < 32768 && more.contains(#[trigger] cell_coord(p, i));
                if cell_coord(p, i) != c {
                    assert(cells.contains(cell_coord(p, i)));
                }
            }
            if self.touched(p, cells) {
                let i = choose|i: int| 0 <= i < 32768 && cells.contains(#[trigger] cell_coord(p, i));
                assert(more.contains(cell_coord(p, i)));
            }
            if p == p0 && self.in_bounds(p0) {
                assert(more.contains(cell_coord(p0, i0)));
            }
        }
        assert forall|p: ChunkPos| lhs.chunks.contains_key(p) <==> rhs.chunks.contains_key(p) by {}
        assert forall|p: ChunkPos| #[trigger] lhs.chunks.contains_key(p) implies lhs.chunks[p]
            == rhs.chunks[p] by {
            if self.touched(p, more) {
                if p == p0 {
                    let base = mid.chunk_or_empty(p0).voxels;
                    assert(base.len() == 32768);
                    assert(lhs.chunks[p].voxels =~= base.update(i0, paint.color(c))) by {
                        assert forall|i: int| 0 <= i < 32768 implies lhs.chunks[p].voxels[i]
                            == base.update(i0, paint.color(c))[i] by {
                            if !self.touched(p0, cells) && cells.contains(cell_coord(p0, i)) {
                                assert(false);
                            }
                        }
                    }
                } else {
                    assert(lhs.chunks[p].voxels =~= mid.chunks[p].voxels);
                }
            }
        }
        assert(lhs.chunks =~= rhs.chunks);
    }

    /// The world after a write of `v` to `(x, y, z)`: inside the bounds the
    /// chunk is loaded if need be, takes the voxel and becomes dirty; outside
    /// them nothing is stored. Either way the any-dirty flag is raised.
    pub open spec fn set_voxel(self, x: int, y: int, z: int, v: Voxel) -> WorldState {
        let p = ChunkPos::spec_from_world_pos(x, y, z);
        let i = cell_index(local_coord(x), local_coord(y), local_coord(z));
        if self.in_bounds(p) {
            WorldState {
                chunks: self.chunks.insert(
                    p,
                    ChunkState { voxels: self.chunk_or_empty(p).voxels.update(i, v), dirty: true },
                ),
                any_dirty: true,
                ..self
            }
        } else {
            WorldState { any_dirty: true, ..self }
        }
    }
}

/// The world after the writes of `writes`, first to last.
pub open spec fn written(w: WorldState, writes: Seq<((i32, i32, i32), Voxel)>) -> WorldState
    decreases writes.len(),
{
    if writes.len() == 0 {
        w
    } else {
        let last = writes.last();
        written(w, writes.drop_last()).set_voxel(
            last.0.0 as int,
            last.0.1 as int,
            last.0.2 as int,
            last.1,
        )
    }
}

/// The voxel coordinates of cell `i` of the chunk at `p`.
pub open spec fn cell_coord(p: ChunkPos, i: int) -> (int, int, int) {
    (p.x * 32 + i % 32, p.y * 32 + (i / 32) % 32, p.z * 32 + i / 1024)
}

/// The flat index, inside its chunk, of the voxel at `c`.
pub open spec fn coord_index(c: (int, int, int)) -> int {
    cell_index(local_coord(c.0), local_coord(c.1), local_coord(c.2))
}

/// Whether each coordinate of `c` is a 32-bit coordinate.
pub open spec fn is_voxel_coord(c: (int, int, int)) -> bool {
    &&& i32::MIN <= c.0 <= i32::MAX
    &&& i32::MIN <= c.1 <= i32::MAX
    &&& i32::MIN <= c.2 <= i32::MAX
}

/// The voxel coordinates inside the box from `min` to `max`, both corners included.
pub open spec fn box_cells(min: (int, int, int), max: (int, int, int)) -> Set<(int, int, int)> {
    Set::new(
        |c: (int, int, int)|
            {
                &&& is_voxel_coord(c)
                &&& min.0 <= c.0 <= max.0
                &&& min.1 <= c.1 <= max.1
                &&& min.2 <= c.2 <= max.2
            },
    )
}

/// The cells of a box that a walk along `x`, then `y`, then `z` has passed
/// when it stands at `at`.
pub open spec fn cells_before(min: (int, int, int), max: (int, int, int), at: (int, int, int)) -> Set<
    (int, int, int),
> {
    Set::new(
        |c: (int, int, int)|
            box_cells(min, max).contains(c) && (c.2 < at.2 || (c.2 == at.2 && (c.1 < at.1 || (c.1
                == at.1 && c.0 < at.0)))),
    )
}

/// A rule that gives each voxel coordinate a voxel.
pub enum Paint {
    /// The same voxel everywhere.
    Solid(Voxel),
    /// Grass green on the layer `y == top`, dirt brown elsewhere.
    Ground { top: i64 },
    /// One of six colors, chosen by the offsets from `center` along the
    /// three axes, added up.
    Cube { center: (i32, i32, i32) },
}

impl Paint {
    /// The voxel that the rule gives to `(x, y, z)`.
    pub fn voxel_at(&self, x: i32, y: i32, z: i32) -> (v: Voxel)
        ensures
            v == self.color((x as int, y as int, z as int)),
    {
        match self {
            Paint::Solid(v) => *v,
            Paint::Ground { top } => if y as i64 == *top {
                Voxel::from_rgb(76, 153, 0)
            } else {
                Voxel::from_rgb(139, 90, 43)
            },
            Paint::Cube { center } => {
                let sum: i64 = (x as i64 - center.0 as i64) + (y as i64 - center.1 as i64) + (z as i64
                    - center.2 as i64);
                let n: i64 = (if sum < 0 {
                    -sum
                } else {
                    sum
                }) % 6;
                if n == 0 {
                    Voxel::from_rgb(255, 0, 0)
                } else if n == 1 {
                    Voxel::from_rgb(0, 255, 0)
                } else if n == 2 {
                    Voxel::from_rgb(0, 0, 255)
                } else if n == 3 {
                    Voxel::from_rgb(255, 255, 0)
                } else if n == 4 {
                    Voxel::from_rgb(255, 0, 255)
                } else {
                    Voxel::from_rgb(0, 255, 255)
                }
            },
        }
    }

    /// The voxel that the rule gives to `c`.
    pub open spec fn color(self, c: (int, int, int)) -> Voxel {
        match self {
            Paint::Solid(v) => v,
            Paint::Ground { top } => if c.1 == top {
                Voxel { material: 1, r: 76, g: 153, b: 0, a: 255, flags: 0, _reserved: 0 }
            } else {
                Voxel { material: 1, r: 139, g: 90, b: 43, a: 255, flags: 0, _reserved: 0 }
            },
            Paint::Cube { center } => cube_color(
                (c.0 - center.0) + (c.1 - center.1) + (c.2 - center.2),
            ),
        }
    }
}

/// The color of a test cube's voxel whose three offsets from the center add up to `sum`.
pub open spec fn cube_color(sum: int) -> Voxel {
    let n = (if sum < 0 {
        -sum
    } else {
        sum
    }) % 6;
    let (r, g, b): (u8, u8, u8) = if n == 0 {
        (255, 0, 0)
    } else if n == 1 {
        (0, 255, 0)
    } else if n == 2 {
        (0, 0, 255)
    } else if n == 3 {
        (255, 255, 0)
    } else if n == 4 {
        (255, 0, 255)
    } else {
        (0, 255, 255)
    };
    Voxel { material: 1, r, g, b, a: 255, flags: 0, _reserved: 0 }
}

/// A cell's coordinates lead back to its chunk and its index.
pub proof fn lemma_cell_coord(p: ChunkPos, i: int)
    requires
        0 <= i < 32768,
    ensures
        ChunkPos::spec_from_world_pos(cell_coord(p, i).0, cell_coord(p, i).1, cell_coord(p, i).2)
            == p,
        coord_index(cell_coord(p, i)) == i,
{
    crate::chunk::lemma_index_split(i);
    let c = cell_coord(p, i);
    assert(chunk_coord(c.0) == p.x && local_coord(c.0) == i % 32);
    assert(chunk_coord(c.1) == p.y && local_coord(c.1) == (i / 32) % 32);
    assert(chunk_coord(c.2) == p.z && local_coord(c.2) == i / 1024);
}

/// A voxel coordinate is the coordinate of its cell in its chunk.
pub proof fn lemma_coord_cell(c: (int, int, int))
    requires
        is_voxel_coord(c),
    ensures
        0 <= coord_index(c) < 32768,
        cell_coord(ChunkPos::spec_from_world_pos(c.0, c.1, c.2), coord_index(c)) == c,
{
    crate::chunk::lemma_index_join(local_coord(c.0), local_coord(c.1), local_coord(c.2));
}

/// The key under which the chunk at `p` is stored.
spec fn chunk_key(p: ChunkPos) -> u128 {
    pack((p.x, p.y, p.z))
}

/// The chunk position stored under key `k`.
spec fn key_chunk(k: u128) -> ChunkPos {
    ChunkPos { x: unpack(k).0, y: unpack(k).1, z: unpack(k).2 }
}

spec fn key_valid(k: u128) -> bool {
    is_key(k)
}

proof fn lemma_key_of_chunk(p: ChunkPos)
    ensures
        key_valid(chunk_key(p)),
        key_chunk(chunk_key(p)) == p,
{
    lemma_unpack_pack((p.x, p.y, p.z));
}

proof fn lemma_chunk_of_key(k: u128)
    requires
        key_valid(k),
    ensures
        chunk_key(key_chunk(k)) == k,
{
    lemma_pack_unpack(k);
}

fn key_of(p: ChunkPos) -> (k: u128)
    ensures
        k == chunk_key(p),
        key_valid(k),
{
    crate::packing::key_of(p.x, p.y, p.z)
}

fn pos_of(k: u128) -> (p: ChunkPos)
    requires
        key_valid(k),
    ensures
        p == key_chunk(k),
        chunk_key(p) == k,
{
    let (x, y, z) = coords_of(k);
    ChunkPos { x, y, z }
}

/// A sparse grid of voxels, stored chunk by chunk. Chunks are loaded on the
/// first write to a position inside the bounds; a world without bounds is
/// unbounded.
pub struct World {
    chunks: HashMap<u128, Chunk>,
    bounds: Option<WorldBounds>,
    any_dirty: bool,
    /// Handed out for positions outside the bounds; what is written to it is lost.
    outside: Chunk,
}

impl View for World {
    type V = WorldState;

    closed spec fn view(&self) -> WorldState {
        WorldState {
            chunks: Map::new(
                |p: ChunkPos| self.chunks@.contains_key(chunk_key(p)),
                |p: ChunkPos| self.chunks@[chunk_key(p)].state(),
            ),
            bounds: self.bounds,
            any_dirty: self.any_dirty,
        }
    }
}

impl World {
    /// Every stored chunk is well formed and lies inside the bounds.
    pub closed spec fn wf(&self) -> bool {
        forall|k: u128| #[trigger]
            self.chunks@.contains_key(k) ==> {
                &&& key_valid(k)
                &&& self.chunks@[k].wf()
                &&& self@.in_bounds(key_chunk(k))
            }
    }

    /// A world that is well formed holds a well-formed state.
    pub proof fn lemma_wf_state(&self)
        requires
            self.wf(),
        ensures
            self@.wf(),
    {
        assert forall|p: ChunkPos| #[trigger] self@.chunks.contains_key(p) implies self@.chunks[p].wf()
            && self@.in_bounds(p) by {
            lemma_key_of_chunk(p);
        }
    }

    /// An empty world without bounds.
    pub fn new() -> (w: World)
        ensures
            w.wf(),
            w@ == (WorldState { chunks: Map::empty(), bounds: None, any_dirty: false }),
    {
        let w = World {
            chunks: HashMap::new(),
            bounds: None,
            any_dirty: false,
            outside: Chunk::new(),
        };
        assert(w@.chunks =~= Map::empty());
        w
    }

    /// An unbounded world with the voxels of `voxels` written to it, first
    /// to last.
    pub fn from_voxels(voxels: &Vec<((i32, i32, i32), Voxel)>) -> (w: World)
        ensures
            w.wf(),
            w@ == written(
                WorldState { chunks: Map::empty(), bounds: None, any_dirty: false },
                voxels@,
            ),
    {
        let mut w = World::new();
        let ghost start = w@;
        let mut i: usize = 0;
        while i < voxels.len()
            invariant
                i <= voxels@.len(),
                w.wf(),
                w@ == written(start, voxels@.take(i as int)),
            decreases voxels.len() - i,
        {
            let (pos, voxel) = voxels[i];
            w.set_voxel(pos.0, pos.1, pos.2, voxel);
            proof {
                assert(voxels@.take(i + 1).drop_last() =~= voxels@.take(i as int));
            }
            i = i + 1;
        }
        proof {
            assert(voxels@.take(i as int) =~= voxels@);
        }
        w
    }

    /// An empty world that holds chunks inside `bounds` only.
    pub fn bounded(bounds: WorldBounds) -> (w: World)
        ensures
            w.wf(),
            w@ == (WorldState { chunks: Map::empty(), bounds: Some(bounds), any_dirty: false }),
    {
        let w = World {
            chunks: HashMap::new(),
            bounds: Some(bounds),
            any_dirty: false,
            outside: Chunk::new(),
        };
        assert(w@.chunks =~= Map::empty());
        w
    }

    /// The bounds, or `None` for an unbounded world.
    pub fn bounds(&self) -> (b: Option<&WorldBounds>)
        ensures
            b == (match self@.bounds {
                Some(bounds) => Some(&bounds),
                None => None,
            }),
    {
        self.bounds.as_ref()
    }

    /// Whether a chunk is loaded at `pos`.
    pub fn has_chunk(&self, pos: ChunkPos) -> (b: bool)
        ensures
            b == self@.chunks.contains_key(pos),
    {
        self.chunks.contains_key(&key_of(pos))
    }

    /// The chunk loaded at `pos`, if there is one. Nothing is loaded by the call.
    pub fn get_chunk(&self, pos: ChunkPos) -> (c: Option<&Chunk>)
        requires
            self.wf(),
        ensures
            match c {
                Some(chunk) => self@.chunks.contains_key(pos) && chunk.state() == self@.chunks[pos]
                    && chunk.wf(),
                None => !self@.chunks.contains_key(pos),
            },
    {
        self.chunks.get(&key_of(pos))
    }

    /// The voxel at `(x, y, z)`; air where no chunk is loaded. Nothing is
    /// loaded by the call.
    pub fn get_voxel(&self, x: i32, y: i32, z: i32) -> (v: Voxel)
        requires
            self.wf(),
        ensures
            v == self@.voxel_at(x as int, y as int, z as int),
    {
        let pos = ChunkPos::from_world_pos(x, y, z);
        let local = LocalPos::from_world_pos(x, y, z);
        match self.chunks.get(&key_of(pos)) {
            Some(chunk) => chunk.get(local.x as usize, local.y as usize, local.z as usize),
            None => Voxel::air(),
        }
    }

    /// The chunk at `pos`, loaded empty first where there was none. For a
    /// position outside the bounds the call hands out a fresh empty chunk
    /// that belongs to no position: what is written to it is lost.
    pub fn get_or_create_chunk(&mut self, pos: ChunkPos) -> (chunk: &mut Chunk)
        requires
            old(self).wf(),
        ensures
            chunk.wf(),
            chunk.state() == (if old(self)@.in_bounds(pos) {
                old(self)@.chunk_or_empty(pos)
            } else {
                ChunkState::empty()
            }),
            final(chunk).wf() ==> final(self).wf(),
            final(self)@.bounds == old(self)@.bounds,
            final(self)@.any_dirty == old(self)@.any_dirty,
            final(self)@.chunks == (if old(self)@.in_bounds(pos) {
                old(self)@.chunks.insert(pos, final(chunk).state())
            } else {
                old(self)@.chunks
            }),
    {
        let inside = match &self.bounds {
            Some(bounds) => bounds.contains(pos),
            None => true,
        };
        proof {
            assert forall|p: ChunkPos| key_chunk(#[trigger] chunk_key(p)) == p by {
                lemma_key_of_chunk(p);
            }
        }
        if !inside {
            self.outside = Chunk::new();
            return &mut self.outside;
        }
        match self.chunks.entry(key_of(pos)) {
            Entry::Occupied(entry) => entry.into_mut(),
            Entry::Vacant(entry) => entry.insert(Chunk::new()),
        }
    }

    /// Writes `voxel` at `(x, y, z)`. The chunk that holds the position is
    /// loaded if need be; a write outside the bounds is dropped.
    pub fn set_voxel(&mut self, x: i32, y: i32, z: i32, voxel: Voxel)
        requires
            old(self).wf(),
        ensures
            final(self).wf(),
            final(self)@ == old(self)@.set_voxel(x as int, y as int, z as int, voxel),
    {
        let pos = ChunkPos::from_world_pos(x, y, z);
        let local = LocalPos::from_world_pos(x, y, z);
        let chunk = self.get_or_create_chunk(pos);
        chunk.set(local.x as usize, local.y as usize, local.z as usize, voxel);
        self.any_dirty = true;
        proof {
            let after = old(self)@.set_voxel(x as int, y as int, z as int, voxel);
            assert(self@.chunks =~= after.chunks);
        }
    }

    /// A world bounded to the chunk at the origin, with that chunk loaded.
    pub fn single_chunk() -> (w: World)
        ensures
            w.wf(),
            w@ == (WorldState {
                chunks: Map::empty().insert(ChunkPos::zero(), ChunkState::empty()),
                bounds: Some(WorldBounds { min: ChunkPos::zero(), max: ChunkPos::zero() }),
                any_dirty: false,
            }),
    {
        let mut w = World::bounded(WorldBounds::single_chunk());
        let _ = w.get_or_create_chunk(ChunkPos::zero());
        w
    }

    /// The number of loaded chunks.
    pub fn chunk_count(&self) -> (n: usize)
        requires
            self.wf(),
        ensures
            self@.chunks.dom().finite(),
            n == self@.chunks.dom().len(),
    {
        proof {
            self.lemma_positions();
        }
        self.chunks.len()
    }

    /// The loaded positions are the stored keys, one for one.
    proof fn lemma_positions(&self)
        requires
            self.wf(),
        ensures
            self@.chunks.dom().finite(),
            self@.chunks.dom().len() == self.chunks@.dom().len(),
            self@.chunks.dom() == self.chunks@.dom().map(|k: u128| key_chunk(k)),
    {
        let keys = self.chunks@.dom();
        let f = |k: u128| key_chunk(k);
        assert forall|p: ChunkPos| self@.chunks.dom().contains(p) <==> keys.map(f).contains(
            p,
        ) by {
            lemma_key_of_chunk(p);
            if self@.chunks.dom().contains(p) {
                assert(keys.contains(chunk_key(p)) && p == f(chunk_key(p)));
            }
            if keys.map(f).contains(p) {
                let k = choose|k: u128| keys.contains(k) && p == f(k);
                lemma_chunk_of_key(k);
            }
        }
        assert(self@.chunks.dom() =~= keys.map(f));
        assert(vstd::relations::injective_on(f, keys)) by {
            assert forall|k1: u128, k2: u128|
                keys.contains(k1) && keys.contains(k2) && f(k1) == f(k2) implies k1 == k2 by {
                lemma_chunk_of_key(k1);
                lemma_chunk_of_key(k2);
            }
        }
        vstd::set_lib::lemma_map_size(keys, keys.map(f), f);
    }

    /// Unloads every chunk and raises the any-dirty flag.
    pub fn clear(&mut self)
        ensures
            final(self).wf(),
            final(self)@ == (WorldState {
                chunks: Map::empty(),
                any_dirty: true,
                ..old(self)@
            }),
    {
        self.chunks.clear();
        self.any_dirty = true;
        assert(self@.chunks =~= Map::empty());
    }

    /// The stored keys, each once.
    fn keys(&self) -> (ks: Vec<u128>)
        ensures
            ks@.no_duplicates(),
            ks@.to_set() == self.chunks@.dom(),
    {
        let mut ks: Vec<u128> = Vec::new();
        let ghost all = self.chunks.keys().remaining();
        for k in it: self.chunks.keys()
            invariant
                it.seq() == all,
                ks@.len() == it.index(),
                forall|i: int| 0 <= i < ks@.len() ==> ks@[i] == *all[i],
        {
            ks.push(*k);
        }
        assert(ks@ =~= all.unref());
        ks
    }

    /// The positions of the loaded chunks, each once, in no particular order.
    #[verifier::rlimit(50)]
    pub fn chunk_positions(&self) -> (out: Vec<ChunkPos>)
        requires
            self.wf(),
        ensures
            out@.no_duplicates(),
            out@.to_set() == self@.chunks.dom(),
    {
        let ks = self.keys();
        let mut out: Vec<ChunkPos> = Vec::new();
        let mut i: usize = 0;
        while i < ks.len()
            invariant
                i <= ks.len(),
                self.wf(),
                ks@.to_set() == self.chunks@.dom(),
                out@.len() == i,
                forall|j: int| 0 <= j < i ==> out@[j] == key_chunk(#[trigger] ks@[j]),
            decreases ks.len() - i,
        {
            assert(ks@.to_set().contains(ks@[i as int]));
            out.push(pos_of(ks[i]));
            i = i + 1;
        }
        proof {
            assert forall|a: int, b: int|
                0 <= a < out@.len() && 0 <= b < out@.len() && a != b implies out@[a] != out@[b] by {
                assert(ks@.to_set().contains(ks@[a]) && ks@.to_set().contains(ks@[b]));
                lemma_chunk_of_key(ks@[a]);
                lemma_chunk_of_key(ks@[b]);
            }
            assert forall|p: ChunkPos| out@.to_set().contains(p) <==> self@.chunks.dom().contains(
                p,
            ) by {
                lemma_key_of_chunk(p);
                if out@.to_set().contains(p) {
                    let j = choose|j: int| 0 <= j < out@.len() && out@[j] == p;
                    assert(ks@.to_set().contains(ks@[j]));
                    lemma_chunk_of_key(ks@[j]);
                }
                if self@.chunks.dom().contains(p) {
                    assert(ks@.to_set().contains(chunk_key(p)));
                    let j = choose|j: int| 0 <= j < ks@.len() && ks@[j] == chunk_key(p);
                    assert(out@[j] == p);
                }
            }
            assert(out@.to_set() =~= self@.chunks.dom());
        }
        out
    }

    /// The loaded chunks with their positions, each once, in no particular order.
    #[verifier::rlimit(50)]
    pub fn chunks(&self) -> (out: Vec<(ChunkPos, &Chunk)>)
        requires
            self.wf(),
        ensures
            forall|a: int, b: int|
                0 <= a < out@.len() && 0 <= b < out@.len() && a != b ==> out@[a].0 != out@[b].0,
            forall|j: int|
                0 <= j < out@.len() ==> {
                    &&& self@.chunks.contains_key((#[trigger] out@[j]).0)
                    &&& out@[j].1.state() == self@.chunks[out@[j].0]
                    &&& out@[j].1.wf()
                },
            forall|p: ChunkPos|
                self@.chunks.contains_key(p) ==> exists|j: int|
                    0 <= j < out@.len() && (#[trigger] out@[j]).0 == p,
    {
        let ks = self.keys();
        let mut out: Vec<(ChunkPos, &Chunk)> = Vec::new();
        let mut i: usize = 0;
        while i < ks.len()
            invariant
                i <= ks.len(),
                self.wf(),
                ks@.to_set() == self.chunks@.dom(),
                out@.len() == i,
                forall|j: int|
                    0 <= j < i ==> (#[trigger] out@[j]).0 == key_chunk(ks@[j]) && *out@[j].1
                        == self.chunks@[ks@[j]],
            decreases ks.len() - i,
        {
            assert(ks@.to_set().contains(ks@[i as int]));
            let key = ks[i];
            match self.chunks.get(&key) {
                Some(chunk) => {
                    out.push((pos_of(key), chunk));
                },
                None => {
                    assert(false);
                },
            }
            i = i + 1;
        }
        proof {
            assert forall|a: int, b: int|
                0 <= a < out@.len() && 0 <= b < out@.len() && a != b implies out@[a].0
                != out@[b].0 by {
                assert(ks@.to_set().contains(ks@[a]) && ks@.to_set().contains(ks@[b]));
                lemma_chunk_of_key(ks@[a]);
                lemma_chunk_of_key(ks@[b]);
            }
            assert forall|j: int| 0 <= j < out@.len() implies {
                &&& self@.chunks.contains_key((#[trigger] out@[j]).0)
                &&& out@[j].1.state() == self@.chunks[out@[j].0]
                &&& out@[j].1.wf()
            } by {
                assert(ks@.to_set().contains(ks@[j]));
                lemma_chunk_of_key(ks@[j]);
            }
            assert forall|p: ChunkPos| self@.chunks.contains_key(p) implies exists|j: int|
                0 <= j < out@.len() && (#[trigger] out@[j]).0 == p by {
                lemma_key_of_chunk(p);
                assert(ks@.to_set().contains(chunk_key(p)));
                let j = choose|j: int| 0 <= j < ks@.len() && ks@[j] == chunk_key(p);
                assert(out@[j].0 == p);
            }
        }
        out
    }

    /// Whether a mesh may be out of date: the any-dirty flag is raised or a
    /// loaded chunk is dirty.
    pub fn has_dirty_chunks(&self) -> (b: bool)
        requires
            self.wf(),
        ensures
            b == self@.has_dirty(),
    {
        if self.any_dirty {
            return true;
        }
        let ks = self.keys();
        let mut i: usize = 0;
        while i < ks.len()
            invariant
                i <= ks.len(),
                self.wf(),
                ks@.to_set() == self.chunks@.dom(),
                forall|j: int| 0 <= j < i ==> !self.chunks@[#[trigger] ks@[j]].spec_is_dirty(),
            decreases ks.len() - i,
        {
            assert(ks@.to_set().contains(ks@[i as int]));
            let key = ks[i];
            match self.chunks.get(&key) {
                Some(chunk) => {
                    if chunk.is_dirty() {
                        proof {
                            lemma_chunk_of_key(key);
                            assert(self@.chunks.contains_key(key_chunk(key)));
                        }
                        return true;
                    }
                },
                None => {
                    assert(false);
                },
            }
            i = i + 1;
        }
        proof {
            assert forall|p: ChunkPos| #[trigger] self@.chunks.contains_key(p) implies !self@.chunks[p].dirty by {
                assert(ks@.to_set().contains(chunk_key(p)));
                let j = choose|j: int| 0 <= j < ks@.len() && ks@[j] == chunk_key(p);
                assert(!self.chunks@[ks@[j]].spec_is_dirty());
            }
        }
        false
    }

    /// The positions of the loaded chunks that are dirty, each once, in no
    /// particular order.
    #[verifier::rlimit(50)]
    pub fn dirty_chunks(&self) -> (out: Vec<ChunkPos>)
        requires
            self.wf(),
        ensures
            out@.no_duplicates(),
            out@.to_set() == self@.dirty_positions(),
    {
        let ks = self.keys();
        let mut out: Vec<ChunkPos> = Vec::new();
        let ghost mut src: Seq<int> = Seq::empty();
        let mut i: usize = 0;
        while i < ks.len()
            invariant
                i <= ks.len(),
                self.wf(),
                ks@.no_duplicates(),
                ks@.to_set() == self.chunks@.dom(),
                src.len() == out@.len(),
                forall|j: int|
                    0 <= j < src.len() ==> {
                        &&& 0 <= #[trigger] src[j] < i
                        &&& out@[j] == key_chunk(ks@[src[j]])
                        &&& self.chunks@[ks@[src[j]]].spec_is_dirty()
                    },
                forall|a: int, b: int| 0 <= a < b < src.len() ==> src[a] < src[b],
                forall|n: int|
                    0 <= n < i && self.chunks@[#[trigger] ks@[n]].spec_is_dirty() ==> exists|j: int|
                        0 <= j < src.len() && src[j] == n,
            decreases ks.len() - i,
        {
            assert(ks@.to_set().contains(ks@[i as int]));
            let key = ks[i];
            match self.chunks.get(&key) {
                Some(chunk) => {
                    if chunk.is_dirty() {
                        out.push(pos_of(key));
                        proof {
                            let ghost before = src;
                            src = src.push(i as int);
                            assert forall|n: int|
                                0 <= n < i + 1 && self.chunks@[#[trigger] ks@[n]].spec_is_dirty() implies exists|
                                j: int,
                            |
                                0 <= j < src.len() && src[j] == n by {
                                if n < i {
                                    let j = choose|j: int| 0 <= j < before.len() && before[j] == n;
                                    assert(src[j] == n);
                                } else {
                                    assert(src[src.len() - 1] == n);
                                }
                            }
                        }
                    }
                },
                None => {
                    assert(false);
                },
            }
            i = i + 1;
        }
        proof {
            assert forall|a: int, b: int|
                0 <= a < out@.len() && 0 <= b < out@.len() && a != b implies out@[a] != out@[b] by {
                assert(ks@.to_set().contains(ks@[src[a]]) && ks@.to_set().contains(ks@[src[b]]));
                lemma_chunk_of_key(ks@[src[a]]);
                lemma_chunk_of_key(ks@[src[b]]);
                if a < b {
                    assert(src[a] < src[b]);
                } else {
                    assert(src[b] < src[a]);
                }
            }
            assert forall|p: ChunkPos| out@.to_set().contains(p) <==> self@.dirty_positions().contains(
                p,
            ) by {
                lemma_key_of_chunk(p);
                if out@.to_set().contains(p) {
                    let j = choose|j: int| 0 <= j < out@.len() && out@[j] == p;
                    assert(ks@.to_set().contains(ks@[src[j]]));
                    lemma_chunk_of_key(ks@[src[j]]);
                }
                if self@.dirty_positions().contains(p) {
                    assert(ks@.to_set().contains(chunk_key(p)));
                    let n = choose|n: int| 0 <= n < ks@.len() && ks@[n] == chunk_key(p);
                    let j = choose|j: int| 0 <= j < src.len() && src[j] == n;
                    assert(out@[j] == p);
                }
            }
            assert(out@.to_set() =~= self@.dirty_positions());
        }
        out
    }

    /// Lowers the dirty flag of every loaded chunk and the any-dirty flag.
    #[verifier::rlimit(50)]
    pub fn clear_dirty_flags(&mut self)
        requires
            old(self).wf(),
        ensures
            final(self).wf(),
            final(self)@ == old(self)@.cleaned(),
    {
        let ks = self.keys();
        let mut i: usize = 0;
        while i < ks.len()
            invariant
                i <= ks.len(),
                self.wf(),
                ks@.no_duplicates(),
                ks@.to_set() == self.chunks@.dom(),
                self.chunks@.dom() == old(self).chunks@.dom(),
                self.bounds == old(self).bounds,
                forall|n: int|
                    0 <= n < ks@.len() ==> (#[trigger] self.chunks@[ks@[n]])@ == old(
                        self,
                    ).chunks@[ks@[n]]@,
                forall|n: int| 0 <= n < i ==> !(#[trigger] self.chunks@[ks@[n]]).spec_is_dirty(),
            decreases ks.len() - i,
        {
            assert(ks@.to_set().contains(ks@[i as int]));
            let key = ks[i];
            let ghost before = self.chunks@;
            match self.chunks.remove(&key) {
                Some(chunk) => {
                    let mut chunk = chunk;
                    chunk.clear_dirty();
                    self.chunks.insert(key, chunk);
                },
                None => {
                    assert(false);
                },
            }
            proof {
                assert(self.chunks@.dom() =~= before.dom());
                assert forall|n: int| 0 <= n < ks@.len() implies (#[trigger] self.chunks@[ks@[n]])@
                    == old(self).chunks@[ks@[n]]@ by {
                    assert(before[ks@[n]]@ == old(self).chunks@[ks@[n]]@);
                }
                assert forall|n: int| 0 <= n < i + 1 implies !(#[trigger] self.chunks@[ks@[n]]).spec_is_dirty() by {
                    if n < i {
                        assert(!before[ks@[n]].spec_is_dirty());
                    }
                }
            }
            i = i + 1;
        }
        self.any_dirty = false;
        proof {
            assert forall|p: ChunkPos| old(self)@.chunks.contains_key(p) implies self@.chunks[p]
                == old(self)@.cleaned().chunks[p] by {
                assert(ks@.to_set().contains(chunk_key(p)));
                let n = choose|n: int| 0 <= n < ks@.len() && ks@[n] == chunk_key(p);
                assert(!self.chunks@[ks@[n]].spec_is_dirty());
            }
            assert(self@.chunks =~= old(self)@.cleaned().chunks);
        }
    }

    /// Unloads the chunks that hold no solid voxel.
    #[verifier::rlimit(50)]
    pub fn prune_empty_chunks(&mut self)
        requires
            old(self).wf(),
        ensures
            final(self).wf(),
            final(self)@ == old(self)@.pruned(),
    {
        let ks = self.keys();
        let mut i: usize = 0;
        while i < ks.len()
            invariant
                i <= ks.len(),
                self.wf(),
                ks@.no_duplicates(),
                ks@.to_set() == old(self).chunks@.dom(),
                self.bounds == old(self).bounds,
                self.any_dirty == old(self).any_dirty,
                forall|k: u128| #[trigger]
                    self.chunks@.contains_key(k) ==> old(self).chunks@.contains_key(k)
                        && self.chunks@[k] == old(self).chunks@[k],
                forall|n: int|
                    0 <= n < i ==> (self.chunks@.contains_key(#[trigger] ks@[n]) <==> !old(
                        self,
                    ).chunks@[ks@[n]].state().is_empty()),
                forall|n: int| i <= n < ks@.len() ==> self.chunks@.contains_key(#[trigger] ks@[n]),
            decreases ks.len() - i,
        {
            assert(ks@.to_set().contains(ks@[i as int]));
            let key = ks[i];
            let ghost before = self.chunks@;
            let empty = match self.chunks.get(&key) {
                Some(chunk) => chunk.is_empty(),
                None => false,
            };
            if empty {
                self.chunks.remove(&key);
            }
            proof {
                assert forall|n: int| 0 <= n < i + 1 implies (self.chunks@.contains_key(
                    #[trigger] ks@[n],
                ) <==> !old(self).chunks@[ks@[n]].state().is_empty()) by {
                    if n < i {
                        assert(before.contains_key(ks@[n]) <==> !old(
                            self,
                        ).chunks@[ks@[n]].state().is_empty());
                    }
                }
                assert forall|n: int| i + 1 <= n < ks@.len() implies self.chunks@.contains_key(
                    #[trigger] ks@[n],
                ) by {
                    assert(before.contains_key(ks@[n]));
                }
            }
            i = i + 1;
        }
        proof {
            assert forall|p: ChunkPos| self@.chunks.contains_key(p) <==> old(
                self,
            )@.pruned().chunks.contains_key(p) by {
                if old(self)@.chunks.contains_key(p) {
                    assert(ks@.to_set().contains(chunk_key(p)));
                    let n = choose|n: int| 0 <= n < ks@.len() && ks@[n] == chunk_key(p);
                    assert(self.chunks@.contains_key(ks@[n]) <==> !old(
                        self,
                    ).chunks@[ks@[n]].state().is_empty());
                }
            }
            assert(self@.chunks =~= old(self)@.pruned().chunks);
        }
    }

    /// Writes `paint` to every voxel of the box from `min` to `max`, row by row.
    #[verifier::rlimit(50)]
    fn paint_box(&mut self, min: (i64, i64, i64), max: (i64, i64, i64), paint: Paint)
        requires
            old(self).wf(),
        ensures
            final(self).wf(),
            final(self)@ == old(self)@.painted(
                box_cells(
                    (min.0 as int, min.1 as int, min.2 as int),
                    (max.0 as int, max.1 as int, max.2 as int),
                ),
                paint,
            ),
    {
        let ghost start = self@;
        let ghost lo = (min.0 as int, min.1 as int, min.2 as int);
        let ghost hi = (max.0 as int, max.1 as int, max.2 as int);
        let x0: i64 = if min.0 < i32::MIN as i64 { i32::MIN as i64 } else { min.0 };
        let y0: i64 = if min.1 < i32::MIN as i64 { i32::MIN as i64 } else { min.1 };
        let z0: i64 = if min.2 < i32::MIN as i64 { i32::MIN as i64 } else { min.2 };
        let x1: i64 = if max.0 > i32::MAX as i64 { i32::MAX as i64 } else { max.0 };
        let y1: i64 = if max.1 > i32::MAX as i64 { i32::MAX as i64 } else { max.1 };
        let z1: i64 = if max.2 > i32::MAX as i64 { i32::MAX as i64 } else { max.2 };
        proof {
            self.lemma_wf_state();
        }
        if x0 > x1 || y0 > y1 || z0 > z1 {
            proof {
                start.lemma_painted_none(box_cells(lo, hi), paint);
            }
            return ;
        }
        let mut z: i64 = z0;
        proof {
            start.lemma_painted_none(cells_before(lo, hi, (x0 as int, y0 as int, z as int)), paint);
        }
        while z <= z1
            invariant
                self.wf(),
                start.wf(),
                i32::MIN <= x0 <= x1 <= i32::MAX,
                i32::MIN <= y0 <= y1 <= i32::MAX,
                i32::MIN <= z0 <= z <= z1 + 1 <= i32::MAX + 1,
                x0 == (if lo.0 < i32::MIN { i32::MIN as int } else { lo.0 }),
                y0 == (if lo.1 < i32::MIN { i32::MIN as int } else { lo.1 }),
                z0 == (if lo.2 < i32::MIN { i32::MIN as int } else { lo.2 }),
                x1 == (if hi.0 > i32::MAX { i32::MAX as int } else { hi.0 }),
                y1 == (if hi.1 > i32::MAX { i32::MAX as int } else { hi.1 }),
                z1 == (if hi.2 > i32::MAX { i32::MAX as int } else { hi.2 }),
                self@ == start.painted(
                    cells_before(lo, hi, (x0 as int, y0 as int, z as int)),
                    paint,
                ),
            decreases z1 + 1 - z,
        {
            let mut y: i64 = y0;
            while y <= y1
                invariant
                    self.wf(),
                    start.wf(),
                    i32::MIN <= x0 <= x1 <= i32::MAX,
                    i32::MIN <= y0 <= y <= y1 + 1 <= i32::MAX + 1,
                    i32::MIN <= z0 <= z <= z1 <= i32::MAX,
                    x0 == (if lo.0 < i32::MIN { i32::MIN as int } else { lo.0 }),
                    y0 == (if lo.1 < i32::MIN { i32::MIN as int } else { lo.1 }),
                    z0 == (if lo.2 < i32::MIN { i32::MIN as int } else { lo.2 }),
                    x1 == (if hi.0 > i32::MAX { i32::MAX as int } else { hi.0 }),
                    y1 == (if hi.1 > i32::MAX { i32::MAX as int } else { hi.1 }),
                    z1 == (if hi.2 > i32::MAX { i32::MAX as int } else { hi.2 }),
                    self@ == start.painted(
                        cells_before(lo, hi, (x0 as int, y as int, z as int)),
                        paint,
                    ),
                decreases y1 + 1 - y,
            {
                let mut x: i64 = x0;
                while x <= x1
                    invariant
                        self.wf(),
                        start.wf(),
                        i32::MIN <= x0 <= x <= x1 + 1 <= i32::MAX + 1,
                        i32::MIN <= y0 <= y <= y1 <= i32::MAX,
                        i32::MIN <= z0 <= z <= z1 <= i32::MAX,
                        x0 == (if lo.0 < i32::MIN { i32::MIN as int } else { lo.0 }),
                        y0 == (if lo.1 < i32::MIN { i32::MIN as int } else { lo.1 }),
                        z0 == (if lo.2 < i32::MIN { i32::MIN as int } else { lo.2 }),
                        x1 == (if hi.0 > i32::MAX { i32::MAX as int } else { hi.0 }),
                        y1 == (if hi.1 > i32::MAX { i32::MAX as int } else { hi.1 }),
                        z1 == (if hi.2 > i32::MAX { i32::MAX as int } else { hi.2 }),
                        self@ == start.painted(
                            cells_before(lo, hi, (x as int, y as int, z as int)),
                            paint,
                        ),
                    decreases x1 + 1 - x,
                {
                    let voxel = paint.voxel_at(x as i32, y as i32, z as i32);
                    self.set_voxel(x as i32, y as i32, z as i32, voxel);
                    proof {
                        let c = (x as int, y as int, z as int);
                        let done = cells_before(lo, hi, c);
                        start.lemma_painted_insert(done, c, paint);
                        assert(done.insert(c) =~= cells_before(lo, hi, (x + 1, y as int, z as int)));
                    }
                    x = x + 1;
                }
                proof {
                    assert(cells_before(lo, hi, (x as int, y as int, z as int)) =~= cells_before(
                        lo,
                        hi,
                        (x0 as int, y + 1, z as int),
                    ));
                }
                y = y + 1;
            }
            proof {
                assert(cells_before(lo, hi, (x0 as int, y as int, z as int)) =~= cells_before(
                    lo,
                    hi,
                    (x0 as int, y0 as int, z + 1),
                ));
            }
            z = z + 1;
        }
        proof {
            assert(cells_before(lo, hi, (x0 as int, y0 as int, z as int)) =~= box_cells(lo, hi));
        }
    }

    /// Writes `voxel` to every position of the box from `min` to `max`, both
    /// corners included, across chunk borders.
    pub fn fill_region(&mut self, min: (i32, i32, i32), max: (i32, i32, i32), voxel: Voxel)
        requires
            old(self).wf(),
        ensures
            final(self).wf(),
            final(self)@ == old(self)@.painted(
                box_cells(
                    (min.0 as int, min.1 as int, min.2 as int),
                    (max.0 as int, max.1 as int, max.2 as int),
                ),
                Paint::Solid(voxel),
            ),
    {
        self.paint_box(
            (min.0 as i64, min.1 as i64, min.2 as i64),
            (max.0 as i64, max.1 as i64, max.2 as i64),
            Paint::Solid(voxel),
        );
    }

    /// Half the side of a test ground of size `size`, rounded towards zero.
    pub open spec fn ground_half(size: i32) -> int {
        if size >= 0 {
            size / 2
        } else {
            -((-size) / 2)
        }
    }

    /// Lays a square ground around the origin: `height` layers from `y = 0`
    /// up that reach `size / 2` voxels from the origin along `x` and `z`, the
    /// top layer grass green, the others dirt brown.
    pub fn create_test_ground(&mut self, size: i32, height: i32)
        requires
            old(self).wf(),
        ensures
            final(self).wf(),
            final(self)@ == old(self)@.painted(
                box_cells(
                    (-World::ground_half(size), 0, -World::ground_half(size)),
                    (World::ground_half(size), height - 1, World::ground_half(size)),
                ),
                Paint::Ground { top: (height - 1) as i64 },
            ),
    {
        let half: i64 = if size >= 0 {
            (size / 2) as i64
        } else {
            -((-(size as i64)) / 2)
        };
        self.paint_box(
            (-half, 0, -half),
            (half, height as i64 - 1, half),
            Paint::Ground { top: height as i64 - 1 },
        );
    }

    /// Builds a cube of `2 * half_size + 1` voxels a side around `center`,
    /// in six colors. The part of the cube outside the 32-bit coordinates is
    /// left out.
    pub fn create_test_cube(&mut self, center: (i32, i32, i32), half_size: i32)
        requires
            old(self).wf(),
        ensures
            final(self).wf(),
            final(self)@ == old(self)@.painted(
                box_cells(
                    (center.0 - half_size, center.1 - half_size, center.2 - half_size),
                    (center.0 + half_size, center.1 + half_size, center.2 + half_size),
                ),
                Paint::Cube { center },
            ),
    {
        let h = half_size as i64;
        self.paint_box(
            (center.0 as i64 - h, center.1 as i64 - h, center.2 as i64 - h),
            (center.0 as i64 + h, center.1 as i64 + h, center.2 as i64 + h),
            Paint::Cube { center },
        );
    }
}

impl Default for World {
    fn default() -> (w: World)
        ensures
            w.wf(),
            w@ == (WorldState { chunks: Map::empty(), bounds: None, any_dirty: false }),
    {
        World::new()
    }
}

} // verus!
