//! Chunks: fixed 32 x 32 x 32 blocks of voxels, and the coordinates that
//! address them.

use crate::voxel::Voxel;
use vstd::prelude::*;

verus! {

/// Edge length of a chunk, in voxels.
pub const CHUNK_SIZE: usize = 32;

/// Edge length of a chunk as a signed coordinate.
pub const CHUNK_SIZE_I32: i32 = 32;

/// Number of voxels in a chunk.
pub const CHUNK_VOLUME: usize = 32768;

/// The chunk coordinate that holds voxel coordinate `v` on one axis: `v / 32`,
/// rounded towards negative infinity.
pub open spec fn chunk_coord(v: int) -> int {
    v / 32
}

/// The offset of voxel coordinate `v` inside its chunk on one axis, in `[0, 32)`.
pub open spec fn local_coord(v: int) -> int {
    v % 32
}

/// The position of a cell in a chunk's flat voxel order: `x` varies fastest,
/// then `y`, then `z`.
pub open spec fn cell_index(x: int, y: int, z: int) -> int {
    x + y * 32 + z * 1024
}

/// Splitting a flat index into its three coordinates and putting them together
/// again gives the index back.
pub proof fn lemma_index_split(index: int)
    requires
        0 <= index < 32768,
    ensures
        0 <= index % 32 < 32,
        0 <= (index / 32) % 32 < 32,
        0 <= index / 1024 < 32,
        cell_index(index % 32, (index / 32) % 32, index / 1024) == index,
{
    assert(index / 1024 == (index / 32) / 32);
}

/// Putting three coordinates together and splitting the flat index again
/// gives the coordinates back.
pub proof fn lemma_index_join(x: int, y: int, z: int)
    requires
        0 <= x < 32,
        0 <= y < 32,
        0 <= z < 32,
    ensures
        0 <= cell_index(x, y, z) < 32768,
        cell_index(x, y, z) % 32 == x,
        (cell_index(x, y, z) / 32) % 32 == y,
        cell_index(x, y, z) / 1024 == z,
{
    let i = cell_index(x, y, z);
    assert(i == x + 32 * (y + 32 * z));
    assert(i / 32 == y + 32 * z);
}

/// Position of a chunk, counted in chunks.
#[derive(Debug, Clone, Copy, PartialEq, Eq, Structural, Hash)]
pub struct ChunkPos {
    pub x: i32,
    pub y: i32,
    pub z: i32,
}

fn floor_div_32(v: i32) -> (q: i32)
    ensures
        q == chunk_coord(v as int),
{
    match v.checked_div_euclid(CHUNK_SIZE_I32) {
        Some(q) => q,
        None => 0,
    }
}

fn floor_mod_32(v: i32) -> (r: i32)
    ensures
        r == local_coord(v as int),
        0 <= r < 32,
{
    match v.checked_rem_euclid(CHUNK_SIZE_I32) {
        Some(r) => r,
        None => 0,
    }
}

impl ChunkPos {
    pub open spec fn spec_zero() -> ChunkPos {
        ChunkPos { x: 0, y: 0, z: 0 }
    }

    /// The chunk at the origin.
    #[verifier::when_used_as_spec(spec_zero)]
    pub fn zero() -> (p: ChunkPos)
        ensures
            p == ChunkPos::spec_zero(),
    {
        ChunkPos { x: 0, y: 0, z: 0 }
    }

    pub fn new(x: i32, y: i32, z: i32) -> (p: ChunkPos)
        ensures
            p == (ChunkPos { x, y, z }),
    {
        ChunkPos { x, y, z }
    }

    /// The chunk that holds the voxel at `(x, y, z)`.
    pub open spec fn spec_from_world_pos(x: int, y: int, z: int) -> ChunkPos {
        ChunkPos { x: chunk_coord(x) as i32, y: chunk_coord(y) as i32, z: chunk_coord(z) as i32 }
    }

    /// The chunk that holds the voxel at `(x, y, z)`: each coordinate divided
    /// by 32 and rounded down, so that voxel `-1` lies in chunk `-1`.
    pub fn from_world_pos(x: i32, y: i32, z: i32) -> (p: ChunkPos)
        ensures
            p == ChunkPos::spec_from_world_pos(x as int, y as int, z as int),
            p.x == chunk_coord(x as int),
            p.y == chunk_coord(y as int),
            p.z == chunk_coord(z as int),
            p.holds_voxels(),
    {
        ChunkPos { x: floor_div_32(x), y: floor_div_32(y), z: floor_div_32(z) }
    }

    /// Whether the chunk holds voxels with 32-bit coordinates: each of its
    /// coordinates, times 32, is an `i32`.
    pub open spec fn holds_voxels(&self) -> bool {
        &&& -0x400_0000 <= self.x < 0x400_0000
        &&& -0x400_0000 <= self.y < 0x400_0000
        &&& -0x400_0000 <= self.z < 0x400_0000
    }

    /// The voxel coordinates of the chunk's minimum corner.
    pub fn world_origin(&self) -> (o: (i32, i32, i32))
        requires
            self.holds_voxels(),
        ensures
            o.0 == self.x * 32,
            o.1 == self.y * 32,
            o.2 == self.z * 32,
    {
        (self.x * CHUNK_SIZE_I32, self.y * CHUNK_SIZE_I32, self.z * CHUNK_SIZE_I32)
    }

    /// The chunk `(dx, dy, dz)` chunks away.
    pub fn neighbor(&self, dx: i32, dy: i32, dz: i32) -> (p: ChunkPos)
        requires
            i32::MIN <= self.x + dx <= i32::MAX,
            i32::MIN <= self.y + dy <= i32::MAX,
            i32::MIN <= self.z + dz <= i32::MAX,
        ensures
            p.x == self.x + dx,
            p.y == self.y + dy,
            p.z == self.z + dz,
    {
        ChunkPos { x: self.x + dx, y: self.y + dy, z: self.z + dz }
    }
}

impl From<(i32, i32, i32)> for ChunkPos {
    fn from(v: (i32, i32, i32)) -> (p: ChunkPos) {
        ChunkPos { x: v.0, y: v.1, z: v.2 }
    }
}

impl vstd::std_specs::convert::FromSpecImpl<(i32, i32, i32)> for ChunkPos {
    open spec fn obeys_from_spec() -> bool {
        true
    }

    open spec fn from_spec(v: (i32, i32, i32)) -> ChunkPos {
        ChunkPos { x: v.0, y: v.1, z: v.2 }
    }
}

impl From<[i32; 3]> for ChunkPos {
    fn from(v: [i32; 3]) -> (p: ChunkPos) {
        ChunkPos { x: v[0], y: v[1], z: v[2] }
    }
}

impl vstd::std_specs::convert::FromSpecImpl<[i32; 3]> for ChunkPos {
    open spec fn obeys_from_spec() -> bool {
        true
    }

    open spec fn from_spec(v: [i32; 3]) -> ChunkPos {
        ChunkPos { x: v@[0], y: v@[1], z: v@[2] }
    }
}

impl Default for ChunkPos {
    fn default() -> (p: ChunkPos)
        ensures
            p == ChunkPos::zero(),
    {
        ChunkPos { x: 0, y: 0, z: 0 }
    }
}

/// Position of a cell inside a chunk; each coordinate lies in `[0, 32)`.
#[derive(Debug, Clone, Copy, PartialEq, Eq, Structural)]
pub struct LocalPos {
    pub x: u8,
    pub y: u8,
    pub z: u8,
}

impl LocalPos {
    /// Whether every coordinate lies inside a chunk.
    pub open spec fn in_chunk(&self) -> bool {
        self.x < 32 && self.y < 32 && self.z < 32
    }

    pub open spec fn spec_to_index(self) -> int {
        cell_index(self.x as int, self.y as int, self.z as int)
    }

    pub open spec fn spec_from_index(index: int) -> LocalPos {
        LocalPos { x: (index % 32) as u8, y: ((index / 32) % 32) as u8, z: (index / 1024) as u8 }
    }

    pub fn new(x: u8, y: u8, z: u8) -> (p: LocalPos)
        requires
            x < 32,
            y < 32,
            z < 32,
        ensures
            p == (LocalPos { x, y, z }),
            p.in_chunk(),
    {
        LocalPos { x, y, z }
    }

    /// The cell of the voxel at `(x, y, z)` inside the chunk that holds it.
    pub fn from_world_pos(x: i32, y: i32, z: i32) -> (p: LocalPos)
        ensures
            p.x == local_coord(x as int),
            p.y == local_coord(y as int),
            p.z == local_coord(z as int),
            p.in_chunk(),
    {
        LocalPos { x: floor_mod_32(x) as u8, y: floor_mod_32(y) as u8, z: floor_mod_32(z) as u8 }
    }

    /// The cell's place in the flat voxel order: `x + 32 * y + 1024 * z`.
    pub fn to_index(self) -> (index: usize)
        ensures
            index == self.spec_to_index(),
            self.in_chunk() ==> index < CHUNK_VOLUME && LocalPos::spec_from_index(index as int)
                == self,
    {
        proof {
            if self.in_chunk() {
                lemma_index_join(self.x as int, self.y as int, self.z as int);
            }
        }
        (self.x as usize) + (self.y as usize) * 32 + (self.z as usize) * 1024
    }

    /// The cell at place `index` of the flat voxel order.
    pub fn from_index(index: usize) -> (p: LocalPos)
        requires
            index < CHUNK_VOLUME,
        ensures
            p == LocalPos::spec_from_index(index as int),
            p.in_chunk(),
            p.spec_to_index() == index,
    {
        proof {
            lemma_index_split(index as int);
        }
        LocalPos { x: (index % 32) as u8, y: ((index / 32) % 32) as u8, z: (index / 1024) as u8 }
    }
}

/// Number of solid voxels in `s`.
pub open spec fn count_solid(s: Seq<Voxel>) -> nat
    decreases s.len(),
{
    if s.len() == 0 {
        0
    } else {
        count_solid(s.drop_last()) + if s.last().is_solid() {
            1nat
        } else {
            0nat
        }
    }
}

/// A sequence has no more solid voxels than voxels.
pub proof fn lemma_count_solid_bound(s: Seq<Voxel>)
    ensures
        count_solid(s) <= s.len(),
    decreases s.len(),
{
    if s.len() > 0 {
        lemma_count_solid_bound(s.drop_last());
    }
}

/// Writing one voxel changes the number of solid voxels by what the old and
/// the new voxel contribute.
pub proof fn lemma_count_solid_update(s: Seq<Voxel>, i: int, v: Voxel)
    requires
        0 <= i < s.len(),
    ensures
        count_solid(s.update(i, v)) + (if s[i].is_solid() { 1nat } else { 0nat }) == count_solid(s) + (if v.is_solid() { 1nat } else { 0nat }),
    decreases s.len(),
{
    let t = s.update(i, v);
    if i == s.len() - 1 {
        assert(t.drop_last() =~= s.drop_last());
    } else {
        assert(t.drop_last() =~= s.drop_last().update(i, v));
        lemma_count_solid_update(s.drop_last(), i, v);
    }
}

/// No voxel of a sequence is solid exactly when its solid count is zero.
pub proof fn lemma_count_solid_zero(s: Seq<Voxel>)
    ensures
        count_solid(s) == 0 <==> forall|i: int| 0 <= i < s.len() ==> (#[trigger] s[i]).is_air(),
    decreases s.len(),
{
    if s.len() > 0 {
        let t = s.drop_last();
        lemma_count_solid_zero(t);
        if count_solid(s) == 0 {
            assert forall|i: int| 0 <= i < s.len() implies (#[trigger] s[i]).is_air() by {
                if i < s.len() - 1 {
                    assert(t[i] == s[i]);
                }
            }
        } else if t.len() > 0 && count_solid(t) != 0 {
            let i = choose|i: int| 0 <= i < t.len() && !(#[trigger] t[i]).is_air();
            assert(s[i] == t[i]);
        }
    }
}

/// Every voxel of a sequence is solid exactly when its solid count is its length.
pub proof fn lemma_count_solid_full(s: Seq<Voxel>)
    ensures
        count_solid(s) == s.len() <==> forall|i: int|
            0 <= i < s.len() ==> (#[trigger] s[i]).is_solid(),
    decreases s.len(),
{
    if s.len() > 0 {
        let t = s.drop_last();
        lemma_count_solid_full(t);
        lemma_count_solid_bound(t);
        if count_solid(s) == s.len() {
            assert forall|i: int| 0 <= i < s.len() implies (#[trigger] s[i]).is_solid() by {
                if i < s.len() - 1 {
                    assert(t[i] == s[i]);
                }
            }
        } else if count_solid(t) != t.len() {
            let i = choose|i: int| 0 <= i < t.len() && !(#[trigger] t[i]).is_solid();
            assert(s[i] == t[i]);
        } else {
            assert(!s[s.len() - 1].is_solid());
        }
    }
}

/// The indices of the solid voxels of `s`.
pub open spec fn solid_indices(s: Seq<Voxel>) -> Set<int> {
    Set::new(|i: int| 0 <= i < s.len() && s[i].is_solid())
}

/// The solid count is the number of places that hold a solid voxel.
pub proof fn lemma_count_solid_is_cardinality(s: Seq<Voxel>)
    ensures
        solid_indices(s).finite(),
        solid_indices(s).len() == count_solid(s),
    decreases s.len(),
{
    if s.len() == 0 {
        assert(solid_indices(s) =~= Set::empty());
    } else {
        let t = s.drop_last();
        let last = s.len() - 1;
        lemma_count_solid_is_cardinality(t);
        if s.last().is_solid() {
            assert(solid_indices(s) =~= solid_indices(t).insert(last));
        } else {
            assert(solid_indices(s) =~= solid_indices(t));
        }
    }
}

/// A 32 x 32 x 32 block of voxels in the flat order of `cell_index`, with the
/// number of its solid voxels and a flag that says its mesh is out of date.
pub struct Chunk {
    voxels: Vec<Voxel>,
    solid_count: u32,
    dirty: bool,
}

impl View for Chunk {
    type V = Seq<Voxel>;

    /// The voxels in flat order.
    closed spec fn view(&self) -> Seq<Voxel> {
        self.voxels@
    }
}

impl Chunk {
    /// The stored number of solid voxels.
    pub closed spec fn spec_solid_count(&self) -> u32 {
        self.solid_count
    }

    pub closed spec fn spec_is_dirty(&self) -> bool {
        self.dirty
    }

    /// The chunk holds 32768 voxels and its counter is the number of solid ones.
    pub open spec fn wf(&self) -> bool {
        &&& self@.len() == CHUNK_VOLUME
        &&& self.spec_solid_count() == count_solid(self@)
    }

    /// The voxel of the cell at `(x, y, z)`.
    pub open spec fn voxel_at(&self, x: int, y: int, z: int) -> Voxel {
        self@[cell_index(x, y, z)]
    }

    pub open spec fn spec_is_empty(&self) -> bool {
        self.spec_solid_count() == 0
    }

    pub open spec fn spec_is_full(&self) -> bool {
        self.spec_solid_count() == CHUNK_VOLUME
    }

    /// A chunk of air. It is dirty: no mesh has been built for it yet.
    pub fn new() -> (c: Chunk)
        ensures
            c.wf(),
            c@ == Seq::new(CHUNK_VOLUME as nat, |i: int| Voxel::air()),
            c.spec_is_dirty(),
            c.spec_is_empty(),
    {
        Chunk::filled(Voxel::air())
    }

    /// A chunk whose every cell holds `voxel`. It is dirty.
    pub fn filled(voxel: Voxel) -> (c: Chunk)
        ensures
            c.wf(),
            c@ == Seq::new(CHUNK_VOLUME as nat, |i: int| voxel),
            c.spec_is_dirty(),
            c.spec_solid_count() == (if voxel.is_solid() {
                CHUNK_VOLUME
            } else {
                0
            }),
    {
        let solid_count: u32 = if voxel.is_solid() {
            CHUNK_VOLUME as u32
        } else {
            0
        };
        let voxels = vec![voxel; CHUNK_VOLUME];
        proof {
            assert(voxels@ =~= Seq::new(CHUNK_VOLUME as nat, |i: int| voxel));
            if voxel.is_solid() {
                lemma_count_solid_full(voxels@);
            } else {
                lemma_count_solid_zero(voxels@);
            }
        }
        Chunk { voxels, solid_count, dirty: true }
    }

    /// Whether no cell is solid.
    #[verifier::when_used_as_spec(spec_is_empty)]
    pub fn is_empty(&self) -> (b: bool)
        requires
            self.wf(),
        ensures
            b == self.spec_is_empty(),
            b <==> forall|i: int| 0 <= i < CHUNK_VOLUME ==> (#[trigger] self@[i]).is_air(),
    {
        proof {
            lemma_count_solid_zero(self@);
        }
        self.solid_count == 0
    }

    /// Whether every cell is solid.
    #[verifier::when_used_as_spec(spec_is_full)]
    pub fn is_full(&self) -> (b: bool)
        requires
            self.wf(),
        ensures
            b == self.spec_is_full(),
            b <==> forall|i: int| 0 <= i < CHUNK_VOLUME ==> (#[trigger] self@[i]).is_solid(),
    {
        proof {
            lemma_count_solid_full(self@);
        }
        self.solid_count == CHUNK_VOLUME as u32
    }

    /// The number of solid cells.
    #[verifier::when_used_as_spec(spec_solid_count)]
    pub fn solid_count(&self) -> (n: u32)
        requires
            self.wf(),
        ensures
            n == self.spec_solid_count(),
            n == count_solid(self@),
            n <= CHUNK_VOLUME,
    {
        proof {
            lemma_count_solid_bound(self@);
        }
        self.solid_count
    }

    /// Whether the chunk has changed since its mesh was last built.
    #[verifier::when_used_as_spec(spec_is_dirty)]
    pub fn is_dirty(&self) -> (b: bool)
        ensures
            b == self.spec_is_dirty(),
    {
        self.dirty
    }

    /// Marks the mesh as out of date.
    pub fn mark_dirty(&mut self)
        ensures
            final(self)@ == old(self)@,
            final(self).spec_solid_count() == old(self).spec_solid_count(),
            final(self).spec_is_dirty(),
    {
        self.dirty = true;
    }

    /// Records that the mesh has been rebuilt.
    pub fn clear_dirty(&mut self)
        ensures
            final(self)@ == old(self)@,
            final(self).spec_solid_count() == old(self).spec_solid_count(),
            !final(self).spec_is_dirty(),
    {
        self.dirty = false;
    }

    /// The voxel of the cell at `(x, y, z)`.
    pub fn get(&self, x: usize, y: usize, z: usize) -> (v: Voxel)
        requires
            self.wf(),
            x < CHUNK_SIZE,
            y < CHUNK_SIZE,
            z < CHUNK_SIZE,
        ensures
            v == self.voxel_at(x as int, y as int, z as int),
    {
        self.voxels[x + y * 32 + z * 1024]
    }

    /// The voxel of the cell at `(x, y, z)`, or `None` where a coordinate
    /// lies outside `[0, 32)`.
    pub fn get_safe(&self, x: i32, y: i32, z: i32) -> (v: Option<Voxel>)
        requires
            self.wf(),
        ensures
            v == (if 0 <= x < 32 && 0 <= y < 32 && 0 <= z < 32 {
                Some(self.voxel_at(x as int, y as int, z as int))
            } else {
                None
            }),
    {
        if x >= 0 && x < CHUNK_SIZE_I32 && y >= 0 && y < CHUNK_SIZE_I32 && z >= 0 && z
            < CHUNK_SIZE_I32 {
            Some(self.get(x as usize, y as usize, z as usize))
        } else {
            None
        }
    }

    /// Writes `voxel` to the cell at `(x, y, z)`, keeps the solid counter
    /// in step and marks the chunk dirty.
    pub fn set(&mut self, x: usize, y: usize, z: usize, voxel: Voxel)
        requires
            old(self).wf(),
            x < CHUNK_SIZE,
            y < CHUNK_SIZE,
            z < CHUNK_SIZE,
        ensures
            final(self).wf(),
            final(self)@ == old(self)@.update(cell_index(x as int, y as int, z as int), voxel),
            final(self).voxel_at(x as int, y as int, z as int) == voxel,
            final(self).spec_is_dirty(),
            final(self).spec_solid_count() + (if old(self).voxel_at(x as int, y as int, z as int).is_solid() { 1nat } else { 0nat })
                == old(self).spec_solid_count() + (if voxel.is_solid() { 1nat } else { 0nat }),
    {
        let index = x + y * 32 + z * 1024;
        let old_voxel = self.voxels[index];
        proof {
            lemma_count_solid_update(self.voxels@, index as int, voxel);
            lemma_count_solid_bound(self.voxels@.update(index as int, voxel));
        }
        if old_voxel.is_solid() && voxel.is_air() {
            self.solid_count = self.solid_count - 1;
        } else if old_voxel.is_air() && voxel.is_solid() {
            self.solid_count = self.solid_count + 1;
        }
        self.voxels[index] = voxel;
        self.dirty = true;
    }

    /// Writes `voxel` to the cell at `pos`, as `set` does: the solid
    /// counter is kept in step and the chunk becomes dirty.
    pub fn set_at(&mut self, pos: LocalPos, voxel: Voxel)
        requires
            old(self).wf(),
            pos.in_chunk(),
        ensures
            final(self).wf(),
            final(self)@ == old(self)@.update(pos.spec_to_index(), voxel),
            final(self)@[pos.spec_to_index()] == voxel,
            final(self).spec_is_dirty(),
            final(self).spec_solid_count() + (if old(self)@[pos.spec_to_index()].is_solid() {
                1nat
            } else {
                0nat
            }) == old(self).spec_solid_count() + (if voxel.is_solid() {
                1nat
            } else {
                0nat
            }),
    {
        proof {
            lemma_index_join(pos.x as int, pos.y as int, pos.z as int);
        }
        self.set(pos.x as usize, pos.y as usize, pos.z as usize, voxel);
    }

    /// The voxels in flat order.
    pub fn voxels(&self) -> (s: &[Voxel])
        ensures
            s@ == self@,
    {
        self.voxels.as_slice()
    }

    /// Every cell with its voxel, in flat order.
    pub fn iter_voxels(&self) -> (cells: Vec<(LocalPos, Voxel)>)
        requires
            self.wf(),
        ensures
            cells@ == enumerate_cells(self@),
    {
        let mut cells: Vec<(LocalPos, Voxel)> = Vec::with_capacity(CHUNK_VOLUME);
        let mut i: usize = 0;
        while i < CHUNK_VOLUME
            invariant
                i <= CHUNK_VOLUME,
                self.voxels@.len() == CHUNK_VOLUME,
                cells@ == enumerate_cells(self.voxels@).take(i as int),
            decreases CHUNK_VOLUME - i,
        {
            cells.push((LocalPos::from_index(i), self.voxels[i]));
            i = i + 1;
            assert(cells@ =~= enumerate_cells(self.voxels@).take(i as int));
        }
        assert(cells@ =~= enumerate_cells(self.voxels@));
        cells
    }

    /// The solid cells with their voxels, in flat order.
    pub fn iter_solid(&self) -> (cells: Vec<(LocalPos, Voxel)>)
        requires
            self.wf(),
        ensures
            cells@ == solid_cells(self@),
            cells@.len() == self.spec_solid_count(),
    {
        let mut cells: Vec<(LocalPos, Voxel)> = Vec::new();
        let mut i: usize = 0;
        proof {
            reveal(Seq::filter);
            assert(enumerate_cells(self.voxels@).take(0) =~= Seq::empty());
        }
        while i < CHUNK_VOLUME
            invariant
                i <= CHUNK_VOLUME,
                self.voxels@.len() == CHUNK_VOLUME,
                cells@ == enumerate_cells(self.voxels@).take(i as int).filter(
                    |c: (LocalPos, Voxel)| c.1.is_solid(),
                ),
                cells@.len() == count_solid(self.voxels@.take(i as int)),
            decreases CHUNK_VOLUME - i,
        {
            let voxel = self.voxels[i];
            proof {
                reveal(Seq::filter);
                let all = enumerate_cells(self.voxels@);
                assert(all.take(i + 1).drop_last() =~= all.take(i as int));
                assert(all.take(i + 1).last() == (LocalPos::spec_from_index(i as int), voxel));
                assert(self.voxels@.take(i + 1).drop_last() =~= self.voxels@.take(i as int));
            }
            if voxel.is_solid() {
                cells.push((LocalPos::from_index(i), voxel));
            }
            i = i + 1;
        }
        proof {
            assert(enumerate_cells(self.voxels@).take(i as int) =~= enumerate_cells(self.voxels@));
            assert(self.voxels@.take(i as int) =~= self.voxels@);
        }
        cells
    }

    /// Writes `voxel` to every cell of the chunk inside the box from `min` to
    /// `max`, both corners included. The part of the box outside the chunk is
    /// ignored. The chunk becomes dirty where a cell is written.
    #[verifier::rlimit(50)]
    pub fn fill_region(
        &mut self,
        min: (usize, usize, usize),
        max: (usize, usize, usize),
        voxel: Voxel,
    )
        requires
            old(self).wf(),
        ensures
            final(self).wf(),
            final(self)@ == filled_region(old(self)@, min, max, voxel),
            final(self).spec_is_dirty() == (old(self).spec_is_dirty() || region_meets_chunk(
                min,
                max,
            )),
    {
        if min.0 >= CHUNK_SIZE || min.1 >= CHUNK_SIZE || min.2 >= CHUNK_SIZE || min.0 > max.0
            || min.1 > max.1 || min.2 > max.2 {
            proof {
                assert forall|i: int| 0 <= i < 32768 implies !in_region(min, max, i) by {
                    lemma_index_split(i);
                }
                assert(self@ =~= filled_region(self@, min, max, voxel));
            }
            return ;
        }
        let x_end: usize = if max.0 < CHUNK_SIZE { max.0 + 1 } else { CHUNK_SIZE };
        let y_end: usize = if max.1 < CHUNK_SIZE { max.1 + 1 } else { CHUNK_SIZE };
        let z_end: usize = if max.2 < CHUNK_SIZE { max.2 + 1 } else { CHUNK_SIZE };
        let ghost before = self@;
        let mut z: usize = min.2;
        proof {
            lemma_fill_gap_z(before, min, max, voxel, 0, z as int);
            assert(self@ =~= filled_upto(before, min, max, voxel, 0));
        }
        while z < z_end
            invariant
                self.wf(),
                before.len() == CHUNK_VOLUME,
                min.0 < x_end <= CHUNK_SIZE,
                min.1 < y_end <= CHUNK_SIZE,
                min.2 <= z <= z_end <= CHUNK_SIZE,
                x_end == (if max.0 < CHUNK_SIZE { max.0 + 1 } else { CHUNK_SIZE as int }),
                y_end == (if max.1 < CHUNK_SIZE { max.1 + 1 } else { CHUNK_SIZE as int }),
                z_end == (if max.2 < CHUNK_SIZE { max.2 + 1 } else { CHUNK_SIZE as int }),
                self@ == filled_upto(before, min, max, voxel, cell_index(0, 0, z as int)),
                self.spec_is_dirty() == (old(self).spec_is_dirty() || z > min.2),
            decreases z_end - z,
        {
            let mut y: usize = min.1;
            proof {
                lemma_fill_gap_y(before, min, max, voxel, 0, y as int, z as int);
            }
            while y < y_end
                invariant
                    self.wf(),
                    before.len() == CHUNK_VOLUME,
                    min.0 < x_end <= CHUNK_SIZE,
                    min.1 <= y <= y_end <= CHUNK_SIZE,
                    min.2 <= z < z_end <= CHUNK_SIZE,
                    x_end == (if max.0 < CHUNK_SIZE { max.0 + 1 } else { CHUNK_SIZE as int }),
                    y_end == (if max.1 < CHUNK_SIZE { max.1 + 1 } else { CHUNK_SIZE as int }),
                    z_end == (if max.2 < CHUNK_SIZE { max.2 + 1 } else { CHUNK_SIZE as int }),
                    self@ == filled_upto(
                        before,
                        min,
                        max,
                        voxel,
                        cell_index(0, y as int, z as int),
                    ),
                    self.spec_is_dirty() == (old(self).spec_is_dirty() || z > min.2 || y > min.1),
                decreases y_end - y,
            {
                let mut x: usize = min.0;
                proof {
                    lemma_fill_gap_x(before, min, max, voxel, 0, x as int, y as int, z as int);
                }
                while x < x_end
                    invariant
                        self.wf(),
                        before.len() == CHUNK_VOLUME,
                        min.0 <= x <= x_end <= CHUNK_SIZE,
                        min.1 <= y < y_end <= CHUNK_SIZE,
                        min.2 <= z < z_end <= CHUNK_SIZE,
                        x_end == (if max.0 < CHUNK_SIZE { max.0 + 1 } else { CHUNK_SIZE as int }),
                        y_end == (if max.1 < CHUNK_SIZE { max.1 + 1 } else { CHUNK_SIZE as int }),
                        z_end == (if max.2 < CHUNK_SIZE { max.2 + 1 } else { CHUNK_SIZE as int }),
                        self@ == filled_upto(
                            before,
                            min,
                            max,
                            voxel,
                            cell_index(x as int, y as int, z as int),
                        ),
                        self.spec_is_dirty() == (old(self).spec_is_dirty() || z > min.2 || y
                            > min.1 || x > min.0),
                    decreases x_end - x,
                {
                    self.set(x, y, z, voxel);
                    proof {
                        lemma_fill_step(before, min, max, voxel, x as int, y as int, z as int);
                    }
                    x = x + 1;
                }
                proof {
                    lemma_fill_gap_x(before, min, max, voxel, x as int, 32, y as int, z as int);
                }
                y = y + 1;
            }
            proof {
                lemma_fill_gap_y(before, min, max, voxel, y as int, 32, z as int);
            }
            z = z + 1;
        }
        proof {
            lemma_fill_gap_z(before, min, max, voxel, z as int, 32);
            lemma_index_join(min.0 as int, min.1 as int, min.2 as int);
            assert(in_region(min, max, cell_index(min.0 as int, min.1 as int, min.2 as int)));
        }
    }
}

/// The walk passes no cell of the box along a row before it has reached
/// the box or after it has left it.
proof fn lemma_fill_gap_x(
    s: Seq<Voxel>,
    min: (usize, usize, usize),
    max: (usize, usize, usize),
    voxel: Voxel,
    x0: int,
    x1: int,
    y: int,
    z: int,
)
    requires
        s.len() == 32768,
        0 <= x0 <= x1 <= 32,
        0 <= y < 32,
        0 <= z < 32,
        x1 <= min.0 || x0 > max.0 || x0 == x1,
    ensures
        filled_upto(s, min, max, voxel, cell_index(x0, y, z)) == filled_upto(
            s,
            min,
            max,
            voxel,
            cell_index(x1, y, z),
        ),
{
    let a = cell_index(x0, y, z);
    let b = cell_index(x1, y, z);
    assert forall|i: int| a <= i < b implies !in_region(min, max, i) by {
        lemma_index_join(i - 32 * y - 1024 * z, y, z);
    }
    assert(filled_upto(s, min, max, voxel, a) =~= filled_upto(s, min, max, voxel, b));
}

/// The walk passes no cell of the box along the rows of a layer before
/// it has reached the box or after it has left it.
proof fn lemma_fill_gap_y(
    s: Seq<Voxel>,
    min: (usize, usize, usize),
    max: (usize, usize, usize),
    voxel: Voxel,
    y0: int,
    y1: int,
    z: int,
)
    requires
        s.len() == 32768,
        0 <= y0 <= y1 <= 32,
        0 <= z < 32,
        y1 <= min.1 || y0 > max.1 || y0 == y1,
    ensures
        filled_upto(s, min, max, voxel, cell_index(0, y0, z)) == filled_upto(
            s,
            min,
            max,
            voxel,
            cell_index(0, y1, z),
        ),
{
    let a = cell_index(0, y0, z);
    let b = cell_index(0, y1, z);
    assert forall|i: int| a <= i < b implies !in_region(min, max, i) by {
        let r = i - 1024 * z;
        lemma_index_join(r % 32, r / 32, z);
    }
    assert(filled_upto(s, min, max, voxel, a) =~= filled_upto(s, min, max, voxel, b));
}

/// The walk passes no cell of the box along the layers before it has
/// reached the box or after it has left it.
proof fn lemma_fill_gap_z(
    s: Seq<Voxel>,
    min: (usize, usize, usize),
    max: (usize, usize, usize),
    voxel: Voxel,
    z0: int,
    z1: int,
)
    requires
        s.len() == 32768,
        0 <= z0 <= z1 <= 32,
        z1 <= min.2 || z0 > max.2 || z0 == z1,
    ensures
        filled_upto(s, min, max, voxel, cell_index(0, 0, z0)) == filled_upto(
            s,
            min,
            max,
            voxel,
            cell_index(0, 0, z1),
        ),
{
    let a = cell_index(0, 0, z0);
    let b = cell_index(0, 0, z1);
    assert forall|i: int| a <= i < b implies !in_region(min, max, i) by {
        assert(z0 <= i / 1024 < z1);
    }
    assert(filled_upto(s, min, max, voxel, a) =~= filled_upto(s, min, max, voxel, b));
}

/// Writing the voxel to a cell of the box takes the walk one cell on.
proof fn lemma_fill_step(
    s: Seq<Voxel>,
    min: (usize, usize, usize),
    max: (usize, usize, usize),
    voxel: Voxel,
    x: int,
    y: int,
    z: int,
)
    requires
        s.len() == 32768,
        0 <= x < 32,
        0 <= y < 32,
        0 <= z < 32,
        min.0 <= x <= max.0,
        min.1 <= y <= max.1,
        min.2 <= z <= max.2,
    ensures
        filled_upto(s, min, max, voxel, cell_index(x, y, z)).update(cell_index(x, y, z), voxel)
            == filled_upto(s, min, max, voxel, cell_index(x + 1, y, z)),
{
    let index = cell_index(x, y, z);
    lemma_index_join(x, y, z);
    assert(in_region(min, max, index));
    assert(filled_upto(s, min, max, voxel, index).update(index, voxel) =~= filled_upto(
        s,
        min,
        max,
        voxel,
        index + 1,
    ));
}

/// Every cell of a chunk with its voxel, in flat order.
pub open spec fn enumerate_cells(s: Seq<Voxel>) -> Seq<(LocalPos, Voxel)> {
    Seq::new(s.len(), |i: int| (LocalPos::spec_from_index(i), s[i]))
}

/// The solid cells of a chunk with their voxels, in flat order.
pub open spec fn solid_cells(s: Seq<Voxel>) -> Seq<(LocalPos, Voxel)> {
    enumerate_cells(s).filter(|c: (LocalPos, Voxel)| c.1.is_solid())
}

/// Whether the cell at flat index `i` lies in the box from `min` to `max`,
/// both corners included.
pub open spec fn in_region(min: (usize, usize, usize), max: (usize, usize, usize), i: int) -> bool {
    &&& min.0 <= i % 32 <= max.0
    &&& min.1 <= (i / 32) % 32 <= max.1
    &&& min.2 <= i / 1024 <= max.2
}

/// Whether the box from `min` to `max` has a cell in common with a chunk.
pub open spec fn region_meets_chunk(min: (usize, usize, usize), max: (usize, usize, usize)) -> bool {
    exists|i: int| 0 <= i < 32768 && in_region(min, max, i)
}

/// The voxels `s` with `voxel` written to the cells of the box that come
/// before flat index `n`.
pub open spec fn filled_upto(
    s: Seq<Voxel>,
    min: (usize, usize, usize),
    max: (usize, usize, usize),
    voxel: Voxel,
    n: int,
) -> Seq<Voxel> {
    Seq::new(
        s.len(),
        |i: int|
            if i < n && in_region(min, max, i) {
                voxel
            } else {
                s[i]
            },
    )
}

/// The voxels `s` with `voxel` written to every cell of the box from `min` to `max`.
pub open spec fn filled_region(
    s: Seq<Voxel>,
    min: (usize, usize, usize),
    max: (usize, usize, usize),
    voxel: Voxel,
) -> Seq<Voxel> {
    filled_upto(s, min, max, voxel, s.len() as int)
}

impl std::ops::Index<LocalPos> for Chunk {
    type Output = Voxel;

    /// The voxel of the cell at `pos`.
    fn index(&self, pos: LocalPos) -> (v: &Voxel)
        ensures
            *v == self@[pos.spec_to_index()],
    {
        &self.voxels[pos.to_index()]
    }
}

impl vstd::std_specs::core::IndexSpecImpl<LocalPos> for Chunk {
    open spec fn index_req(&self, pos: &LocalPos) -> bool {
        self.wf() && pos.in_chunk()
    }
}

impl std::ops::Index<(usize, usize, usize)> for Chunk {
    type Output = Voxel;

    /// The voxel of the cell at `(x, y, z)`.
    fn index(&self, pos: (usize, usize, usize)) -> (v: &Voxel)
        ensures
            *v == self.voxel_at(pos.0 as int, pos.1 as int, pos.2 as int),
    {
        &self.voxels[pos.0 + pos.1 * 32 + pos.2 * 1024]
    }
}

impl vstd::std_specs::core::IndexSpecImpl<(usize, usize, usize)> for Chunk {
    open spec fn index_req(&self, pos: &(usize, usize, usize)) -> bool {
        self.wf() && pos.0 < CHUNK_SIZE && pos.1 < CHUNK_SIZE && pos.2 < CHUNK_SIZE
    }
}

impl Default for Chunk {
    fn default() -> (c: Chunk)
        ensures
            c.wf(),
            c@ == Seq::new(CHUNK_VOLUME as nat, |i: int| Voxel::air()),
            c.spec_is_dirty(),
    {
        Chunk::new()
    }
}

impl Clone for Chunk {
    fn clone(&self) -> (c: Chunk)
        ensures
            c@ == self@,
            c.spec_solid_count() == self.spec_solid_count(),
            c.spec_is_dirty() == self.spec_is_dirty(),
    {
        let voxels = self.voxels.clone();
        assert(voxels@ =~= self.voxels@);
        Chunk { voxels, solid_count: self.solid_count, dirty: self.dirty }
    }
}

} // verus!
