//! Triangle meshes of chunks: one quad for every face of a solid voxel
//! that borders air or the chunk's edge.

use crate::chunk::{cell_index, Chunk, ChunkPos, CHUNK_VOLUME};
use crate::voxel::Voxel;
use vstd::prelude::*;

verus! {

/// The six faces of a voxel, named by the axis and the direction they look.
#[derive(Debug, Clone, Copy, PartialEq, Eq, Structural)]
pub enum Face {
    PosX,
    NegX,
    PosY,
    NegY,
    PosZ,
    NegZ,
}

impl Face {
    pub open spec fn spec_offset(&self) -> (i32, i32, i32) {
        match self {
            Face::PosX => (1, 0, 0),
            Face::NegX => (-1i32, 0, 0),
            Face::PosY => (0, 1, 0),
            Face::NegY => (0, -1i32, 0),
            Face::PosZ => (0, 0, 1),
            Face::NegZ => (0, 0, -1i32),
        }
    }

    /// The `k`-th face in the order in which a voxel's faces are meshed.
    pub open spec fn nth(k: int) -> Face {
        if k == 0 {
            Face::PosX
        } else if k == 1 {
            Face::NegX
        } else if k == 2 {
            Face::PosY
        } else if k == 3 {
            Face::NegY
        } else if k == 4 {
            Face::PosZ
        } else {
            Face::NegZ
        }
    }

    /// The step from a voxel to the neighbor that the face looks at.
    #[verifier::when_used_as_spec(spec_offset)]
    pub fn offset(&self) -> (o: (i32, i32, i32))
        ensures
            o == self.spec_offset(),
    {
        match self {
            Face::PosX => (1, 0, 0),
            Face::NegX => (-1, 0, 0),
            Face::PosY => (0, 1, 0),
            Face::NegY => (0, -1, 0),
            Face::PosZ => (0, 0, 1),
            Face::NegZ => (0, 0, -1),
        }
    }

    /// The face's outward normal: the same vector as its offset.
    pub fn normal(&self) -> (n: (i32, i32, i32))
        ensures
            n == self.spec_offset(),
    {
        self.offset()
    }

    /// The six faces in the order in which a voxel's faces are meshed.
    pub fn all() -> (faces: [Face; 6])
        ensures
            forall|k: int| 0 <= k < 6 ==> #[trigger] faces@[k] == Face::nth(k),
    {
        [Face::PosX, Face::NegX, Face::PosY, Face::NegY, Face::PosZ, Face::NegZ]
    }
}

/// The scale of a vertex color: a channel value of `COLOR_SCALE` is full
/// intensity. It is 255, the scale of a voxel's channels, times `SHADE_SCALE`.
pub const COLOR_SCALE: u16 = 25500;

/// The scale of a face's shade: a shade of `SHADE_SCALE` leaves a color as it is.
pub const SHADE_SCALE: u16 = 100;

/// A corner of a quad: its position in voxel coordinates, the normal of
/// its face, and its shaded color as red, green, blue and opacity in units
/// of `1 / COLOR_SCALE`.
#[derive(Debug, Clone, Copy)]
pub struct Vertex {
    pub position: (i64, i64, i64),
    pub normal: (i32, i32, i32),
    pub color: (u16, u16, u16, u16),
}

impl Vertex {
    pub fn new(position: (i64, i64, i64), normal: (i32, i32, i32), color: (u16, u16, u16, u16)) -> (v:
        Vertex)
        ensures
            v == (Vertex { position, normal, color }),
    {
        Vertex { position, normal, color }
    }
}

/// The corners of the two triangles of a quad, as places among the quad's
/// four vertices.
pub open spec fn quad_corner(t: int) -> int {
    if t == 0 {
        0
    } else if t == 1 {
        1
    } else if t == 2 {
        2
    } else if t == 3 {
        0
    } else if t == 4 {
        2
    } else {
        3
    }
}

/// Whether `bytes` holds `indices`, four bytes to an index, each low byte
/// first where `low_first` holds, else each high byte first.
pub open spec fn holds_indices(bytes: Seq<u8>, indices: Seq<u32>, low_first: bool) -> bool {
    &&& bytes.len() == 4 * indices.len()
    &&& forall|i: int|
        0 <= i < indices.len() ==> #[trigger] indices[i] == (if low_first {
            crate::bytes::u32_at(bytes, 4 * i)
        } else {
            crate::bytes::u32_be_at(bytes, 4 * i)
        })
}

/// The bytes of `indices` in memory, by `bytemuck::cast_slice`, which
/// hands out the same memory as bytes. The contract claims what holds on
/// every machine: four bytes to an index, in the order of the indices,
/// and within the indices one byte order throughout, low byte first or
/// high byte first. Which of the two is the machine's and is not claimed.
#[verifier::external_body]
fn index_bytes_of(indices: &[u32]) -> (bytes: &[u8])
    ensures
        holds_indices(bytes@, indices@, true) || holds_indices(bytes@, indices@, false),
{
    bytemuck::cast_slice(indices)
}

/// The mesh of one chunk: a list of vertices, four to a quad, and a list
/// of indices into it, three to a triangle.
#[derive(Debug)]
pub struct ChunkMesh {
    pub chunk_pos: ChunkPos,
    pub vertices: Vec<Vertex>,
    pub indices: Vec<u32>,
}

impl ChunkMesh {
    /// A mesh without vertices.
    pub fn new(chunk_pos: ChunkPos) -> (m: ChunkMesh)
        ensures
            m.chunk_pos == chunk_pos,
            m.vertices@.len() == 0,
            m.indices@.len() == 0,
    {
        ChunkMesh { chunk_pos, vertices: Vec::new(), indices: Vec::new() }
    }

    /// A mesh without vertices, with room for the given numbers of vertices
    /// and indices.
    pub fn with_capacity(chunk_pos: ChunkPos, vertex_capacity: usize, index_capacity: usize) -> (m:
        ChunkMesh)
        ensures
            m.chunk_pos == chunk_pos,
            m.vertices@.len() == 0,
            m.indices@.len() == 0,
    {
        ChunkMesh {
            chunk_pos,
            vertices: Vec::with_capacity(vertex_capacity),
            indices: Vec::with_capacity(index_capacity),
        }
    }

    /// Whether the mesh has no vertex.
    pub fn is_empty(&self) -> (b: bool)
        ensures
            b == (self.vertices@.len() == 0),
    {
        self.vertices.is_empty()
    }

    /// The number of whole triangles.
    pub fn triangle_count(&self) -> (n: usize)
        ensures
            n == self.indices@.len() / 3,
    {
        self.indices.len() / 3
    }

    /// The number of vertices.
    pub fn vertex_count(&self) -> (n: usize)
        ensures
            n == self.vertices@.len(),
    {
        self.vertices.len()
    }

    /// Adds a quad: its four vertices, and the indices of its two
    /// triangles, which share the first and the third vertex.
    pub fn add_quad(&mut self, vertices: [Vertex; 4])
        requires
            old(self).vertices@.len() + 4 <= u32::MAX,
        ensures
            final(self).chunk_pos == old(self).chunk_pos,
            final(self).vertices@ == old(self).vertices@ + vertices@,
            final(self).indices@ == old(self).indices@ + Seq::new(
                6,
                |t: int| (old(self).vertices@.len() + quad_corner(t)) as u32,
            ),
    {
        let base = self.vertices.len() as u32;
        let ghost v0 = self.vertices@;
        let ghost i0 = self.indices@;
        self.vertices.push(vertices[0]);
        self.vertices.push(vertices[1]);
        self.vertices.push(vertices[2]);
        self.vertices.push(vertices[3]);
        self.indices.push(base);
        self.indices.push(base + 1);
        self.indices.push(base + 2);
        self.indices.push(base);
        self.indices.push(base + 2);
        self.indices.push(base + 3);
        proof {
            assert(self.vertices@ =~= v0 + vertices@);
            assert(self.indices@ =~= i0 + Seq::new(
                6,
                |t: int| (v0.len() + quad_corner(t)) as u32,
            ));
        }
    }

    /// The indices as bytes for upload, four to an index, in the
    /// machine's byte order.
    pub fn index_bytes(&self) -> (bytes: &[u8])
        ensures
            bytes@.len() == 4 * self.indices@.len(),
            holds_indices(bytes@, self.indices@, true) || holds_indices(
                bytes@,
                self.indices@,
                false,
            ),
    {
        index_bytes_of(self.indices.as_slice())
    }

    /// Removes every vertex and index.
    pub fn clear(&mut self)
        ensures
            final(self).chunk_pos == old(self).chunk_pos,
            final(self).vertices@.len() == 0,
            final(self).indices@.len() == 0,
    {
        self.vertices.clear();
        self.indices.clear();
    }
}

/// Whether the face `face` of the cell at `(x, y, z)` is meshed: the
/// neighbor that it looks at lies outside the chunk or holds air. Faces on
/// the chunk's edge always count as visible; the neighboring chunk is not
/// looked at.
pub open spec fn face_visible(voxels: Seq<Voxel>, x: int, y: int, z: int, face: Face) -> bool {
    let o = face.spec_offset();
    let nx = x + o.0;
    let ny = y + o.1;
    let nz = z + o.2;
    !(0 <= nx < 32 && 0 <= ny < 32 && 0 <= nz < 32) || voxels[cell_index(nx, ny, nz)].is_air()
}

/// Whether the `k`-th pair of a cell and a face gives a quad, where pair
/// `k` is face `k % 6` of the cell at flat index `k / 6`: the cell is solid
/// and the face is visible.
pub open spec fn gives_quad(voxels: Seq<Voxel>, k: int) -> bool {
    let i = k / 6;
    voxels[i].is_solid() && face_visible(voxels, i % 32, (i / 32) % 32, i / 1024, Face::nth(k % 6))
}

/// The pairs among the first `n` that give a quad, in order.
pub open spec fn visible_faces(voxels: Seq<Voxel>, n: nat) -> Seq<int>
    decreases n,
{
    if n == 0 {
        Seq::empty()
    } else {
        let rest = visible_faces(voxels, (n - 1) as nat);
        if gives_quad(voxels, n - 1) {
            rest.push(n - 1)
        } else {
            rest
        }
    }
}

/// Where corner `c` of a face lies, as a step from the voxel's minimum corner.
pub open spec fn corner_offset(face: Face, c: int) -> (int, int, int) {
    match face {
        Face::PosX => if c == 0 {
            (1, 0, 0)
        } else if c == 1 {
            (1, 0, 1)
        } else if c == 2 {
            (1, 1, 1)
        } else {
            (1, 1, 0)
        },
        Face::NegX => if c == 0 {
            (0, 0, 1)
        } else if c == 1 {
            (0, 0, 0)
        } else if c == 2 {
            (0, 1, 0)
        } else {
            (0, 1, 1)
        },
        Face::PosY => if c == 0 {
            (0, 1, 0)
        } else if c == 1 {
            (1, 1, 0)
        } else if c == 2 {
            (1, 1, 1)
        } else {
            (0, 1, 1)
        },
        Face::NegY => if c == 0 {
            (0, 0, 1)
        } else if c == 1 {
            (1, 0, 1)
        } else if c == 2 {
            (1, 0, 0)
        } else {
            (0, 0, 0)
        },
        Face::PosZ => if c == 0 {
            (1, 0, 1)
        } else if c == 1 {
            (0, 0, 1)
        } else if c == 2 {
            (0, 1, 1)
        } else {
            (1, 1, 1)
        },
        Face::NegZ => if c == 0 {
            (0, 0, 0)
        } else if c == 1 {
            (1, 0, 0)
        } else if c == 2 {
            (1, 1, 0)
        } else {
            (0, 1, 0)
        },
    }
}

/// The shade of a face in units of `1 / SHADE_SCALE`: the top is brightest,
/// the bottom darkest.
pub open spec fn shade(face: Face) -> int {
    match face {
        Face::PosY => 100,
        Face::PosX | Face::NegZ => 85,
        Face::NegX | Face::PosZ => 75,
        Face::NegY => 60,
    }
}

/// A voxel's color on a face: red, green and blue times the face's shade,
/// and the opacity unshaded, all in units of `1 / COLOR_SCALE`.
pub open spec fn shaded_color(voxel: Voxel, face: Face) -> (u16, u16, u16, u16) {
    (
        (voxel.r * shade(face)) as u16,
        (voxel.g * shade(face)) as u16,
        (voxel.b * shade(face)) as u16,
        (voxel.a * 100) as u16,
    )
}

/// The vertex at corner `c` of the quad that pair `k` gives in the chunk at `pos`.
pub open spec fn face_vertex(pos: ChunkPos, voxels: Seq<Voxel>, k: int, c: int) -> Vertex {
    let i = k / 6;
    let face = Face::nth(k % 6);
    let o = corner_offset(face, c);
    Vertex {
        position: (
            (pos.x * 32 + i % 32 + o.0) as i64,
            (pos.y * 32 + (i / 32) % 32 + o.1) as i64,
            (pos.z * 32 + i / 1024 + o.2) as i64,
        ),
        normal: face.spec_offset(),
        color: shaded_color(voxels[i], face),
    }
}

/// Whether `vertices` and `indices` are the mesh of the quads that the
/// pairs `faces` give: four vertices to a quad, in the order of the
/// quad's corners, and six indices to a quad, for two triangles.
pub open spec fn is_mesh_of(
    vertices: Seq<Vertex>,
    indices: Seq<u32>,
    pos: ChunkPos,
    voxels: Seq<Voxel>,
    faces: Seq<int>,
) -> bool {
    &&& vertices.len() == 4 * faces.len()
    &&& indices.len() == 6 * faces.len()
    &&& forall|j: int|
        0 <= j < vertices.len() ==> #[trigger] vertices[j] == face_vertex(
            pos,
            voxels,
            faces[j / 4],
            j % 4,
        )
    &&& forall|j: int|
        0 <= j < indices.len() ==> #[trigger] indices[j] == 4 * (j / 6) + quad_corner(j % 6)
}

/// Among the first `n` pairs at most `n` give a quad, and each that does
/// is one of them.
pub proof fn lemma_visible_faces_bound(voxels: Seq<Voxel>, n: nat)
    ensures
        visible_faces(voxels, n).len() <= n,
        forall|f: int|
            0 <= f < visible_faces(voxels, n).len() ==> 0 <= #[trigger] visible_faces(voxels, n)[f]
                < n,
    decreases n,
{
    if n > 0 {
        lemma_visible_faces_bound(voxels, (n - 1) as nat);
    }
}

/// A cell of air gives no quad.
pub proof fn lemma_air_gives_none(voxels: Seq<Voxel>, i: int, f: nat)
    requires
        0 <= i,
        voxels[i].is_air(),
        f <= 6,
    ensures
        visible_faces(voxels, (6 * i + f) as nat) == visible_faces(voxels, (6 * i) as nat),
    decreases f,
{
    if f > 0 {
        lemma_air_gives_none(voxels, i, (f - 1) as nat);
        assert((6 * i + f - 1) / 6 == i);
    }
}

/// A chunk of air has no quad: its mesh is empty.
pub proof fn lemma_empty_chunk_mesh(voxels: Seq<Voxel>, n: nat)
    requires
        forall|i: int| 0 <= i < voxels.len() ==> (#[trigger] voxels[i]).is_air(),
        n <= 6 * voxels.len(),
    ensures
        visible_faces(voxels, n).len() == 0,
    decreases n,
{
    if n > 0 {
        lemma_empty_chunk_mesh(voxels, (n - 1) as nat);
        assert(voxels[(n - 1) / 6].is_air());
    }
}

/// How many quads the cell at flat index `i` gives.
pub open spec fn quads_of_cell(voxels: Seq<Voxel>, i: int) -> nat {
    let one = |k: int|
        if gives_quad(voxels, k) {
            1nat
        } else {
            0nat
        };
    one(6 * i) + one(6 * i + 1) + one(6 * i + 2) + one(6 * i + 3) + one(6 * i + 4) + one(6 * i + 5)
}

/// The quads of the first `i + 1` cells are those of the first `i` cells
/// and those of cell `i`.
pub proof fn lemma_cell_quads(voxels: Seq<Voxel>, i: int)
    requires
        0 <= i,
    ensures
        visible_faces(voxels, (6 * i + 6) as nat).len() == visible_faces(
            voxels,
            (6 * i) as nat,
        ).len() + quads_of_cell(voxels, i),
{
    reveal_with_fuel(visible_faces, 7);
}

/// The face that looks the other way.
pub open spec fn opposite(face: Face) -> Face {
    match face {
        Face::PosX => Face::NegX,
        Face::NegX => Face::PosX,
        Face::PosY => Face::NegY,
        Face::NegY => Face::PosY,
        Face::PosZ => Face::NegZ,
        Face::NegZ => Face::PosZ,
    }
}

/// Whether every cell of `voxels` but those at `a` and `b` holds air.
pub open spec fn air_but(voxels: Seq<Voxel>, a: int, b: int) -> bool {
    forall|i: int| 0 <= i < voxels.len() && i != a && i != b ==> (#[trigger] voxels[i]).is_air()
}

/// In a chunk where only the cells at `a` and `b` may be solid, a solid
/// cell at `(x, y, z)` gives a quad for each face but the one, if any,
/// that looks at the other cell where that cell is solid.
proof fn lemma_quads_of_lonely_cell(voxels: Seq<Voxel>, x: int, y: int, z: int, other: int, f: int)
    requires
        voxels.len() == 32768,
        0 <= x < 32,
        0 <= y < 32,
        0 <= z < 32,
        0 <= f < 6,
        voxels[cell_index(x, y, z)].is_solid(),
        air_but(voxels, cell_index(x, y, z), other),
    ensures
        gives_quad(voxels, 6 * cell_index(x, y, z) + f) == !({
            let o = Face::nth(f).spec_offset();
            &&& 0 <= x + o.0 < 32
            &&& 0 <= y + o.1 < 32
            &&& 0 <= z + o.2 < 32
            &&& cell_index(x + o.0, y + o.1, z + o.2) == other
            &&& voxels[other].is_solid()
        }),
{
    let i = cell_index(x, y, z);
    crate::chunk::lemma_index_join(x, y, z);
    assert((6 * i + f) / 6 == i && (6 * i + f) % 6 == f);
    let o = Face::nth(f).spec_offset();
    let nx = x + o.0;
    let ny = y + o.1;
    let nz = z + o.2;
    if 0 <= nx < 32 && 0 <= ny < 32 && 0 <= nz < 32 {
        crate::chunk::lemma_index_join(nx, ny, nz);
        assert(cell_index(nx, ny, nz) != i);
    }
}

/// The number of quads of a chunk whose only solid voxel is the one at `(x, y, z)`.
proof fn lemma_single_voxel_upto(voxels: Seq<Voxel>, x: int, y: int, z: int, m: nat)
    requires
        voxels.len() == 32768,
        0 <= x < 32,
        0 <= y < 32,
        0 <= z < 32,
        voxels[cell_index(x, y, z)].is_solid(),
        air_but(voxels, cell_index(x, y, z), cell_index(x, y, z)),
        m <= 32768,
    ensures
        visible_faces(voxels, 6 * m).len() == (if m <= cell_index(x, y, z) {
            0nat
        } else {
            6nat
        }),
    decreases m,
{
    let c = cell_index(x, y, z);
    crate::chunk::lemma_index_join(x, y, z);
    if m > 0 {
        let i = m - 1;
        lemma_single_voxel_upto(voxels, x, y, z, i as nat);
        if i == c {
            lemma_cell_quads(voxels, i);
            lemma_quads_of_lonely_cell(voxels, x, y, z, c, 0);
            lemma_quads_of_lonely_cell(voxels, x, y, z, c, 1);
            lemma_quads_of_lonely_cell(voxels, x, y, z, c, 2);
            lemma_quads_of_lonely_cell(voxels, x, y, z, c, 3);
            lemma_quads_of_lonely_cell(voxels, x, y, z, c, 4);
            lemma_quads_of_lonely_cell(voxels, x, y, z, c, 5);
        } else {
            lemma_air_gives_none(voxels, i, 6);
        }
    }
}

/// A chunk whose only solid voxel is the one at `(x, y, z)` has six
/// quads: its mesh has 24 vertices and 12 triangles.
pub proof fn lemma_single_voxel_mesh(voxels: Seq<Voxel>, x: int, y: int, z: int)
    requires
        voxels.len() == 32768,
        0 <= x < 32,
        0 <= y < 32,
        0 <= z < 32,
        voxels[cell_index(x, y, z)].is_solid(),
        air_but(voxels, cell_index(x, y, z), cell_index(x, y, z)),
    ensures
        visible_faces(voxels, 6 * 32768).len() == 6,
{
    crate::chunk::lemma_index_join(x, y, z);
    lemma_single_voxel_upto(voxels, x, y, z, 32768);
}

/// A solid cell whose face `g` looks at the only other solid cell gives
/// a quad for each face but `g`.
proof fn lemma_quad_beside_neighbor(voxels: Seq<Voxel>, x: int, y: int, z: int, g: Face, f: int)
    requires
        voxels.len() == 32768,
        0 <= x < 32,
        0 <= y < 32,
        0 <= z < 32,
        0 <= f < 6,
        0 <= x + g.spec_offset().0 < 32,
        0 <= y + g.spec_offset().1 < 32,
        0 <= z + g.spec_offset().2 < 32,
        voxels[cell_index(x, y, z)].is_solid(),
        voxels[cell_index(
            x + g.spec_offset().0,
            y + g.spec_offset().1,
            z + g.spec_offset().2,
        )].is_solid(),
        air_but(
            voxels,
            cell_index(x, y, z),
            cell_index(x + g.spec_offset().0, y + g.spec_offset().1, z + g.spec_offset().2),
        ),
    ensures
        gives_quad(voxels, 6 * cell_index(x, y, z) + f) <==> Face::nth(f) != g,
{
    let o = g.spec_offset();
    let b = cell_index(x + o.0, y + o.1, z + o.2);
    lemma_quads_of_lonely_cell(voxels, x, y, z, b, f);
    let d = Face::nth(f).spec_offset();
    crate::chunk::lemma_index_join(x + o.0, y + o.1, z + o.2);
    if 0 <= x + d.0 < 32 && 0 <= y + d.1 < 32 && 0 <= z + d.2 < 32 {
        crate::chunk::lemma_index_join(x + d.0, y + d.1, z + d.2);
    }
}

/// A solid cell whose face `g` looks at the only other solid cell gives five quads.
proof fn lemma_quads_beside_neighbor(voxels: Seq<Voxel>, x: int, y: int, z: int, g: Face)
    requires
        voxels.len() == 32768,
        0 <= x < 32,
        0 <= y < 32,
        0 <= z < 32,
        0 <= x + g.spec_offset().0 < 32,
        0 <= y + g.spec_offset().1 < 32,
        0 <= z + g.spec_offset().2 < 32,
        voxels[cell_index(x, y, z)].is_solid(),
        voxels[cell_index(
            x + g.spec_offset().0,
            y + g.spec_offset().1,
            z + g.spec_offset().2,
        )].is_solid(),
        air_but(
            voxels,
            cell_index(x, y, z),
            cell_index(x + g.spec_offset().0, y + g.spec_offset().1, z + g.spec_offset().2),
        ),
    ensures
        quads_of_cell(voxels, cell_index(x, y, z)) == 5,
{
    lemma_quad_beside_neighbor(voxels, x, y, z, g, 0);
    lemma_quad_beside_neighbor(voxels, x, y, z, g, 1);
    lemma_quad_beside_neighbor(voxels, x, y, z, g, 2);
    lemma_quad_beside_neighbor(voxels, x, y, z, g, 3);
    lemma_quad_beside_neighbor(voxels, x, y, z, g, 4);
    lemma_quad_beside_neighbor(voxels, x, y, z, g, 5);
}

/// The other of two solid voxels that share a face gives five quads too.
proof fn lemma_quads_of_neighbor(voxels: Seq<Voxel>, x: int, y: int, z: int, g: Face)
    requires
        voxels.len() == 32768,
        0 <= x < 32,
        0 <= y < 32,
        0 <= z < 32,
        0 <= x + g.spec_offset().0 < 32,
        0 <= y + g.spec_offset().1 < 32,
        0 <= z + g.spec_offset().2 < 32,
        voxels[cell_index(x, y, z)].is_solid(),
        voxels[cell_index(
            x + g.spec_offset().0,
            y + g.spec_offset().1,
            z + g.spec_offset().2,
        )].is_solid(),
        air_but(
            voxels,
            cell_index(x, y, z),
            cell_index(x + g.spec_offset().0, y + g.spec_offset().1, z + g.spec_offset().2),
        ),
    ensures
        quads_of_cell(
            voxels,
            cell_index(x + g.spec_offset().0, y + g.spec_offset().1, z + g.spec_offset().2),
        ) == 5,
{
    let o = g.spec_offset();
    let q = opposite(g).spec_offset();
    assert(x + o.0 + q.0 == x && y + o.1 + q.1 == y && z + o.2 + q.2 == z);
    lemma_quads_beside_neighbor(voxels, x + o.0, y + o.1, z + o.2, opposite(g));
}

/// How many quads cell `i` adds in a chunk whose only solid voxels are
/// the one at `(x, y, z)` and the neighbor that its face `g` looks at.
proof fn lemma_two_voxels_step(voxels: Seq<Voxel>, x: int, y: int, z: int, g: Face, i: int)
    requires
        voxels.len() == 32768,
        0 <= x < 32,
        0 <= y < 32,
        0 <= z < 32,
        0 <= x + g.spec_offset().0 < 32,
        0 <= y + g.spec_offset().1 < 32,
        0 <= z + g.spec_offset().2 < 32,
        voxels[cell_index(x, y, z)].is_solid(),
        voxels[cell_index(
            x + g.spec_offset().0,
            y + g.spec_offset().1,
            z + g.spec_offset().2,
        )].is_solid(),
        air_but(
            voxels,
            cell_index(x, y, z),
            cell_index(x + g.spec_offset().0, y + g.spec_offset().1, z + g.spec_offset().2),
        ),
        0 <= i < 32768,
    ensures
        visible_faces(voxels, (6 * i + 6) as nat).len() == visible_faces(
            voxels,
            (6 * i) as nat,
        ).len() + (if i == cell_index(x, y, z) || i == cell_index(
            x + g.spec_offset().0,
            y + g.spec_offset().1,
            z + g.spec_offset().2,
        ) {
            5nat
        } else {
            0nat
        }),
{
    let o = g.spec_offset();
    let a = cell_index(x, y, z);
    let b = cell_index(x + o.0, y + o.1, z + o.2);
    if i == a {
        lemma_cell_quads(voxels, i);
        lemma_quads_beside_neighbor(voxels, x, y, z, g);
    } else if i == b {
        lemma_cell_quads(voxels, i);
        lemma_quads_of_neighbor(voxels, x, y, z, g);
    } else {
        lemma_air_gives_none(voxels, i, 6);
    }
}

/// The number of quads of a chunk whose only solid voxels are the one at
/// `(x, y, z)` and the neighbor that its face `g` looks at.
proof fn lemma_two_voxels_upto(voxels: Seq<Voxel>, x: int, y: int, z: int, g: Face, m: nat)
    requires
        voxels.len() == 32768,
        0 <= x < 32,
        0 <= y < 32,
        0 <= z < 32,
        0 <= x + g.spec_offset().0 < 32,
        0 <= y + g.spec_offset().1 < 32,
        0 <= z + g.spec_offset().2 < 32,
        voxels[cell_index(x, y, z)].is_solid(),
        voxels[cell_index(
            x + g.spec_offset().0,
            y + g.spec_offset().1,
            z + g.spec_offset().2,
        )].is_solid(),
        air_but(
            voxels,
            cell_index(x, y, z),
            cell_index(x + g.spec_offset().0, y + g.spec_offset().1, z + g.spec_offset().2),
        ),
        m <= 32768,
    ensures
        visible_faces(voxels, 6 * m).len() == (if m <= cell_index(x, y, z) {
            0nat
        } else {
            5nat
        }) + (if m <= cell_index(
            x + g.spec_offset().0,
            y + g.spec_offset().1,
            z + g.spec_offset().2,
        ) {
            0nat
        } else {
            5nat
        }),
    decreases m,
{
    if m > 0 {
        lemma_two_voxels_upto(voxels, x, y, z, g, (m - 1) as nat);
        lemma_two_voxels_step(voxels, x, y, z, g, m - 1);
        let o = g.spec_offset();
        crate::chunk::lemma_index_join(x, y, z);
        crate::chunk::lemma_index_join(x + o.0, y + o.1, z + o.2);
    }
}

/// A chunk whose only solid voxels are two that share a face has ten
/// quads, five for each voxel: its mesh has 20 triangles. The shared face
/// gives no quad on either side.
pub proof fn lemma_two_voxel_mesh(voxels: Seq<Voxel>, x: int, y: int, z: int, g: Face)
    requires
        voxels.len() == 32768,
        0 <= x < 32,
        0 <= y < 32,
        0 <= z < 32,
        0 <= x + g.spec_offset().0 < 32,
        0 <= y + g.spec_offset().1 < 32,
        0 <= z + g.spec_offset().2 < 32,
        voxels[cell_index(x, y, z)].is_solid(),
        voxels[cell_index(
            x + g.spec_offset().0,
            y + g.spec_offset().1,
            z + g.spec_offset().2,
        )].is_solid(),
        air_but(
            voxels,
            cell_index(x, y, z),
            cell_index(x + g.spec_offset().0, y + g.spec_offset().1, z + g.spec_offset().2),
        ),
    ensures
        visible_faces(voxels, 6 * 32768).len() == 10,
{
    let o = g.spec_offset();
    crate::chunk::lemma_index_join(x, y, z);
    crate::chunk::lemma_index_join(x + o.0, y + o.1, z + o.2);
    lemma_two_voxels_upto(voxels, x, y, z, g, 32768);
}

/// The cross product of two vectors.
pub open spec fn cross(u: (int, int, int), v: (int, int, int)) -> (int, int, int) {
    (u.1 * v.2 - u.2 * v.1, u.2 * v.0 - u.0 * v.2, u.0 * v.1 - u.1 * v.0)
}

/// The edge from the first corner of a quad's triangle to its corner `n`,
/// where the triangle's corners are the indices `t`, `t + 1` and `t + 2`
/// of the quad.
pub open spec fn edge(face: Face, t: int, n: int) -> (int, int, int) {
    let a = corner_offset(face, quad_corner(t));
    let b = corner_offset(face, quad_corner(t + n));
    (b.0 - a.0, b.1 - a.1, b.2 - a.2)
}

/// The winding of the quads: for every face, each of the two triangles
/// of its quad turns the same way about the face's normal. The cross
/// product of the triangle's two edges from its first corner is the
/// normal, reversed.
pub proof fn lemma_consistent_winding(face: Face, t: int)
    requires
        t == 0 || t == 3,
    ensures
        cross(edge(face, t, 1), edge(face, t, 2)) == (
            -face.spec_offset().0,
            -face.spec_offset().1,
            -face.spec_offset().2,
        ),
{
    let u = edge(face, t, 1);
    let v = edge(face, t, 2);
    if face == Face::PosX && t == 0 {
        assert(u.1 * v.2 - u.2 * v.1 == -1) by (nonlinear_arith)
            requires
                u.1 == 0,
                v.2 == 1,
                u.2 == 1,
                v.1 == 1,
        ;
        assert(u.2 * v.0 - u.0 * v.2 == 0) by (nonlinear_arith)
            requires
                u.2 == 1,
                v.0 == 0,
                u.0 == 0,
                v.2 == 1,
        ;
        assert(u.0 * v.1 - u.1 * v.0 == 0) by (nonlinear_arith)
            requires
                u.0 == 0,
                v.1 == 1,
                u.1 == 0,
                v.0 == 0,
        ;
    }
    if face == Face::PosX && t == 3 {
        assert(u.1 * v.2 - u.2 * v.1 == -1) by (nonlinear_arith)
            requires
                u.1 == 1,
                v.2 == 0,
                u.2 == 1,
                v.1 == 1,
        ;
        assert(u.2 * v.0 - u.0 * v.2 == 0) by (nonlinear_arith)
            requires
                u.2 == 1,
                v.0 == 0,
                u.0 == 0,
                v.2 == 0,
        ;
        assert(u.0 * v.1 - u.1 * v.0 == 0) by (nonlinear_arith)
            requires
                u.0 == 0,
                v.1 == 1,
                u.1 == 1,
                v.0 == 0,
        ;
    }
    if face == Face::NegX && t == 0 {
        assert(u.1 * v.2 - u.2 * v.1 == 1) by (nonlinear_arith)
            requires
                u.1 == 0,
                v.2 == -1,
                u.2 == -1,
                v.1 == 1,
        ;
        assert(u.2 * v.0 - u.0 * v.2 == 0) by (nonlinear_arith)
            requires
                u.2 == -1,
                v.0 == 0,
                u.0 == 0,
                v.2 == -1,
        ;
        assert(u.0 * v.1 - u.1 * v.0 == 0) by (nonlinear_arith)
            requires
                u.0 == 0,
                v.1 == 1,
                u.1 == 0,
                v.0 == 0,
        ;
    }
    if face == Face::NegX && t == 3 {
        assert(u.1 * v.2 - u.2 * v.1 == 1) by (nonlinear_arith)
            requires
                u.1 == 1,
                v.2 == 0,
                u.2 == -1,
                v.1 == 1,
        ;
        assert(u.2 * v.0 - u.0 * v.2 == 0) by (nonlinear_arith)
            requires
                u.2 == -1,
                v.0 == 0,
                u.0 == 0,
                v.2 == 0,
        ;
        assert(u.0 * v.1 - u.1 * v.0 == 0) by (nonlinear_arith)
            requires
                u.0 == 0,
                v.1 == 1,
                u.1 == 1,
                v.0 == 0,
        ;
    }
    if face == Face::PosY && t == 0 {
        assert(u.1 * v.2 - u.2 * v.1 == 0) by (nonlinear_arith)
            requires
                u.1 == 0,
                v.2 == 1,
                u.2 == 0,
                v.1 == 0,
        ;
        assert(u.2 * v.0 - u.0 * v.2 == -1) by (nonlinear_arith)
            requires
                u.2 == 0,
                v.0 == 1,
                u.0 == 1,
                v.2 == 1,
        ;
        assert(u.0 * v.1 - u.1 * v.0 == 0) by (nonlinear_arith)
            requires
                u.0 == 1,
                v.1 == 0,
                u.1 == 0,
                v.0 == 1,
        ;
    }
    if face == Face::PosY && t == 3 {
        assert(u.1 * v.2 - u.2 * v.1 == 0) by (nonlinear_arith)
            requires
                u.1 == 0,
                v.2 == 1,
                u.2 == 1,
                v.1 == 0,
        ;
        assert(u.2 * v.0 - u.0 * v.2 == -1) by (nonlinear_arith)
            requires
                u.2 == 1,
                v.0 == 0,
                u.0 == 1,
                v.2 == 1,
        ;
        assert(u.0 * v.1 - u.1 * v.0 == 0) by (nonlinear_arith)
            requires
                u.0 == 1,
                v.1 == 0,
                u.1 == 0,
                v.0 == 0,
        ;
    }
    if face == Face::NegY && t == 0 {
        assert(u.1 * v.2 - u.2 * v.1 == 0) by (nonlinear_arith)
            requires
                u.1 == 0,
                v.2 == -1,
                u.2 == 0,
                v.1 == 0,
        ;
        assert(u.2 * v.0 - u.0 * v.2 == 1) by (nonlinear_arith)
            requires
                u.2 == 0,
                v.0 == 1,
                u.0 == 1,
                v.2 == -1,
        ;
        assert(u.0 * v.1 - u.1 * v.0 == 0) by (nonlinear_arith)
            requires
                u.0 == 1,
                v.1 == 0,
                u.1 == 0,
                v.0 == 1,
        ;
    }
    if face == Face::NegY && t == 3 {
        assert(u.1 * v.2 - u.2 * v.1 == 0) by (nonlinear_arith)
            requires
                u.1 == 0,
                v.2 == -1,
                u.2 == -1,
                v.1 == 0,
        ;
        assert(u.2 * v.0 - u.0 * v.2 == 1) by (nonlinear_arith)
            requires
                u.2 == -1,
                v.0 == 0,
                u.0 == 1,
                v.2 == -1,
        ;
        assert(u.0 * v.1 - u.1 * v.0 == 0) by (nonlinear_arith)
            requires
                u.0 == 1,
                v.1 == 0,
                u.1 == 0,
                v.0 == 0,
        ;
    }
    if face == Face::PosZ && t == 0 {
        assert(u.1 * v.2 - u.2 * v.1 == 0) by (nonlinear_arith)
            requires
                u.1 == 0,
                v.2 == 0,
                u.2 == 0,
                v.1 == 1,
        ;
        assert(u.2 * v.0 - u.0 * v.2 == 0) by (nonlinear_arith)
            requires
                u.2 == 0,
                v.0 == -1,
                u.0 == -1,
                v.2 == 0,
        ;
        assert(u.0 * v.1 - u.1 * v.0 == -1) by (nonlinear_arith)
            requires
                u.0 == -1,
                v.1 == 1,
                u.1 == 0,
                v.0 == -1,
        ;
    }
    if face == Face::PosZ && t == 3 {
        assert(u.1 * v.2 - u.2 * v.1 == 0) by (nonlinear_arith)
            requires
                u.1 == 1,
                v.2 == 0,
                u.2 == 0,
                v.1 == 1,
        ;
        assert(u.2 * v.0 - u.0 * v.2 == 0) by (nonlinear_arith)
            requires
                u.2 == 0,
                v.0 == 0,
                u.0 == -1,
                v.2 == 0,
        ;
        assert(u.0 * v.1 - u.1 * v.0 == -1) by (nonlinear_arith)
            requires
                u.0 == -1,
                v.1 == 1,
                u.1 == 1,
                v.0 == 0,
        ;
    }
    if face == Face::NegZ && t == 0 {
        assert(u.1 * v.2 - u.2 * v.1 == 0) by (nonlinear_arith)
            requires
                u.1 == 0,
                v.2 == 0,
                u.2 == 0,
                v.1 == 1,
        ;
        assert(u.2 * v.0 - u.0 * v.2 == 0) by (nonlinear_arith)
            requires
                u.2 == 0,
                v.0 == 1,
                u.0 == 1,
                v.2 == 0,
        ;
        assert(u.0 * v.1 - u.1 * v.0 == 1) by (nonlinear_arith)
            requires
                u.0 == 1,
                v.1 == 1,
                u.1 == 0,
                v.0 == 1,
        ;
    }
    if face == Face::NegZ && t == 3 {
        assert(u.1 * v.2 - u.2 * v.1 == 0) by (nonlinear_arith)
            requires
                u.1 == 1,
                v.2 == 0,
                u.2 == 0,
                v.1 == 1,
        ;
        assert(u.2 * v.0 - u.0 * v.2 == 0) by (nonlinear_arith)
            requires
                u.2 == 0,
                v.0 == 0,
                u.0 == 1,
                v.2 == 0,
        ;
        assert(u.0 * v.1 - u.1 * v.0 == 1) by (nonlinear_arith)
            requires
                u.0 == 1,
                v.1 == 1,
                u.1 == 1,
                v.0 == 0,
        ;
    }
}

/// The corners of a face's quad are the four corners of the unit square
/// on the voxel's side that the face looks out of.
pub proof fn lemma_corners_on_face(face: Face, c: int, d: int)
    requires
        0 <= c < 4,
        0 <= d < 4,
    ensures
        ({
            let p = corner_offset(face, c);
            let n = face.spec_offset();
            &&& 0 <= p.0 <= 1 && 0 <= p.1 <= 1 && 0 <= p.2 <= 1
            &&& n.0 != 0 ==> p.0 == (n.0 + 1) / 2
            &&& n.1 != 0 ==> p.1 == (n.1 + 1) / 2
            &&& n.2 != 0 ==> p.2 == (n.2 + 1) / 2
            &&& c != d ==> corner_offset(face, c) != corner_offset(face, d)
        }),
{
}

/// Generators of meshes for chunks.
pub trait Mesher {
    /// The mesh of `chunk`, placed where the chunk at `chunk_pos` lies.
    fn generate(&self, chunk: &Chunk, chunk_pos: ChunkPos) -> (mesh: ChunkMesh)
        requires
            chunk.wf(),
        ensures
            mesh.chunk_pos == chunk_pos,
    ;
}

/// The mesher that gives every visible face a quad of its own.
pub struct NaiveMesher;

impl NaiveMesher {
    pub fn new() -> NaiveMesher {
        NaiveMesher
    }

    /// Whether the face `face` of the cell at `(x, y, z)` is meshed: the
    /// neighbor that it looks at lies outside the chunk or holds air.
    pub fn is_face_visible(chunk: &Chunk, x: i32, y: i32, z: i32, face: Face) -> (visible: bool)
        requires
            chunk.wf(),
        ensures
            visible == face_visible(chunk@, x as int, y as int, z as int, face),
    {
        let (dx, dy, dz) = face.offset();
        let nx = x as i64 + dx as i64;
        let ny = y as i64 + dy as i64;
        let nz = z as i64 + dz as i64;
        if nx < 0 || nx >= 32 || ny < 0 || ny >= 32 || nz < 0 || nz >= 32 {
            return true;
        }
        chunk.get(nx as usize, ny as usize, nz as usize).is_air()
    }

    /// The four vertices of the face `face` of the voxel whose minimum
    /// corner is `(x, y, z)`, in the order of the quad's corners.
    pub fn generate_face_vertices(x: i64, y: i64, z: i64, face: Face, color: (u16, u16, u16, u16)) -> (quad:
        [Vertex; 4])
        requires
            x < i64::MAX,
            y < i64::MAX,
            z < i64::MAX,
        ensures
            forall|c: int|
                0 <= c < 4 ==> #[trigger] quad@[c] == (Vertex {
                    position: (
                        (x + corner_offset(face, c).0) as i64,
                        (y + corner_offset(face, c).1) as i64,
                        (z + corner_offset(face, c).2) as i64,
                    ),
                    normal: face.spec_offset(),
                    color,
                }),
    {
        let normal = face.normal();
        match face {
            Face::PosX => [
                Vertex::new((x + 1, y, z), normal, color),
                Vertex::new((x + 1, y, z + 1), normal, color),
                Vertex::new((x + 1, y + 1, z + 1), normal, color),
                Vertex::new((x + 1, y + 1, z), normal, color),
            ],
            Face::NegX => [
                Vertex::new((x, y, z + 1), normal, color),
                Vertex::new((x, y, z), normal, color),
                Vertex::new((x, y + 1, z), normal, color),
                Vertex::new((x, y + 1, z + 1), normal, color),
            ],
            Face::PosY => [
                Vertex::new((x, y + 1, z), normal, color),
                Vertex::new((x + 1, y + 1, z), normal, color),
                Vertex::new((x + 1, y + 1, z + 1), normal, color),
                Vertex::new((x, y + 1, z + 1), normal, color),
            ],
            Face::NegY => [
                Vertex::new((x, y, z + 1), normal, color),
                Vertex::new((x + 1, y, z + 1), normal, color),
                Vertex::new((x + 1, y, z), normal, color),
                Vertex::new((x, y, z), normal, color),
            ],
            Face::PosZ => [
                Vertex::new((x + 1, y, z + 1), normal, color),
                Vertex::new((x, y, z + 1), normal, color),
                Vertex::new((x, y + 1, z + 1), normal, color),
                Vertex::new((x + 1, y + 1, z + 1), normal, color),
            ],
            Face::NegZ => [
                Vertex::new((x, y, z), normal, color),
                Vertex::new((x + 1, y, z), normal, color),
                Vertex::new((x + 1, y + 1, z), normal, color),
                Vertex::new((x, y + 1, z), normal, color),
            ],
        }
    }

    /// The color `[r, g, b, a]` as it shows on the face `face`: red, green
    /// and blue darkened by the face's shade, in units of `1 / COLOR_SCALE`.
    pub fn apply_face_shading(color: [u8; 4], face: Face) -> (shaded: (u16, u16, u16, u16))
        ensures
            shaded.0 == color@[0] * shade(face),
            shaded.1 == color@[1] * shade(face),
            shaded.2 == color@[2] * shade(face),
            shaded.3 == color@[3] * 100,
    {
        let s: u16 = match face {
            Face::PosY => 100,
            Face::PosX | Face::NegZ => 85,
            Face::NegX | Face::PosZ => 75,
            Face::NegY => 60,
        };
        assert(color@[0] * s <= 25500 && color@[1] * s <= 25500 && color@[2] * s <= 25500)
            by (nonlinear_arith)
            requires
                color@[0] <= 255,
                color@[1] <= 255,
                color@[2] <= 255,
                0 <= s <= 100,
        ;
        (
            color[0] as u16 * s,
            color[1] as u16 * s,
            color[2] as u16 * s,
            color[3] as u16 * SHADE_SCALE,
        )
    }
}

impl Default for NaiveMesher {
    fn default() -> NaiveMesher {
        NaiveMesher
    }
}

impl Mesher for NaiveMesher {
    /// The mesh of `chunk`: for every solid voxel in flat order, and for
    /// each of its faces that is visible, a quad at the voxel's place in
    /// the world, in the voxel's color under the face's shade.
    #[verifier::rlimit(50)]
    fn generate(&self, chunk: &Chunk, chunk_pos: ChunkPos) -> (mesh: ChunkMesh)
        ensures
            is_mesh_of(
                mesh.vertices@,
                mesh.indices@,
                chunk_pos,
                chunk@,
                visible_faces(chunk@, 6 * CHUNK_VOLUME as nat),
            ),
            chunk.spec_is_empty() ==> mesh.vertices@.len() == 0 && mesh.indices@.len() == 0,
    {
        if chunk.is_empty() {
            proof {
                lemma_empty_chunk_mesh(chunk@, 6 * CHUNK_VOLUME as nat);
            }
            return ChunkMesh::new(chunk_pos);
        }
        let estimated_faces = chunk.solid_count() as usize;
        let mut mesh = ChunkMesh::with_capacity(chunk_pos, estimated_faces * 4, estimated_faces * 6);
        let wx: i64 = chunk_pos.x as i64 * 32;
        let wy: i64 = chunk_pos.y as i64 * 32;
        let wz: i64 = chunk_pos.z as i64 * 32;
        let faces = Face::all();
        let ghost voxels = chunk@;
        let mut i: usize = 0;
        while i < CHUNK_VOLUME
            invariant
                i <= CHUNK_VOLUME,
                chunk.wf(),
                voxels == chunk@,
                wx == chunk_pos.x * 32,
                wy == chunk_pos.y * 32,
                wz == chunk_pos.z * 32,
                forall|k: int| 0 <= k < 6 ==> #[trigger] faces@[k] == Face::nth(k),
                mesh.chunk_pos == chunk_pos,
                is_mesh_of(
                    mesh.vertices@,
                    mesh.indices@,
                    chunk_pos,
                    voxels,
                    visible_faces(voxels, (6 * i) as nat),
                ),
            decreases CHUNK_VOLUME - i,
        {
            let local = crate::chunk::LocalPos::from_index(i);
            let x = local.x as usize;
            let y = local.y as usize;
            let z = local.z as usize;
            proof {
                crate::chunk::lemma_index_split(i as int);
            }
            let voxel = chunk.get(x, y, z);
            if voxel.is_air() {
                proof {
                    lemma_air_gives_none(voxels, i as int, 6);
                }
            } else {
                let color = voxel.color();
                let mut f: usize = 0;
                while f < 6
                    invariant
                        f <= 6,
                        i < CHUNK_VOLUME,
                        chunk.wf(),
                        voxels == chunk@,
                        wx == chunk_pos.x * 32,
                        wy == chunk_pos.y * 32,
                        wz == chunk_pos.z * 32,
                        x == i % 32,
                        y == (i / 32) % 32,
                        z == i / 1024,
                        voxel == voxels[i as int],
                        voxel.is_solid(),
                        color@ == seq![voxel.r, voxel.g, voxel.b, voxel.a],
                        forall|k: int| 0 <= k < 6 ==> #[trigger] faces@[k] == Face::nth(k),
                        mesh.chunk_pos == chunk_pos,
                        is_mesh_of(
                            mesh.vertices@,
                            mesh.indices@,
                            chunk_pos,
                            voxels,
                            visible_faces(voxels, (6 * i + f) as nat),
                        ),
                    decreases 6 - f,
                {
                    let face = faces[f];
                    let ghost k = 6 * i + f;
                    let ghost before = visible_faces(voxels, k as nat);
                    proof {
                        assert(k / 6 == i && k % 6 == f);
                        lemma_visible_faces_bound(voxels, k as nat);
                    }
                    if NaiveMesher::is_face_visible(chunk, x as i32, y as i32, z as i32, face) {
                        let shaded = NaiveMesher::apply_face_shading(color, face);
                        let quad = NaiveMesher::generate_face_vertices(
                            wx + x as i64,
                            wy + y as i64,
                            wz + z as i64,
                            face,
                            shaded,
                        );
                        let ghost v0 = mesh.vertices@;
                        let ghost i0 = mesh.indices@;
                        mesh.add_quad(quad);
                        proof {
                            let after = visible_faces(voxels, (k + 1) as nat);
                            assert(after == before.push(k));
                            assert forall|j: int| 0 <= j < mesh.vertices@.len() implies (
                            #[trigger] mesh.vertices@[j]) == face_vertex(
                                chunk_pos,
                                voxels,
                                after[j / 4],
                                j % 4,
                            ) by {
                                if j < v0.len() {
                                    assert(mesh.vertices@[j] == v0[j]);
                                    assert(after[j / 4] == before[j / 4]);
                                } else {
                                    assert(j / 4 == before.len());
                                    assert(mesh.vertices@[j] == quad@[j - v0.len()]);
                                    assert(j - v0.len() == j % 4);
                                }
                            }
                            assert forall|j: int| 0 <= j < mesh.indices@.len() implies (
                            #[trigger] mesh.indices@[j]) == 4 * (j / 6) + quad_corner(j % 6) by {
                                if j < i0.len() {
                                    assert(mesh.indices@[j] == i0[j]);
                                } else {
                                    assert(j / 6 == before.len());
                                    assert(j - i0.len() == j % 6);
                                }
                            }
                        }
                    }
                    f = f + 1;
                }
            }
            i = i + 1;
        }
        mesh
    }
}

} // verus!
