//! The VOX model format: a box of at most 256 voxels a side, each voxel
//! an index into a palette of 256 colors.

use crate::bytes::{
    has_bytes, i32_at, in_reach, read_i32, read_u32, u32_at, u32_bytes, write_u32,
};
use crate::chunk::{Chunk, ChunkPos, CHUNK_VOLUME};
use crate::voxel::Voxel;
use crate::world::{cell_coord, coord_index, lemma_cell_coord, World, WorldState};
use std::collections::HashMap;
use vstd::prelude::*;

verus! {

/// The version of the format that is written.
pub const VOX_VERSION: i32 = 150;

/// The greatest size of a model along an axis.
pub const MAX_VOX_SIZE: u32 = 256;

/// Why a model could not be read or made.
#[derive(Debug, PartialEq, Eq)]
pub enum VoxError {
    /// The data ends too early, or a chunk's size is negative.
    Io,
    /// The data does not start with `VOX `.
    InvalidMagic,
    UnsupportedVersion(i32),
    /// The first chunk is not `MAIN`; the value is its id.
    InvalidChunkId([u8; 4]),
    /// The world's solid voxels span more than 256 voxels along an axis.
    ModelTooLarge,
    /// The data has no `SIZE` chunk.
    NoVoxelData,
    InvalidPaletteIndex(u8),
}

/// A color as red, green, blue and opacity.
pub open spec fn color_of(c: [u8; 4]) -> (u8, u8, u8, u8) {
    (c@[0], c@[1], c@[2], c@[3])
}

/// The default color of palette index `i`.
pub open spec fn default_color(i: int) -> (u8, u8, u8, u8) {
    let idx = i as u8;
    if i == 0 {
        (0, 0, 0, 0)
    } else if i == 1 {
        (255, 255, 255, 255)
    } else if i == 2 {
        (255, 0, 0, 255)
    } else if i == 3 {
        (0, 255, 0, 255)
    } else if i == 4 {
        (0, 0, 255, 255)
    } else if i == 5 {
        (255, 255, 0, 255)
    } else if i == 6 {
        (255, 0, 255, 255)
    } else if i == 7 {
        (0, 255, 255, 255)
    } else if i == 8 {
        (128, 128, 128, 255)
    } else if i == 9 {
        (255, 128, 0, 255)
    } else if i == 10 {
        (128, 0, 255, 255)
    } else if i == 11 {
        (0, 128, 0, 255)
    } else if i == 12 {
        (139, 90, 43, 255)
    } else if i == 13 {
        (76, 153, 0, 255)
    } else {
        (
            (idx.wrapping_mul(37) ^ (idx >> 2)).wrapping_add(idx),
            (idx.wrapping_mul(73) ^ (idx >> 3)).wrapping_add(idx.wrapping_mul(2)),
            (idx.wrapping_mul(149) ^ (idx >> 1)).wrapping_add(idx.wrapping_mul(3)),
            255,
        )
    }
}

/// The default palette: index 0 is empty, indices 1 to 13 are common
/// colors, the others are spread over the color space.
pub fn default_palette() -> (palette: [[u8; 4]; 256])
    ensures
        forall|i: int| 0 <= i < 256 ==> color_of(#[trigger] palette@[i]) == default_color(i),
{
    let mut palette = [[0u8; 4]; 256];
    let mut i: usize = 1;
    while i < 256
        invariant
            1 <= i <= 256,
            color_of(palette@[0]) == (0u8, 0u8, 0u8, 0u8),
            forall|k: int|
                14 <= k < i ==> color_of(#[trigger] palette@[k]) == default_color(k),
        decreases 256 - i,
    {
        let idx = i as u8;
        let r = (idx.wrapping_mul(37) ^ (idx >> 2)).wrapping_add(idx);
        let g = (idx.wrapping_mul(73) ^ (idx >> 3)).wrapping_add(idx.wrapping_mul(2));
        let b = (idx.wrapping_mul(149) ^ (idx >> 1)).wrapping_add(idx.wrapping_mul(3));
        palette[i] = [r, g, b, 255];
        i = i + 1;
    }
    palette[1] = [255, 255, 255, 255];
    palette[2] = [255, 0, 0, 255];
    palette[3] = [0, 255, 0, 255];
    palette[4] = [0, 0, 255, 255];
    palette[5] = [255, 255, 0, 255];
    palette[6] = [255, 0, 255, 255];
    palette[7] = [0, 255, 255, 255];
    palette[8] = [128, 128, 128, 255];
    palette[9] = [255, 128, 0, 255];
    palette[10] = [128, 0, 255, 255];
    palette[11] = [0, 128, 0, 255];
    palette[12] = [139, 90, 43, 255];
    palette[13] = [76, 153, 0, 255];
    palette
}

/// The square of the distance between the color `(r, g, b)` and the
/// red, green and blue of `p`.
pub open spec fn color_dist(p: (u8, u8, u8, u8), r: u8, g: u8, b: u8) -> int {
    (r - p.0) * (r - p.0) + (g - p.1) * (g - p.1) + (b - p.2) * (b - p.2)
}

/// The palette index from 1 on whose color is nearest to `color`; of
/// several the least.
pub fn find_closest_color(palette: &[[u8; 4]; 256], color: [u8; 3]) -> (best: u8)
    ensures
        best >= 1,
        forall|i: int|
            1 <= i < 256 ==> color_dist(color_of(palette@[best as int]), color@[0], color@[1], color@[2])
                <= color_dist(color_of(#[trigger] palette@[i]), color@[0], color@[1], color@[2]),
        forall|i: int|
            1 <= i < best ==> color_dist(
                color_of(palette@[best as int]),
                color@[0],
                color@[1],
                color@[2],
            ) < color_dist(color_of(#[trigger] palette@[i]), color@[0], color@[1], color@[2]),
{
    let mut best_index: u8 = 1;
    let mut best_dist: u32 = u32::MAX;
    let mut i: usize = 1;
    while i < 256
        invariant
            1 <= i <= 256,
            1 <= best_index < 256,
            i > 1 ==> best_index < i && best_dist == color_dist(
                color_of(palette@[best_index as int]),
                color@[0],
                color@[1],
                color@[2],
            ),
            i == 1 ==> best_dist == u32::MAX && best_index == 1,
            forall|k: int|
                1 <= k < i ==> best_dist <= color_dist(
                    color_of(#[trigger] palette@[k]),
                    color@[0],
                    color@[1],
                    color@[2],
                ),
            forall|k: int|
                1 <= k < best_index ==> best_dist < color_dist(
                    color_of(#[trigger] palette@[k]),
                    color@[0],
                    color@[1],
                    color@[2],
                ),
        decreases 256 - i,
    {
        let p = palette[i];
        let dr: i32 = color[0] as i32 - p[0] as i32;
        let dg: i32 = color[1] as i32 - p[1] as i32;
        let db: i32 = color[2] as i32 - p[2] as i32;
        assert(0 <= dr * dr <= 65025 && 0 <= dg * dg <= 65025 && 0 <= db * db <= 65025)
            by (nonlinear_arith)
            requires
                -255 <= dr <= 255,
                -255 <= dg <= 255,
                -255 <= db <= 255,
        ;
        let dist: u32 = (dr * dr + dg * dg + db * db) as u32;
        if dist < best_dist {
            best_dist = dist;
            best_index = i as u8;
        }
        i = i + 1;
    }
    best_index
}

/// The header of a chunk of the format: its id, the size of its content
/// and the size of its children.
pub struct ChunkHeader {
    pub id: [u8; 4],
    pub content_size: i32,
    pub children_size: i32,
}

impl ChunkHeader {
    /// The header that `data` holds at `at`, or `Io` where `data` ends
    /// before the header's twelve bytes.
    pub fn read(data: &[u8], at: usize) -> (header: Result<ChunkHeader, VoxError>)
        ensures
            match header {
                Ok(h) => has_bytes(data@, at as int, 12) && h.id@ == data@.subrange(
                    at as int,
                    at + 4,
                ) && h.content_size == i32_at(data@, at + 4) && h.children_size == i32_at(
                    data@,
                    at + 8,
                ),
                Err(e) => !has_bytes(data@, at as int, 12) && e == VoxError::Io,
            },
    {
        if data.len() < 12 || at > data.len() - 12 {
            return Err(VoxError::Io);
        }
        let id = [data[at], data[at + 1], data[at + 2], data[at + 3]];
        assert(id@ =~= data@.subrange(at as int, at + 4));
        match (read_i32(data, at + 4), read_i32(data, at + 8)) {
            (Some(content_size), Some(children_size)) => Ok(
                ChunkHeader { id, content_size, children_size },
            ),
            _ => Err(VoxError::Io),
        }
    }

    /// Appends the header's twelve bytes.
    pub fn write(&self, buf: &mut Vec<u8>)
        ensures
            final(buf)@ == old(buf)@ + self.id@ + crate::bytes::i32_bytes(self.content_size as int)
                + crate::bytes::i32_bytes(self.children_size as int),
    {
        let ghost before = buf@;
        buf.push(self.id[0]);
        buf.push(self.id[1]);
        buf.push(self.id[2]);
        buf.push(self.id[3]);
        assert(buf@ =~= before + self.id@);
        crate::bytes::write_i32(buf, self.content_size);
        crate::bytes::write_i32(buf, self.children_size);
    }
}

/// What a model holds: its size, its voxels as position and palette index,
/// and its palette of 256 colors.
pub struct VoxState {
    pub size: (u32, u32, u32),
    pub voxels: Seq<(u8, u8, u8, u8)>,
    pub palette: Seq<(u8, u8, u8, u8)>,
}

/// A model: a box of voxels, each an index into the model's palette.
pub struct VoxModel {
    /// The size of the box along `x`, `y` and `z`.
    pub size: (u32, u32, u32),
    /// The voxels as `(x, y, z, palette index)`.
    pub voxels: Vec<(u8, u8, u8, u8)>,
    /// The palette; index 0 stands for no voxel.
    pub palette: [[u8; 4]; 256],
}

impl View for VoxModel {
    type V = VoxState;

    open spec fn view(&self) -> VoxState {
        VoxState {
            size: self.size,
            voxels: self.voxels@,
            palette: self.palette@.map_values(|c: [u8; 4]| color_of(c)),
        }
    }
}

/// The default palette as a sequence of colors.
pub open spec fn default_colors() -> Seq<(u8, u8, u8, u8)> {
    Seq::new(256, |i: int| default_color(i))
}

/// The id of the chunk that holds all others: `MAIN`.
pub open spec fn main_id() -> Seq<u8> {
    seq![0x4Du8, 0x41u8, 0x49u8, 0x4Eu8]
}

/// The id of the chunk that holds the model's size: `SIZE`.
pub open spec fn size_id() -> Seq<u8> {
    seq![0x53u8, 0x49u8, 0x5Au8, 0x45u8]
}

/// The id of the chunk that holds the voxels: `XYZI`.
pub open spec fn xyzi_id() -> Seq<u8> {
    seq![0x58u8, 0x59u8, 0x5Au8, 0x49u8]
}

/// The id of the chunk that holds the palette: `RGBA`.
pub open spec fn rgba_id() -> Seq<u8> {
    seq![0x52u8, 0x47u8, 0x42u8, 0x41u8]
}

/// The four bytes that a model starts with: `VOX ` with a blank.
pub open spec fn vox_magic() -> Seq<u8> {
    seq![0x56u8, 0x4Fu8, 0x58u8, 0x20u8]
}

/// The four bytes of `data` from `at` on, as a voxel or a color.
pub open spec fn entry_at(data: Seq<u8>, at: int) -> (u8, u8, u8, u8) {
    (data[at], data[at + 1], data[at + 2], data[at + 3])
}

/// What has been read of a model: the size if a `SIZE` chunk was read,
/// the voxels of the `XYZI` chunks, and the palette.
pub struct VoxParts {
    pub size: Option<(u32, u32, u32)>,
    pub voxels: Seq<(u8, u8, u8, u8)>,
    pub palette: Seq<(u8, u8, u8, u8)>,
}

/// The palette that an `RGBA` chunk with its content at `at` holds: the
/// color of palette index `k` from 1 on is the chunk's color `k - 1`,
/// and that of index 0 is the chunk's last color.
pub open spec fn palette_at(data: Seq<u8>, at: int) -> Seq<(u8, u8, u8, u8)> {
    Seq::new(
        256,
        |k: int|
            if k == 0 {
                entry_at(data, at + 4 * 255)
            } else {
                entry_at(data, at + 4 * (k - 1))
            },
    )
}

/// What has been read after the content of a chunk, and where the
/// content ends; `None` where `data` ends too early or a size is
/// negative. A `SIZE` chunk sets the size, an `XYZI` chunk adds its
/// voxels, an `RGBA` chunk sets the palette; the content of any other
/// chunk is passed over.
pub open spec fn after_content(
    data: Seq<u8>,
    at: int,
    id: Seq<u8>,
    content_size: int,
    parts: VoxParts,
) -> Option<(VoxParts, int)> {
    if id == size_id() {
        if has_bytes(data, at, 12) {
            Some(
                (
                    VoxParts {
                        size: Some(
                            (
                                u32_at(data, at) as u32,
                                u32_at(data, at + 4) as u32,
                                u32_at(data, at + 8) as u32,
                            ),
                        ),
                        ..parts
                    },
                    at + 12,
                ),
            )
        } else {
            None
        }
    } else if id == xyzi_id() {
        if has_bytes(data, at, 4) && i32_at(data, at) >= 0 && has_bytes(
            data,
            at + 4,
            4 * i32_at(data, at),
        ) {
            Some(
                (
                    VoxParts {
                        voxels: parts.voxels + Seq::new(
                            i32_at(data, at) as nat,
                            |t: int| entry_at(data, at + 4 + 4 * t),
                        ),
                        ..parts
                    },
                    at + 4 + 4 * i32_at(data, at),
                ),
            )
        } else {
            None
        }
    } else if id == rgba_id() {
        if has_bytes(data, at, 1024) {
            Some((VoxParts { palette: palette_at(data, at), ..parts }, at + 1024))
        } else {
            None
        }
    } else {
        if content_size >= 0 && has_bytes(data, at, content_size) {
            Some((parts, at + content_size))
        } else {
            None
        }
    }
}

/// What has been read after the chunk at `at`, where the next chunk
/// starts, and the size that the chunk's header gives it; `None` where
/// `data` ends too early or a size is negative.
pub open spec fn after_chunk(data: Seq<u8>, at: int, parts: VoxParts) -> Option<
    (VoxParts, int, int),
> {
    if !has_bytes(data, at, 12) {
        None
    } else {
        let content_size = i32_at(data, at + 4);
        let children_size = i32_at(data, at + 8);
        match after_content(data, at + 12, data.subrange(at, at + 4), content_size, parts) {
            None => None,
            Some((read, end)) => if children_size > 0 {
                if has_bytes(data, end, children_size) {
                    Some((read, end + children_size, 12 + content_size + children_size))
                } else {
                    None
                }
            } else {
                Some((read, end, 12 + content_size + children_size))
            },
        }
    }
}

/// What has been read once the chunks from `at` on have been read, up to
/// the chunk at which the sizes that the headers give add up to `limit`;
/// `None` where `data` ends too early or a size is negative.
pub open spec fn after_chunks(
    data: Seq<u8>,
    at: int,
    bytes_read: int,
    limit: int,
    parts: VoxParts,
) -> Option<VoxParts>
    decreases data.len() - at,
{
    if bytes_read >= limit {
        Some(parts)
    } else {
        match after_chunk(data, at, parts) {
            None => None,
            Some((read, next, counted)) => if at < next <= data.len() {
                after_chunks(data, next, bytes_read + counted, limit, read)
            } else {
                None
            },
        }
    }
}

/// What reading a model gives.
pub enum VoxOutcome {
    /// The data holds this model.
    Model(VoxState),
    /// The data ends too early or a size in it is negative.
    Io,
    /// The data does not start with the magic bytes.
    InvalidMagic,
    /// The first chunk has this id and not `MAIN`.
    InvalidChunkId(Seq<u8>),
    /// The data has no `SIZE` chunk.
    NoVoxelData,
}

/// What reading `data` as a model gives. The checks come in this order:
/// the magic bytes, the version, which may be any, the `MAIN` chunk, its
/// children, the size.
pub open spec fn parsed_vox(data: Seq<u8>) -> VoxOutcome {
    if !has_bytes(data, 0, 4) {
        VoxOutcome::Io
    } else if data.subrange(0, 4) != vox_magic() {
        VoxOutcome::InvalidMagic
    } else if !has_bytes(data, 8, 12) {
        VoxOutcome::Io
    } else if data.subrange(8, 12) != main_id() {
        VoxOutcome::InvalidChunkId(data.subrange(8, 12))
    } else {
        outcome_of(
            after_chunks(
                data,
                20,
                0,
                i32_at(data, 16),
                VoxParts { size: None, voxels: Seq::empty(), palette: default_colors() },
            ),
        )
    }
}

/// The outcome of reading, given what was read of the chunks: a model
/// where a size was read.
pub open spec fn outcome_of(read: Option<VoxParts>) -> VoxOutcome {
    match read {
        None => VoxOutcome::Io,
        Some(parts) => match parts.size {
            None => VoxOutcome::NoVoxelData,
            Some(size) => VoxOutcome::Model(
                VoxState { size, voxels: parts.voxels, palette: parts.palette },
            ),
        },
    }
}

/// Whether `result` is the outcome `outcome`.
pub open spec fn is_outcome(result: Result<VoxModel, VoxError>, outcome: VoxOutcome) -> bool {
    match outcome {
        VoxOutcome::Model(m) => result matches Ok(model) && model@ == m,
        VoxOutcome::Io => result matches Err(VoxError::Io),
        VoxOutcome::InvalidMagic => result matches Err(VoxError::InvalidMagic),
        VoxOutcome::InvalidChunkId(id) => result matches Err(VoxError::InvalidChunkId(i)) && i@
            == id,
        VoxOutcome::NoVoxelData => result matches Err(VoxError::NoVoxelData),
    }
}

/// The bytes of voxels or colors, four each.
pub open spec fn entries_bytes(entries: Seq<(u8, u8, u8, u8)>) -> Seq<u8> {
    Seq::new(
        4 * entries.len(),
        |j: int|
            if j % 4 == 0 {
                entries[j / 4].0
            } else if j % 4 == 1 {
                entries[j / 4].1
            } else if j % 4 == 2 {
                entries[j / 4].2
            } else {
                entries[j / 4].3
            },
    )
}

/// The parts of the bytes of a model, in order.
pub open spec fn vox_parts(m: VoxState) -> Seq<Seq<u8>> {
    let n = m.voxels.len() as int;
    seq![
        vox_magic(),
        u32_bytes(150),
        main_id(),
        u32_bytes(0),
        u32_bytes((1076 + 4 * n) % 0x1_0000_0000),
        size_id(),
        u32_bytes(12),
        u32_bytes(0),
        u32_bytes(m.size.0 as int),
        u32_bytes(m.size.1 as int),
        u32_bytes(m.size.2 as int),
        xyzi_id(),
        u32_bytes((4 + 4 * n) % 0x1_0000_0000),
        u32_bytes(0),
        u32_bytes(n % 0x1_0000_0000),
        entries_bytes(m.voxels),
        rgba_id(),
        u32_bytes(1024),
        u32_bytes(0),
        entries_bytes(m.palette.subrange(1, 256)),
        seq![0u8, 0u8, 0u8, 0u8],
    ]
}

/// The bytes of a model: the magic bytes and the version; the header of
/// the `MAIN` chunk with the size of its children; the `SIZE` chunk with
/// the size along the three axes; the `XYZI` chunk with the number of
/// voxels and the voxels; and the `RGBA` chunk with the colors of the
/// palette indices 1 to 255 and one unused color. Each header is an id,
/// the size of the content and the size of the children. Sizes and
/// counts are stored modulo 2^32.
pub open spec fn vox_bytes(m: VoxState) -> Seq<u8> {
    crate::bytes::joined(vox_parts(m))
}

/// The voxel that a model's color stands for: material 1 with the
/// color's red, green, blue and opacity.
pub open spec fn voxel_of_color(c: (u8, u8, u8, u8)) -> Voxel {
    Voxel { material: 1, r: c.0, g: c.1, b: c.2, a: c.3, flags: 0, _reserved: 0 }
}

/// The world `w` after the first `n` voxels of a model have been
/// written to it, each at its position in the color of its palette
/// index. Voxels of palette index 0 are left out.
pub open spec fn placed(w: WorldState, m: VoxState, n: nat) -> WorldState
    decreases n,
{
    if n == 0 {
        w
    } else {
        let before = placed(w, m, (n - 1) as nat);
        let v = m.voxels[n - 1];
        if v.3 > 0 {
            before.set_voxel(
                v.0 as int,
                v.1 as int,
                v.2 as int,
                voxel_of_color(m.palette[v.3 as int]),
            )
        } else {
            before
        }
    }
}

/// Bytes that end with a part that was appended are the joining of the
/// parts before it and the part.
proof fn lemma_wrote(done: Seq<Seq<u8>>, before: Seq<u8>, part: Seq<u8>, after: Seq<u8>) -> (more: Seq<
    Seq<u8>,
>)
    requires
        before == crate::bytes::joined(done),
        after == before + part,
    ensures
        more == done.push(part),
        after == crate::bytes::joined(more),
{
    crate::bytes::lemma_joined_push(done, part);
    done.push(part)
}

/// Appends the four bytes `a`, `b`, `c` and `d`.
fn write_id(buf: &mut Vec<u8>, a: u8, b: u8, c: u8, d: u8)
    ensures
        final(buf)@ == old(buf)@ + seq![a, b, c, d],
{
    let ghost before = buf@;
    buf.push(a);
    buf.push(b);
    buf.push(c);
    buf.push(d);
    assert(buf@ =~= before + seq![a, b, c, d]);
}

/// Appends the bytes of `entries`.
fn write_entries(buf: &mut Vec<u8>, entries: &Vec<(u8, u8, u8, u8)>)
    ensures
        final(buf)@ == old(buf)@ + entries_bytes(entries@),
{
    let ghost before = buf@;
    let mut i: usize = 0;
    proof {
        assert(before + entries_bytes(entries@.take(0)) =~= before);
    }
    while i < entries.len()
        invariant
            i <= entries@.len(),
            buf@ == before + entries_bytes(entries@.take(i as int)),
        decreases entries.len() - i,
    {
        let e = entries[i];
        buf.push(e.0);
        buf.push(e.1);
        buf.push(e.2);
        buf.push(e.3);
        proof {
            let shorter = entries_bytes(entries@.take(i as int));
            let longer = entries_bytes(entries@.take(i + 1));
            assert(longer =~= shorter + seq![e.0, e.1, e.2, e.3]);
            assert(buf@ =~= before + longer);
        }
        i = i + 1;
    }
    proof {
        assert(entries@.take(i as int) =~= entries@);
    }
}

/// Whether the four bytes of `id` are `a`, `b`, `c` and `d`.
fn id_is(id: &[u8; 4], a: u8, b: u8, c: u8, d: u8) -> (same: bool)
    ensures
        same == (id@ == seq![a, b, c, d]),
{
    let same = id[0] == a && id[1] == b && id[2] == c && id[3] == d;
    proof {
        if same {
            assert(id@ =~= seq![a, b, c, d]);
        } else {
            let s = seq![a, b, c, d];
            assert(s[0] == a && s[1] == b && s[2] == c && s[3] == d);
        }
    }
    same
}

/// The parts of a model while it is read.
struct Reading {
    size: Option<(u32, u32, u32)>,
    voxels: Vec<(u8, u8, u8, u8)>,
    palette: [[u8; 4]; 256],
}

impl Reading {
    spec fn parts(&self) -> VoxParts {
        VoxParts {
            size: self.size,
            voxels: self.voxels@,
            palette: self.palette@.map_values(|c: [u8; 4]| color_of(c)),
        }
    }

    /// Reads the voxels of an `XYZI` chunk with its content at `at`.
    fn read_voxels(&mut self, data: &[u8], at: usize) -> (end: Option<usize>)
        ensures
            match after_content(data@, at as int, xyzi_id(), 0, old(self).parts()) {
                Some((read, next)) => end == Some(next as usize) && next <= usize::MAX
                    && final(self).parts() == read,
                None => end is None,
            },
    {
        let count = match read_i32(data, at) {
            Some(n) => n,
            None => {
                return None;
            },
        };
        if count < 0 {
            return None;
        }
        let count = count as usize;
        if !in_reach(data, at, 4) || (data.len() - at - 4) / 4 < count {
            return None;
        }
        let ghost before = self.voxels@;
        let mut t: usize = 0;
        proof {
            assert(before + Seq::new(0, |t: int| entry_at(data@, at + 4 + 4 * t)) =~= before);
        }
        while t < count
            invariant
                t <= count,
                at + 4 + 4 * count <= data@.len() <= usize::MAX,
                self.size == old(self).size,
                self.palette == old(self).palette,
                self.voxels@ == before + Seq::new(
                    t as nat,
                    |t: int| entry_at(data@, at + 4 + 4 * t),
                ),
            decreases count - t,
        {
            let p = at + 4 + 4 * t;
            self.voxels.push((data[p], data[p + 1], data[p + 2], data[p + 3]));
            proof {
                assert(self.voxels@ =~= before + Seq::new(
                    (t + 1) as nat,
                    |t: int| entry_at(data@, at + 4 + 4 * t),
                ));
            }
            t = t + 1;
        }
        Some(at + 4 + 4 * count)
    }

    /// Reads the palette of an `RGBA` chunk with its content at `at`.
    fn read_palette(&mut self, data: &[u8], at: usize) -> (end: Option<usize>)
        ensures
            match after_content(data@, at as int, rgba_id(), 0, old(self).parts()) {
                Some((read, next)) => end == Some(next as usize) && next <= usize::MAX
                    && final(self).parts() == read,
                None => end is None,
            },
    {
        if !in_reach(data, at, 1024) {
            return None;
        }
        let mut i: usize = 0;
        while i < 256
            invariant
                i <= 256,
                at + 1024 <= data@.len() <= usize::MAX,
                self.size == old(self).size,
                self.voxels == old(self).voxels,
                forall|k: int|
                    1 <= k <= i && k < 256 ==> color_of(#[trigger] self.palette@[k]) == entry_at(
                        data@,
                        at + 4 * (k - 1),
                    ),
                i == 256 ==> color_of(self.palette@[0]) == entry_at(data@, at + 4 * 255),
            decreases 256 - i,
        {
            let p = at + 4 * i;
            let color = [data[p], data[p + 1], data[p + 2], data[p + 3]];
            let index: usize = if i == 255 {
                0
            } else {
                i + 1
            };
            self.palette[index] = color;
            i = i + 1;
        }
        proof {
            assert(self.parts().palette =~= palette_at(data@, at as int));
        }
        Some(at + 1024)
    }

    /// Reads the content of a chunk with the header `header` and its
    /// content at `at`.
    fn read_content(&mut self, data: &[u8], at: usize, header: &ChunkHeader) -> (end: Option<usize>)
        ensures
            match after_content(
                data@,
                at as int,
                header.id@,
                header.content_size as int,
                old(self).parts(),
            ) {
                Some((read, next)) => end == Some(next as usize) && next <= usize::MAX
                    && final(self).parts() == read,
                None => end is None,
            },
    {
        if id_is(&header.id, 0x53, 0x49, 0x5A, 0x45) {
            if !in_reach(data, at, 12) {
                return None;
            }
            match (read_u32(data, at), read_u32(data, at + 4), read_u32(data, at + 8)) {
                (Some(x), Some(y), Some(z)) => {
                    self.size = Some((x, y, z));
                    Some(at + 12)
                },
                _ => None,
            }
        } else if id_is(&header.id, 0x58, 0x59, 0x5A, 0x49) {
            self.read_voxels(data, at)
        } else if id_is(&header.id, 0x52, 0x47, 0x42, 0x41) {
            self.read_palette(data, at)
        } else {
            if header.content_size < 0 || !in_reach(data, at, header.content_size as usize) {
                return None;
            }
            Some(at + header.content_size as usize)
        }
    }

    /// Reads the chunk at `at`.
    fn read_chunk(&mut self, data: &[u8], at: usize) -> (end: Option<(usize, i64)>)
        ensures
            match after_chunk(data@, at as int, old(self).parts()) {
                Some((read, next, counted)) => end == Some((next as usize, counted as i64))
                    && at + 12 <= next <= data@.len() <= usize::MAX && -0x2_0000_0000 <= counted
                    <= 0x2_0000_0000 && final(self).parts() == read,
                None => end is None,
            },
    {
        let header = match ChunkHeader::read(data, at) {
            Ok(h) => h,
            Err(_) => {
                return None;
            },
        };
        let counted: i64 = 12 + header.content_size as i64 + header.children_size as i64;
        if !in_reach(data, at, 12) {
            return None;
        }
        let end = match self.read_content(data, at + 12, &header) {
            Some(end) => end,
            None => {
                return None;
            },
        };
        if header.children_size > 0 {
            if !in_reach(data, end, header.children_size as usize) {
                return None;
            }
            Some((end + header.children_size as usize, counted))
        } else {
            Some((end, counted))
        }
    }
}

impl VoxModel {
    /// A model of the given size without voxels, with the default palette.
    pub fn new(size: (u32, u32, u32)) -> (model: VoxModel)
        ensures
            model@ == (VoxState { size, voxels: Seq::empty(), palette: default_colors() }),
    {
        let model = VoxModel { size, voxels: Vec::new(), palette: default_palette() };
        assert(model@.palette =~= default_colors());
        model
    }

    /// The model that `data` holds, or why there is none.
    #[verifier::rlimit(50)]
    pub fn read(data: &[u8]) -> (model: Result<VoxModel, VoxError>)
        ensures
            is_outcome(model, parsed_vox(data@)),
    {
        if !in_reach(data, 0, 4) {
            return Err(VoxError::Io);
        }
        let magic = [data[0], data[1], data[2], data[3]];
        assert(magic@ =~= data@.subrange(0, 4));
        if !id_is(&magic, 0x56, 0x4F, 0x58, 0x20) {
            return Err(VoxError::InvalidMagic);
        }
        if !in_reach(data, 4, 4) {
            return Err(VoxError::Io);
        }
        let main = match ChunkHeader::read(data, 8) {
            Ok(h) => h,
            Err(_) => {
                return Err(VoxError::Io);
            },
        };
        if !id_is(&main.id, 0x4D, 0x41, 0x49, 0x4E) {
            return Err(VoxError::InvalidChunkId(main.id));
        }
        let mut reading = Reading { size: None, voxels: Vec::new(), palette: default_palette() };
        let ghost start = VoxParts { size: None, voxels: Seq::empty(), palette: default_colors() };
        assert(reading.parts().palette =~= default_colors());
        let limit = main.children_size as i128;
        let mut at: usize = 20;
        let mut bytes_read: i128 = 0;
        while bytes_read < limit
            invariant
                20 <= at <= data@.len() <= usize::MAX,
                -0x2_0000_0000 * at <= bytes_read <= 0x2_0000_0000 * at,
                parsed_vox(data@) == outcome_of(after_chunks(data@, 20, 0, limit as int, start)),
                after_chunks(data@, 20, 0, limit as int, start) == after_chunks(
                    data@,
                    at as int,
                    bytes_read as int,
                    limit as int,
                    reading.parts(),
                ),
            decreases data@.len() - at,
        {
            match reading.read_chunk(data, at) {
                None => {
                    return Err(VoxError::Io);
                },
                Some((next, counted)) => {
                    at = next;
                    bytes_read = bytes_read + counted as i128;
                },
            }
        }
        match reading.size {
            None => Err(VoxError::NoVoxelData),
            Some(size) => Ok(VoxModel { size, voxels: reading.voxels, palette: reading.palette }),
        }
    }

    /// The world of a model: unbounded, with the model's voxels written
    /// to it in order.
    pub fn to_world(&self) -> (world: World)
        ensures
            world.wf(),
            world@ == placed(
                WorldState { chunks: Map::empty(), bounds: None, any_dirty: false },
                self@,
                self@.voxels.len(),
            ),
    {
        let mut world = World::new();
        let ghost start = world@;
        let mut i: usize = 0;
        while i < self.voxels.len()
            invariant
                i <= self.voxels@.len(),
                world.wf(),
                world@ == placed(start, self@, i as nat),
            decreases self.voxels.len() - i,
        {
            let (x, y, z, color_index) = self.voxels[i];
            if color_index > 0 {
                let color = self.palette[color_index as usize];
                let voxel = Voxel::from_rgba(color[0], color[1], color[2], color[3]);
                world.set_voxel(x as i32, y as i32, z as i32, voxel);
            }
            i = i + 1;
        }
        world
    }

    /// The bytes of the model.
    #[verifier::rlimit(50)]
    pub fn write(&self) -> (data: Vec<u8>)
        ensures
            data@ == vox_bytes(self@),
    {
        let n = self.voxels.len() as u128;
        let mut data: Vec<u8> = Vec::new();
        let ghost mut done: Seq<Seq<u8>> = Seq::empty();
        let ghost mut was = data@;
        proof {
            assert(data@ =~= crate::bytes::joined(done));
        }
        write_id(&mut data, 0x56, 0x4F, 0x58, 0x20);
        proof {
            done = lemma_wrote(done, was, vox_magic(), data@);
            was = data@;
        }
        write_u32(&mut data, 150);
        proof {
            done = lemma_wrote(done, was, u32_bytes(150), data@);
            was = data@;
        }
        write_id(&mut data, 0x4D, 0x41, 0x49, 0x4E);
        proof {
            done = lemma_wrote(done, was, main_id(), data@);
            was = data@;
        }
        write_u32(&mut data, 0);
        proof {
            done = lemma_wrote(done, was, u32_bytes(0), data@);
            was = data@;
        }
        write_u32(&mut data, ((1076 + 4 * n) % 0x1_0000_0000) as u32);
        proof {
            done = lemma_wrote(done, was, u32_bytes((1076 + 4 * n) % 0x1_0000_0000), data@);
            was = data@;
        }
        write_id(&mut data, 0x53, 0x49, 0x5A, 0x45);
        proof {
            done = lemma_wrote(done, was, size_id(), data@);
            was = data@;
        }
        write_u32(&mut data, 12);
        proof {
            done = lemma_wrote(done, was, u32_bytes(12), data@);
            was = data@;
        }
        write_u32(&mut data, 0);
        proof {
            done = lemma_wrote(done, was, u32_bytes(0), data@);
            was = data@;
        }
        write_u32(&mut data, self.size.0);
        proof {
            done = lemma_wrote(done, was, u32_bytes(self.size.0 as int), data@);
            was = data@;
        }
        write_u32(&mut data, self.size.1);
        proof {
            done = lemma_wrote(done, was, u32_bytes(self.size.1 as int), data@);
            was = data@;
        }
        write_u32(&mut data, self.size.2);
        proof {
            done = lemma_wrote(done, was, u32_bytes(self.size.2 as int), data@);
            was = data@;
        }
        write_id(&mut data, 0x58, 0x59, 0x5A, 0x49);
        proof {
            done = lemma_wrote(done, was, xyzi_id(), data@);
            was = data@;
        }
        write_u32(&mut data, ((4 + 4 * n) % 0x1_0000_0000) as u32);
        proof {
            done = lemma_wrote(done, was, u32_bytes((4 + 4 * n) % 0x1_0000_0000), data@);
            was = data@;
        }
        write_u32(&mut data, 0);
        proof {
            done = lemma_wrote(done, was, u32_bytes(0), data@);
            was = data@;
        }
        write_u32(&mut data, (n % 0x1_0000_0000) as u32);
        proof {
            done = lemma_wrote(done, was, u32_bytes(n as int % 0x1_0000_0000), data@);
            was = data@;
        }
        write_entries(&mut data, &self.voxels);
        proof {
            done = lemma_wrote(done, was, entries_bytes(self.voxels@), data@);
            was = data@;
        }
        write_id(&mut data, 0x52, 0x47, 0x42, 0x41);
        proof {
            done = lemma_wrote(done, was, rgba_id(), data@);
            was = data@;
        }
        write_u32(&mut data, 1024);
        proof {
            done = lemma_wrote(done, was, u32_bytes(1024), data@);
            was = data@;
        }
        write_u32(&mut data, 0);
        proof {
            done = lemma_wrote(done, was, u32_bytes(0), data@);
            was = data@;
        }
        let ghost colors = self@.palette.subrange(1, 256);
        let mut i: usize = 1;
        proof {
            assert(was + entries_bytes(colors.take(0)) =~= was);
        }
        while i < 256
            invariant
                1 <= i <= 256,
                colors == self@.palette.subrange(1, 256),
                data@ == was + entries_bytes(colors.take(i - 1)),
            decreases 256 - i,
        {
            let c = self.palette[i];
            data.push(c[0]);
            data.push(c[1]);
            data.push(c[2]);
            data.push(c[3]);
            proof {
                let shorter = entries_bytes(colors.take(i - 1));
                let longer = entries_bytes(colors.take(i as int));
                assert(colors[i - 1] == color_of(c));
                assert(longer =~= shorter + seq![c@[0], c@[1], c@[2], c@[3]]);
                assert(data@ =~= was + longer);
            }
            i = i + 1;
        }
        proof {
            assert(colors.take(255) =~= colors);
            done = lemma_wrote(done, was, entries_bytes(colors), data@);
            was = data@;
        }
        write_id(&mut data, 0, 0, 0, 0);
        proof {
            done = lemma_wrote(done, was, seq![0u8, 0u8, 0u8, 0u8], data@);
            assert(done =~= vox_parts(self@));
        }
        data
    }
}

/// Where part `k` of the bytes of a model with `n` voxels starts.
pub open spec fn vox_start(n: int, k: int) -> int {
    if k <= 15 {
        4 * k
    } else if k <= 19 {
        4 * n + 4 * (k - 1)
    } else if k == 20 {
        4 * n + 1092
    } else {
        4 * n + 1096
    }
}

/// Whether the model fits the format: its palette has 256 colors and
/// the sizes that the headers give fit signed 32-bit numbers.
pub open spec fn fits_format(m: VoxState) -> bool {
    m.palette.len() == 256 && 1076 + 4 * m.voxels.len() < 0x8000_0000
}

/// The parts of the bytes of a model start where `vox_start` says.
#[verifier::rlimit(50)]
proof fn lemma_vox_starts(m: VoxState)
    requires
        fits_format(m),
    ensures
        vox_parts(m).len() == 21,
        forall|k: int|
            0 <= k <= 21 ==> #[trigger] crate::bytes::part_start(vox_parts(m), k) == vox_start(
                m.voxels.len() as int,
                k,
            ),
{
    let p = vox_parts(m);
    let n = m.voxels.len() as int;
    crate::bytes::lemma_u32_bytes(150);
    crate::bytes::lemma_u32_bytes(0);
    crate::bytes::lemma_u32_bytes(1076 + 4 * n);
    crate::bytes::lemma_u32_bytes(12);
    crate::bytes::lemma_u32_bytes(m.size.0 as int);
    crate::bytes::lemma_u32_bytes(m.size.1 as int);
    crate::bytes::lemma_u32_bytes(m.size.2 as int);
    crate::bytes::lemma_u32_bytes(4 + 4 * n);
    crate::bytes::lemma_u32_bytes(n);
    crate::bytes::lemma_u32_bytes(1024);
    assert(p[0].len() == 4 && p[1].len() == 4 && p[2].len() == 4 && p[3].len() == 4 && p[4].len()
        == 4);
    assert(p[5].len() == 4 && p[6].len() == 4 && p[7].len() == 4 && p[8].len() == 4 && p[9].len()
        == 4 && p[10].len() == 4);
    assert(p[11].len() == 4 && p[12].len() == 4 && p[13].len() == 4 && p[14].len() == 4
        && p[15].len() == 4 * n);
    assert(p[16].len() == 4 && p[17].len() == 4 && p[18].len() == 4 && p[19].len() == 1020
        && p[20].len() == 4);
    reveal_with_fuel(crate::bytes::part_start, 23);
    assert(crate::bytes::part_start(p, 21) == vox_start(n, 21));
}

/// The bytes of a model hold each part where it starts.
proof fn lemma_vox_part(m: VoxState, k: int)
    requires
        fits_format(m),
        0 <= k < 21,
    ensures
        crate::bytes::has_part(
            vox_bytes(m),
            vox_start(m.voxels.len() as int, k),
            vox_parts(m)[k],
        ),
        vox_bytes(m).len() == 4 * m.voxels.len() + 1096,
{
    lemma_vox_starts(m);
    crate::bytes::lemma_joined_part(vox_parts(m), k);
    crate::bytes::lemma_joined_len(vox_parts(m));
    assert(crate::bytes::part_start(vox_parts(m), k) == vox_start(m.voxels.len() as int, k));
    assert(crate::bytes::part_start(vox_parts(m), 21) == vox_start(m.voxels.len() as int, 21));
}

/// The bytes of a model hold the number `v` as part `k`.
proof fn lemma_vox_number(m: VoxState, k: int, v: int)
    requires
        fits_format(m),
        0 <= k < 21,
        0 <= v < 0x8000_0000,
        vox_parts(m)[k] == u32_bytes(v),
    ensures
        u32_at(vox_bytes(m), vox_start(m.voxels.len() as int, k)) == v,
        i32_at(vox_bytes(m), vox_start(m.voxels.len() as int, k)) == v,
{
    lemma_vox_part(m, k);
    crate::bytes::lemma_u32_bytes(v);
    crate::bytes::lemma_part_u32(
        vox_bytes(m),
        vox_start(m.voxels.len() as int, k),
        vox_parts(m)[k],
    );
}

/// The bytes of a model hold the id `id` as part `k`.
proof fn lemma_vox_id(m: VoxState, k: int, id: Seq<u8>)
    requires
        fits_format(m),
        0 <= k < 21,
        id.len() == 4,
        vox_parts(m)[k] == id,
    ensures
        vox_bytes(m).subrange(
            vox_start(m.voxels.len() as int, k),
            vox_start(m.voxels.len() as int, k) + 4,
        ) == id,
{
    lemma_vox_part(m, k);
    crate::bytes::lemma_part_u32(
        vox_bytes(m),
        vox_start(m.voxels.len() as int, k),
        vox_parts(m)[k],
    );
}

/// Bytes that hold the bytes of entries hold each entry at its place.
proof fn lemma_part_entries(data: Seq<u8>, at: int, entries: Seq<(u8, u8, u8, u8)>, t: int)
    requires
        crate::bytes::has_part(data, at, entries_bytes(entries)),
        0 <= t < entries.len(),
    ensures
        entry_at(data, at + 4 * t) == entries[t],
{
    let part = entries_bytes(entries);
    assert(data[at + 4 * t] == part[4 * t]);
    assert(data[at + (4 * t + 1)] == part[4 * t + 1]);
    assert(data[at + (4 * t + 2)] == part[4 * t + 2]);
    assert(data[at + (4 * t + 3)] == part[4 * t + 3]);
}

/// What reading the `SIZE` chunk of the bytes of a model gives.
proof fn lemma_read_size(m: VoxState, parts: VoxParts)
    requires
        fits_format(m),
    ensures
        after_chunk(vox_bytes(m), 20, parts) == Some(
            (VoxParts { size: Some(m.size), ..parts }, 44int, 24int),
        ),
{
    let data = vox_bytes(m);
    lemma_vox_part(m, 0);
    lemma_vox_id(m, 5, size_id());
    lemma_vox_number(m, 6, 12);
    lemma_vox_number(m, 7, 0);
    lemma_vox_part(m, 8);
    lemma_vox_part(m, 9);
    lemma_vox_part(m, 10);
    crate::bytes::lemma_u32_bytes(m.size.0 as int);
    crate::bytes::lemma_u32_bytes(m.size.1 as int);
    crate::bytes::lemma_u32_bytes(m.size.2 as int);
    crate::bytes::lemma_part_u32(data, 32, vox_parts(m)[8]);
    crate::bytes::lemma_part_u32(data, 36, vox_parts(m)[9]);
    crate::bytes::lemma_part_u32(data, 40, vox_parts(m)[10]);
}

/// What reading the `XYZI` chunk of the bytes of a model gives.
proof fn lemma_read_voxels(m: VoxState, parts: VoxParts)
    requires
        fits_format(m),
        parts.voxels.len() == 0,
    ensures
        after_chunk(vox_bytes(m), 44, parts) == Some(
            (
                VoxParts { voxels: m.voxels, ..parts },
                60 + 4 * m.voxels.len() as int,
                16 + 4 * m.voxels.len() as int,
            ),
        ),
{
    let data = vox_bytes(m);
    let n = m.voxels.len() as int;
    lemma_vox_part(m, 0);
    lemma_vox_id(m, 11, xyzi_id());
    lemma_vox_number(m, 12, 4 + 4 * n);
    lemma_vox_number(m, 13, 0);
    lemma_vox_number(m, 14, n);
    lemma_vox_part(m, 15);
    assert(xyzi_id()[0] != size_id()[0]);
    let read = Seq::new(n as nat, |t: int| entry_at(data, 56 + 4 + 4 * t));
    assert forall|t: int| 0 <= t < n implies read[t] == m.voxels[t] by {
        lemma_part_entries(data, 60, m.voxels, t);
    }
    assert(parts.voxels + read =~= m.voxels);
}

/// What reading the `RGBA` chunk of the bytes of a model gives.
proof fn lemma_read_colors(m: VoxState, parts: VoxParts)
    requires
        fits_format(m),
    ensures
        after_chunk(vox_bytes(m), 60 + 4 * m.voxels.len() as int, parts) == Some(
            (
                VoxParts { palette: m.palette.update(0, (0u8, 0u8, 0u8, 0u8)), ..parts },
                1096 + 4 * m.voxels.len() as int,
                1036int,
            ),
        ),
{
    let data = vox_bytes(m);
    let n = m.voxels.len() as int;
    let at = 72 + 4 * n;
    lemma_vox_part(m, 0);
    lemma_vox_id(m, 16, rgba_id());
    lemma_vox_number(m, 17, 1024);
    lemma_vox_number(m, 18, 0);
    lemma_vox_part(m, 19);
    lemma_vox_part(m, 20);
    assert(rgba_id()[0] != size_id()[0]);
    assert(rgba_id()[0] != xyzi_id()[0]);
    let colors = m.palette.subrange(1, 256);
    let read = palette_at(data, at);
    let unused = seq![0u8, 0u8, 0u8, 0u8];
    assert forall|k: int| 0 <= k < 256 implies read[k] == m.palette.update(
        0,
        (0u8, 0u8, 0u8, 0u8),
    )[k] by {
        if k == 0 {
            assert(data[at + 1020 + 0] == unused[0]);
            assert(data[at + 1020 + 1] == unused[1]);
            assert(data[at + 1020 + 2] == unused[2]);
            assert(data[at + 1020 + 3] == unused[3]);
        } else {
            lemma_part_entries(data, at, colors, k - 1);
        }
    }
    assert(read =~= m.palette.update(0, (0u8, 0u8, 0u8, 0u8)));
}

/// Round trip of a model: the bytes of a model that fits the format
/// are read back as the model, but for the color of palette index 0,
/// which stands for no voxel and is read back as zero.
pub proof fn lemma_vox_round_trip(m: VoxState)
    requires
        fits_format(m),
    ensures
        parsed_vox(vox_bytes(m)) == VoxOutcome::Model(
            VoxState { palette: m.palette.update(0, (0u8, 0u8, 0u8, 0u8)), ..m },
        ),
{
    let data = vox_bytes(m);
    let n = m.voxels.len() as int;
    let limit = 1076 + 4 * n;
    lemma_vox_part(m, 0);
    lemma_vox_id(m, 0, vox_magic());
    lemma_vox_id(m, 2, main_id());
    lemma_vox_number(m, 4, limit);
    let start = VoxParts { size: None, voxels: Seq::empty(), palette: default_colors() };
    let sized = VoxParts { size: Some(m.size), ..start };
    let filled = VoxParts { voxels: m.voxels, ..sized };
    let colored = VoxParts { palette: m.palette.update(0, (0u8, 0u8, 0u8, 0u8)), ..filled };
    lemma_read_size(m, start);
    lemma_read_voxels(m, sized);
    lemma_read_colors(m, filled);
    assert(after_chunks(data, 1096 + 4 * n, limit, limit, colored) == Some(colored));
    assert(after_chunks(data, 60 + 4 * n, 40 + 4 * n, limit, filled) == Some(colored));
    assert(after_chunks(data, 44, 24, limit, sized) == Some(colored));
    assert(after_chunks(data, 20, 0, limit, start) == Some(colored));
}

/// Whether the world holds a solid voxel at the cell `c`.
pub open spec fn solid_at(w: WorldState, c: (int, int, int)) -> bool {
    &&& cell_coord(ChunkPos::spec_from_world_pos(c.0, c.1, c.2), coord_index(c)) == c
    &&& w.voxel_at(c.0, c.1, c.2).is_solid()
}

/// Whether the box from `lo` to `hi` is the least that holds every solid
/// voxel of the world.
pub open spec fn is_solid_box(w: WorldState, lo: (int, int, int), hi: (int, int, int)) -> bool {
    &&& forall|c: (int, int, int)| #[trigger]
        solid_at(w, c) ==> lo.0 <= c.0 <= hi.0 && lo.1 <= c.1 <= hi.1 && lo.2 <= c.2 <= hi.2
    &&& exists|c: (int, int, int)| #[trigger] solid_at(w, c) && c.0 == lo.0
    &&& exists|c: (int, int, int)| #[trigger] solid_at(w, c) && c.1 == lo.1
    &&& exists|c: (int, int, int)| #[trigger] solid_at(w, c) && c.2 == lo.2
    &&& exists|c: (int, int, int)| #[trigger] solid_at(w, c) && c.0 == hi.0
    &&& exists|c: (int, int, int)| #[trigger] solid_at(w, c) && c.1 == hi.1
    &&& exists|c: (int, int, int)| #[trigger] solid_at(w, c) && c.2 == hi.2
}

/// The opaque color of a voxel.
pub open spec fn opaque_color(v: Voxel) -> (u8, u8, u8, u8) {
    (v.r, v.g, v.b, 255u8)
}

/// Whether the palette index `index` is the least index from 1 on whose
/// color is nearest to the voxel's.
pub open spec fn is_nearest(palette: Seq<(u8, u8, u8, u8)>, index: u8, v: Voxel) -> bool {
    &&& index >= 1
    &&& forall|k: int|
        1 <= k < 256 ==> color_dist(palette[index as int], v.r, v.g, v.b) <= color_dist(
            #[trigger] palette[k],
            v.r,
            v.g,
            v.b,
        )
    &&& forall|k: int|
        1 <= k < index ==> color_dist(palette[index as int], v.r, v.g, v.b) < color_dist(
            #[trigger] palette[k],
            v.r,
            v.g,
            v.b,
        )
}

/// Whether the palette index `index` stands for the voxel `v`: it is an
/// index from 1 on, and its color is the voxel's red, green and blue,
/// fully opaque; or, as the palette had no free index left, no index
/// from 1 to 254 holds that color and `index` is the least whose color is
/// nearest to it.
pub open spec fn stands_for(palette: Seq<(u8, u8, u8, u8)>, index: u8, v: Voxel) -> bool {
    ||| index >= 1 && palette[index as int] == opaque_color(v)
    ||| is_nearest(palette, index, v) && forall|k: int|
        1 <= k < 255 ==> #[trigger] palette[k] != opaque_color(v)
}

/// Whether the model `m` holds the solid voxels of `w`, which the box
/// from `lo` on holds: its size is the size of the box, and its voxels
/// are the solid voxels of the world, each once, at their places in the
/// box, each with a palette index that stands for it. Voxels of one
/// color have one index, and a palette index holds its default color
/// unless it is the index of a voxel that gave it its color.
pub open spec fn is_model_of(m: VoxState, w: WorldState, lo: (int, int, int), hi: (int, int, int)) -> bool {
    &&& m.size.0 == hi.0 - lo.0 + 1
    &&& m.size.1 == hi.1 - lo.1 + 1
    &&& m.size.2 == hi.2 - lo.2 + 1
    &&& m.palette.len() == 256
    &&& forall|t: int|
        0 <= t < m.voxels.len() ==> {
            let e = #[trigger] m.voxels[t];
            let c = (lo.0 + e.0, lo.1 + e.1, lo.2 + e.2);
            solid_at(w, c) && stands_for(m.palette, e.3, voxel_of_entry(w, lo, e))
        }
    &&& forall|t: int, u: int|
        0 <= t < m.voxels.len() && 0 <= u < m.voxels.len() && t != u ==> {
            let e = #[trigger] m.voxels[t];
            let f = #[trigger] m.voxels[u];
            (e.0, e.1, e.2) != (f.0, f.1, f.2)
        }
    &&& forall|c: (int, int, int)| #[trigger]
        solid_at(w, c) ==> exists|t: int|
            0 <= t < m.voxels.len() && {
                let e = #[trigger] m.voxels[t];
                (lo.0 + e.0, lo.1 + e.1, lo.2 + e.2) == c
            }
    &&& forall|t: int, u: int|
        0 <= t < m.voxels.len() && 0 <= u < m.voxels.len() && opaque_color(
            voxel_of_entry(w, lo, #[trigger] m.voxels[t]),
        ) == opaque_color(voxel_of_entry(w, lo, #[trigger] m.voxels[u])) ==> m.voxels[t].3
            == m.voxels[u].3
    &&& forall|k: int|
        0 <= k < 256 ==> #[trigger] m.palette[k] == default_color(k) || exists|t: int|
            0 <= t < m.voxels.len() && (#[trigger] m.voxels[t]).3 == k && m.palette[k]
                == opaque_color(voxel_of_entry(w, lo, m.voxels[t]))
}

/// The voxel that the world holds where the entry `e` of a model lies
/// whose box starts at `lo`.
pub open spec fn voxel_of_entry(w: WorldState, lo: (int, int, int), e: (u8, u8, u8, u8)) -> Voxel {
    w.voxel_at(lo.0 + e.0, lo.1 + e.1, lo.2 + e.2)
}

/// Whether cell `i` of the `j`-th chunk of `loaded` is solid.
spec fn cell_solid(loaded: Seq<(ChunkPos, &Chunk)>, j: int, i: int) -> bool {
    0 <= j < loaded.len() && 0 <= i < 32768 && loaded[j].1@[i].is_solid()
}

/// The coordinates of cell `i` of the `j`-th chunk of `loaded`.
spec fn cell_at(loaded: Seq<(ChunkPos, &Chunk)>, j: int, i: int) -> (int, int, int) {
    cell_coord(loaded[j].0, i)
}

/// Whether cell `a` comes before cell `b` in the order of chunks and, in
/// a chunk, of flat indices.
spec fn cell_before(a: (int, int), b: (int, int)) -> bool {
    a.0 < b.0 || (a.0 == b.0 && a.1 < b.1)
}

/// Whether `loaded` lists the loaded chunks of `w`, each once.
spec fn lists_chunks(loaded: Seq<(ChunkPos, &Chunk)>, w: WorldState) -> bool {
    &&& forall|a: int, b: int|
        0 <= a < loaded.len() && 0 <= b < loaded.len() && a != b ==> loaded[a].0 != loaded[b].0
    &&& forall|j: int|
        0 <= j < loaded.len() ==> {
            &&& w.chunks.contains_key((#[trigger] loaded[j]).0)
            &&& loaded[j].1.state() == w.chunks[loaded[j].0]
            &&& loaded[j].1.wf()
        }
    &&& forall|p: ChunkPos|
        w.chunks.contains_key(p) ==> exists|j: int|
            0 <= j < loaded.len() && (#[trigger] loaded[j]).0 == p
}

/// A solid cell of a listed chunk is a solid voxel of the world.
proof fn lemma_cell_is_solid(loaded: Seq<(ChunkPos, &Chunk)>, w: WorldState, j: int, i: int)
    requires
        lists_chunks(loaded, w),
        cell_solid(loaded, j, i),
    ensures
        solid_at(w, cell_at(loaded, j, i)),
        w.voxel_at(cell_at(loaded, j, i).0, cell_at(loaded, j, i).1, cell_at(loaded, j, i).2)
            == loaded[j].1@[i],
{
    lemma_cell_coord(loaded[j].0, i);
    assert(w.chunks.contains_key(loaded[j].0));
}

/// A solid voxel of the world is a solid cell of a listed chunk.
proof fn lemma_solid_is_cell(loaded: Seq<(ChunkPos, &Chunk)>, w: WorldState, c: (int, int, int)) -> (cell:
    (int, int))
    requires
        lists_chunks(loaded, w),
        solid_at(w, c),
    ensures
        cell_solid(loaded, cell.0, cell.1),
        cell_at(loaded, cell.0, cell.1) == c,
{
    let p = ChunkPos::spec_from_world_pos(c.0, c.1, c.2);
    let i = coord_index(c);
    crate::chunk::lemma_index_join(
        crate::chunk::local_coord(c.0),
        crate::chunk::local_coord(c.1),
        crate::chunk::local_coord(c.2),
    );
    assert(w.chunks.contains_key(p));
    let j = choose|j: int| 0 <= j < loaded.len() && (#[trigger] loaded[j]).0 == p;
    assert(loaded[j].1.state() == w.chunks[p]);
    (j, i)
}

/// Whether the box from `lo` to `hi` is the least that holds every solid
/// cell of `loaded` before the cell `at`, with such a cell on each of
/// its six sides.
spec fn is_cell_box(
    loaded: Seq<(ChunkPos, &Chunk)>,
    at: (int, int),
    lo: (int, int, int),
    hi: (int, int, int),
    on: Seq<(int, int)>,
) -> bool {
    &&& forall|j: int, i: int| #[trigger]
        cell_solid(loaded, j, i) && cell_before((j, i), at) ==> {
            let c = cell_at(loaded, j, i);
            lo.0 <= c.0 <= hi.0 && lo.1 <= c.1 <= hi.1 && lo.2 <= c.2 <= hi.2
        }
    &&& on.len() == 6
    &&& forall|k: int|
        0 <= k < 6 ==> cell_solid(loaded, (#[trigger] on[k]).0, on[k].1) && cell_before(on[k], at)
    &&& cell_at(loaded, on[0].0, on[0].1).0 == lo.0
    &&& cell_at(loaded, on[1].0, on[1].1).1 == lo.1
    &&& cell_at(loaded, on[2].0, on[2].1).2 == lo.2
    &&& cell_at(loaded, on[3].0, on[3].1).0 == hi.0
    &&& cell_at(loaded, on[4].0, on[4].1).1 == hi.1
    &&& cell_at(loaded, on[5].0, on[5].1).2 == hi.2
}

/// The lesser of two numbers.
fn least(a: i64, b: i64) -> (m: i64)
    ensures
        m == (if b < a {
            b
        } else {
            a
        }),
{
    if b < a {
        b
    } else {
        a
    }
}

/// The greater of two numbers.
fn greatest(a: i64, b: i64) -> (m: i64)
    ensures
        m == (if b > a {
            b
        } else {
            a
        }),
{
    if b > a {
        b
    } else {
        a
    }
}

/// The cells on the six sides of a box once it has been widened to hold
/// the cell `cell` at `p`.
spec fn widened(
    on: Seq<(int, int)>,
    lo: (int, int, int),
    hi: (int, int, int),
    p: (int, int, int),
    cell: (int, int),
) -> Seq<(int, int)> {
    seq![
        if p.0 < lo.0 { cell } else { on[0] },
        if p.1 < lo.1 { cell } else { on[1] },
        if p.2 < lo.2 { cell } else { on[2] },
        if p.0 > hi.0 { cell } else { on[3] },
        if p.1 > hi.1 { cell } else { on[4] },
        if p.2 > hi.2 { cell } else { on[5] },
    ]
}

/// A box of the cells before a solid cell, widened to hold that cell, is
/// the box of the cells up to it.
proof fn lemma_widened(
    loaded: Seq<(ChunkPos, &Chunk)>,
    cell: (int, int),
    lo: (int, int, int),
    hi: (int, int, int),
    on: Seq<(int, int)>,
)
    requires
        is_cell_box(loaded, cell, lo, hi, on),
        cell_solid(loaded, cell.0, cell.1),
    ensures
        ({
            let p = cell_at(loaded, cell.0, cell.1);
            is_cell_box(
                loaded,
                (cell.0, cell.1 + 1),
                (
                    if p.0 < lo.0 { p.0 } else { lo.0 },
                    if p.1 < lo.1 { p.1 } else { lo.1 },
                    if p.2 < lo.2 { p.2 } else { lo.2 },
                ),
                (
                    if p.0 > hi.0 { p.0 } else { hi.0 },
                    if p.1 > hi.1 { p.1 } else { hi.1 },
                    if p.2 > hi.2 { p.2 } else { hi.2 },
                ),
                widened(on, lo, hi, p, cell),
            )
        }),
{
    let p = cell_at(loaded, cell.0, cell.1);
    let next = (cell.0, cell.1 + 1);
    let wide = widened(on, lo, hi, p, cell);
    assert forall|k: int| 0 <= k < 6 implies cell_solid(loaded, (#[trigger] wide[k]).0, wide[k].1)
        && cell_before(wide[k], next) by {
        assert(cell_solid(loaded, on[k].0, on[k].1) && cell_before(on[k], cell));
    }
    assert forall|j: int, i: int| #[trigger]
        cell_solid(loaded, j, i) && cell_before((j, i), next) implies {
        let c = cell_at(loaded, j, i);
        (if p.0 < lo.0 { p.0 } else { lo.0 }) <= c.0 <= (if p.0 > hi.0 { p.0 } else { hi.0 }) && (
        if p.1 < lo.1 { p.1 } else { lo.1 }) <= c.1 <= (if p.1 > hi.1 { p.1 } else { hi.1 }) && (
        if p.2 < lo.2 { p.2 } else { lo.2 }) <= c.2 <= (if p.2 > hi.2 { p.2 } else { hi.2 })
    } by {
        if (j, i) != cell {
            assert(cell_before((j, i), cell));
        }
    }
}

/// The least box that holds every solid cell of `loaded`; `None` where
/// no cell is solid.
#[verifier::rlimit(50)]
fn solid_bounds(loaded: &Vec<(ChunkPos, &Chunk)>) -> (found: Option<
    ((i64, i64, i64), (i64, i64, i64), Ghost<Seq<(int, int)>>),
>)
    requires
        forall|j: int| 0 <= j < loaded@.len() ==> (#[trigger] loaded@[j]).1.wf(),
    ensures
        match found {
            None => forall|j: int, i: int| !#[trigger] cell_solid(loaded@, j, i),
            Some((lo, hi, on)) => is_cell_box(
                loaded@,
                (loaded@.len() as int, 0),
                (lo.0 as int, lo.1 as int, lo.2 as int),
                (hi.0 as int, hi.1 as int, hi.2 as int),
                on@,
            ),
        },
{
    let mut any = false;
    let mut lo: (i64, i64, i64) = (0, 0, 0);
    let mut hi: (i64, i64, i64) = (0, 0, 0);
    let ghost mut on: Seq<(int, int)> = Seq::new(6, |k: int| (0int, 0int));
    let mut j: usize = 0;
    while j < loaded.len()
        invariant
            j <= loaded@.len(),
            forall|j: int| 0 <= j < loaded@.len() ==> (#[trigger] loaded@[j]).1.wf(),
            !any ==> forall|a: int, b: int|
                cell_before((a, b), (j as int, 0)) ==> !#[trigger] cell_solid(loaded@, a, b),
            any ==> is_cell_box(
                loaded@,
                (j as int, 0),
                (lo.0 as int, lo.1 as int, lo.2 as int),
                (hi.0 as int, hi.1 as int, hi.2 as int),
                on,
            ),
        decreases loaded.len() - j,
    {
        let (pos, chunk) = loaded[j];
        let voxels = chunk.voxels();
        let mut i: usize = 0;
        while i < CHUNK_VOLUME
            invariant
                i <= CHUNK_VOLUME,
                j < loaded@.len(),
                (pos, chunk) == loaded@[j as int],
                voxels@ == chunk@,
                voxels@.len() == CHUNK_VOLUME,
                !any ==> forall|a: int, b: int|
                    cell_before((a, b), (j as int, i as int)) ==> !#[trigger] cell_solid(
                        loaded@,
                        a,
                        b,
                    ),
                any ==> is_cell_box(
                    loaded@,
                    (j as int, i as int),
                    (lo.0 as int, lo.1 as int, lo.2 as int),
                    (hi.0 as int, hi.1 as int, hi.2 as int),
                    on,
                ),
            decreases CHUNK_VOLUME - i,
        {
            if voxels[i].is_solid() {
                let x: i64 = pos.x as i64 * 32 + (i % 32) as i64;
                let y: i64 = pos.y as i64 * 32 + ((i / 32) % 32) as i64;
                let z: i64 = pos.z as i64 * 32 + (i / 1024) as i64;
                let ghost cell = (j as int, i as int);
                proof {
                    assert(cell_solid(loaded@, j as int, i as int));
                    assert(cell_at(loaded@, j as int, i as int) == (x as int, y as int, z as int));
                }
                if !any {
                    lo = (x, y, z);
                    hi = (x, y, z);
                    any = true;
                    proof {
                        on = Seq::new(6, |k: int| cell);
                    }
                } else {
                    let ghost old_lo = (lo.0 as int, lo.1 as int, lo.2 as int);
                    let ghost old_hi = (hi.0 as int, hi.1 as int, hi.2 as int);
                    let ghost old_on = on;
                    lo = (least(lo.0, x), least(lo.1, y), least(lo.2, z));
                    hi = (greatest(hi.0, x), greatest(hi.1, y), greatest(hi.2, z));
                    proof {
                        on = widened(old_on, old_lo, old_hi, (x as int, y as int, z as int), cell);
                        lemma_widened(loaded@, cell, old_lo, old_hi, old_on);
                    }
                }
            }
            i = i + 1;
        }
        j = j + 1;
    }
    if any {
        Some((lo, hi, Ghost(on)))
    } else {
        None
    }
}

/// The colors of a palette.
spec fn colors_of(palette: [[u8; 4]; 256]) -> Seq<(u8, u8, u8, u8)> {
    palette@.map_values(|c: [u8; 4]| color_of(c))
}

/// The opaque color whose red, green and blue are packed in `key`.
spec fn key_color(key: u32) -> (u8, u8, u8, u8) {
    ((key % 256) as u8, ((key / 256) % 256) as u8, (key / 65536) as u8, 255u8)
}

/// The key in which the red, green and blue of a color are packed.
spec fn color_key(c: (u8, u8, u8, u8)) -> u32 {
    (c.0 + 256 * c.1 + 65536 * c.2) as u32
}

/// Whether `colors` holds the palette index of every color that has
/// one: each index from 1 on below `next` belongs to the color at it,
/// and the other indices hold their default colors.
spec fn indexes(colors: Map<u32, u8>, palette: Seq<(u8, u8, u8, u8)>, next: u8) -> bool {
    &&& 1 <= next <= 255
    &&& palette.len() == 256
    &&& forall|key: u32| #[trigger]
        colors.contains_key(key) ==> 1 <= colors[key] < next && palette[colors[key] as int]
            == key_color(key)
    &&& forall|k: int|
        1 <= k < next ==> colors.contains_key(color_key(#[trigger] palette[k])) && colors[color_key(
            palette[k],
        )] == k && palette[k].3 == 255
    &&& forall|k: int| next <= k < 256 ==> #[trigger] palette[k] == default_color(k)
    &&& palette[0] == default_color(0)
}

/// Whether the palette index `index` was given to the voxel `v` while
/// `next` was the next free index: it is below `next` and holds the
/// voxel's color, or no index was free, none holds the voxel's color,
/// and it is the least nearest one.
spec fn was_given(palette: Seq<(u8, u8, u8, u8)>, next: u8, index: u8, v: Voxel) -> bool {
    ||| 1 <= index < next && palette[index as int] == opaque_color(v)
    ||| next == 255 && is_nearest(palette, index, v) && forall|k: int|
        1 <= k < 255 ==> #[trigger] palette[k] != opaque_color(v)
}

/// A color without an index is the color of no given index.
proof fn lemma_color_unknown(colors: Map<u32, u8>, palette: Seq<(u8, u8, u8, u8)>, next: u8, v: Voxel)
    requires
        indexes(colors, palette, next),
        !colors.contains_key(color_key(opaque_color(v))),
    ensures
        forall|k: int| 1 <= k < next ==> #[trigger] palette[k] != opaque_color(v),
{
    assert forall|k: int| 1 <= k < next implies #[trigger] palette[k] != opaque_color(v) by {
        if palette[k] == opaque_color(v) {
            assert(colors.contains_key(color_key(palette[k])));
        }
    }
}

/// A color that gets the next free index keeps the palette indexed.
proof fn lemma_color_assigned(
    colors: Map<u32, u8>,
    before: Seq<(u8, u8, u8, u8)>,
    next: u8,
    v: Voxel,
)
    requires
        indexes(colors, before, next),
        next < 255,
        !colors.contains_key(color_key(opaque_color(v))),
    ensures
        indexes(
            colors.insert(color_key(opaque_color(v)), next),
            before.update(next as int, opaque_color(v)),
            (next + 1) as u8,
        ),
{
    let key = color_key(opaque_color(v));
    let more = colors.insert(key, next);
    let after = before.update(next as int, opaque_color(v));
    assert(key_color(key) == opaque_color(v));
    assert forall|other: u32| #[trigger] more.contains_key(other) implies 1 <= more[other] < next
        + 1 && after[more[other] as int] == key_color(other) by {
        if other != key {
            assert(colors.contains_key(other));
        }
    }
    assert forall|k: int| 1 <= k < next + 1 implies more.contains_key(
        color_key(#[trigger] after[k]),
    ) && more[color_key(after[k])] == k && after[k].3 == 255 by {
        if k < next {
            assert(colors.contains_key(color_key(before[k])));
            assert(before[k] == key_color(color_key(before[k])));
        }
    }
}

/// The palette index for the voxel `v`: the index that its color has,
/// or the next free index, which its color then gets, or, where none is
/// free, a nearest index.
fn index_of_color(
    colors: &mut HashMap<u32, u8>,
    palette: &mut [[u8; 4]; 256],
    next: &mut u8,
    v: Voxel,
) -> (index: u8)
    requires
        indexes(old(colors)@, colors_of(*old(palette)), *old(next)),
    ensures
        indexes(final(colors)@, colors_of(*final(palette)), *final(next)),
        *old(next) <= *final(next) <= *old(next) + 1,
        forall|k: int|
            0 <= k < 256 && k != *old(next) ==> colors_of(*final(palette))[k] == colors_of(
                *old(palette),
            )[k],
        *final(next) == *old(next) ==> *final(palette) == *old(palette),
        *final(next) > *old(next) ==> index == *old(next) && colors_of(*final(palette))[index as int]
            == opaque_color(v),
        was_given(colors_of(*final(palette)), *final(next), index, v),
{
    broadcast use vstd::std_specs::hash::group_hash_axioms;

    let key: u32 = v.r as u32 + 256 * (v.g as u32) + 65536 * (v.b as u32);
    assert(key_color(key) == opaque_color(v));
    assert(color_key(opaque_color(v)) == key);
    let ghost before = colors_of(*palette);
    let known = match colors.get(&key) {
        Some(index) => Some(*index),
        None => None,
    };
    match known {
        Some(index) => index,
        None => {
            proof {
                lemma_color_unknown(colors@, before, *next, v);
            }
            if *next < 255 {
                let index = *next;
                proof {
                    lemma_color_assigned(colors@, before, index, v);
                }
                colors.insert(key, index);
                palette[index as usize] = [v.r, v.g, v.b, 255];
                *next = index + 1;
                proof {
                    assert(colors_of(*palette) =~= before.update(index as int, opaque_color(v)));
                }
                index
            } else {
                find_closest_color(palette, [v.r, v.g, v.b])
            }
        },
    }
}

/// Whether `voxels` lists the solid cells of `loaded` before the cell
/// `at`, in order, each at its place from `lo` on, with the palette index
/// that it was given; `src` names the cell of each voxel.
spec fn is_listing(
    loaded: Seq<(ChunkPos, &Chunk)>,
    at: (int, int),
    lo: (int, int, int),
    voxels: Seq<(u8, u8, u8, u8)>,
    palette: Seq<(u8, u8, u8, u8)>,
    next: u8,
    src: Seq<(int, int)>,
) -> bool {
    &&& src.len() == voxels.len()
    &&& forall|t: int|
        0 <= t < src.len() ==> {
            let cell = #[trigger] src[t];
            let c = cell_at(loaded, cell.0, cell.1);
            &&& cell_solid(loaded, cell.0, cell.1)
            &&& cell_before(cell, at)
            &&& (lo.0 + voxels[t].0, lo.1 + voxels[t].1, lo.2 + voxels[t].2) == c
            &&& was_given(palette, next, voxels[t].3, loaded[cell.0].1@[cell.1])
        }
    &&& forall|t: int, u: int| 0 <= t < u < src.len() ==> cell_before(#[trigger] src[t], #[trigger] src[u])
    &&& forall|j: int, i: int| #[trigger]
        cell_solid(loaded, j, i) && cell_before((j, i), at) ==> src.contains((j, i))
}

/// A listing with the cell at which the walk stands added, after the
/// palette has given that cell its index.
#[verifier::rlimit(50)]
proof fn lemma_listing_grows(
    loaded: Seq<(ChunkPos, &Chunk)>,
    cell: (int, int),
    lo: (int, int, int),
    voxels: Seq<(u8, u8, u8, u8)>,
    before: Seq<(u8, u8, u8, u8)>,
    old_next: u8,
    src: Seq<(int, int)>,
    entry: (u8, u8, u8, u8),
    after: Seq<(u8, u8, u8, u8)>,
    next: u8,
)
    requires
        is_listing(loaded, cell, lo, voxels, before, old_next, src),
        cell_solid(loaded, cell.0, cell.1),
        (lo.0 + entry.0, lo.1 + entry.1, lo.2 + entry.2) == cell_at(loaded, cell.0, cell.1),
        old_next <= next,
        before.len() == 256,
        after.len() == 256,
        forall|k: int| 0 <= k < old_next ==> after[k] == before[k],
        old_next == 255 ==> after == before,
        was_given(after, next, entry.3, loaded[cell.0].1@[cell.1]),
    ensures
        is_listing(loaded, (cell.0, cell.1 + 1), lo, voxels.push(entry), after, next, src.push(cell)),
{
    let more = src.push(cell);
    let list = voxels.push(entry);
    let at = (cell.0, cell.1 + 1);
    assert forall|t: int| 0 <= t < more.len() implies {
        let from = #[trigger] more[t];
        let c = cell_at(loaded, from.0, from.1);
        &&& cell_solid(loaded, from.0, from.1)
        &&& cell_before(from, at)
        &&& (lo.0 + list[t].0, lo.1 + list[t].1, lo.2 + list[t].2) == c
        &&& was_given(after, next, list[t].3, loaded[from.0].1@[from.1])
    } by {
        if t < src.len() {
            assert(more[t] == src[t] && list[t] == voxels[t]);
            let v = loaded[src[t].0].1@[src[t].1];
            assert(was_given(before, old_next, voxels[t].3, v));
            if 1 <= voxels[t].3 < old_next && before[voxels[t].3 as int] == (v.r, v.g, v.b, 255u8) {
                assert(after[voxels[t].3 as int] == before[voxels[t].3 as int]);
            }
        }
    }
    assert forall|t: int, u: int| 0 <= t < u < more.len() implies cell_before(
        #[trigger] more[t],
        #[trigger] more[u],
    ) by {
        assert(more[t] == src[t]);
        if u < src.len() {
            assert(more[u] == src[u]);
        }
    }
    assert forall|j: int, i: int| #[trigger]
        cell_solid(loaded, j, i) && cell_before((j, i), at) implies more.contains((j, i)) by {
        if (j, i) == cell {
            assert(more[src.len() as int] == (j, i));
        } else {
            assert(cell_before((j, i), cell));
            assert(src.contains((j, i)));
            let t = choose|t: int| 0 <= t < src.len() && src[t] == (j, i);
            assert(more[t] == (j, i));
        }
    }
}

/// Whether the indices that the palette has given hold colors that
/// differ from each other, and the other indices their default colors.
spec fn palette_sound(palette: Seq<(u8, u8, u8, u8)>, next: u8) -> bool {
    &&& 1 <= next <= 255
    &&& palette.len() == 256
    &&& forall|a: int, b: int|
        1 <= a < next && 1 <= b < next && #[trigger] palette[a] == #[trigger] palette[b] ==> a == b
    &&& forall|k: int| next <= k < 256 ==> #[trigger] palette[k] == default_color(k)
    &&& palette[0] == default_color(0)
}

/// Whether each index that the palette has given belongs to a listed
/// voxel of the color at it.
spec fn palette_used(
    loaded: Seq<(ChunkPos, &Chunk)>,
    voxels: Seq<(u8, u8, u8, u8)>,
    palette: Seq<(u8, u8, u8, u8)>,
    next: u8,
    src: Seq<(int, int)>,
) -> bool {
    forall|k: int| 1 <= k < next ==> #[trigger] index_used(loaded, voxels, palette, src, k)
}

/// Whether the palette index `k` belongs to a listed voxel of the color
/// at it.
spec fn index_used(
    loaded: Seq<(ChunkPos, &Chunk)>,
    voxels: Seq<(u8, u8, u8, u8)>,
    palette: Seq<(u8, u8, u8, u8)>,
    src: Seq<(int, int)>,
    k: int,
) -> bool {
    exists|t: int|
        0 <= t < voxels.len() && t < src.len() && (#[trigger] voxels[t]).3 == k && palette[k]
            == opaque_color(loaded[src[t].0].1@[src[t].1])
}

/// A palette that indexes its colors is sound.
proof fn lemma_palette_sound(colors: Map<u32, u8>, palette: Seq<(u8, u8, u8, u8)>, next: u8)
    requires
        indexes(colors, palette, next),
    ensures
        palette_sound(palette, next),
{
    assert forall|a: int, b: int|
        1 <= a < next && 1 <= b < next && #[trigger] palette[a] == #[trigger] palette[b] implies a
        == b by {
        assert(colors[color_key(palette[a])] == a);
        assert(colors[color_key(palette[b])] == b);
    }
}

/// The given indices stay in use when a voxel is listed.
proof fn lemma_palette_used_grows(
    loaded: Seq<(ChunkPos, &Chunk)>,
    cell: (int, int),
    voxels: Seq<(u8, u8, u8, u8)>,
    before: Seq<(u8, u8, u8, u8)>,
    old_next: u8,
    src: Seq<(int, int)>,
    entry: (u8, u8, u8, u8),
    after: Seq<(u8, u8, u8, u8)>,
    next: u8,
)
    requires
        palette_used(loaded, voxels, before, old_next, src),
        src.len() == voxels.len(),
        old_next <= next <= old_next + 1,
        before.len() == 256,
        after.len() == 256,
        forall|k: int| 0 <= k < 256 && k != old_next ==> after[k] == before[k],
        next > old_next ==> entry.3 == old_next && after[old_next as int] == opaque_color(
            loaded[cell.0].1@[cell.1],
        ),
    ensures
        palette_used(loaded, voxels.push(entry), after, next, src.push(cell)),
{
    let list = voxels.push(entry);
    let more = src.push(cell);
    assert forall|k: int| 1 <= k < next implies #[trigger] index_used(
        loaded,
        list,
        after,
        more,
        k,
    ) by {
        if k < old_next {
            assert(index_used(loaded, voxels, before, src, k));
            let t = choose|t: int|
                0 <= t < voxels.len() && t < src.len() && (#[trigger] voxels[t]).3 == k && before[k]
                    == opaque_color(loaded[src[t].0].1@[src[t].1]);
            assert(list[t] == voxels[t] && more[t] == src[t]);
        } else {
            let t = voxels.len() as int;
            assert(list[t] == entry && more[t] == cell);
        }
    }
}

/// The solid cells of `loaded` as voxels of a model whose box starts at
/// `lo`, and the model's palette.
#[verifier::rlimit(50)]
fn collect(loaded: &Vec<(ChunkPos, &Chunk)>, lo: (i64, i64, i64)) -> (found: (
    Vec<(u8, u8, u8, u8)>,
    [[u8; 4]; 256],
    Ghost<u8>,
    Ghost<Seq<(int, int)>>,
))
    requires
        forall|j: int| 0 <= j < loaded@.len() ==> (#[trigger] loaded@[j]).1.wf(),
        forall|j: int, i: int| #[trigger]
            cell_solid(loaded@, j, i) ==> {
                let c = cell_at(loaded@, j, i);
                0 <= c.0 - lo.0 < 256 && 0 <= c.1 - lo.1 < 256 && 0 <= c.2 - lo.2 < 256
            },
    ensures
        is_listing(
            loaded@,
            (loaded@.len() as int, 0),
            (lo.0 as int, lo.1 as int, lo.2 as int),
            found.0@,
            colors_of(found.1),
            found.2@,
            found.3@,
        ),
        palette_sound(colors_of(found.1), found.2@),
        palette_used(loaded@, found.0@, colors_of(found.1), found.2@, found.3@),
{
    let mut palette = default_palette();
    let mut colors: HashMap<u32, u8> = HashMap::new();
    let mut next: u8 = 1;
    let mut voxels: Vec<(u8, u8, u8, u8)> = Vec::new();
    let ghost mut src: Seq<(int, int)> = Seq::empty();
    let ghost low = (lo.0 as int, lo.1 as int, lo.2 as int);
    let mut j: usize = 0;
    while j < loaded.len()
        invariant
            j <= loaded@.len(),
            low == (lo.0 as int, lo.1 as int, lo.2 as int),
            forall|j: int| 0 <= j < loaded@.len() ==> (#[trigger] loaded@[j]).1.wf(),
            forall|j: int, i: int| #[trigger]
                cell_solid(loaded@, j, i) ==> {
                    let c = cell_at(loaded@, j, i);
                    0 <= c.0 - lo.0 < 256 && 0 <= c.1 - lo.1 < 256 && 0 <= c.2 - lo.2 < 256
                },
            indexes(colors@, colors_of(palette), next),
            is_listing(loaded@, (j as int, 0), low, voxels@, colors_of(palette), next, src),
            palette_used(loaded@, voxels@, colors_of(palette), next, src),
        decreases loaded.len() - j,
    {
        let (pos, chunk) = loaded[j];
        let cells = chunk.voxels();
        let mut i: usize = 0;
        while i < CHUNK_VOLUME
            invariant
                i <= CHUNK_VOLUME,
                j < loaded@.len(),
                low == (lo.0 as int, lo.1 as int, lo.2 as int),
                (pos, chunk) == loaded@[j as int],
                cells@ == chunk@,
                cells@.len() == CHUNK_VOLUME,
                forall|j: int, i: int| #[trigger]
                    cell_solid(loaded@, j, i) ==> {
                        let c = cell_at(loaded@, j, i);
                        0 <= c.0 - lo.0 < 256 && 0 <= c.1 - lo.1 < 256 && 0 <= c.2 - lo.2 < 256
                    },
                indexes(colors@, colors_of(palette), next),
                is_listing(
                    loaded@,
                    (j as int, i as int),
                    low,
                    voxels@,
                    colors_of(palette),
                    next,
                    src,
                ),
                palette_used(loaded@, voxels@, colors_of(palette), next, src),
            decreases CHUNK_VOLUME - i,
        {
            let voxel = cells[i];
            if voxel.is_solid() {
                let ghost cell = (j as int, i as int);
                proof {
                    assert(cell_solid(loaded@, j as int, i as int));
                }
                let x: i64 = pos.x as i64 * 32 + (i % 32) as i64 - lo.0;
                let y: i64 = pos.y as i64 * 32 + ((i / 32) % 32) as i64 - lo.1;
                let z: i64 = pos.z as i64 * 32 + (i / 1024) as i64 - lo.2;
                let ghost before = colors_of(palette);
                let ghost old_next = next;
                let index = index_of_color(&mut colors, &mut palette, &mut next, voxel);
                let entry = (x as u8, y as u8, z as u8, index);
                proof {
                    lemma_listing_grows(
                        loaded@,
                        cell,
                        low,
                        voxels@,
                        before,
                        old_next,
                        src,
                        entry,
                        colors_of(palette),
                        next,
                    );
                    lemma_palette_used_grows(
                        loaded@,
                        cell,
                        voxels@,
                        before,
                        old_next,
                        src,
                        entry,
                        colors_of(palette),
                        next,
                    );
                    src = src.push(cell);
                }
                voxels.push(entry);
            }
            i = i + 1;
        }
        j = j + 1;
    }
    proof {
        lemma_palette_sound(colors@, colors_of(palette), next);
    }
    (voxels, palette, Ghost(next), Ghost(src))
}

/// Whether the box from `lo` to `hi` is more than 256 voxels long along an axis.
pub open spec fn exceeds_format(lo: (int, int, int), hi: (int, int, int)) -> bool {
    hi.0 - lo.0 + 1 > 256 || hi.1 - lo.1 + 1 > 256 || hi.2 - lo.2 + 1 > 256
}

/// Whether the solid voxels of the world span more than 256 voxels
/// along an axis.
pub open spec fn is_too_large(w: WorldState) -> bool {
    exists|lo: (int, int, int), hi: (int, int, int)| #[trigger]
        is_solid_box(w, lo, hi) && exceeds_format(lo, hi)
}

/// Whether `m` is a model of the world `w`: for a world without solid
/// voxels a model of size one without voxels, with the default palette;
/// else a model of the solid voxels in their least box.
pub open spec fn is_world_model(m: VoxState, w: WorldState) -> bool {
    if forall|c: (int, int, int)| !#[trigger] solid_at(w, c) {
        m == (VoxState { size: (1u32, 1u32, 1u32), voxels: Seq::empty(), palette: default_colors() })
    } else {
        exists|lo: (int, int, int), hi: (int, int, int)| #[trigger]
            is_solid_box(w, lo, hi) && !exceeds_format(lo, hi) && is_model_of(m, w, lo, hi)
    }
}

/// A world has at most one least box of its solid voxels.
pub proof fn lemma_solid_box_unique(
    w: WorldState,
    lo: (int, int, int),
    hi: (int, int, int),
    lo2: (int, int, int),
    hi2: (int, int, int),
)
    requires
        is_solid_box(w, lo, hi),
        is_solid_box(w, lo2, hi2),
    ensures
        lo == lo2,
        hi == hi2,
{
    lemma_solid_box_inside(w, lo, hi, lo2, hi2);
    lemma_solid_box_inside(w, lo2, hi2, lo, hi);
}

/// A least box of the solid voxels of a world lies inside every box
/// that holds them.
proof fn lemma_solid_box_inside(
    w: WorldState,
    lo: (int, int, int),
    hi: (int, int, int),
    lo2: (int, int, int),
    hi2: (int, int, int),
)
    requires
        is_solid_box(w, lo, hi),
        forall|c: (int, int, int)| #[trigger]
            solid_at(w, c) ==> lo2.0 <= c.0 <= hi2.0 && lo2.1 <= c.1 <= hi2.1 && lo2.2 <= c.2
                <= hi2.2,
    ensures
        lo2.0 <= lo.0 && hi.0 <= hi2.0,
        lo2.1 <= lo.1 && hi.1 <= hi2.1,
        lo2.2 <= lo.2 && hi.2 <= hi2.2,
{
    let a = choose|c: (int, int, int)| #[trigger] solid_at(w, c) && c.0 == lo.0;
    assert(solid_at(w, a));
    let b = choose|c: (int, int, int)| #[trigger] solid_at(w, c) && c.1 == lo.1;
    assert(solid_at(w, b));
    let c = choose|c: (int, int, int)| #[trigger] solid_at(w, c) && c.2 == lo.2;
    assert(solid_at(w, c));
    let d = choose|c: (int, int, int)| #[trigger] solid_at(w, c) && c.0 == hi.0;
    assert(solid_at(w, d));
    let e = choose|c: (int, int, int)| #[trigger] solid_at(w, c) && c.1 == hi.1;
    assert(solid_at(w, e));
    let f = choose|c: (int, int, int)| #[trigger] solid_at(w, c) && c.2 == hi.2;
    assert(solid_at(w, f));
}

/// The box of the solid cells of the listed chunks is the box of the
/// solid voxels of the world.
proof fn lemma_cell_box_is_solid_box(
    loaded: Seq<(ChunkPos, &Chunk)>,
    w: WorldState,
    lo: (int, int, int),
    hi: (int, int, int),
    on: Seq<(int, int)>,
)
    requires
        lists_chunks(loaded, w),
        is_cell_box(loaded, (loaded.len() as int, 0), lo, hi, on),
    ensures
        is_solid_box(w, lo, hi),
{
    assert forall|c: (int, int, int)| #[trigger] solid_at(w, c) implies lo.0 <= c.0 <= hi.0 && lo.1
        <= c.1 <= hi.1 && lo.2 <= c.2 <= hi.2 by {
        let cell = lemma_solid_is_cell(loaded, w, c);
        assert(cell_solid(loaded, cell.0, cell.1) && cell_before(cell, (loaded.len() as int, 0)));
    }
    assert forall|k: int| 0 <= k < 6 implies solid_at(
        w,
        cell_at(loaded, (#[trigger] on[k]).0, on[k].1),
    ) by {
        lemma_cell_is_solid(loaded, w, on[k].0, on[k].1);
    }
    assert(solid_at(w, cell_at(loaded, on[0].0, on[0].1)));
    assert(solid_at(w, cell_at(loaded, on[1].0, on[1].1)));
    assert(solid_at(w, cell_at(loaded, on[2].0, on[2].1)));
    assert(solid_at(w, cell_at(loaded, on[3].0, on[3].1)));
    assert(solid_at(w, cell_at(loaded, on[4].0, on[4].1)));
    assert(solid_at(w, cell_at(loaded, on[5].0, on[5].1)));
}

/// Different cells of the listed chunks lie at different coordinates.
proof fn lemma_cells_apart(loaded: Seq<(ChunkPos, &Chunk)>, w: WorldState, a: (int, int), b: (int, int))
    requires
        lists_chunks(loaded, w),
        cell_solid(loaded, a.0, a.1),
        cell_solid(loaded, b.0, b.1),
        a != b,
    ensures
        cell_at(loaded, a.0, a.1) != cell_at(loaded, b.0, b.1),
{
    lemma_cell_coord(loaded[a.0].0, a.1);
    lemma_cell_coord(loaded[b.0].0, b.1);
}

/// A listing of the solid cells of the listed chunks is a model of the world.
#[verifier::rlimit(50)]
proof fn lemma_listing_is_model(
    loaded: Seq<(ChunkPos, &Chunk)>,
    w: WorldState,
    lo: (int, int, int),
    hi: (int, int, int),
    m: VoxState,
    next: u8,
    src: Seq<(int, int)>,
)
    requires
        lists_chunks(loaded, w),
        is_listing(loaded, (loaded.len() as int, 0), lo, m.voxels, m.palette, next, src),
        palette_sound(m.palette, next),
        palette_used(loaded, m.voxels, m.palette, next, src),
        m.palette.len() == 256,
        m.size.0 == hi.0 - lo.0 + 1,
        m.size.1 == hi.1 - lo.1 + 1,
        m.size.2 == hi.2 - lo.2 + 1,
    ensures
        is_model_of(m, w, lo, hi),
{
    assert forall|t: int| 0 <= t < m.voxels.len() implies voxel_of_entry(
        w,
        lo,
        #[trigger] m.voxels[t],
    ) == loaded[src[t].0].1@[src[t].1] && was_given(
        m.palette,
        next,
        m.voxels[t].3,
        voxel_of_entry(w, lo, m.voxels[t]),
    ) by {
        let cell = src[t];
        lemma_cell_is_solid(loaded, w, cell.0, cell.1);
    }
    assert forall|t: int| 0 <= t < m.voxels.len() implies {
        let e = #[trigger] m.voxels[t];
        let c = (lo.0 + e.0, lo.1 + e.1, lo.2 + e.2);
        solid_at(w, c) && stands_for(m.palette, e.3, voxel_of_entry(w, lo, e))
    } by {
        let cell = src[t];
        lemma_cell_is_solid(loaded, w, cell.0, cell.1);
    }
    assert forall|t: int, u: int|
        0 <= t < m.voxels.len() && 0 <= u < m.voxels.len() && opaque_color(
            voxel_of_entry(w, lo, #[trigger] m.voxels[t]),
        ) == opaque_color(voxel_of_entry(w, lo, #[trigger] m.voxels[u])) implies m.voxels[t].3
        == m.voxels[u].3 by {
        let a = m.voxels[t].3;
        let b = m.voxels[u].3;
        let va = voxel_of_entry(w, lo, m.voxels[t]);
        let vb = voxel_of_entry(w, lo, m.voxels[u]);
        assert(was_given(m.palette, next, a, va));
        assert(was_given(m.palette, next, b, vb));
        if 1 <= a < next && m.palette[a as int] == opaque_color(va) {
            if 1 <= b < next && m.palette[b as int] == opaque_color(vb) {
                assert(m.palette[a as int] == m.palette[b as int]);
            } else {
                assert(m.palette[a as int] != opaque_color(vb));
            }
        } else {
            if 1 <= b < next && m.palette[b as int] == opaque_color(vb) {
                assert(m.palette[b as int] != opaque_color(va));
            } else {
                assert(color_dist(m.palette[a as int], va.r, va.g, va.b) == color_dist(
                    m.palette[a as int],
                    vb.r,
                    vb.g,
                    vb.b,
                ));
                if a < b {
                    assert(color_dist(m.palette[b as int], vb.r, vb.g, vb.b) < color_dist(
                        m.palette[a as int],
                        vb.r,
                        vb.g,
                        vb.b,
                    ));
                    assert(color_dist(m.palette[a as int], va.r, va.g, va.b) <= color_dist(
                        m.palette[b as int],
                        va.r,
                        va.g,
                        va.b,
                    ));
                }
                if b < a {
                    assert(color_dist(m.palette[a as int], va.r, va.g, va.b) < color_dist(
                        m.palette[b as int],
                        va.r,
                        va.g,
                        va.b,
                    ));
                    assert(color_dist(m.palette[b as int], vb.r, vb.g, vb.b) <= color_dist(
                        m.palette[a as int],
                        vb.r,
                        vb.g,
                        vb.b,
                    ));
                }
            }
        }
    }
    assert forall|k: int| 0 <= k < 256 implies #[trigger] m.palette[k] == default_color(k)
        || exists|t: int|
        0 <= t < m.voxels.len() && (#[trigger] m.voxels[t]).3 == k && m.palette[k] == opaque_color(
            voxel_of_entry(w, lo, m.voxels[t]),
        ) by {
        if 1 <= k < next {
            assert(index_used(loaded, m.voxels, m.palette, src, k));
            let t = choose|t: int|
                0 <= t < m.voxels.len() && t < src.len() && (#[trigger] m.voxels[t]).3 == k
                    && m.palette[k] == opaque_color(loaded[src[t].0].1@[src[t].1]);
            assert(voxel_of_entry(w, lo, m.voxels[t]) == loaded[src[t].0].1@[src[t].1]);
        }
    }
    assert forall|t: int, u: int|
        0 <= t < m.voxels.len() && 0 <= u < m.voxels.len() && t != u implies {
        let e = #[trigger] m.voxels[t];
        let f = #[trigger] m.voxels[u];
        (e.0, e.1, e.2) != (f.0, f.1, f.2)
    } by {
        if t < u {
            assert(cell_before(src[t], src[u]));
        } else {
            assert(cell_before(src[u], src[t]));
        }
        lemma_cells_apart(loaded, w, src[t], src[u]);
    }
    assert forall|c: (int, int, int)| #[trigger] solid_at(w, c) implies exists|t: int|
        0 <= t < m.voxels.len() && {
            let e = #[trigger] m.voxels[t];
            (lo.0 + e.0, lo.1 + e.1, lo.2 + e.2) == c
        } by {
        let cell = lemma_solid_is_cell(loaded, w, c);
        assert(cell_before(cell, (loaded.len() as int, 0)));
        assert(src.contains(cell));
        let t = choose|t: int| 0 <= t < src.len() && src[t] == cell;
        let e = m.voxels[t];
        assert((lo.0 + e.0, lo.1 + e.1, lo.2 + e.2) == c);
    }
}

/// Where no cell of the listed chunks is solid, no voxel of the world is.
proof fn lemma_no_solid_cells(loaded: Seq<(ChunkPos, &Chunk)>, w: WorldState)
    requires
        lists_chunks(loaded, w),
        forall|j: int, i: int| !#[trigger] cell_solid(loaded, j, i),
    ensures
        forall|c: (int, int, int)| !#[trigger] solid_at(w, c),
        !is_too_large(w),
{
    assert forall|c: (int, int, int)| !#[trigger] solid_at(w, c) by {
        if solid_at(w, c) {
            let cell = lemma_solid_is_cell(loaded, w, c);
        }
    }
}

/// What the box of the solid cells of the listed chunks says of the
/// world: it is the box of the world's solid voxels, which exist; it is
/// the only such box; and its corners are cell coordinates.
#[verifier::rlimit(50)]
proof fn lemma_cell_box(
    loaded: Seq<(ChunkPos, &Chunk)>,
    w: WorldState,
    lo: (int, int, int),
    hi: (int, int, int),
    on: Seq<(int, int)>,
)
    requires
        lists_chunks(loaded, w),
        is_cell_box(loaded, (loaded.len() as int, 0), lo, hi, on),
    ensures
        is_solid_box(w, lo, hi),
        exists|c: (int, int, int)| #[trigger] solid_at(w, c),
        is_too_large(w) == exceeds_format(lo, hi),
        -0x40_0000_0000 <= lo.0 <= hi.0 <= 0x40_0000_0000,
        -0x40_0000_0000 <= lo.1 <= hi.1 <= 0x40_0000_0000,
        -0x40_0000_0000 <= lo.2 <= hi.2 <= 0x40_0000_0000,
        !exceeds_format(lo, hi) ==> forall|j: int, i: int| #[trigger]
            cell_solid(loaded, j, i) ==> {
                let c = cell_at(loaded, j, i);
                0 <= c.0 - lo.0 < 256 && 0 <= c.1 - lo.1 < 256 && 0 <= c.2 - lo.2 < 256
            },
{
    lemma_cell_box_is_solid_box(loaded, w, lo, hi, on);
    lemma_cell_is_solid(loaded, w, on[0].0, on[0].1);
    assert(solid_at(w, cell_at(loaded, on[0].0, on[0].1)));
    assert forall|lo2: (int, int, int), hi2: (int, int, int)| #[trigger]
        is_solid_box(w, lo2, hi2) implies lo2 == lo && hi2 == hi by {
        lemma_solid_box_unique(w, lo, hi, lo2, hi2);
    }
    assert(is_too_large(w) == exceeds_format(lo, hi)) by {
        if exceeds_format(lo, hi) {
            assert(is_solid_box(w, lo, hi) && exceeds_format(lo, hi));
        }
    }
    assert forall|k: int| 0 <= k < 6 implies {
        let c = cell_at(loaded, (#[trigger] on[k]).0, on[k].1);
        &&& -0x40_0000_0000 <= c.0 <= 0x40_0000_0000
        &&& -0x40_0000_0000 <= c.1 <= 0x40_0000_0000
        &&& -0x40_0000_0000 <= c.2 <= 0x40_0000_0000
        &&& lo.0 <= c.0 <= hi.0 && lo.1 <= c.1 <= hi.1 && lo.2 <= c.2 <= hi.2
    } by {
        crate::chunk::lemma_index_split(on[k].1);
        assert(cell_solid(loaded, on[k].0, on[k].1) && cell_before(
            on[k],
            (loaded.len() as int, 0),
        ));
    }
    assert(cell_at(loaded, on[0].0, on[0].1).0 == lo.0);
    assert(cell_at(loaded, on[1].0, on[1].1).1 == lo.1);
    assert(cell_at(loaded, on[2].0, on[2].1).2 == lo.2);
    assert(cell_at(loaded, on[3].0, on[3].1).0 == hi.0);
    assert(cell_at(loaded, on[4].0, on[4].1).1 == hi.1);
    assert(cell_at(loaded, on[5].0, on[5].1).2 == hi.2);
    if !exceeds_format(lo, hi) {
        assert forall|j: int, i: int| #[trigger] cell_solid(loaded, j, i) implies {
            let c = cell_at(loaded, j, i);
            0 <= c.0 - lo.0 < 256 && 0 <= c.1 - lo.1 < 256 && 0 <= c.2 - lo.2 < 256
        } by {
            assert(cell_before((j, i), (loaded.len() as int, 0)));
        }
    }
}

/// The model of the solid cells of `loaded`, which the box from `lo` to
/// `hi` holds.
fn model_in_box(
    loaded: &Vec<(ChunkPos, &Chunk)>,
    lo: (i64, i64, i64),
    hi: (i64, i64, i64),
    Ghost(w): Ghost<WorldState>,
) -> (model: VoxModel)
    requires
        lists_chunks(loaded@, w),
        0 <= hi.0 - lo.0 < 256,
        0 <= hi.1 - lo.1 < 256,
        0 <= hi.2 - lo.2 < 256,
        forall|j: int, i: int| #[trigger]
            cell_solid(loaded@, j, i) ==> {
                let c = cell_at(loaded@, j, i);
                0 <= c.0 - lo.0 < 256 && 0 <= c.1 - lo.1 < 256 && 0 <= c.2 - lo.2 < 256
            },
    ensures
        is_model_of(
            model@,
            w,
            (lo.0 as int, lo.1 as int, lo.2 as int),
            (hi.0 as int, hi.1 as int, hi.2 as int),
        ),
{
    let (voxels, palette, given, cells) = collect(loaded, lo);
    let model = VoxModel {
        size: ((hi.0 - lo.0 + 1) as u32, (hi.1 - lo.1 + 1) as u32, (hi.2 - lo.2 + 1) as u32),
        voxels,
        palette,
    };
    proof {
        assert(model@.palette == colors_of(palette));
        lemma_listing_is_model(
            loaded@,
            w,
            (lo.0 as int, lo.1 as int, lo.2 as int),
            (hi.0 as int, hi.1 as int, hi.2 as int),
            model@,
            given@,
            cells@,
        );
    }
    model
}

/// A model of the solid voxels of a world in their least box, which
/// fits the format, is a model of the world.
proof fn lemma_world_model(w: WorldState, m: VoxState, lo: (int, int, int), hi: (int, int, int))
    requires
        is_solid_box(w, lo, hi),
        !exceeds_format(lo, hi),
        is_model_of(m, w, lo, hi),
        exists|c: (int, int, int)| #[trigger] solid_at(w, c),
    ensures
        is_world_model(m, w),
{
}

/// The model of size one without voxels is a model of a world without
/// solid voxels.
proof fn lemma_empty_world_model(w: WorldState, m: VoxState)
    requires
        forall|c: (int, int, int)| !#[trigger] solid_at(w, c),
        m == (VoxState { size: (1u32, 1u32, 1u32), voxels: Seq::empty(), palette: default_colors() }),
    ensures
        is_world_model(m, w),
{
}

/// The model of the listed chunks of a world.
fn model_of_chunks(loaded: &Vec<(ChunkPos, &Chunk)>, Ghost(w): Ghost<WorldState>) -> (model: Result<
    VoxModel,
    VoxError,
>)
    requires
        lists_chunks(loaded@, w),
    ensures
        match model {
            Ok(m) => is_world_model(m@, w) && !is_too_large(w),
            Err(e) => e == VoxError::ModelTooLarge && is_too_large(w),
        },
{
    match solid_bounds(loaded) {
        None => {
            let model = VoxModel::new((1, 1, 1));
            proof {
                lemma_no_solid_cells(loaded@, w);
                lemma_empty_world_model(w, model@);
            }
            Ok(model)
        },
        Some((lo, hi, sides)) => {
            let ghost low = (lo.0 as int, lo.1 as int, lo.2 as int);
            let ghost high = (hi.0 as int, hi.1 as int, hi.2 as int);
            proof {
                lemma_cell_box(loaded@, w, low, high, sides@);
            }
            if hi.0 - lo.0 + 1 > 256 || hi.1 - lo.1 + 1 > 256 || hi.2 - lo.2 + 1 > 256 {
                return Err(VoxError::ModelTooLarge);
            }
            let model = model_in_box(loaded, lo, hi, Ghost(w));
            proof {
                lemma_world_model(w, model@, low, high);
            }
            Ok(model)
        },
    }
}

impl VoxModel {
    /// The model of a world: its solid voxels in their least box, each
    /// with a palette index for its color. The first 254 colors get an
    /// index of their own, the others a nearest one. `ModelTooLarge`
    /// where the box is more than 256 voxels long along an axis.
    pub fn from_world(world: &World) -> (model: Result<VoxModel, VoxError>)
        requires
            world.wf(),
        ensures
            match model {
                Ok(m) => is_world_model(m@, world@) && !is_too_large(world@),
                Err(e) => e == VoxError::ModelTooLarge && is_too_large(world@),
            },
    {
        let loaded = world.chunks();
        model_of_chunks(&loaded, Ghost(world@))
    }
}

/// The bytes of the model of a world, or `ModelTooLarge` where its solid
/// voxels span more than 256 voxels along an axis.
pub fn export_vox(world: &World) -> (data: Result<Vec<u8>, VoxError>)
    requires
        world.wf(),
    ensures
        match data {
            Ok(bytes) => !is_too_large(world@) && exists|m: VoxState| #[trigger]
                is_world_model(m, world@) && bytes@ == vox_bytes(m),
            Err(e) => e == VoxError::ModelTooLarge && is_too_large(world@),
        },
{
    match VoxModel::from_world(world) {
        Ok(model) => {
            let bytes = model.write();
            assert(is_world_model(model@, world@) && bytes@ == vox_bytes(model@));
            Ok(bytes)
        },
        Err(e) => Err(e),
    }
}

/// The world that the model in `data` holds, or why there is none.
pub fn import_vox(data: &[u8]) -> (world: Result<World, VoxError>)
    ensures
        match parsed_vox(data@) {
            VoxOutcome::Model(m) => world matches Ok(w) && w.wf() && w@ == placed(
                WorldState { chunks: Map::empty(), bounds: None, any_dirty: false },
                m,
                m.voxels.len(),
            ),
            VoxOutcome::Io => world matches Err(VoxError::Io),
            VoxOutcome::InvalidMagic => world matches Err(VoxError::InvalidMagic),
            VoxOutcome::InvalidChunkId(id) => world matches Err(VoxError::InvalidChunkId(i)) && i@
                == id,
            VoxOutcome::NoVoxelData => world matches Err(VoxError::NoVoxelData),
        },
{
    match VoxModel::read(data) {
        Ok(model) => Ok(model.to_world()),
        Err(e) => Err(e),
    }
}

} // verus!
