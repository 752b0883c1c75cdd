//! Project files: chunks as run-length encoded voxels, framed with a
//! header into one compressed payload.

use crate::bytes::{
    copy_range, has_bytes, i32_at, i32_bytes, in_reach, joined, read_i32, read_u32, u32_at,
    u32_bytes, write_i32, write_range, write_u32,
};
use crate::chunk::{Chunk, ChunkPos, CHUNK_VOLUME};
use crate::voxel::Voxel;
use crate::world::{ChunkState, World, WorldState};
use std::io::{Read, Write};
use vstd::prelude::*;

verus! {

/// The bytes of a run: two for the count, eight for the voxel.
pub const RUN_BYTES: usize = 10;

/// The longest run.
pub const MAX_RUN: u16 = 65535;

/// The eight bytes of a voxel: the material, low byte first, then red,
/// green, blue, opacity, the flags and the reserved byte.
pub open spec fn voxel_bytes(v: Voxel) -> Seq<u8> {
    seq![
        (v.material % 256) as u8,
        (v.material / 256) as u8,
        v.r,
        v.g,
        v.b,
        v.a,
        v.flags,
        v._reserved,
    ]
}

/// The ten bytes of a run of `count` voxels `v`: the count, low byte
/// first, then the voxel.
pub open spec fn run_bytes(v: Voxel, count: u16) -> Seq<u8> {
    seq![(count % 256) as u8, (count / 256) as u8] + voxel_bytes(v)
}

/// The number of voxels of the `k`-th run of `data`.
pub open spec fn run_count(data: Seq<u8>, k: int) -> int {
    data[10 * k] + 256 * data[10 * k + 1]
}

/// The voxel of the `k`-th run of `data`.
pub open spec fn run_voxel(data: Seq<u8>, k: int) -> Voxel {
    Voxel {
        material: (data[10 * k + 2] + 256 * data[10 * k + 3]) as u16,
        r: data[10 * k + 4],
        g: data[10 * k + 5],
        b: data[10 * k + 6],
        a: data[10 * k + 7],
        flags: data[10 * k + 8],
        _reserved: data[10 * k + 9],
    }
}

/// The voxels that the first `n` runs of `data` stand for.
pub open spec fn rle_expand(data: Seq<u8>, n: nat) -> Seq<Voxel>
    decreases n,
{
    if n == 0 {
        Seq::empty()
    } else {
        rle_expand(data, (n - 1) as nat) + Seq::new(
            run_count(data, n - 1) as nat,
            |i: int| run_voxel(data, n - 1),
        )
    }
}

/// The voxels that `data` stands for: those of its whole runs. Bytes
/// after the last whole run are ignored.
pub open spec fn rle_voxels(data: Seq<u8>) -> Seq<Voxel> {
    rle_expand(data, (data.len() / 10) as nat)
}

/// The voxels of the chunk that `data` decodes to: the first 32768 voxels
/// that `data` stands for, each as it is, and air where `data` has no
/// voxel.
pub open spec fn rle_chunk(data: Seq<u8>) -> Seq<Voxel> {
    Seq::new(
        CHUNK_VOLUME as nat,
        |i: int|
            if i < rle_voxels(data).len() {
                rle_voxels(data)[i]
            } else {
                Voxel::air()
            },
    )
}

/// Whether `data` is made of whole runs that are as long as can be: no
/// run is empty, and a run is followed by a run of the same voxel only
/// where it has the greatest length.
pub open spec fn is_canonical_rle(data: Seq<u8>) -> bool {
    &&& data.len() % 10 == 0
    &&& forall|k: int| 0 <= k < data.len() / 10 ==> #[trigger] run_count(data, k) >= 1
    &&& forall|k: int|
        0 <= k < data.len() / 10 - 1 && #[trigger] run_voxel(data, k) == run_voxel(data, k + 1)
            ==> run_count(data, k) == 65535
}

/// The first `n` runs of `data` depend on its first `10 * n` bytes only.
pub proof fn lemma_expand_prefix(a: Seq<u8>, b: Seq<u8>, n: nat)
    requires
        a.len() >= 10 * n,
        b.len() >= 10 * n,
        forall|i: int| 0 <= i < 10 * n ==> a[i] == b[i],
    ensures
        rle_expand(a, n) == rle_expand(b, n),
        forall|k: int|
            0 <= k < n ==> run_count(a, k) == run_count(b, k) && run_voxel(a, k) == run_voxel(b, k),
    decreases n,
{
    if n > 0 {
        lemma_expand_prefix(a, b, (n - 1) as nat);
        assert(run_count(a, n - 1) == run_count(b, n - 1));
        assert(run_voxel(a, n - 1) == run_voxel(b, n - 1));
    }
}

/// A run that was written is read back as it was.
pub proof fn lemma_run_bytes(data: Seq<u8>, v: Voxel, count: u16)
    requires
        data.len() % 10 == 0,
    ensures
        run_count(data + run_bytes(v, count), data.len() as int / 10) == count,
        run_voxel(data + run_bytes(v, count), data.len() as int / 10) == v,
        rle_voxels(data + run_bytes(v, count)) == rle_voxels(data) + Seq::new(
            count as nat,
            |i: int| v,
        ),
{
    let more = data + run_bytes(v, count);
    let n = data.len() as int / 10;
    assert(more.len() == data.len() + 10);
    assert(more[10 * n] == (count % 256) as u8);
    assert(more[10 * n + 1] == (count / 256) as u8);
    assert(more[10 * n + 2] == (v.material % 256) as u8);
    assert(more[10 * n + 3] == (v.material / 256) as u8);
    assert(more[10 * n + 4] == v.r);
    assert(more[10 * n + 5] == v.g);
    assert(more[10 * n + 6] == v.b);
    assert(more[10 * n + 7] == v.a);
    assert(more[10 * n + 8] == v.flags);
    assert(more[10 * n + 9] == v._reserved);
    lemma_expand_prefix(data, more, n as nat);
    assert(more.len() / 10 == n + 1);
    assert(Seq::new(run_count(more, n) as nat, |i: int| run_voxel(more, n)) =~= Seq::new(
        count as nat,
        |i: int| v,
    ));
}

/// Appends the run of `count` voxels `voxel` to `buf`.
pub fn write_rle_run(buf: &mut Vec<u8>, voxel: Voxel, count: u16)
    ensures
        final(buf)@ == old(buf)@ + run_bytes(voxel, count),
{
    let ghost before = buf@;
    buf.push((count % 256) as u8);
    buf.push((count / 256) as u8);
    buf.push((voxel.material % 256) as u8);
    buf.push((voxel.material / 256) as u8);
    buf.push(voxel.r);
    buf.push(voxel.g);
    buf.push(voxel.b);
    buf.push(voxel.a);
    buf.push(voxel.flags);
    buf.push(voxel._reserved);
    assert(buf@ =~= before + run_bytes(voxel, count));
}

/// The run-length encoding of a chunk's voxels in flat order: runs as
/// long as can be, none longer than 65535.
#[verifier::rlimit(50)]
pub fn rle_encode_chunk(chunk: &Chunk) -> (data: Vec<u8>)
    requires
        chunk.wf(),
    ensures
        rle_voxels(data@) == chunk@,
        is_canonical_rle(data@),
{
    let voxels = chunk.voxels();
    let mut result: Vec<u8> = Vec::new();
    let mut current = voxels[0];
    let mut count: u16 = 1;
    let mut i: usize = 1;
    proof {
        assert(rle_voxels(result@) + Seq::new(count as nat, |j: int| current) =~= voxels@.take(1));
    }
    while i < voxels.len()
        invariant
            1 <= i <= voxels@.len(),
            voxels@.len() == CHUNK_VOLUME,
            1 <= count <= 65535,
            count <= i,
            is_canonical_rle(result@),
            rle_voxels(result@) + Seq::new(count as nat, |j: int| current) == voxels@.take(i as int),
            result@.len() > 0 && run_voxel(result@, result@.len() as int / 10 - 1) == current
                ==> run_count(result@, result@.len() as int / 10 - 1) == 65535,
        decreases voxels.len() - i,
    {
        let voxel = voxels[i];
        if voxel == current && count < MAX_RUN {
            count = count + 1;
            proof {
                assert(rle_voxels(result@) + Seq::new(count as nat, |j: int| current)
                    =~= voxels@.take(i as int).push(voxel));
            }
        } else {
            let ghost before = result@;
            write_rle_run(&mut result, current, count);
            proof {
                lemma_run_bytes(before, current, count);
                lemma_canonical_push(before, current, count);
                assert(rle_voxels(result@) + Seq::new(1, |j: int| voxel) =~= voxels@.take(
                    i as int,
                ).push(voxel));
            }
            current = voxel;
            count = 1;
        }
        proof {
            assert(voxels@.take(i as int).push(voxel) =~= voxels@.take(i + 1));
        }
        i = i + 1;
    }
    let ghost before = result@;
    write_rle_run(&mut result, current, count);
    proof {
        lemma_run_bytes(before, current, count);
        lemma_canonical_push(before, current, count);
        assert(voxels@.take(i as int) =~= voxels@);
    }
    result
}

/// A run appended to canonical data keeps it canonical where the run
/// before it, if it holds the same voxel, has the greatest length.
proof fn lemma_canonical_push(data: Seq<u8>, v: Voxel, count: u16)
    requires
        is_canonical_rle(data),
        count >= 1,
        data.len() > 0 && run_voxel(data, data.len() as int / 10 - 1) == v ==> run_count(
            data,
            data.len() as int / 10 - 1,
        ) == 65535,
    ensures
        is_canonical_rle(data + run_bytes(v, count)),
{
    let more = data + run_bytes(v, count);
    let n = data.len() as int / 10;
    lemma_run_bytes(data, v, count);
    lemma_expand_prefix(data, more, n as nat);
    assert(more.len() / 10 == n + 1);
    assert forall|k: int| 0 <= k < more.len() / 10 implies #[trigger] run_count(more, k) >= 1 by {
        if k < n {
            assert(run_count(data, k) >= 1);
        }
    }
    assert forall|k: int|
        0 <= k < more.len() / 10 - 1 && #[trigger] run_voxel(more, k) == run_voxel(
            more,
            k + 1,
        ) implies run_count(more, k) == 65535 by {
        if k < n - 1 {
            assert(run_voxel(data, k) == run_voxel(data, k + 1));
        }
    }
}

/// The first 32768 voxels of `s`.
pub open spec fn clipped(s: Seq<Voxel>) -> Seq<Voxel> {
    if s.len() > CHUNK_VOLUME {
        s.take(CHUNK_VOLUME as int)
    } else {
        s
    }
}

/// The chunk that `data` decodes to: the voxels of its runs in flat
/// order, each as it is, cut off after 32768 voxels or filled up with
/// air. Every sequence of bytes decodes to a chunk.
#[verifier::rlimit(50)]
pub fn rle_decode_chunk(data: &[u8]) -> (chunk: Option<Chunk>)
    ensures
        chunk matches Some(c) && c.wf() && c@ == rle_chunk(data@) && c.spec_is_dirty(),
        rle_voxels(data@).len() == CHUNK_VOLUME ==> (chunk matches Some(c) && c@ == rle_voxels(
            data@,
        )),
{
    let mut decoded: Vec<Voxel> = Vec::with_capacity(CHUNK_VOLUME);
    let mut offset: usize = 0;
    let ghost mut k: nat = 0;
    while data.len() - offset >= RUN_BYTES
        invariant
            offset == 10 * k,
            offset <= data@.len(),
            decoded@ == clipped(rle_expand(data@, k)),
        decreases data@.len() - offset,
    {
        let count: usize = data[offset] as usize + 256 * (data[offset + 1] as usize);
        let voxel = Voxel {
            material: data[offset + 2] as u16 + 256 * (data[offset + 3] as u16),
            r: data[offset + 4],
            g: data[offset + 5],
            b: data[offset + 6],
            a: data[offset + 7],
            flags: data[offset + 8],
            _reserved: data[offset + 9],
        };
        let ghost before = rle_expand(data@, k);
        assert(count == run_count(data@, k as int) && voxel == run_voxel(data@, k as int));
        let mut j: usize = 0;
        proof {
            assert(before + Seq::new(0, |i: int| voxel) =~= before);
        }
        while j < count && decoded.len() < CHUNK_VOLUME
            invariant
                j <= count,
                decoded@ == clipped(before + Seq::new(j as nat, |i: int| voxel)),
            decreases count - j,
        {
            decoded.push(voxel);
            proof {
                let shorter = before + Seq::new(j as nat, |i: int| voxel);
                let longer = before + Seq::new((j + 1) as nat, |i: int| voxel);
                assert(longer =~= shorter.push(voxel));
                assert(decoded@ =~= clipped(longer));
            }
            j = j + 1;
        }
        proof {
            let part = before + Seq::new(j as nat, |i: int| voxel);
            let whole = before + Seq::new(count as nat, |i: int| voxel);
            assert(whole == rle_expand(data@, k + 1));
            if j < count {
                assert(part.len() >= CHUNK_VOLUME);
                assert(clipped(part) =~= clipped(whole));
            }
            k = k + 1;
        }
        offset = offset + RUN_BYTES;
    }
    let ghost stream = rle_voxels(data@);
    assert(k == data@.len() / 10);
    let ghost have = decoded@;
    while decoded.len() < CHUNK_VOLUME
        invariant
            have == clipped(stream),
            have.len() <= decoded@.len(),
            decoded@.len() <= CHUNK_VOLUME || decoded@ == have,
            forall|i: int| 0 <= i < have.len() ==> decoded@[i] == have[i],
            forall|i: int| have.len() <= i < decoded@.len() ==> decoded@[i] == Voxel::air(),
        decreases CHUNK_VOLUME - decoded.len(),
    {
        decoded.push(Voxel::air());
    }
    let mut chunk = Chunk::new();
    let mut i: usize = 0;
    while i < CHUNK_VOLUME
        invariant
            i <= CHUNK_VOLUME,
            chunk.wf(),
            chunk.spec_is_dirty(),
            decoded@.len() == CHUNK_VOLUME,
            forall|n: int| 0 <= n < i ==> chunk@[n] == decoded@[n],
        decreases CHUNK_VOLUME - i,
    {
        let voxel = decoded[i];
        proof {
            crate::chunk::lemma_index_split(i as int);
        }
        chunk.set(i % 32, (i / 32) % 32, i / 1024, voxel);
        i = i + 1;
    }
    proof {
        assert forall|n: int| 0 <= n < CHUNK_VOLUME implies chunk@[n] == rle_chunk(data@)[n] by {
            assert(chunk@[n] == decoded@[n]);
            if n < stream.len() {
                assert(have[n] == stream[n]);
                assert(decoded@[n] == have[n]);
            } else {
                assert(decoded@[n] == Voxel::air());
            }
        }
        assert(chunk@ =~= rle_chunk(data@));
        if stream.len() == CHUNK_VOLUME {
            assert(rle_chunk(data@) =~= stream);
        }
    }
    Some(chunk)
}

/// Round trip: data that stands for the voxels of a chunk, as the
/// encoding of the chunk does, decodes to those voxels: every voxel gets
/// back its material, its color and its flags, whether it is solid or
/// air.
pub proof fn lemma_rle_round_trip(voxels: Seq<Voxel>, data: Seq<u8>)
    requires
        voxels.len() == CHUNK_VOLUME,
        rle_voxels(data) == voxels,
    ensures
        rle_chunk(data) == voxels,
{
    assert(rle_chunk(data) =~= voxels);
}

/// The version of the project format that is written.
pub const PROJECT_VERSION: u32 = 1;

/// The four bytes that a project file starts with: `VXLT`.
pub open spec fn project_magic() -> Seq<u8> {
    seq![0x56u8, 0x58u8, 0x4Cu8, 0x54u8]
}

/// Why a project could not be written or read.
#[derive(Debug, Clone, Copy, PartialEq, Eq, Structural)]
pub enum ProjectError {
    /// The data ends too early or cannot be compressed or decompressed.
    Io,
    /// The data does not start with the magic bytes.
    InvalidMagic,
    /// The data was written in a later version of the format.
    UnsupportedVersion(u32),
    /// The header is no valid description of a project.
    Json,
    InvalidChunkData,
    DecompressionError,
}

/// A chunk as a project stores it: its position and its voxels, run-length encoded.
pub struct ChunkData {
    pub pos: ChunkPos,
    pub rle_data: Vec<u8>,
}

/// What a project holds: a header, which describes the project and is
/// stored as it is, and the chunks.
pub struct ProjectState {
    pub header: Seq<u8>,
    pub chunks: Seq<(ChunkPos, Seq<u8>)>,
}

/// A project: a header and the chunks of a world.
pub struct Project {
    /// The description of the project, as bytes that the library stores as they are.
    pub header: Vec<u8>,
    chunks: Vec<ChunkData>,
}

impl View for Project {
    type V = ProjectState;

    closed spec fn view(&self) -> ProjectState {
        ProjectState {
            header: self.header@,
            chunks: self.chunks@.map_values(|c: ChunkData| (c.pos, c.rle_data@)),
        }
    }
}

/// The bytes of a stored chunk: its position, the length of its data
/// and the data.
pub open spec fn chunk_bytes(c: (ChunkPos, Seq<u8>)) -> Seq<u8> {
    i32_bytes(c.0.x as int) + i32_bytes(c.0.y as int) + i32_bytes(c.0.z as int) + u32_bytes(
        c.1.len() as int % 0x1_0000_0000,
    ) + c.1
}

/// The bytes of stored chunks, one after the other.
pub open spec fn chunks_bytes(chunks: Seq<(ChunkPos, Seq<u8>)>) -> Seq<u8> {
    joined(chunks.map_values(|c: (ChunkPos, Seq<u8>)| chunk_bytes(c)))
}

/// The payload of a project: the length of the header, the header, the
/// number of chunks and the chunks. Lengths are stored modulo 2^32.
pub open spec fn payload_bytes(p: ProjectState) -> Seq<u8> {
    u32_bytes(p.header.len() as int % 0x1_0000_0000) + p.header + u32_bytes(
        p.chunks.len() as int % 0x1_0000_0000,
    ) + chunks_bytes(p.chunks)
}

/// The stored chunk that `data` holds at `at`, and where the next one
/// starts; `None` where `data` ends too early.
pub open spec fn parsed_chunk(data: Seq<u8>, at: int) -> Option<((ChunkPos, Seq<u8>), int)> {
    if !has_bytes(data, at, 16) {
        None
    } else if !has_bytes(data, at + 16, u32_at(data, at + 12)) {
        None
    } else {
        let end = at + 16 + u32_at(data, at + 12);
        Some(
            (
                (
                    ChunkPos {
                        x: i32_at(data, at) as i32,
                        y: i32_at(data, at + 4) as i32,
                        z: i32_at(data, at + 8) as i32,
                    },
                    data.subrange(at + 16, end),
                ),
                end,
            ),
        )
    }
}

/// The `n` stored chunks that `data` holds from `at` on; `None` where
/// `data` ends too early.
pub open spec fn parsed_chunks(data: Seq<u8>, at: int, n: nat) -> Option<Seq<(ChunkPos, Seq<u8>)>>
    decreases n,
{
    if n == 0 {
        Some(Seq::empty())
    } else {
        match parsed_chunk(data, at) {
            None => None,
            Some((chunk, next)) => match parsed_chunks(data, next, (n - 1) as nat) {
                None => None,
                Some(rest) => Some(seq![chunk] + rest),
            },
        }
    }
}

/// The project that the payload `data` holds; `None` where `data` ends
/// too early. Bytes after the last chunk are ignored.
pub open spec fn parsed_payload(data: Seq<u8>) -> Option<ProjectState> {
    if !has_bytes(data, 0, 4) {
        None
    } else if !has_bytes(data, 4, u32_at(data, 0)) {
        None
    } else if !has_bytes(data, 4 + u32_at(data, 0), 4) {
        None
    } else {
        let header_end = 4 + u32_at(data, 0);
        match parsed_chunks(data, header_end + 4, u32_at(data, header_end) as nat) {
            None => None,
            Some(chunks) => Some(
                ProjectState { header: data.subrange(4, header_end), chunks },
            ),
        }
    }
}

/// The compressed form of `data`: what a gzip encoder at the default
/// level makes of it, or `None` where the encoder fails.
pub uninterp spec fn gzip_of(data: Seq<u8>) -> Option<Seq<u8>>;

/// The data that the gzip member at the start of `data` holds, or `None`
/// where there is no whole, sound member.
pub uninterp spec fn gunzip_of(data: Seq<u8>) -> Option<Seq<u8>>;

/// Compresses `data` with `flate2::write::GzEncoder` at the default
/// level, written to in one piece and finished. The contract gives the
/// outcome a name and claims nothing else of it.
#[verifier::external_body]
fn gzip(data: &[u8]) -> (out: Option<Vec<u8>>)
    ensures
        out matches Some(v) ==> gzip_of(data@) == Some(v@),
        out is None ==> gzip_of(data@) is None,
{
    let mut encoder = flate2::write::GzEncoder::new(Vec::new(), flate2::Compression::default());
    match encoder.write_all(data) {
        Ok(()) => encoder.finish().ok(),
        Err(_) => None,
    }
}

/// Decompresses `data` with `flate2::read::GzDecoder`, read to its end.
/// The contract gives the outcome a name and claims nothing else of it.
#[verifier::external_body]
fn gunzip(data: &[u8]) -> (out: Option<Vec<u8>>)
    ensures
        out matches Some(v) ==> gunzip_of(data@) == Some(v@),
        out is None ==> gunzip_of(data@) is None,
{
    let mut decoder = flate2::read::GzDecoder::new(data);
    let mut out = Vec::new();
    match decoder.read_to_end(&mut out) {
        Ok(_) => Some(out),
        Err(_) => None,
    }
}

/// The payload of a project file, or why there is none. The checks come
/// in this order: the magic bytes, the version, the compressed payload.
pub open spec fn file_payload(data: Seq<u8>) -> Result<Seq<u8>, ProjectError> {
    if data.len() < 4 {
        Err(ProjectError::Io)
    } else if data.subrange(0, 4) != project_magic() {
        Err(ProjectError::InvalidMagic)
    } else if data.len() < 8 {
        Err(ProjectError::Io)
    } else if u32_at(data, 4) > 1 {
        Err(ProjectError::UnsupportedVersion(u32_at(data, 4) as u32))
    } else {
        match gunzip_of(data.subrange(8, data.len() as int)) {
            None => Err(ProjectError::Io),
            Some(payload) => Ok(payload),
        }
    }
}

/// The header that the payload `data` holds; `None` where `data` ends
/// before the header does.
pub open spec fn parsed_header(data: Seq<u8>) -> Option<Seq<u8>> {
    if has_bytes(data, 0, 4) && has_bytes(data, 4, u32_at(data, 0)) {
        Some(data.subrange(4, 4 + u32_at(data, 0)))
    } else {
        None
    }
}

/// What reading a project file gives: the project, or why there is none.
/// The checks come in this order: the magic bytes, the version, the
/// compressed payload, the payload's contents.
pub open spec fn loaded(data: Seq<u8>) -> Result<ProjectState, ProjectError> {
    match file_payload(data) {
        Err(e) => Err(e),
        Ok(payload) => match parsed_payload(payload) {
            None => Err(ProjectError::Io),
            Some(p) => Ok(p),
        },
    }
}

/// The chunks that a world gets from stored chunks, first to last: each
/// is decoded and loaded at its position, in place of what was there.
pub open spec fn decoded_chunks(chunks: Seq<(ChunkPos, Seq<u8>)>) -> Map<ChunkPos, ChunkState>
    decreases chunks.len(),
{
    if chunks.len() == 0 {
        Map::empty()
    } else {
        decoded_chunks(chunks.drop_last()).insert(
            chunks.last().0,
            ChunkState { voxels: rle_chunk(chunks.last().1), dirty: true },
        )
    }
}

/// Whether `stored` holds the encoding of every loaded chunk of `w` that
/// is not empty, each once, and nothing else.
pub open spec fn stores_world(stored: Seq<(ChunkPos, Seq<u8>)>, w: WorldState) -> bool {
    &&& forall|a: int, b: int|
        0 <= a < stored.len() && 0 <= b < stored.len() && a != b ==> (#[trigger] stored[a]).0 != (
        #[trigger] stored[b]).0
    &&& forall|j: int|
        0 <= j < stored.len() ==> {
            &&& w.chunks.contains_key((#[trigger] stored[j]).0)
            &&& !w.chunks[stored[j].0].is_empty()
            &&& rle_voxels(stored[j].1) == w.chunks[stored[j].0].voxels
            &&& is_canonical_rle(stored[j].1)
        }
    &&& forall|q: ChunkPos|
        w.chunks.contains_key(q) && !w.chunks[q].is_empty() ==> exists|j: int|
            0 <= j < stored.len() && (#[trigger] stored[j]).0 == q
}

/// A stored chunk that was written is read back as it was.
#[verifier::rlimit(50)]
pub proof fn lemma_chunk_round_trip(head: Seq<u8>, c: (ChunkPos, Seq<u8>), tail: Seq<u8>)
    requires
        c.1.len() < 0x1_0000_0000,
    ensures
        parsed_chunk(head + chunk_bytes(c) + tail, head.len() as int) == Some(
            (c, head.len() as int + 16 + c.1.len() as int),
        ),
        chunk_bytes(c).len() == 16 + c.1.len(),
{
    let data = head + chunk_bytes(c) + tail;
    let at = head.len() as int;
    let x = i32_bytes(c.0.x as int);
    let y = i32_bytes(c.0.y as int);
    let z = i32_bytes(c.0.z as int);
    let l = u32_bytes(c.1.len() as int);
    crate::bytes::lemma_i32_bytes(c.0.x as int);
    crate::bytes::lemma_i32_bytes(c.0.y as int);
    crate::bytes::lemma_i32_bytes(c.0.z as int);
    crate::bytes::lemma_u32_bytes(c.1.len() as int);
    assert(c.1.len() as int % 0x1_0000_0000 == c.1.len());
    assert(chunk_bytes(c) == x + y + z + l + c.1);
    assert(chunk_bytes(c).len() == 16 + c.1.len());
    assert(data.len() == at + 16 + c.1.len() + tail.len());
    crate::bytes::lemma_five_parts(head, x, y, z, l, c.1, tail);
    assert(i32_at(data, at) == c.0.x) by {
        crate::bytes::lemma_u32_at_part(head, x, y + z + l + c.1 + tail);
    }
    assert(i32_at(data, at + 4) == c.0.y) by {
        crate::bytes::lemma_u32_at_part(head + x, y, z + l + c.1 + tail);
    }
    assert(i32_at(data, at + 8) == c.0.z) by {
        crate::bytes::lemma_u32_at_part(head + x + y, z, l + c.1 + tail);
    }
    assert(u32_at(data, at + 12) == c.1.len()) by {
        crate::bytes::lemma_u32_at_part(head + x + y + z, l, c.1 + tail);
    }
    assert(data.subrange(at + 16, at + 16 + c.1.len()) == c.1);
    assert(has_bytes(data, at, 16));
    assert(has_bytes(data, at + 16, u32_at(data, at + 12)));
}

/// Stored chunks that were written are read back as they were.
pub proof fn lemma_chunks_round_trip(
    head: Seq<u8>,
    chunks: Seq<(ChunkPos, Seq<u8>)>,
    tail: Seq<u8>,
)
    requires
        forall|i: int| 0 <= i < chunks.len() ==> (#[trigger] chunks[i]).1.len() < 0x1_0000_0000,
    ensures
        parsed_chunks(head + chunks_bytes(chunks) + tail, head.len() as int, chunks.len()) == Some(
            chunks,
        ),
    decreases chunks.len(),
{
    if chunks.len() > 0 {
        let c = chunks.first();
        let rest = chunks.drop_first();
        let f = |c: (ChunkPos, Seq<u8>)| chunk_bytes(c);
        let first = chunk_bytes(c);
        let others = chunks_bytes(rest);
        assert(chunks_bytes(chunks) == first + others) by {
            assert(chunks.map_values(f).drop_first() =~= rest.map_values(f));
        }
        crate::bytes::lemma_concat_assoc(head, first, others);
        crate::bytes::lemma_concat_assoc(head + first, others, tail);
        crate::bytes::lemma_concat_assoc(head, first, others + tail);
        lemma_chunk_round_trip(head, c, others + tail);
        assert forall|i: int| 0 <= i < rest.len() implies (#[trigger] rest[i]).1.len()
            < 0x1_0000_0000 by {
            assert(rest[i] == chunks[i + 1]);
        }
        lemma_chunks_round_trip(head + first, rest, tail);
        assert(seq![c] + rest =~= chunks);
    } else {
        assert(chunks =~= Seq::empty());
    }
}

/// Round trip of the payload: a project whose lengths fit the format's
/// 32-bit fields is read back from its payload as it was, whatever
/// follows the payload.
pub proof fn lemma_payload_round_trip(p: ProjectState, tail: Seq<u8>)
    requires
        p.header.len() < 0x1_0000_0000,
        p.chunks.len() < 0x1_0000_0000,
        forall|i: int| 0 <= i < p.chunks.len() ==> (#[trigger] p.chunks[i]).1.len() < 0x1_0000_0000,
    ensures
        parsed_payload(payload_bytes(p) + tail) == Some(p),
{
    let data = payload_bytes(p) + tail;
    let hl = u32_bytes(p.header.len() as int);
    let n = u32_bytes(p.chunks.len() as int);
    let body = chunks_bytes(p.chunks);
    let none = Seq::<u8>::empty();
    let header_end: int = 4 + p.header.len() as int;
    crate::bytes::lemma_u32_bytes(p.header.len() as int);
    crate::bytes::lemma_u32_bytes(p.chunks.len() as int);
    assert(data == hl + p.header + n + body + tail);
    lemma_payload_parts(hl, p.header, n, body, tail);
    assert(data.len() == header_end + 4 + body.len() + tail.len());
    assert(u32_at(data, 0) == p.header.len()) by {
        crate::bytes::lemma_u32_at_part(none, hl, p.header + n + body + tail);
    }
    assert(u32_at(data, header_end) == p.chunks.len()) by {
        crate::bytes::lemma_u32_at_part(hl + p.header, n, body + tail);
    }
    assert(data.subrange(4, header_end) == p.header);
    assert(parsed_chunks(data, header_end + 4, p.chunks.len()) == Some(p.chunks)) by {
        lemma_chunks_round_trip(hl + p.header + n, p.chunks, tail);
    }
    assert(has_bytes(data, 0, 4));
    assert(has_bytes(data, 4, u32_at(data, 0)));
    assert(has_bytes(data, 4 + u32_at(data, 0), 4));
}

/// The parts of a payload, whatever the brackets.
proof fn lemma_payload_parts(hl: Seq<u8>, header: Seq<u8>, n: Seq<u8>, body: Seq<u8>, tail: Seq<u8>)
    ensures
        hl + header + n + body + tail == Seq::<u8>::empty() + hl + (header + n + body + tail),
        hl + header + n + body + tail == (hl + header) + n + (body + tail),
        (hl + header + n + body + tail).subrange(hl.len() as int, (hl.len() + header.len()) as int)
            == header,
{
    let data = hl + header + n + body + tail;
    assert(data =~= Seq::<u8>::empty() + hl + (header + n + body + tail));
    assert(data =~= (hl + header) + n + (body + tail));
    assert(data.subrange(hl.len() as int, (hl.len() + header.len()) as int) =~= header);
}

/// A project file: the magic bytes, the version, and the compressed payload.
pub fn frame(compressed: &[u8]) -> (file: Vec<u8>)
    ensures
        file@ == project_magic() + u32_bytes(1) + compressed@,
{
    let mut file: Vec<u8> = Vec::new();
    file.push(0x56);
    file.push(0x58);
    file.push(0x4C);
    file.push(0x54);
    assert(file@ =~= project_magic());
    write_u32(&mut file, PROJECT_VERSION);
    write_range(&mut file, compressed, 0, compressed.len());
    assert(compressed@.subrange(0, compressed@.len() as int) =~= compressed@);
    file
}

/// The compressed payload of a project file, or why the file is none:
/// `Io` where it ends inside the magic bytes or the version,
/// `InvalidMagic` where it starts otherwise, `UnsupportedVersion` where
/// its version is later than the one written here.
pub fn unframe(data: &[u8]) -> (compressed: Result<Vec<u8>, ProjectError>)
    ensures
        match compressed {
            Ok(c) => data@.len() >= 8 && data@.subrange(0, 4) == project_magic() && u32_at(data@, 4)
                <= 1 && c@ == data@.subrange(8, data@.len() as int),
            Err(e) => e == (if data@.len() < 4 {
                ProjectError::Io
            } else if data@.subrange(0, 4) != project_magic() {
                ProjectError::InvalidMagic
            } else if data@.len() < 8 {
                ProjectError::Io
            } else {
                ProjectError::UnsupportedVersion(u32_at(data@, 4) as u32)
            }) && (data@.len() >= 8 && data@.subrange(0, 4) == project_magic() ==> u32_at(data@, 4)
                > 1),
        },
{
    if data.len() < 4 {
        return Err(ProjectError::Io);
    }
    if data[0] != 0x56 || data[1] != 0x58 || data[2] != 0x4C || data[3] != 0x54 {
        proof {
            let head = data@.subrange(0, 4);
            assert(head[0] == data@[0] && head[1] == data@[1] && head[2] == data@[2] && head[3]
                == data@[3]);
        }
        return Err(ProjectError::InvalidMagic);
    }
    assert(data@.subrange(0, 4) =~= project_magic());
    match read_u32(data, 4) {
        None => Err(ProjectError::Io),
        Some(version) => {
            if version > PROJECT_VERSION {
                Err(ProjectError::UnsupportedVersion(version))
            } else {
                Ok(copy_range(data, 8, data.len()))
            }
        },
    }
}

/// The stored chunk that `data` holds at `at`, and where the next one
/// starts; `None` where `data` ends too early.
pub fn parse_chunk(data: &[u8], at: usize) -> (parsed: Option<(ChunkData, usize)>)
    ensures
        match parsed_chunk(data@, at as int) {
            Some((chunk, next)) => parsed matches Some((c, n)) && c.pos == chunk.0 && c.rle_data@
                == chunk.1 && n == next,
            None => parsed is None,
        },
{
    if !in_reach(data, at, 16) {
        return None;
    }
    let x = read_i32(data, at);
    let y = read_i32(data, at + 4);
    let z = read_i32(data, at + 8);
    let len = read_u32(data, at + 12);
    match (x, y, z, len) {
        (Some(x), Some(y), Some(z), Some(len)) => {
            let len = len as usize;
            if !in_reach(data, at + 16, len) {
                return None;
            }
            let rle_data = copy_range(data, at + 16, at + 16 + len);
            Some((ChunkData { pos: ChunkPos::new(x, y, z), rle_data }, at + 16 + len))
        },
        _ => None,
    }
}

/// The `count` stored chunks that `data` holds from `at` on; `None`
/// where `data` ends too early.
#[verifier::rlimit(50)]
pub fn parse_chunks(data: &[u8], at: usize, count: usize) -> (parsed: Option<Vec<ChunkData>>)
    ensures
        match parsed_chunks(data@, at as int, count as nat) {
            Some(chunks) => parsed matches Some(v) && v@.map_values(
                |c: ChunkData| (c.pos, c.rle_data@),
            ) == chunks,
            None => parsed is None,
        },
{
    let mut chunks: Vec<ChunkData> = Vec::new();
    let mut cursor = at;
    let ghost all = parsed_chunks(data@, at as int, count as nat);
    let mut i: usize = 0;
    proof {
        match all {
            None => {},
            Some(rest) => {
                assert(chunks@.map_values(|c: ChunkData| (c.pos, c.rle_data@)) + rest =~= rest);
            },
        }
    }
    while i < count
        invariant
            i <= count,
            all == parsed_chunks(data@, at as int, count as nat),
            all == (match parsed_chunks(data@, cursor as int, (count - i) as nat) {
                None => None,
                Some(rest) => Some(chunks@.map_values(|c: ChunkData| (c.pos, c.rle_data@)) + rest),
            }),
        decreases count - i,
    {
        let ghost done = chunks@.map_values(|c: ChunkData| (c.pos, c.rle_data@));
        match parse_chunk(data, cursor) {
            None => {
                return None;
            },
            Some((chunk, next)) => {
                let ghost c = (chunk.pos, chunk.rle_data@);
                chunks.push(chunk);
                proof {
                    let now = chunks@.map_values(|c: ChunkData| (c.pos, c.rle_data@));
                    assert(now =~= done.push(c));
                    match parsed_chunks(data@, next as int, (count - i - 1) as nat) {
                        None => {},
                        Some(rest) => {
                            assert(done + (seq![c] + rest) =~= now + rest);
                        },
                    }
                }
                cursor = next;
            },
        }
        i = i + 1;
    }
    proof {
        let now = chunks@.map_values(|c: ChunkData| (c.pos, c.rle_data@));
        assert(now + Seq::empty() =~= now);
    }
    Some(chunks)
}

/// The payload of a project file, decompressed, or why there is none.
pub fn payload_of(data: &[u8]) -> (payload: Result<Vec<u8>, ProjectError>)
    ensures
        match file_payload(data@) {
            Ok(p) => payload matches Ok(v) && v@ == p,
            Err(e) => payload == Err::<Vec<u8>, ProjectError>(e),
        },
{
    let compressed = match unframe(data) {
        Ok(c) => c,
        Err(e) => {
            return Err(e);
        },
    };
    match gunzip(compressed.as_slice()) {
        None => Err(ProjectError::Io),
        Some(payload) => Ok(payload),
    }
}

/// The header that the payload `data` holds, or `Io` where `data` ends
/// before the header does. The chunks that follow are not looked at.
pub fn parse_header(data: &[u8]) -> (header: Result<Vec<u8>, ProjectError>)
    ensures
        match parsed_header(data@) {
            Some(h) => header matches Ok(v) && v@ == h,
            None => header == Err::<Vec<u8>, ProjectError>(ProjectError::Io),
        },
        parsed_payload(data@) matches Some(p) ==> parsed_header(data@) == Some(p.header),
{
    let header_len = match read_u32(data, 0) {
        Some(n) => n as usize,
        None => {
            return Err(ProjectError::Io);
        },
    };
    if !in_reach(data, 4, header_len) {
        return Err(ProjectError::Io);
    }
    Ok(copy_range(data, 4, 4 + header_len))
}

/// The project that the payload `data` holds, or `Io` where `data` ends
/// too early.
pub fn parse_payload(data: &[u8]) -> (project: Result<Project, ProjectError>)
    ensures
        match parsed_payload(data@) {
            Some(p) => project matches Ok(q) && q@ == p,
            None => project == Err::<Project, ProjectError>(ProjectError::Io),
        },
{
    let header_len = match read_u32(data, 0) {
        Some(n) => n as usize,
        None => {
            return Err(ProjectError::Io);
        },
    };
    if !in_reach(data, 4, header_len) {
        return Err(ProjectError::Io);
    }
    let header = copy_range(data, 4, 4 + header_len);
    let count = match read_u32(data, 4 + header_len) {
        Some(n) => n as usize,
        None => {
            return Err(ProjectError::Io);
        },
    };
    match parse_chunks(data, 8 + header_len, count) {
        Some(chunks) => Ok(Project { header, chunks }),
        None => Err(ProjectError::Io),
    }
}

impl Project {
    /// A project without a header and without chunks.
    pub fn new() -> (p: Project)
        ensures
            p@ == (ProjectState { header: Seq::empty(), chunks: Seq::empty() }),
    {
        let p = Project { header: Vec::new(), chunks: Vec::new() };
        assert(p@.chunks =~= Seq::empty());
        p
    }

    /// The project of a world: no header, and the encoding of every
    /// loaded chunk that is not empty, in no particular order.
    #[verifier::rlimit(50)]
    pub fn from_world(world: &World) -> (p: Project)
        requires
            world.wf(),
        ensures
            p@.header == Seq::<u8>::empty(),
            stores_world(p@.chunks, world@),
    {
        let loaded = world.chunks();
        let mut chunks: Vec<ChunkData> = Vec::new();
        let ghost mut src: Seq<int> = Seq::empty();
        let mut i: usize = 0;
        while i < loaded.len()
            invariant
                i <= loaded@.len(),
                forall|a: int, b: int|
                    0 <= a < loaded@.len() && 0 <= b < loaded@.len() && a != b ==> loaded@[a].0
                        != loaded@[b].0,
                forall|j: int|
                    0 <= j < loaded@.len() ==> {
                        &&& world@.chunks.contains_key((#[trigger] loaded@[j]).0)
                        &&& loaded@[j].1.state() == world@.chunks[loaded@[j].0]
                        &&& loaded@[j].1.wf()
                    },
                src.len() == chunks@.len(),
                forall|j: int|
                    0 <= j < src.len() ==> {
                        &&& 0 <= #[trigger] src[j] < i
                        &&& chunks@[j].pos == loaded@[src[j]].0
                        &&& !loaded@[src[j]].1.state().is_empty()
                        &&& rle_voxels(chunks@[j].rle_data@) == loaded@[src[j]].1@
                        &&& is_canonical_rle(chunks@[j].rle_data@)
                    },
                forall|a: int, b: int| 0 <= a < b < src.len() ==> src[a] < src[b],
                forall|n: int|
                    0 <= n < i && !(#[trigger] loaded@[n]).1.state().is_empty() ==> exists|j: int|
                        0 <= j < src.len() && src[j] == n,
            decreases loaded.len() - i,
        {
            let (pos, chunk) = loaded[i];
            if !chunk.is_empty() {
                let rle_data = rle_encode_chunk(chunk);
                chunks.push(ChunkData { pos, rle_data });
                proof {
                    let ghost before = src;
                    src = src.push(i as int);
                    assert forall|n: int|
                        0 <= n < i + 1 && !(#[trigger] loaded@[n]).1.state().is_empty() implies exists|
                        j: int,
                    |
                        0 <= j < src.len() && src[j] == n by {
                        if n < i {
                            let j = choose|j: int| 0 <= j < before.len() && before[j] == n;
                            assert(src[j] == n);
                        } else {
                            assert(src[src.len() - 1] == n);
                        }
                    }
                }
            }
            i = i + 1;
        }
        let p = Project { header: Vec::new(), chunks };
        proof {
            let stored = p@.chunks;
            assert forall|a: int, b: int|
                0 <= a < stored.len() && 0 <= b < stored.len() && a != b implies (
            #[trigger] stored[a]).0 != (#[trigger] stored[b]).0 by {
                if a < b {
                    assert(src[a] < src[b]);
                } else {
                    assert(src[b] < src[a]);
                }
            }
            assert forall|j: int| 0 <= j < stored.len() implies {
                &&& world@.chunks.contains_key((#[trigger] stored[j]).0)
                &&& !world@.chunks[stored[j].0].is_empty()
                &&& rle_voxels(stored[j].1) == world@.chunks[stored[j].0].voxels
                &&& is_canonical_rle(stored[j].1)
            } by {
                assert(world@.chunks.contains_key(loaded@[src[j]].0));
            }
            assert forall|q: ChunkPos|
                world@.chunks.contains_key(q) && !world@.chunks[q].is_empty() implies exists|j: int|
                0 <= j < stored.len() && (#[trigger] stored[j]).0 == q by {
                let n = choose|n: int| 0 <= n < loaded@.len() && (#[trigger] loaded@[n]).0 == q;
                let j = choose|j: int| 0 <= j < src.len() && src[j] == n;
                assert(stored[j].0 == q);
            }
        }
        p
    }

    /// The world of a project: unbounded, with every stored chunk decoded
    /// and loaded at its position. Where a position is stored twice, the
    /// later chunk stays.
    pub fn to_world(&self) -> (world: World)
        ensures
            world.wf(),
            world@ == (WorldState {
                chunks: decoded_chunks(self@.chunks),
                bounds: None,
                any_dirty: false,
            }),
    {
        let mut world = World::new();
        let ghost stored = self@.chunks;
        let mut i: usize = 0;
        while i < self.chunks.len()
            invariant
                i <= self.chunks@.len(),
                stored == self@.chunks,
                stored.len() == self.chunks@.len(),
                world.wf(),
                world@.bounds == None::<crate::world::WorldBounds>,
                !world@.any_dirty,
                world@.chunks == decoded_chunks(stored.take(i as int)),
            decreases self.chunks.len() - i,
        {
            let data = &self.chunks[i];
            proof {
                assert(stored[i as int] == (data.pos, data.rle_data@));
                assert(stored.take(i + 1).drop_last() =~= stored.take(i as int));
            }
            match rle_decode_chunk(data.rle_data.as_slice()) {
                Some(chunk) => {
                    let slot = world.get_or_create_chunk(data.pos);
                    *slot = chunk;
                },
                None => {},
            }
            i = i + 1;
        }
        proof {
            assert(stored.take(i as int) =~= stored);
        }
        world
    }

    /// The payload of the project, before compression.
    #[verifier::rlimit(50)]
    pub fn payload(&self) -> (out: Vec<u8>)
        ensures
            out@ == payload_bytes(self@),
    {
        let mut out: Vec<u8> = Vec::new();
        write_u32(&mut out, (self.header.len() as u64 % 0x1_0000_0000) as u32);
        write_range(&mut out, self.header.as_slice(), 0, self.header.len());
        write_u32(&mut out, (self.chunks.len() as u64 % 0x1_0000_0000) as u32);
        let ghost head = out@;
        let ghost chunks = self@.chunks;
        proof {
            assert(self.header@.subrange(0, self.header@.len() as int) =~= self.header@);
            assert(chunks.take(0) =~= Seq::empty());
            assert(out@ =~= head + chunks_bytes(chunks.take(0)));
        }
        let mut i: usize = 0;
        while i < self.chunks.len()
            invariant
                i <= self.chunks@.len(),
                chunks == self@.chunks,
                chunks.len() == self.chunks@.len(),
                head == u32_bytes(self@.header.len() as int % 0x1_0000_0000) + self@.header + u32_bytes(
                    self@.chunks.len() as int % 0x1_0000_0000,
                ),
                out@ == head + chunks_bytes(chunks.take(i as int)),
            decreases self.chunks.len() - i,
        {
            let chunk = &self.chunks[i];
            let ghost before = out@;
            write_i32(&mut out, chunk.pos.x);
            write_i32(&mut out, chunk.pos.y);
            write_i32(&mut out, chunk.pos.z);
            write_u32(&mut out, (chunk.rle_data.len() as u64 % 0x1_0000_0000) as u32);
            write_range(&mut out, chunk.rle_data.as_slice(), 0, chunk.rle_data.len());
            proof {
                let c = chunks[i as int];
                assert(c == (chunk.pos, chunk.rle_data@));
                assert(chunk.rle_data@.subrange(0, chunk.rle_data@.len() as int)
                    =~= chunk.rle_data@);
                assert(out@ =~= before + chunk_bytes(c));
                lemma_chunks_bytes_push(chunks.take(i as int), c);
                assert(chunks.take(i as int).push(c) =~= chunks.take(i + 1));
                assert(out@ =~= head + chunks_bytes(chunks.take(i + 1)));
            }
            i = i + 1;
        }
        proof {
            assert(chunks.take(i as int) =~= chunks);
        }
        out
    }

    /// The bytes of the project's file: the magic bytes, the version, and
    /// the payload, compressed. `Io` where the payload cannot be compressed.
    pub fn save(&self) -> (file: Result<Vec<u8>, ProjectError>)
        ensures
            match gzip_of(payload_bytes(self@)) {
                Some(z) => file matches Ok(f) && f@ == project_magic() + u32_bytes(1) + z,
                None => file == Err::<Vec<u8>, ProjectError>(ProjectError::Io),
            },
    {
        let payload = self.payload();
        match gzip(payload.as_slice()) {
            Some(compressed) => Ok(frame(compressed.as_slice())),
            None => Err(ProjectError::Io),
        }
    }

    /// The project that a file holds, or why there is none.
    pub fn load(data: &[u8]) -> (project: Result<Project, ProjectError>)
        ensures
            match loaded(data@) {
                Ok(p) => project matches Ok(q) && q@ == p,
                Err(e) => project == Err::<Project, ProjectError>(e),
            },
    {
        match payload_of(data) {
            Ok(payload) => parse_payload(payload.as_slice()),
            Err(e) => Err(e),
        }
    }
}

/// The bytes of stored chunks with one more are those of the chunks and
/// those of the one.
pub proof fn lemma_chunks_bytes_push(chunks: Seq<(ChunkPos, Seq<u8>)>, c: (ChunkPos, Seq<u8>))
    ensures
        chunks_bytes(chunks.push(c)) == chunks_bytes(chunks) + chunk_bytes(c),
{
    let f = |c: (ChunkPos, Seq<u8>)| chunk_bytes(c);
    assert(chunks.push(c).map_values(f) =~= chunks.map_values(f).push(chunk_bytes(c)));
    crate::bytes::lemma_joined_push(chunks.map_values(f), chunk_bytes(c));
}

impl Default for Project {
    fn default() -> (p: Project)
        ensures
            p@ == (ProjectState { header: Seq::empty(), chunks: Seq::empty() }),
    {
        Project::new()
    }
}

} // verus!
