use voxelith::chunk::{Chunk, ChunkPos};
use voxelith::mesh::{ChunkMesh, Face, Mesher, NaiveMesher, Vertex, COLOR_SCALE, SHADE_SCALE};
use voxelith::project::{
    frame, parse_header, parse_payload, payload_of, rle_decode_chunk, rle_encode_chunk, unframe,
    write_rle_run, Project, ProjectError,
};
use voxelith::vox::{
    default_palette, export_vox, find_closest_color, import_vox, ChunkHeader, VoxError, VoxModel,
};
use voxelith::voxel::Voxel;
use voxelith::world::World;

#[test]
fn faces_offsets_and_order() {
    assert_eq!(Face::PosX.offset(), (1, 0, 0));
    assert_eq!(Face::NegX.offset(), (-1, 0, 0));
    assert_eq!(Face::PosY.offset(), (0, 1, 0));
    assert_eq!(Face::NegY.offset(), (0, -1, 0));
    assert_eq!(Face::PosZ.offset(), (0, 0, 1));
    assert_eq!(Face::NegZ.normal(), (0, 0, -1));
    assert_eq!(
        Face::all(),
        [Face::PosX, Face::NegX, Face::PosY, Face::NegY, Face::PosZ, Face::NegZ]
    );
}

#[test]
fn face_shading_scales_red_green_blue() {
    assert_eq!(NaiveMesher::apply_face_shading([255, 100, 0, 200], Face::PosY), (25500, 10000, 0, 20000));
    assert_eq!(NaiveMesher::apply_face_shading([255, 100, 0, 200], Face::PosX), (21675, 8500, 0, 20000));
    assert_eq!(NaiveMesher::apply_face_shading([255, 100, 0, 200], Face::NegZ), (21675, 8500, 0, 20000));
    assert_eq!(NaiveMesher::apply_face_shading([255, 100, 0, 200], Face::NegX), (19125, 7500, 0, 20000));
    assert_eq!(NaiveMesher::apply_face_shading([255, 100, 0, 200], Face::PosZ), (19125, 7500, 0, 20000));
    assert_eq!(NaiveMesher::apply_face_shading([255, 100, 0, 200], Face::NegY), (15300, 6000, 0, 20000));
    assert_eq!(COLOR_SCALE, 255 * SHADE_SCALE);
}

#[test]
fn face_vertices_lie_on_the_face() {
    let color = (1, 2, 3, 4);
    let quad = NaiveMesher::generate_face_vertices(10, 20, 30, Face::PosX, color);
    let positions: Vec<_> = quad.iter().map(|v| v.position).collect();
    assert_eq!(positions, vec![(11, 20, 30), (11, 20, 31), (11, 21, 31), (11, 21, 30)]);
    assert!(quad.iter().all(|v| v.normal == (1, 0, 0) && v.color == color));
    let quad = NaiveMesher::generate_face_vertices(0, 0, 0, Face::NegY, color);
    let positions: Vec<_> = quad.iter().map(|v| v.position).collect();
    assert_eq!(positions, vec![(0, 0, 1), (1, 0, 1), (1, 0, 0), (0, 0, 0)]);
    let quad = NaiveMesher::generate_face_vertices(-5, 0, 0, Face::NegZ, color);
    assert_eq!(quad[2].position, (-4, 1, 0));
    assert_eq!(quad[2].normal, (0, 0, -1));
}

#[test]
fn face_visibility_looks_at_the_neighbor() {
    let mut chunk = Chunk::new();
    chunk.set(1, 1, 1, Voxel::from_rgb(1, 1, 1));
    chunk.set(2, 1, 1, Voxel::from_rgb(1, 1, 1));
    assert!(!NaiveMesher::is_face_visible(&chunk, 1, 1, 1, Face::PosX));
    assert!(NaiveMesher::is_face_visible(&chunk, 1, 1, 1, Face::NegX));
    assert!(!NaiveMesher::is_face_visible(&chunk, 2, 1, 1, Face::NegX));
    assert!(NaiveMesher::is_face_visible(&chunk, 0, 0, 0, Face::NegY));
    assert!(NaiveMesher::is_face_visible(&chunk, 31, 31, 31, Face::PosZ));
}

#[test]
fn mesh_places_quads_in_the_world() {
    let mut chunk = Chunk::new();
    chunk.set(31, 0, 0, Voxel::from_rgba(255, 10, 0, 128));
    let mesh = NaiveMesher::new().generate(&chunk, ChunkPos::new(-1, 2, 0));
    assert_eq!(mesh.chunk_pos, ChunkPos::new(-1, 2, 0));
    assert_eq!(mesh.vertex_count(), 24);
    assert_eq!(mesh.triangle_count(), 12);
    assert_eq!(mesh.vertices[0].position, (0, 64, 0));
    assert_eq!(mesh.vertices[0].normal, (1, 0, 0));
    assert_eq!(mesh.vertices[0].color, (21675, 850, 0, 12800));
    assert_eq!(mesh.vertices[4].position, (-1, 64, 1));
    assert_eq!(mesh.vertices[8].color, (25500, 1000, 0, 12800));
    assert_eq!(&mesh.indices[0..6], &[0, 1, 2, 0, 2, 3]);
    assert_eq!(&mesh.indices[6..12], &[4, 5, 6, 4, 6, 7]);
    assert_eq!(mesh.index_bytes().len(), 4 * 36);
}

#[test]
fn mesh_of_voxels_on_the_edge_and_in_a_row() {
    let mut chunk = Chunk::new();
    chunk.set(0, 0, 0, Voxel::from_rgb(1, 1, 1));
    let mesh = NaiveMesher::default().generate(&chunk, ChunkPos::zero());
    assert_eq!(mesh.vertex_count(), 24);
    chunk.set(0, 1, 0, Voxel::from_rgb(1, 1, 1));
    chunk.set(0, 2, 0, Voxel::from_rgb(1, 1, 1));
    let mesh = NaiveMesher::new().generate(&chunk, ChunkPos::zero());
    assert_eq!(mesh.triangle_count(), 2 * (5 + 4 + 5));
    let full = Chunk::filled(Voxel::from_rgb(1, 1, 1));
    let mesh = NaiveMesher::new().generate(&full, ChunkPos::zero());
    assert_eq!(mesh.vertex_count(), 4 * 6 * 32 * 32);
}

#[test]
fn chunk_mesh_clear_and_capacity() {
    let mut mesh = ChunkMesh::with_capacity(ChunkPos::new(1, 2, 3), 8, 12);
    assert!(mesh.is_empty());
    assert_eq!(mesh.chunk_pos, ChunkPos::new(1, 2, 3));
    let v = Vertex::new((1, 2, 3), (0, 0, 1), (0, 0, 0, 0));
    mesh.add_quad([v, v, v, v]);
    mesh.add_quad([v, v, v, v]);
    assert_eq!(mesh.indices, vec![0, 1, 2, 0, 2, 3, 4, 5, 6, 4, 6, 7]);
    assert!(!mesh.is_empty());
    mesh.clear();
    assert!(mesh.is_empty());
    assert_eq!(mesh.triangle_count(), 0);
    assert_eq!(mesh.index_bytes().len(), 0);
}

#[test]
fn rle_runs_are_ten_bytes() {
    let mut buf = Vec::new();
    write_rle_run(&mut buf, Voxel { material: 0x0102, r: 3, g: 4, b: 5, a: 6, flags: 7, _reserved: 8 }, 0x0a0b);
    assert_eq!(buf, vec![0x0b, 0x0a, 0x02, 0x01, 3, 4, 5, 6, 7, 8]);
    let empty = rle_encode_chunk(&Chunk::new());
    assert_eq!(empty, vec![0x00, 0x80, 0, 0, 0, 0, 0, 0, 0, 0]);
    let full = rle_encode_chunk(&Chunk::filled(Voxel::from_rgb(1, 2, 3)));
    assert_eq!(full, vec![0x00, 0x80, 1, 0, 1, 2, 3, 255, 0, 0]);
}

#[test]
fn rle_round_trip_of_a_sparse_chunk() {
    let mut chunk = Chunk::new();
    let mut emissive = Voxel::new(300, 9, 8, 7);
    emissive.set_emissive(true);
    chunk.set(0, 0, 0, emissive);
    chunk.set(1, 0, 0, emissive);
    chunk.set(31, 31, 31, Voxel::from_rgba(1, 2, 3, 4));
    chunk.set(7, 7, 7, Voxel::from_rgb(50, 60, 70));
    let encoded = rle_encode_chunk(&chunk);
    assert_eq!(encoded.len(), 5 * 10);
    let decoded = rle_decode_chunk(&encoded).unwrap();
    assert_eq!(decoded.voxels(), chunk.voxels());
    assert_eq!(decoded.solid_count(), 4);
    assert!(decoded.is_dirty());
}

#[test]
fn rle_decoding_pads_and_clips() {
    let chunk = rle_decode_chunk(&[]).unwrap();
    assert!(chunk.is_empty());
    let mut data = Vec::new();
    write_rle_run(&mut data, Voxel { material: 0, r: 9, g: 9, b: 9, a: 9, flags: 0, _reserved: 0 }, 2);
    write_rle_run(&mut data, Voxel::from_rgb(1, 1, 1), 3);
    data.extend_from_slice(&[1, 2, 3]);
    let chunk = rle_decode_chunk(&data).unwrap();
    let tinted = Voxel { material: 0, r: 9, g: 9, b: 9, a: 9, flags: 0, _reserved: 0 };
    assert_eq!(chunk.get(0, 0, 0), tinted);
    assert_eq!(chunk.get(1, 0, 0), tinted);
    assert_eq!(chunk.get(2, 0, 0), Voxel::from_rgb(1, 1, 1));
    assert_eq!(chunk.get(4, 0, 0), Voxel::from_rgb(1, 1, 1));
    assert_eq!(chunk.get(5, 0, 0), Voxel::air());
    assert_eq!(chunk.solid_count(), 3);
    let mut long = Vec::new();
    write_rle_run(&mut long, Voxel::from_rgb(1, 1, 1), 65535);
    write_rle_run(&mut long, Voxel::from_rgb(2, 2, 2), 65535);
    let chunk = rle_decode_chunk(&long).unwrap();
    assert!(chunk.is_full());
    assert_eq!(chunk.get(31, 31, 31), Voxel::from_rgb(1, 1, 1));
}

#[test]
fn project_file_is_framed_and_compressed() {
    let mut world = World::new();
    world.set_voxel(0, 0, 0, Voxel::from_rgb(255, 0, 0));
    world.set_voxel(-40, 0, 0, Voxel::from_rgb(0, 255, 0));
    world.set_voxel(100, 100, 100, Voxel::air());
    let mut project = Project::from_world(&world);
    project.header = b"{\"name\":\"x\"}".to_vec();
    let payload = project.payload();
    assert_eq!(&payload[0..4], &[12, 0, 0, 0]);
    assert_eq!(&payload[4..16], b"{\"name\":\"x\"}");
    assert_eq!(&payload[16..20], &[2, 0, 0, 0]);
    let file = project.save().unwrap();
    assert_eq!(&file[0..8], &[b'V', b'X', b'L', b'T', 1, 0, 0, 0]);
    assert_eq!(&file[8..10], &[0x1f, 0x8b]);
    assert_ne!(&file[8..], payload.as_slice());
    let loaded = Project::load(&file).unwrap();
    assert_eq!(loaded.header, project.header);
    assert_eq!(loaded.payload(), payload);
    let back = loaded.to_world();
    assert_eq!(back.chunk_count(), 2);
    assert_eq!(back.get_voxel(-40, 0, 0), Voxel::from_rgb(0, 255, 0));
    assert!(!back.has_dirty_chunks() || back.dirty_chunks().len() == 2);
}

#[test]
fn project_errors() {
    assert_eq!(Project::load(&[]).err(), Some(ProjectError::Io));
    assert_eq!(Project::load(b"VXL").err(), Some(ProjectError::Io));
    assert_eq!(Project::load(b"VOXL1234").err(), Some(ProjectError::InvalidMagic));
    assert_eq!(Project::load(b"VXLT").err(), Some(ProjectError::Io));
    assert_eq!(
        Project::load(&[b'V', b'X', b'L', b'T', 2, 0, 0, 0, 1]).err(),
        Some(ProjectError::UnsupportedVersion(2))
    );
    assert_eq!(Project::load(&[b'V', b'X', b'L', b'T', 1, 0, 0, 0, 1, 2, 3]).err(), Some(ProjectError::Io));
    let payload = Project::new().payload();
    assert_eq!(payload, vec![0, 0, 0, 0, 0, 0, 0, 0]);
    assert_eq!(Project::load(&frame(&payload)).err(), Some(ProjectError::Io));
    assert_eq!(unframe(&frame(&[9, 9])).unwrap(), vec![9, 9]);
    assert_eq!(frame(&[7]), vec![b'V', b'X', b'L', b'T', 1, 0, 0, 0, 7]);
    assert!(parse_payload(&payload).is_ok());
    assert_eq!(parse_payload(&[1, 0, 0, 0]).err(), Some(ProjectError::Io));
    assert_eq!(parse_payload(&[0, 0, 0, 0, 1, 0, 0, 0]).err(), Some(ProjectError::Io));
    let version_zero = {
        let mut file = Project::new().save().unwrap();
        file[4] = 0;
        file
    };
    assert!(Project::load(&version_zero).is_ok());
}

#[test]
fn default_palette_values() {
    let p = default_palette();
    assert_eq!(p[0], [0, 0, 0, 0]);
    assert_eq!(p[1], [255, 255, 255, 255]);
    assert_eq!(p[9], [255, 128, 0, 255]);
    assert_eq!(p[13], [76, 153, 0, 255]);
    let idx: u8 = 14;
    assert_eq!(
        p[14],
        [
            (idx.wrapping_mul(37) ^ (idx >> 2)).wrapping_add(idx),
            (idx.wrapping_mul(73) ^ (idx >> 3)).wrapping_add(idx.wrapping_mul(2)),
            (idx.wrapping_mul(149) ^ (idx >> 1)).wrapping_add(idx.wrapping_mul(3)),
            255
        ]
    );
    assert_eq!(p[14], [19, 27, 75, 255]);
    assert_eq!(p[255][3], 255);
}

#[test]
fn closest_color_takes_the_least_nearest_index() {
    let mut p = [[0u8; 4]; 256];
    p[0] = [10, 10, 10, 255];
    p[7] = [10, 10, 12, 255];
    p[9] = [10, 12, 10, 255];
    assert_eq!(find_closest_color(&p, [10, 10, 10]), 7);
    assert_eq!(find_closest_color(&p, [10, 13, 10]), 9);
    assert_eq!(find_closest_color(&p, [0, 0, 0]), 1);
    assert_eq!(find_closest_color(&default_palette(), [250, 5, 5]), 2);
}

#[test]
fn vox_bytes_layout() {
    let mut model = VoxModel::new((2, 3, 4));
    model.voxels.push((1, 2, 3, 5));
    let data = model.write();
    assert_eq!(data.len(), 8 + 12 + 24 + 12 + 8 + 12 + 1024);
    assert_eq!(&data[0..8], &[b'V', b'O', b'X', b' ', 150, 0, 0, 0]);
    assert_eq!(&data[8..12], b"MAIN");
    assert_eq!(&data[12..20], &[0, 0, 0, 0, 0x38, 0x04, 0, 0]);
    assert_eq!(&data[20..24], b"SIZE");
    assert_eq!(&data[32..44], &[2, 0, 0, 0, 3, 0, 0, 0, 4, 0, 0, 0]);
    assert_eq!(&data[44..48], b"XYZI");
    assert_eq!(&data[48..52], &[8, 0, 0, 0]);
    assert_eq!(&data[56..64], &[1, 0, 0, 0, 1, 2, 3, 5]);
    assert_eq!(&data[64..68], b"RGBA");
    assert_eq!(&data[76..80], &[255, 255, 255, 255]);
    assert_eq!(&data[data.len() - 4..], &[0, 0, 0, 0]);
    let back = VoxModel::read(&data).unwrap();
    assert_eq!(back.size, (2, 3, 4));
    assert_eq!(back.voxels, vec![(1, 2, 3, 5)]);
    assert_eq!(back.palette[1..], model.palette[1..]);
    let world = back.to_world();
    assert_eq!(world.get_voxel(1, 2, 3), Voxel::from_rgba(255, 255, 0, 255));
}

#[test]
fn vox_read_errors() {
    assert_eq!(VoxModel::read(b"VO").err(), Some(VoxError::Io));
    assert_eq!(VoxModel::read(b"VOXL\x96\0\0\0").err(), Some(VoxError::InvalidMagic));
    assert_eq!(VoxModel::read(b"VOX \x96\0\0\0MAI").err(), Some(VoxError::Io));
    assert_eq!(
        VoxModel::read(b"VOX \x96\0\0\0PACK\0\0\0\0\0\0\0\0").err(),
        Some(VoxError::InvalidChunkId(*b"PACK"))
    );
    assert_eq!(
        VoxModel::read(b"VOX \x01\0\0\0MAIN\0\0\0\0\0\0\0\0").err(),
        Some(VoxError::NoVoxelData)
    );
    assert_eq!(
        VoxModel::read(b"VOX \x96\0\0\0MAIN\0\0\0\0\x0c\0\0\0SIZE").err(),
        Some(VoxError::Io)
    );
    assert_eq!(
        VoxModel::read(b"VOX \x96\0\0\0MAIN\0\0\0\0\x0c\0\0\0NOTE\xff\xff\xff\xff\0\0\0\0").err(),
        Some(VoxError::Io)
    );
    let ok = VoxModel::read(
        b"VOX \x96\0\0\0MAIN\0\0\0\0\x20\0\0\0NOTE\x02\0\0\0\0\0\0\0abSIZE\x0c\0\0\0\0\0\0\0\x01\0\0\0\x02\0\0\0\x03\0\0\0",
    )
    .unwrap();
    assert_eq!(ok.size, (1, 2, 3));
    assert!(ok.voxels.is_empty());
    assert_eq!(import_vox(b"nope").err(), Some(VoxError::InvalidMagic));
}

#[test]
fn chunk_header_bytes() {
    let h = ChunkHeader { id: *b"SIZE", content_size: 12, children_size: -1 };
    let mut buf = vec![9];
    h.write(&mut buf);
    assert_eq!(buf, vec![9, b'S', b'I', b'Z', b'E', 12, 0, 0, 0, 255, 255, 255, 255]);
    let back = ChunkHeader::read(&buf, 1).unwrap();
    assert_eq!((back.id, back.content_size, back.children_size), (*b"SIZE", 12, -1));
    assert_eq!(ChunkHeader::read(&buf, 2).err(), Some(VoxError::Io));
}

#[test]
fn vox_model_of_a_world() {
    let empty = VoxModel::from_world(&World::new()).unwrap();
    assert_eq!(empty.size, (1, 1, 1));
    assert!(empty.voxels.is_empty());

    let mut world = World::new();
    let red = Voxel::from_rgb(255, 0, 0);
    let teal = Voxel::from_rgb(1, 128, 129);
    world.set_voxel(-3, 40, 5, red);
    world.set_voxel(-1, 41, 5, teal);
    world.set_voxel(-1, 42, 5, red);
    let model = VoxModel::from_world(&world).unwrap();
    assert_eq!(model.size, (3, 3, 1));
    let mut voxels = model.voxels.clone();
    voxels.sort();
    assert_eq!(voxels.len(), 3);
    assert_eq!((voxels[0].0, voxels[0].1, voxels[0].2), (0, 0, 0));
    assert_eq!((voxels[1].0, voxels[1].1, voxels[1].2), (2, 1, 0));
    assert_eq!((voxels[2].0, voxels[2].1, voxels[2].2), (2, 2, 0));
    assert_eq!(voxels[0].3, voxels[2].3);
    assert_ne!(voxels[0].3, voxels[1].3);
    assert_eq!(model.palette[voxels[0].3 as usize], [255, 0, 0, 255]);
    assert_eq!(model.palette[voxels[1].3 as usize], [1, 128, 129, 255]);
    assert_eq!(model.palette[0], [0, 0, 0, 0]);

    world.set_voxel(253, 0, 0, red);
    assert_eq!(VoxModel::from_world(&world).err(), Some(VoxError::ModelTooLarge));
    assert_eq!(export_vox(&world).err(), Some(VoxError::ModelTooLarge));
    world.set_voxel(253, 0, 0, Voxel::air());
    world.set_voxel(252, 0, 5, red);
    assert_eq!(VoxModel::from_world(&world).unwrap().size, (256, 43, 1));
}

#[test]
fn vox_palette_overflow_uses_nearest_colors() {
    let mut world = World::new();
    for i in 0..=255u8 {
        world.set_voxel(i as i32, 0, 0, Voxel::from_rgb(i, 0, 0));
    }
    world.set_voxel(0, 1, 0, Voxel::from_rgb(0, 0, 0));
    let model = VoxModel::from_world(&world).unwrap();
    assert_eq!(model.voxels.len(), 257);
    assert!(model.voxels.iter().all(|v| v.3 >= 1));
    let exact = model
        .voxels
        .iter()
        .filter(|v| v.1 == 0 && model.palette[v.3 as usize] == [v.0, 0, 0, 255])
        .count();
    assert!(exact >= 254);
}

#[test]
fn rle_round_trip_keeps_the_color_of_air() {
    let mut chunk = Chunk::new();
    let tinted = Voxel { material: 0, r: 1, g: 2, b: 3, a: 4, flags: 5, _reserved: 6 };
    chunk.set(0, 0, 0, tinted);
    chunk.set(9, 9, 9, tinted);
    chunk.set(10, 9, 9, Voxel::from_rgb(7, 7, 7));
    chunk.set(31, 31, 31, tinted);
    let decoded = rle_decode_chunk(&rle_encode_chunk(&chunk)).unwrap();
    assert_eq!(decoded.voxels(), chunk.voxels());
    assert_eq!(decoded.get(9, 9, 9), tinted);
    assert_eq!(decoded.solid_count(), chunk.solid_count());
    assert_eq!(decoded.solid_count(), 1);

    let uniform = Chunk::filled(tinted);
    let back = rle_decode_chunk(&rle_encode_chunk(&uniform)).unwrap();
    assert_eq!(back.voxels(), uniform.voxels());
    assert!(back.is_empty());
}

#[test]
fn index_bytes_hold_the_indices_in_one_byte_order() {
    let mut mesh = ChunkMesh::new(ChunkPos::zero());
    let v = Vertex::new((0, 0, 0), (0, 1, 0), (0, 0, 0, 0));
    for _ in 0..70 {
        mesh.add_quad([v, v, v, v]);
    }
    let bytes = mesh.index_bytes();
    assert_eq!(bytes.len(), 4 * mesh.indices.len());
    let low: Vec<u8> = mesh.indices.iter().flat_map(|i| i.to_le_bytes()).collect();
    let high: Vec<u8> = mesh.indices.iter().flat_map(|i| i.to_be_bytes()).collect();
    assert!(bytes == low.as_slice() || bytes == high.as_slice());
    assert_eq!(mesh.indices[419], 279);
}

#[test]
fn project_header_is_read_before_the_chunks() {
    let mut world = World::new();
    world.set_voxel(1, 2, 3, Voxel::from_rgb(4, 5, 6));
    let mut project = Project::from_world(&world);
    project.header = b"not json".to_vec();
    let payload = project.payload();
    assert_eq!(parse_header(&payload).unwrap(), b"not json".to_vec());
    let cut = &payload[..payload.len() - 3];
    assert_eq!(parse_header(cut).unwrap(), b"not json".to_vec());
    assert_eq!(parse_payload(cut).err(), Some(ProjectError::Io));
    assert_eq!(parse_header(&payload[..7]).err(), Some(ProjectError::Io));
    assert_eq!(parse_header(&[]).err(), Some(ProjectError::Io));

    let file = project.save().unwrap();
    assert_eq!(payload_of(&file).unwrap(), payload);
    assert_eq!(payload_of(b"VXL").err(), Some(ProjectError::Io));
    assert_eq!(payload_of(b"VOXL1234").err(), Some(ProjectError::InvalidMagic));
    assert_eq!(
        payload_of(&[b'V', b'X', b'L', b'T', 9, 0, 0, 0]).err(),
        Some(ProjectError::UnsupportedVersion(9))
    );
    assert_eq!(payload_of(&frame(&payload)).err(), Some(ProjectError::Io));
}
