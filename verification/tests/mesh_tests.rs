use voxelith::chunk::{Chunk, ChunkPos};
use voxelith::mesh::{ChunkMesh, Mesher, NaiveMesher, Vertex};
use voxelith::voxel::Voxel;

#[test]
fn test_empty_chunk_mesh() {
    let chunk = Chunk::new();
    let mesher = NaiveMesher::new();
    let mesh = mesher.generate(&chunk, ChunkPos::zero());

    assert!(mesh.is_empty());
}

#[test]
fn test_single_voxel_mesh() {
    let mut chunk = Chunk::new();
    chunk.set(1, 1, 1, Voxel::from_rgb(255, 0, 0));

    let mesher = NaiveMesher::new();
    let mesh = mesher.generate(&chunk, ChunkPos::zero());

    assert_eq!(mesh.triangle_count(), 12);
    assert_eq!(mesh.vertex_count(), 24);
}

#[test]
fn test_two_adjacent_voxels() {
    let mut chunk = Chunk::new();
    chunk.set(1, 1, 1, Voxel::from_rgb(255, 0, 0));
    chunk.set(2, 1, 1, Voxel::from_rgb(0, 255, 0));

    let mesher = NaiveMesher::new();
    let mesh = mesher.generate(&chunk, ChunkPos::zero());

    assert_eq!(mesh.triangle_count(), 20);
}

#[test]
fn test_chunk_mesh_quad() {
    let mut mesh = ChunkMesh::new(ChunkPos::zero());

    let v = Vertex::new((0, 0, 0), (0, 1, 0), (25500, 25500, 25500, 25500));
    mesh.add_quad([v, v, v, v]);

    assert_eq!(mesh.vertex_count(), 4);
    assert_eq!(mesh.triangle_count(), 2);
    assert_eq!(mesh.indices.len(), 6);
}
