use voxel_server::chunk::Chunk;
use voxel_server::meshing_chunk::MeshingChunk;
use voxel_server::voxel::Voxel;

fn full_chunk() -> Chunk {
    Chunk::generate(&|_x: usize, _y: usize, _z: usize| Voxel(1))
}

#[test]
fn empty_chunk_meshes_to_zero_quads() {
    let empty = Chunk::new();
    let mc = MeshingChunk::new([Some(&empty), None, None, None, None, None, None]);
    let buffers = mc.mesh();
    assert_eq!(buffers.quads.len(), 0);
    assert_eq!(buffers.positions.len(), 0);
    assert_eq!(buffers.indices.len(), 0);
}

#[test]
fn fully_occluded_chunk_meshes_to_zero_quads() {
    let center = full_chunk();
    let xp = full_chunk();
    let xn = full_chunk();
    let yp = full_chunk();
    let yn = full_chunk();
    let zp = full_chunk();
    let zn = full_chunk();
    let mc = MeshingChunk::new([
        Some(&center),
        Some(&xp),
        Some(&xn),
        Some(&yp),
        Some(&yn),
        Some(&zp),
        Some(&zn),
    ]);
    let buffers = mc.mesh();
    assert_eq!(buffers.quads.len(), 0);
}

#[test]
fn full_chunk_with_empty_neighbors_meshes_to_six_quads() {
    let center = full_chunk();
    let mc = MeshingChunk::new([Some(&center), None, None, None, None, None, None]);
    let buffers = mc.mesh();
    assert_eq!(buffers.quads.len(), 6);
    for q in &buffers.quads {
        assert_eq!(q.w, 32);
        assert_eq!(q.h, 32);
        assert_eq!(q.a, 0);
        assert_eq!(q.b, 0);
        assert_eq!(q.material, 1);
        assert!(q.u == 0 || q.u == 31);
    }
    assert_eq!(buffers.positions.len(), 24);
    assert_eq!(buffers.normals.len(), 24);
    assert_eq!(buffers.uvs.len(), 24);
    assert_eq!(buffers.indices.len(), 36);
}

#[test]
fn single_voxel_meshes_to_six_unit_quads() {
    let mut chunk = Chunk::new();
    chunk.put(0, 0, 0, Voxel(5));
    let mc = MeshingChunk::new([Some(&chunk), None, None, None, None, None, None]);
    let buffers = mc.mesh();
    assert_eq!(buffers.quads.len(), 6);
    for q in &buffers.quads {
        assert_eq!(q.w, 1);
        assert_eq!(q.h, 1);
        assert_eq!(q.u, 0);
        assert_eq!(q.material, 5);
    }
    // Two triangles per quad over its four vertices.
    for (k, _q) in buffers.quads.iter().enumerate() {
        let base = (4 * k) as u32;
        let tri = &buffers.indices[6 * k..6 * k + 6];
        assert_eq!(tri, &[base, base + 1, base + 2, base + 2, base + 1, base + 3]);
    }
    // The corner voxel's vertices all lie on the unit cube at the origin.
    for p in &buffers.positions {
        assert!(p.0 == 0 || p.0 == 1);
        assert!(p.1 == 0 || p.1 == 1);
        assert!(p.2 == 0 || p.2 == 1);
    }
}

#[test]
fn chunk_mesh_methods_delegate_to_the_mesher() {
    let center = full_chunk();
    // Alone, the solid cube shows its six outer faces.
    let alone = center.mesh();
    assert_eq!(alone.quads.len(), 6);
    // Boxed in on all six sides, every face is occluded.
    let xp = full_chunk();
    let xn = full_chunk();
    let yp = full_chunk();
    let yn = full_chunk();
    let zp = full_chunk();
    let zn = full_chunk();
    let boxed = center.mesh_with_borders([
        Some(&xp),
        Some(&xn),
        Some(&yp),
        Some(&yn),
        Some(&zp),
        Some(&zn),
    ]);
    assert_eq!(boxed.quads.len(), 0);
}

#[test]
fn neighbor_face_occludes_boundary_voxel() {
    let mut chunk = Chunk::new();
    chunk.put(31, 10, 10, Voxel(2));
    // Alone, the single voxel shows all six faces.
    let alone = MeshingChunk::new([Some(&chunk), None, None, None, None, None, None]);
    assert_eq!(alone.mesh().quads.len(), 6);
    // With a fully solid +x neighbor, the face on the chunk boundary is
    // occluded by the neighbor's adjacent face: border sampling sees it.
    let xp = full_chunk();
    let with_neighbor =
        MeshingChunk::new([Some(&chunk), Some(&xp), None, None, None, None, None]);
    assert_eq!(with_neighbor.mesh().quads.len(), 5);
}

#[test]
fn border_sampling_reads_the_adjacent_neighbor_faces() {
    let mut center = Chunk::new();
    center.put(3, 4, 5, Voxel(9));
    let mut xp = Chunk::new();
    xp.put(0, 4, 5, Voxel(7));
    let mut xn = Chunk::new();
    xn.put(31, 4, 5, Voxel(6));
    let mc = MeshingChunk::new([Some(&center), Some(&xp), Some(&xn), None, None, None, None]);
    // Interior samples sit at the cell plus the one-voxel border offset.
    assert_eq!(mc.get_sample(4, 5, 6), Voxel(9));
    // The +x neighbor's x = 0 face lands on the x = 33 border plane.
    assert_eq!(mc.get_sample(33, 5, 6), Voxel(7));
    // The -x neighbor's x = 31 face lands on the x = 0 border plane.
    assert_eq!(mc.get_sample(0, 5, 6), Voxel(6));
    // Border corners and edges sample as empty.
    assert_eq!(mc.get_sample(0, 0, 0), Voxel(0));
    assert_eq!(mc.get_sample(33, 33, 33), Voxel(0));
}

#[test]
fn same_material_faces_merge_into_one_quad() {
    // A flat 32 x 32 floor one voxel thick: its top face merges to a single
    // quad, as do its bottom and the four 32 x 1 sides.
    let floor = Chunk::generate(&|_x: usize, y: usize, _z: usize| {
        if y == 0 {
            Voxel(3)
        } else {
            Voxel(0)
        }
    });
    let mc = MeshingChunk::new([Some(&floor), None, None, None, None, None, None]);
    let buffers = mc.mesh();
    assert_eq!(buffers.quads.len(), 6);
    // Distinct materials do not merge: a two-material floor needs two top
    // quads (and two of everything else except the two outer sides).
    let striped = Chunk::generate(&|x: usize, y: usize, _z: usize| {
        if y == 0 {
            if x < 16 {
                Voxel(3)
            } else {
                Voxel(4)
            }
        } else {
            Voxel(0)
        }
    });
    let mc2 = MeshingChunk::new([Some(&striped), None, None, None, None, None, None]);
    let buffers2 = mc2.mesh();
    assert!(buffers2.quads.len() > 6);
    for q in &buffers2.quads {
        assert!(q.material == 3 || q.material == 4);
    }
}
