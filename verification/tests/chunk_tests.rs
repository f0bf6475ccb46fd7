use voxel_server::chunk::{delinearize, linearize, Chunk, ChunkPosition, CHUNK_VOLUME};
use voxel_server::voxel::Voxel;

#[test]
fn linearize_delinearize_are_inverses() {
    for &(x, y, z) in &[(0, 0, 0), (31, 31, 31), (1, 2, 3), (31, 0, 16), (0, 31, 1)] {
        let i = linearize(x, y, z);
        assert_eq!(delinearize(i), (x, y, z));
    }
    for &i in &[0usize, 1, 31, 32, 1023, 1024, 32767] {
        let (x, y, z) = delinearize(i);
        assert_eq!(linearize(x, y, z), i);
    }
    assert_eq!(linearize(1, 2, 3), 1 + 32 * 2 + 1024 * 3);
    assert!(linearize(31, 31, 31) == CHUNK_VOLUME - 1);
}

#[test]
fn chunk_put_then_get() {
    let mut chunk = Chunk::new();
    assert_eq!(chunk.get(5, 6, 7), Voxel(0));
    chunk.put(5, 6, 7, Voxel(3));
    assert_eq!(chunk.get(5, 6, 7), Voxel(3));
    assert_eq!(chunk.get(5, 6, 8), Voxel(0));
    assert_eq!(chunk.get(5, 7, 7), Voxel(0));
    assert_eq!(chunk.get(6, 6, 7), Voxel(0));
    chunk.put(5, 6, 7, Voxel(0));
    assert_eq!(chunk.get(5, 6, 7), Voxel(0));
}

#[test]
fn generate_samples_the_density_function() {
    let generator = |x: usize, y: usize, _z: usize| {
        if y < 5 || (x == 9 && y == 9) {
            Voxel(2)
        } else {
            Voxel(0)
        }
    };
    let chunk = Chunk::generate(&generator);
    for y in 0..32 {
        let expected = if y < 5 { Voxel(2) } else { Voxel(0) };
        assert_eq!(chunk.get(0, y, 0), expected);
        assert_eq!(chunk.get(31, y, 31), expected);
    }
    assert_eq!(chunk.get(9, 9, 9), Voxel(2));
    assert_eq!(chunk.get(9, 10, 9), Voxel(0));
}

#[test]
fn terrain_is_solid_below_and_air_above_the_surface_band() {
    let chunk = Chunk::generate_terrain();
    for x in 0..32 {
        for z in 0..32 {
            for y in 0..6 {
                assert_eq!(chunk.get(x, y, z), Voxel(1));
            }
            for y in 8..32 {
                assert_eq!(chunk.get(x, y, z), Voxel(0));
            }
            for y in 6..8 {
                let v = chunk.get(x, y, z);
                assert!(v == Voxel(0) || v == Voxel(1));
            }
        }
    }
}

#[test]
fn exceeds_bounds_is_any_axis_magnitude_over_the_bound() {
    let bounds = ChunkPosition { x: 2, y: 2, z: 2 };
    assert!(ChunkPosition { x: 3, y: 0, z: 0 }.exceeds_bounds(bounds));
    assert!(!ChunkPosition { x: 2, y: 2, z: 2 }.exceeds_bounds(bounds));
    assert!(!ChunkPosition { x: -2, y: -2, z: -2 }.exceeds_bounds(bounds));
    assert!(ChunkPosition { x: 0, y: -3, z: 0 }.exceeds_bounds(bounds));
    assert!(ChunkPosition { x: 0, y: 0, z: 7 }.exceeds_bounds(bounds));
    assert!(!ChunkPosition { x: 0, y: 0, z: 0 }.exceeds_bounds(bounds));
    let tight = ChunkPosition { x: 0, y: 0, z: 0 };
    assert!(!ChunkPosition { x: 0, y: 0, z: 0 }.exceeds_bounds(tight));
    assert!(ChunkPosition { x: 1, y: 0, z: 0 }.exceeds_bounds(tight));
}
