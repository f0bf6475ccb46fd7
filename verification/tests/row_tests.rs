use voxel_server::row::{Row, CHUNK_SIZE, HALF_SIZE};
use voxel_server::voxel::{Voxel, VoxelVisibility, EMPTY_MATERIAL, FULL_MATERIAL};

#[test]
fn fresh_row_is_compressed_single() {
    let row = Row::new(Voxel(7));
    assert!(row.is_compressed());
    assert_eq!(row.compress_value(), Voxel(7));
    assert_eq!(row.compress_mask(), 0xffff);
    for i in 0..CHUNK_SIZE {
        assert_eq!(row.get(i), Voxel(7));
    }
}

#[test]
fn distinct_write_promotes_and_preserves_others() {
    let mut row = Row::new(Voxel(3));
    row.put(10, Voxel(9));
    assert!(!row.is_compressed());
    assert_eq!(row.compress_mask(), 0);
    assert_eq!(row.get(10), Voxel(9));
    for i in 0..CHUNK_SIZE {
        if i != 10 {
            assert_eq!(row.get(i), Voxel(3));
        }
    }
}

#[test]
fn get_returns_most_recent_write_through_promotions() {
    let mut row = Row::default();
    row.put(0, Voxel(1));
    assert_eq!(row.get(0), Voxel(1));
    row.put(0, Voxel(2));
    assert_eq!(row.get(0), Voxel(2));
    row.put(31, Voxel(5));
    assert_eq!(row.get(31), Voxel(5));
    assert_eq!(row.get(0), Voxel(2));
    row.put(15, Voxel(4));
    assert_eq!(row.get(15), Voxel(4));
    assert_eq!(row.get(0), Voxel(2));
    assert_eq!(row.get(31), Voxel(5));
    for i in 0..CHUNK_SIZE {
        if i != 0 && i != 15 && i != 31 {
            assert_eq!(row.get(i), Voxel(0));
        }
    }
}

#[test]
fn uniform_rewrite_restores_compression() {
    let mut row = Row::new(Voxel(0));
    row.put(4, Voxel(8));
    assert!(!row.is_compressed());
    row.put(4, Voxel(0));
    assert!(row.is_compressed());
    assert_eq!(row.compress_value(), Voxel(0));
}

#[test]
fn two_uniform_halves_compress_as_half_row() {
    let mut vals = Vec::new();
    for i in 0..CHUNK_SIZE {
        if i < HALF_SIZE {
            vals.push(Voxel(1));
        } else {
            vals.push(Voxel(2));
        }
    }
    let row = Row::from_values(vals);
    assert!(row.is_compressed());
    assert_eq!(row.compress_value(), Voxel(1));
    assert_eq!(row.compress_mask(), 0x00ff);
    for i in 0..CHUNK_SIZE {
        let expected = if i < HALF_SIZE { Voxel(1) } else { Voxel(2) };
        assert_eq!(row.get(i), expected);
    }
}

#[test]
fn writing_the_half_boundary_builds_half_row() {
    let mut row = Row::new(Voxel(1));
    for i in HALF_SIZE..CHUNK_SIZE {
        row.put(i, Voxel(2));
    }
    assert!(row.is_compressed());
    assert_eq!(row.compress_value(), Voxel(1));
    assert_eq!(row.compress_mask(), 0x00ff);
}

#[test]
fn to_values_round_trips() {
    let mut row = Row::new(Voxel(6));
    row.put(3, Voxel(1));
    row.put(17, Voxel(2));
    let vals = row.to_values();
    assert_eq!(vals.len(), CHUNK_SIZE);
    let rebuilt = Row::from_values(vals);
    for i in 0..CHUNK_SIZE {
        assert_eq!(rebuilt.get(i), row.get(i));
    }
}

#[test]
fn voxel_visibility_and_merge_value() {
    let empty = Voxel::empty();
    let full = Voxel::full();
    assert_eq!(empty.0, EMPTY_MATERIAL);
    assert_eq!(full.0, FULL_MATERIAL);
    assert_eq!(empty.get_visibility(), VoxelVisibility::Empty);
    assert_eq!(full.get_visibility(), VoxelVisibility::Opaque);
    assert_eq!(Voxel(42).get_visibility(), VoxelVisibility::Opaque);
    assert_eq!(Voxel(42).merge_value(), Voxel(42));
    assert_eq!(Voxel::default(), Voxel(0));
}
