use voxel_server::chunk::{Chunk, ChunkPosition};
use voxel_server::directions::Directions;
use voxel_server::map::{ChunkSlot, MeshHandle, VoxelMap, VoxelMapSettings};
use voxel_server::material::{MaterialColor, VoxelMaterial, VoxelMaterialRegistry};
use voxel_server::voxel::Voxel;
use voxel_server::world::World;

fn small_settings() -> VoxelMapSettings {
    VoxelMapSettings { bounds: ChunkPosition { x: 4, y: 4, z: 4 } }
}

fn flat_generator(_x: usize, y: usize, _z: usize) -> Voxel {
    if y < 4 {
        Voxel(1)
    } else {
        Voxel(0)
    }
}

#[test]
fn world_generation_succeeds() {
    World::generate([4, 4, 4]);
}

#[test]
fn directions_enumerate_center_then_faces() {
    let all = Directions::all();
    assert_eq!(all.len(), 7);
    assert_eq!(all[0].to_vector(), ChunkPosition { x: 0, y: 0, z: 0 });
    assert_eq!(all[1].to_vector(), ChunkPosition { x: 1, y: 0, z: 0 });
    assert_eq!(all[2].to_vector(), ChunkPosition { x: -1, y: 0, z: 0 });
    assert_eq!(all[3].to_vector(), ChunkPosition { x: 0, y: 1, z: 0 });
    assert_eq!(all[4].to_vector(), ChunkPosition { x: 0, y: -1, z: 0 });
    assert_eq!(all[5].to_vector(), ChunkPosition { x: 0, y: 0, z: 1 });
    assert_eq!(all[6].to_vector(), ChunkPosition { x: 0, y: 0, z: -1 });
}

#[test]
fn position_conversions_round_trip() {
    for &(x, y, z) in &[(0, 0, 0), (1, 2, 3), (-1, -2, -3), (-500, 20, 499)] {
        let c = ChunkPosition { x, y, z };
        let p = World::world_position(c);
        assert_eq!(p, (32 * x as i64, 32 * y as i64, 32 * z as i64));
        assert_eq!(World::chunk_pos(p), c);
    }
    // chunk_pos floors: every position of a chunk maps to that chunk.
    assert_eq!(World::chunk_pos((0, 0, 0)), ChunkPosition { x: 0, y: 0, z: 0 });
    assert_eq!(World::chunk_pos((31, 31, 31)), ChunkPosition { x: 0, y: 0, z: 0 });
    assert_eq!(World::chunk_pos((32, 0, 0)), ChunkPosition { x: 1, y: 0, z: 0 });
    assert_eq!(World::chunk_pos((-1, -32, -33)), ChunkPosition { x: -1, y: -1, z: -2 });
}

#[test]
fn map_rejects_out_of_bounds_and_creates_unloaded_slots() {
    let mut map = VoxelMap::new(small_settings());
    let inside = ChunkPosition { x: 4, y: -4, z: 0 };
    let outside = ChunkPosition { x: 5, y: 0, z: 0 };
    assert!(map.get_or_create_slot(outside).is_none());
    assert!(map.get_slot(outside).is_none());
    match map.get_or_create_slot(inside) {
        Some(ChunkSlot::Unloaded) => {}
        _ => panic!("expected a fresh Unloaded slot"),
    }
    assert_eq!(map.loaded_count(), 1);
    assert_eq!(map.loaded_at(0), inside);
    assert!(map.get_chunk(inside).is_none());
    assert!(map.get_chunk(outside).is_none());
}

#[test]
fn map_default_bounds_are_wide_and_flat() {
    let map = VoxelMap::default();
    assert!(map.get_slot(ChunkPosition { x: 500, y: 20, z: -500 }).is_none());
    assert!(!ChunkPosition { x: 500, y: 20, z: -500 }
        .exceeds_bounds(ChunkPosition { x: 500, y: 20, z: 500 }));
    let mut map = map;
    assert!(map.get_or_create_slot(ChunkPosition { x: 501, y: 0, z: 0 }).is_none());
    assert!(map.get_or_create_slot(ChunkPosition { x: 0, y: 21, z: 0 }).is_none());
    assert!(map.get_or_create_slot(ChunkPosition { x: -500, y: -20, z: 500 }).is_some());
}

#[test]
fn request_twice_dispatches_once() {
    let mut world = World::new(small_settings());
    let c = ChunkPosition { x: 0, y: 0, z: 0 };
    assert!(world.request_chunk(c));
    assert!(!world.request_chunk(c));
    assert!(!world.request_chunk(c));
    // Out-of-bounds requests are silently skipped.
    assert!(!world.request_chunk(ChunkPosition { x: 99, y: 0, z: 0 }));
}

#[test]
fn generation_results_apply_once_and_stale_results_are_discarded() {
    let mut world = World::new(small_settings());
    let c = ChunkPosition { x: 1, y: 0, z: 0 };
    let chunk = Chunk::generate(&flat_generator);
    // A result nobody asked for is discarded.
    assert!(!world.apply_generated(c, Chunk::new()));
    assert!(world.request_chunk(c));
    let accepted = world.apply_generated(c, chunk);
    assert!(accepted);
    assert!(world.map.get_chunk(c).is_some());
    // A second, stale completion for the same coordinate is discarded.
    assert!(!world.apply_generated(c, Chunk::new()));
}

#[test]
fn meshing_waits_for_generating_neighbors() {
    let mut world = World::new(small_settings());
    let c = ChunkPosition { x: 0, y: 0, z: 0 };
    let right = ChunkPosition { x: 1, y: 0, z: 0 };
    assert!(world.request_chunk(c));
    assert!(world.apply_generated(c, Chunk::generate(&flat_generator)));
    // A neighbor that is mid-generation blocks meshing.
    assert!(world.request_chunk(right));
    assert!(world.request_mesh(c).is_none());
    // Once the neighbor's chunk arrives, meshing dispatches.
    assert!(world.apply_generated(right, Chunk::generate(&flat_generator)));
    let mc = world.request_mesh(c);
    assert!(mc.is_some());
    // And only once: the coordinate now has a meshing task outstanding.
    assert!(world.request_mesh(c).is_none());
    let buffers = mc.unwrap().mesh();
    assert!(buffers.quads.len() > 0);
    assert!(world.apply_meshed(c, MeshHandle(11)));
    assert!(!world.apply_meshed(c, MeshHandle(12)));
    match world.map.get_slot(c) {
        Some(ChunkSlot::Meshed(_, handle)) => assert_eq!(*handle, MeshHandle(11)),
        _ => panic!("expected a meshed slot"),
    }
}

#[test]
fn despawn_frees_the_slot_and_returns_the_mesh_handle() {
    let mut world = World::new(small_settings());
    let c = ChunkPosition { x: 0, y: 1, z: 0 };
    assert!(world.request_chunk(c));
    assert!(world.apply_generated(c, Chunk::generate(&flat_generator)));
    assert!(world.request_mesh(c).is_some());
    assert!(world.apply_meshed(c, MeshHandle(77)));
    assert_eq!(world.despawn(c), Some(MeshHandle(77)));
    match world.map.get_slot(c) {
        Some(_) => panic!("despawned slot should be gone"),
        None => {}
    }
    // Despawning an unloaded coordinate frees no mesh.
    assert_eq!(world.despawn(c), None);
}

#[test]
fn despawn_respawn_regenerates_equal_content() {
    let mut world = World::new(small_settings());
    let c = ChunkPosition { x: 2, y: 0, z: 2 };
    assert!(world.request_chunk(c));
    assert!(world.apply_generated(c, Chunk::generate(&flat_generator)));
    assert!(world.request_mesh(c).is_some());
    assert!(world.apply_meshed(c, MeshHandle(1)));
    let first: Vec<Voxel> = {
        let chunk = world.map.get_chunk(c).unwrap();
        let mut v = Vec::new();
        for z in 0..32 {
            for y in 0..32 {
                for x in 0..32 {
                    v.push(chunk.get(x, y, z));
                }
            }
        }
        v
    };
    assert_eq!(world.despawn(c), Some(MeshHandle(1)));
    // Re-request: the deterministic generator reproduces the content.
    assert!(world.request_chunk(c));
    assert!(world.apply_generated(c, Chunk::generate(&flat_generator)));
    let chunk = world.map.get_chunk(c).unwrap();
    let mut i = 0;
    for z in 0..32 {
        for y in 0..32 {
            for x in 0..32 {
                assert_eq!(chunk.get(x, y, z), first[i]);
                i += 1;
            }
        }
    }
}

#[test]
fn tick_spawn_requests_the_view_cube_once() {
    let mut world = World::new(small_settings());
    let observer = ChunkPosition { x: 0, y: 0, z: 0 };
    let dispatched = world.tick_spawn(observer, 1);
    // The half-open cube [-1, 1) on each axis: eight coordinates.
    assert_eq!(dispatched.len(), 8);
    for c in &dispatched {
        assert!(-1 <= c.x && c.x < 1);
        assert!(-1 <= c.y && c.y < 1);
        assert!(-1 <= c.z && c.z < 1);
    }
    // Requesting the same cube again dispatches nothing new.
    let again = world.tick_spawn(observer, 1);
    assert_eq!(again.len(), 0);
    // A zero view distance asks for nothing.
    let mut empty_world = World::new(small_settings());
    assert_eq!(empty_world.tick_spawn(observer, 0).len(), 0);
}

#[test]
fn tick_despawn_unloads_everything_out_of_view() {
    let mut world = World::new(small_settings());
    let observer = ChunkPosition { x: 0, y: 0, z: 0 };
    let dispatched = world.tick_spawn(observer, 1);
    assert_eq!(dispatched.len(), 8);
    for pos in &dispatched {
        assert!(world.apply_generated(*pos, Chunk::generate(&flat_generator)));
    }
    let c = ChunkPosition { x: 0, y: 0, z: 0 };
    assert!(world.request_mesh(c).is_some());
    assert!(world.apply_meshed(c, MeshHandle(5)));
    // The observer moves far away: everything falls out of view.
    let far = ChunkPosition { x: 4, y: 4, z: 4 };
    let removed = world.tick_despawn(far, 1);
    assert_eq!(removed.len(), 8);
    let mut meshed_removals = 0;
    for (pos, handle) in &removed {
        if *pos == c {
            assert_eq!(*handle, Some(MeshHandle(5)));
            meshed_removals += 1;
        } else {
            assert_eq!(*handle, None);
        }
    }
    assert_eq!(meshed_removals, 1);
    assert_eq!(world.map.loaded_count(), 0);
    // Chunks still in view stay put.
    let mut world2 = World::new(small_settings());
    world2.tick_spawn(observer, 1);
    let kept = world2.tick_despawn(observer, 1);
    assert_eq!(kept.len(), 0);
    assert_eq!(world2.map.loaded_count(), 8);
}

#[test]
fn world_generate_fills_the_box_with_terrain() {
    let world = World::generate([2, 1, 2]);
    for x in 0..2 {
        for z in 0..2 {
            let c = ChunkPosition { x, y: 0, z };
            let chunk = world.map.get_chunk(c).expect("generated chunk");
            assert_eq!(chunk.get(0, 0, 0), Voxel(1));
            assert_eq!(chunk.get(31, 31, 31), Voxel(0));
        }
    }
}

#[test]
fn material_registry_assigns_sequential_ids() {
    let mut registry = VoxelMaterialRegistry::default();
    assert_eq!(registry.iter().len(), 1);
    assert_eq!(registry.get(0).unwrap().get_name().as_str(), "Void");
    let stone = VoxelMaterial {
        name: "Stone".to_string(),
        color: MaterialColor { red: 128, green: 128, blue: 128, alpha: 255 },
    };
    let id = registry.register(stone);
    assert_eq!(id, 1);
    let m = registry.get(1).unwrap();
    assert_eq!(m.get_name().as_str(), "Stone");
    assert_eq!(m.get_color(), MaterialColor { red: 128, green: 128, blue: 128, alpha: 255 });
    assert!(registry.get(2).is_none());
    assert_eq!(registry.iter().len(), 2);
}
