use voxel_scan::picker::Vec3Fixed;
use voxel_scan::renderer::Renderer;

#[test]
fn test_pick_on_empty_grid_misses() {
    let r = Renderer::new(5);
    let origin = Vec3Fixed {
        x: 2500,
        y: 2500,
        z: 2500,
    };
    let dirs = [
        Vec3Fixed { x: 1000, y: 0, z: 0 },
        Vec3Fixed { x: 0, y: -1000, z: 0 },
        Vec3Fixed { x: 577, y: 577, z: 577 },
        Vec3Fixed { x: 0, y: 0, z: 0 },
    ];
    for d in dirs {
        assert_eq!(r.ray_march(origin, d), None);
    }
}

#[test]
fn test_closest_block_distance() {
    let mut r = Renderer::new(3);
    r.message_event(b"2[\"minecraft:stone\"][0,0,0,0,1,0,0,0,0,0,0,0,0,0,0,0,0,0,0,0,0,0,0,0,0,0,0]")
        .unwrap();
    // the lone block sits at (1,1,0); its centre is (1500,1500,500).
    // From (1500,1500,2500) the box-metric distance is 2000 - 500 = 1500.
    let p = Vec3Fixed {
        x: 1500,
        y: 1500,
        z: 2500,
    };
    assert_eq!(r.get_closest_block(p), Some((1500, 4)));
    // on an empty grid there is no closest block
    let empty = Renderer::new(3);
    assert_eq!(empty.get_closest_block(p), None);
}

#[test]
fn test_ray_hits_center_block() {
    let mut r = Renderer::new(3);
    r.message_event(b"2[\"minecraft:stone\"][0,0,0,0,1,0,0,0,0,0,0,0,0,0,0,0,0,0,0,0,0,0,0,0,0,0,0]")
        .unwrap();
    // from far along +z, aimed straight down the -z axis at the block's centre
    let origin = Vec3Fixed {
        x: 1500,
        y: 1500,
        z: 50_000,
    };
    let towards = Vec3Fixed { x: 0, y: 0, z: -1000 };
    assert_eq!(r.ray_march(origin, towards), Some(b"minecraft:stone".to_vec()));
    // aimed the other way it reports no hit within the maximum range
    let away = Vec3Fixed { x: 0, y: 0, z: 1000 };
    assert_eq!(r.ray_march(origin, away), None);
}
