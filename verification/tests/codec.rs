use voxel_scan::objects::{Block, Coord};

#[test]
fn test_linearize_center_example() {
    // width 3: index 4 is the cube's center layer cell (1, 1, 0)
    assert_eq!(Block::linearize(3, Coord { x: 1, y: 1, z: 0 }), 4);
    assert_eq!(Block::delinearize(3, 4), Coord { x: 1, y: 1, z: 0 });
    // x varies fastest, then y, then z
    assert_eq!(Block::linearize(3, Coord { x: 2, y: 0, z: 0 }), 2);
    assert_eq!(Block::linearize(3, Coord { x: 0, y: 1, z: 0 }), 3);
    assert_eq!(Block::linearize(3, Coord { x: 0, y: 0, z: 1 }), 9);
    assert_eq!(Block::linearize(3, Coord { x: 2, y: 2, z: 2 }), 26);
}

#[test]
fn test_delinearize_then_linearize_is_identity() {
    for w in [3u16, 5, 7, 33] {
        let volume = (w as u32).pow(3) as u16;
        for i in 0..volume {
            let c = Block::delinearize(w, i);
            assert!(c.x < w && c.y < w && c.z < w);
            assert_eq!(Block::linearize(w, c), i);
        }
    }
}

#[test]
fn test_linearize_then_delinearize_is_identity() {
    let w = 5u16;
    for x in 0..w {
        for y in 0..w {
            for z in 0..w {
                let c = Coord { x, y, z };
                let i = Block::linearize(w, c);
                assert!(i < w * w * w);
                assert_eq!(Block::delinearize(w, i), c);
            }
        }
    }
}

#[test]
fn test_default_block_is_air() {
    let b = Block::default();
    assert_eq!(b.name, voxel_scan::objects::Identity::Air);
    assert_eq!(b.coord, Coord { x: 0, y: 0, z: 0 });
}

#[test]
fn test_new_grid_is_all_air_with_coords() {
    let r = voxel_scan::renderer::Renderer::new(5);
    assert_eq!(r.blocks.len(), 125);
    for (i, b) in r.blocks.iter().enumerate() {
        assert_eq!(b.name, voxel_scan::objects::Identity::Air);
        assert_eq!(b.coord, Block::delinearize(5, i as u16));
    }
}
