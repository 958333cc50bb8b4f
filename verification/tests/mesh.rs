use voxel_scan::protocol::Outcome;
use voxel_scan::renderer::{Renderer, Vertex};

#[test]
fn test_single_block_mesh_faces() {
    let mut r = Renderer::new(3);
    r.message_event(b"2[\"minecraft:stone\"][0,0,0,0,1,0,0,0,0,0,0,0,0,0,0,0,0,0,0,0,0,0,0,0,0,0,0]")
        .unwrap();
    let batches = r.mesh();
    let all: Vec<Vertex> = batches
        .iter()
        .flat_map(|b| b.vertices.iter().copied())
        .collect();
    // one block, all six faces visible: 6 quads of 4 vertices
    assert_eq!(all.len(), 24);
    // front face (+z) of the block at (1, 1, 0): corners at z = 1
    let front = &all[0..4];
    let ps: Vec<(u16, u16, u16, u8, u8)> =
        front.iter().map(|v| (v.x, v.y, v.z, v.u, v.v)).collect();
    assert_eq!(
        ps,
        vec![
            (1, 1, 1, 0, 0),
            (2, 1, 1, 1, 0),
            (2, 2, 1, 1, 1),
            (1, 2, 1, 0, 1),
        ]
    );
    // every vertex carries the block's colour
    let color = r.blocks[4].color;
    for v in &all {
        assert_eq!(v.color, color);
    }
    // index buffers follow the fixed winding per quad
    for b in &batches {
        assert_eq!(b.vertices.len() % 4, 0);
        let faces = b.vertices.len() / 4;
        assert_eq!(b.indices.len(), faces * 6);
        for f in 0..faces {
            let base = (4 * f) as u16;
            assert_eq!(
                &b.indices[6 * f..6 * f + 6],
                &[base, base + 1, base + 2, base, base + 2, base + 3]
            );
        }
    }
}

#[test]
fn test_boundary_faces_always_visible() {
    let mut r = Renderer::new(3);
    // two adjacent blocks along x at (0,0,0) and (1,0,0)
    r.message_event(b"2[\"minecraft:stone\"][1,1,0,0,0,0,0,0,0,0,0,0,0,0,0,0,0,0,0,0,0,0,0,0,0,0,0]")
        .unwrap();
    let a = r.blocks[0].clone();
    let b = r.blocks[1].clone();
    // the shared face is culled on both sides
    assert!(!r.quad_is_visible(4, &a)); // +x of a
    assert!(!r.quad_is_visible(5, &b)); // -x of b
    // the boundary faces are visible
    assert!(r.quad_is_visible(5, &a)); // -x of a: outside the cube
    assert!(r.quad_is_visible(1, &a)); // -z of a
    assert!(r.quad_is_visible(3, &a)); // -y of a
    // faces onto empty neighbours are visible
    assert!(r.quad_is_visible(0, &a));
    assert!(r.quad_is_visible(2, &a));
    assert!(r.quad_is_visible(4, &b));
}

#[test]
fn test_mesh_batching_matches_unbatched_reference() {
    // a width-17 checkerboard forces several batches
    let w: u16 = 17;
    let volume = (w as usize).pow(3);
    let mut msg = b"2[\"minecraft:stone\"][".to_vec();
    for i in 0..volume {
        if i > 0 {
            msg.push(b',');
        }
        let x = i % w as usize;
        let y = (i / w as usize) % w as usize;
        let z = i / (w as usize * w as usize);
        if (x + y + z) % 2 == 0 {
            msg.push(b'1');
        } else {
            msg.push(b'0');
        }
    }
    msg.push(b']');

    let mut r = Renderer::new(w);
    assert_eq!(r.message_event(&msg), Ok(Outcome::ScanApplied));
    let batches = r.mesh();
    assert!(batches.len() > 1);

    // every batch but the last is a genuine overflow flush
    for b in &batches[..batches.len() - 1] {
        assert!(b.vertices.len() > 9800 || b.indices.len() > 4800);
    }

    // no batch exceeds the draw ceilings, and each indexes whole quads
    for b in &batches {
        assert!(b.vertices.len() <= 9824);
        assert!(b.indices.len() <= 4836);
        assert_eq!(b.vertices.len() % 4, 0);
        let faces = b.vertices.len() / 4;
        assert_eq!(b.indices.len(), faces * 6);
        for f in 0..faces {
            let base = (4 * f) as u16;
            assert_eq!(
                &b.indices[6 * f..6 * f + 6],
                &[base, base + 1, base + 2, base, base + 2, base + 3]
            );
        }
    }

    // concatenating the batches reproduces the unbatched reference
    let batched: Vec<Vertex> = batches
        .iter()
        .flat_map(|b| b.vertices.iter().copied())
        .collect();
    let mut reference: Vec<Vertex> = Vec::new();
    for i in 0..volume {
        let block = r.blocks[i].clone();
        if block.name == voxel_scan::objects::Identity::Air {
            continue;
        }
        for q in 0..6usize {
            if r.quad_is_visible(q, &block) {
                reference.extend(Renderer::get_quad_data(q, &block));
            }
        }
    }
    assert_eq!(batched, reference);
}
