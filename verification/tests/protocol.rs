use voxel_scan::objects::{Coord, Identity};
use voxel_scan::protocol::{Outcome, ProtocolError};
use voxel_scan::renderer::Renderer;

fn stone_report() -> Vec<u8> {
    // 27 slots for width 3; index 4 = (1,1,0) holds the one block
    b"2[\"minecraft:stone\"][0,0,0,0,1,0,0,0,0,0,0,0,0,0,0,0,0,0,0,0,0,0,0,0,0,0,0]".to_vec()
}

#[test]
fn test_scan_report_center_stone() {
    let mut r = Renderer::new(3);
    let outcome = r.message_event(&stone_report());
    assert_eq!(outcome, Ok(Outcome::ScanApplied));
    for i in 0..27usize {
        let b = &r.blocks[i];
        if i == 4 {
            assert_eq!(b.name, Identity::Named(b"minecraft:stone".to_vec()));
            assert_eq!(b.coord, Coord { x: 1, y: 1, z: 0 });
        } else {
            assert_eq!(b.name, Identity::Air);
        }
    }
    // all six faces of the lone block are visible
    let b = r.blocks[4].clone();
    for q in 0..6usize {
        assert!(r.quad_is_visible(q, &b));
    }
}

#[test]
fn test_color_derived_from_md5() {
    let mut r = Renderer::new(3);
    r.message_event(&stone_report()).unwrap();
    let digest = md5::compute(b"minecraft:stone").0;
    let c = r.blocks[4].color;
    assert_eq!((c.r, c.g, c.b), (digest[0], digest[1], digest[2]));
}

#[test]
fn test_block_color_function() {
    let digest = md5::compute(b"minecraft:dirt").0;
    let c = voxel_scan::color::block_color(b"minecraft:dirt");
    assert_eq!((c.r, c.g, c.b), (digest[0], digest[1], digest[2]));
}

#[test]
fn test_ack_and_failure_and_unknown() {
    let mut r = Renderer::new(3);
    assert_eq!(r.message_event(b"0"), Ok(Outcome::Ack));
    assert_eq!(r.message_event(b"0whatever"), Ok(Outcome::Ack));
    assert_eq!(
        r.message_event(b"1no such command"),
        Ok(Outcome::CommandFailed(b"no such command".to_vec()))
    );
    assert_eq!(r.message_event(b"7stuff"), Ok(Outcome::Unknown(b'7')));
    assert_eq!(r.message_event(b""), Err(ProtocolError::Empty));
    // none of these touched the grid
    for b in &r.blocks {
        assert_eq!(b.name, Identity::Air);
    }
}

#[test]
fn test_short_slot_list_rejected() {
    let mut r = Renderer::new(3);
    r.message_event(&stone_report()).unwrap();
    let before = r.blocks.clone();
    // 26 slots: one short of 3^3
    let mut msg = b"2[\"minecraft:dirt\"][1".to_vec();
    for _ in 0..25 {
        msg.extend_from_slice(b",0");
    }
    msg.push(b']');
    assert_eq!(r.message_event(&msg), Err(ProtocolError::CountMismatch));
    assert_eq!(r.blocks, before);
}

#[test]
fn test_missing_boundary_rejected() {
    let mut r = Renderer::new(3);
    assert_eq!(
        r.message_event(b"2[\"minecraft:stone\"]"),
        Err(ProtocolError::Malformed)
    );
    assert_eq!(r.message_event(b"2"), Err(ProtocolError::Malformed));
    assert_eq!(r.message_event(b"2[]["), Err(ProtocolError::Malformed));
    for b in &r.blocks {
        assert_eq!(b.name, Identity::Air);
    }
}

#[test]
fn test_non_numeric_slot_rejected() {
    let mut r = Renderer::new(3);
    let mut msg = b"2[\"minecraft:stone\"][x".to_vec();
    for _ in 0..26 {
        msg.extend_from_slice(b",0");
    }
    msg.push(b']');
    assert_eq!(r.message_event(&msg), Err(ProtocolError::NonNumericSlot));
    // an empty slot entry is non-numeric too
    assert_eq!(
        r.message_event(b"2[\"minecraft:stone\"][]"),
        Err(ProtocolError::NonNumericSlot)
    );
    // a value beyond 65535 is out of range
    let mut big = b"2[\"minecraft:stone\"][65536".to_vec();
    for _ in 0..26 {
        big.extend_from_slice(b",0");
    }
    big.push(b']');
    assert_eq!(r.message_event(&big), Err(ProtocolError::NonNumericSlot));
}

#[test]
fn test_dangling_reference_rejected() {
    let mut r = Renderer::new(3);
    let mut msg = b"2[\"minecraft:stone\"][2".to_vec();
    for _ in 0..26 {
        msg.extend_from_slice(b",0");
    }
    msg.push(b']');
    assert_eq!(r.message_event(&msg), Err(ProtocolError::DanglingReference));
    for b in &r.blocks {
        assert_eq!(b.name, Identity::Air);
    }
}

#[test]
fn test_encode_exact_wire_image() {
    let mut r = Renderer::new(3);
    r.message_event(&stone_report()).unwrap();
    assert_eq!(r.encode_report(), stone_report());
}

#[test]
fn test_decode_encode_decode_round_trip() {
    let mut msg = b"2[\"minecraft:stone\",\"minecraft:dirt\"][".to_vec();
    for i in 0..27u32 {
        if i > 0 {
            msg.push(b',');
        }
        let slot = match i % 3 {
            0 => b'0',
            1 => b'1',
            _ => b'2',
        };
        msg.push(slot);
    }
    msg.push(b']');

    let mut first = Renderer::new(3);
    assert_eq!(first.message_event(&msg), Ok(Outcome::ScanApplied));
    let reencoded = first.encode_report();
    let mut second = Renderer::new(3);
    assert_eq!(second.message_event(&reencoded), Ok(Outcome::ScanApplied));
    assert_eq!(first.blocks, second.blocks);
}

#[test]
fn test_air_slot_keeps_stale_color_but_empties_cell() {
    let mut r = Renderer::new(3);
    r.message_event(&stone_report()).unwrap();
    // a second scan with everything air
    let mut msg = b"2[\"minecraft:stone\"][0".to_vec();
    for _ in 0..26 {
        msg.extend_from_slice(b",0");
    }
    msg.push(b']');
    assert_eq!(r.message_event(&msg), Ok(Outcome::ScanApplied));
    for b in &r.blocks {
        assert_eq!(b.name, Identity::Air);
    }
}
