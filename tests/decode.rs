use prjoxide::bitstream::{decode, DecodeError};
use prjoxide::chip::Chip;
use prjoxide::geometry::{DeviceGeometry, TileGeom};

fn tile(name: &str, tiletype: &str, col: usize, start_bit: usize) -> TileGeom {
    TileGeom {
        name: name.to_string(),
        tiletype: tiletype.to_string(),
        row: 0,
        col,
        start_frame: 0,
        start_bit,
        frames: 2,
        bits: 4,
    }
}

fn devices() -> Vec<DeviceGeometry> {
    vec![DeviceGeometry {
        idcode: 0x1234_5678,
        family: "LIFCL".to_string(),
        name: "LIFCL-T".to_string(),
        rows: 1,
        cols: 2,
        frames: 2,
        bits_per_frame: 8,
        tiles: vec![tile("R1C1:PLC", "PLC", 0, 0), tile("R1C2:CIB", "CIB", 1, 4)],
    }]
}

fn frame(cmd: u8, payload: &[u8]) -> Vec<u8> {
    let n = payload.len() as u32;
    let mut v = vec![cmd];
    v.extend_from_slice(&n.to_be_bytes());
    v.extend_from_slice(payload);
    v
}

fn stream(cram: &[u8]) -> Vec<u8> {
    let mut v = vec![0xFF, 0xFF, 0xBD, 0xB3];
    v.extend(frame(0xE2, &[0x12, 0x34, 0x56, 0x78]));
    v.extend(frame(0x22, &[0x00]));
    v.extend(frame(0x80, cram));
    v.extend(frame(0x5E, &[]));
    v
}

fn decoded(cram: &[u8]) -> Chip {
    let devs = devices();
    let mut c = decode(&stream(cram), &devs).unwrap();
    c.cram_to_tiles(&devs[0]);
    c
}

#[test]
fn geometry_is_valid() {
    assert!(devices()[0].is_valid());
    let mut bad = devices();
    bad[0].tiles.pop();
    assert!(!bad[0].is_valid());
    let mut off = devices();
    off[0].tiles[1].start_bit = 5;
    assert!(!off[0].is_valid());
}

#[test]
fn decode_unpacks_msb_first() {
    let devs = devices();
    let c = decode(&stream(&[0x80, 0x01]), &devs).unwrap();
    assert_eq!(c.family, "LIFCL");
    assert_eq!(c.device, "LIFCL-T");
    assert_eq!(c.cram.len(), 16);
    let set: Vec<usize> = (0..16).filter(|&k| c.cram[k]).collect();
    assert_eq!(set, vec![0, 15]);
    assert!(c.tiles.is_empty());
}

#[test]
fn expanded_tiles_cover_memory() {
    let c = decoded(&[0xA5, 0x3C]);
    let total: usize = c.tiles.iter().map(|t| t.cram.len()).sum();
    assert_eq!(total, 16);
    assert_eq!(c.tiles.len(), 2);
    assert_eq!(c.tiles[0].name, "R1C1:PLC");
    assert_eq!(c.tiles[1].tiletype, "CIB");
}

#[test]
fn tile_bits_come_from_their_frames() {
    // Frame 0 is 0x80 (bit 0 set), frame 1 is 0x02 (bit 6 set).
    let c = decoded(&[0x80, 0x02]);
    assert_eq!(c.tiles[0].set_bits(), vec![0]);
    assert_eq!(c.tiles[1].set_bits(), vec![6]);
    assert!(c.tiles[0].bit(0, 0));
    assert!(!c.tiles[0].bit(1, 0));
    assert!(c.tiles[1].bit(1, 2));
}

#[test]
fn tile_lookups() {
    let c = decoded(&[0, 0]);
    assert_eq!(c.tile_at(0, 1), Some(1));
    assert_eq!(c.tile_at(1, 1), None);
    assert_eq!(c.tiles_of_type(&"PLC".to_string()), vec![0]);
    assert_eq!(c.tiles_of_type(&"EBR".to_string()), Vec::<usize>::new());
}

#[test]
fn frame_larger_than_buffer() {
    let mut v = vec![0xFF, 0xFF, 0xBD, 0xB3];
    v.extend_from_slice(&[0x80, 0x00, 0x00, 0x00, 0x10, 0x01, 0x02]);
    assert_eq!(decode(&v, &devices()).err(), Some(DecodeError::FrameSizeMismatch));
}

#[test]
fn truncated_frame_header() {
    let mut v = vec![0xFF, 0xFF, 0xBD, 0xB3];
    v.extend_from_slice(&[0x22, 0x00, 0x00]);
    assert_eq!(decode(&v, &devices()).err(), Some(DecodeError::FrameSizeMismatch));
}

#[test]
fn memory_of_wrong_size() {
    assert_eq!(decode(&stream(&[0x00]), &devices()).err(), Some(DecodeError::FrameSizeMismatch));
    assert_eq!(
        decode(&stream(&[0x00, 0x00, 0x00]), &devices()).err(),
        Some(DecodeError::FrameSizeMismatch)
    );
}

#[test]
fn device_frame_of_wrong_size() {
    let mut v = vec![0xFF, 0xFF, 0xBD, 0xB3];
    v.extend(frame(0xE2, &[0x12, 0x34]));
    assert_eq!(decode(&v, &devices()).err(), Some(DecodeError::FrameSizeMismatch));
}

#[test]
fn missing_magic() {
    assert_eq!(decode(&vec![0xFF, 0xFF, 0xBD], &devices()).err(), Some(DecodeError::MalformedHeader));
    let mut v = stream(&[0, 0]);
    v[2] = 0x00;
    assert_eq!(decode(&v, &devices()).err(), Some(DecodeError::MalformedHeader));
}

#[test]
fn unknown_command() {
    let mut v = vec![0xFF, 0xFF, 0xBD, 0xB3];
    v.extend(frame(0x47, &[0x00]));
    assert_eq!(decode(&v, &devices()).err(), Some(DecodeError::UnknownCommand(0x47)));
}

#[test]
fn unknown_and_missing_device() {
    let mut v = vec![0xFF, 0xFF, 0xBD, 0xB3];
    v.extend(frame(0xE2, &[0, 0, 0, 9]));
    v.extend(frame(0x80, &[0, 0]));
    assert_eq!(decode(&v, &devices()).err(), Some(DecodeError::UnknownDevice(9)));
    let mut w = vec![0xFF, 0xFF, 0xBD, 0xB3];
    w.extend(frame(0x80, &[0, 0]));
    assert_eq!(decode(&w, &devices()).err(), Some(DecodeError::MissingDeviceId));
}

#[test]
fn commit_ends_the_stream() {
    let mut v = stream(&[0x00, 0x01]);
    v.extend_from_slice(&[0x99, 0x99]);
    let c = decode(&v, &devices()).unwrap();
    assert!(c.cram[15]);
}
