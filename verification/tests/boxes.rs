//! Reading MP4 boxes.

use media_parser::mp4::boxes::read_box;

fn make_box(fourcc: &[u8; 4], payload: &[u8]) -> Vec<u8> {
    let size = 8 + payload.len();
    let mut data = Vec::with_capacity(size);
    data.extend_from_slice(&(size as u32).to_be_bytes());
    data.extend_from_slice(fourcc);
    data.extend_from_slice(payload);
    data
}

fn make_extended_box(fourcc: &[u8; 4], payload: &[u8]) -> Vec<u8> {
    let size = 16 + payload.len();
    let mut data = Vec::with_capacity(size);
    data.extend_from_slice(&1u32.to_be_bytes()); // size32 = 1
    data.extend_from_slice(fourcc);
    data.extend_from_slice(&(size as u64).to_be_bytes());
    data.extend_from_slice(payload);
    data
}

#[test]
fn test_read_box_standard() {
    let data = make_box(b"moov", &[1, 2, 3, 4]);

    let b = read_box(&data, 0).unwrap();
    assert_eq!(b.fourcc, *b"moov");
    assert_eq!(b.header_len, 8);
    assert_eq!(b.total_size, 12);
    assert_eq!(b.payload, &[1, 2, 3, 4]);
}

#[test]
fn test_read_box_extended() {
    let data = make_extended_box(b"mdat", &[5, 6, 7, 8, 9, 10]);

    let b = read_box(&data, 0).unwrap();
    assert_eq!(b.fourcc, *b"mdat");
    assert_eq!(b.header_len, 16);
    assert_eq!(b.total_size, 22);
    assert_eq!(b.payload, &[5, 6, 7, 8, 9, 10]);
}

#[test]
fn test_read_box_with_offset() {
    let mut data = make_box(b"ftyp", &[0; 8]);
    data.extend(make_box(b"moov", &[1, 2, 3, 4]));

    // Read second box at offset 16
    let b = read_box(&data, 16).unwrap();
    assert_eq!(b.fourcc, *b"moov");
    assert_eq!(b.payload, &[1, 2, 3, 4]);
}

#[test]
fn test_read_box_insufficient_data() {
    let data = [0, 0, 0, 16, b'm', b'o', b'o', b'v']; // Claims 16, only 8

    assert!(read_box(&data, 0).is_none());
}

#[test]
fn test_read_box_zero_size() {
    let data = [0, 0, 0, 0, b'm', b'o', b'o', b'v'];

    assert!(read_box(&data, 0).is_none());
}

#[test]
fn test_read_box_size_too_small() {
    let data = [0, 0, 0, 4, b't', b'e', b's', b't']; // size 4 < header 8

    assert!(read_box(&data, 0).is_none());
}

#[test]
fn test_read_box_out_of_bounds() {
    let data = make_box(b"test", &[1, 2, 3, 4]);

    assert!(read_box(&data, 100).is_none());
}

#[test]
fn test_read_box_empty_payload() {
    let data = [0, 0, 0, 8, b't', b'e', b's', b't']; // size 8, no payload

    let b = read_box(&data, 0).unwrap();
    assert_eq!(b.fourcc, *b"test");
    assert_eq!(b.payload.len(), 0);
}
