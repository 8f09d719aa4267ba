use xor_pipeline::transform::{transform, TransformError};

#[test]
fn test_transform_round_trip() {
    let data: Vec<u8> = vec![0x00, 0x01, 0x02, 0xFA, 0xFF, 0x11, 0x63];
    let key: Vec<u8> = vec![0x5A, 0xC3, 0x01];
    let once = transform(&data, &key).unwrap();
    let twice = transform(&once, &key).unwrap();
    assert_eq!(twice, data);
}

#[test]
fn test_transform_round_trip_long_key() {
    let data: Vec<u8> = vec![0xAB, 0xCD];
    let key: Vec<u8> = vec![0x01, 0x02, 0x03, 0x04, 0x05];
    let once = transform(&data, &key).unwrap();
    let twice = transform(&once, &key).unwrap();
    assert_eq!(twice, data);
}

#[test]
fn test_transform_preserves_length() {
    let key: Vec<u8> = vec![0x77, 0x13];
    for len in [0usize, 1, 2, 3, 16, 255] {
        let data: Vec<u8> = (0..len).map(|i| (i % 256) as u8).collect();
        let out = transform(&data, &key).unwrap();
        assert_eq!(out.len(), data.len());
    }
}

#[test]
fn test_transform_empty_key() {
    let key: Vec<u8> = Vec::new();
    let data: Vec<u8> = vec![1, 2, 3];
    assert_eq!(transform(&data, &key), Err(TransformError::EmptyKey));
    let empty_data: Vec<u8> = Vec::new();
    assert_eq!(transform(&empty_data, &key), Err(TransformError::EmptyKey));
}

#[test]
fn test_transform_key_cycles() {
    let data: Vec<u8> = vec![0x00, 0x00, 0x00, 0x00, 0x00];
    let key: Vec<u8> = vec![0x01, 0x02];
    assert_eq!(transform(&data, &key).unwrap(), vec![0x01, 0x02, 0x01, 0x02, 0x01]);
}

#[test]
fn test_transform_example() {
    let data: Vec<u8> = vec![0x41, 0x42, 0x43];
    let key: Vec<u8> = vec![0xFF];
    let out = transform(&data, &key).unwrap();
    assert_eq!(out, vec![0xBE, 0xBD, 0xBC]);
    let back = transform(&out, &key).unwrap();
    assert_eq!(back, vec![0x41, 0x42, 0x43]);
}
