use userland::gpu::{frame_rate, mesh_blob};

#[test]
fn mesh_blob_layout() {
    let mut hash = [0u8; 32];
    for (i, b) in hash.iter_mut().enumerate() {
        *b = i as u8 + 1;
    }
    let blob = mesh_blob(3, 12, &hash);
    let mut expect = [0u8; 128];
    expect[0] = 0x08;
    expect[2..6].copy_from_slice(&3u32.to_le_bytes());
    expect[10..12].copy_from_slice(&12u16.to_le_bytes());
    expect[32..64].copy_from_slice(&hash);
    assert_eq!(blob, expect.to_vec());
}

#[test]
fn mesh_blob_wide_values() {
    let blob = mesh_blob(0x0102_0304, 0xabcd, &[0xee; 32]);
    assert_eq!(&blob[2..6], &[4, 3, 2, 1]);
    assert_eq!(&blob[10..12], &[0xcd, 0xab]);
    assert_eq!(blob.len(), 128);
    assert!(blob[64..].iter().all(|&b| b == 0));
}

#[test]
fn frame_rates() {
    assert_eq!(frame_rate(300, 5000), Some(60));
    assert_eq!(frame_rate(7, 0), None);
    assert_eq!(frame_rate(u32::MAX, 1), Some(u32::MAX as u64 * 1000));
}
