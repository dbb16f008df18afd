use rme_raster::hash::{compute_fnv1a_64, sprite_hash, FNV_OFFSET_BASIS_64};

#[test]
fn fnv1a_empty() {
    assert_eq!(compute_fnv1a_64(b""), FNV_OFFSET_BASIS_64);
}

#[test]
fn fnv1a_known_value() {
    let hash = compute_fnv1a_64(b"foo");
    assert_eq!(hash, 0xDCB2_7518_FED9_D577);
}

#[test]
fn fnv1a_single_byte() {
    assert_eq!(compute_fnv1a_64(b"a"), 0xAF63_DC4C_8601_EC8C);
}

#[test]
fn sprite_hash_prepends_dimensions() {
    let pixels = [1u8, 2, 3, 4];
    let mut buf = Vec::new();
    buf.extend_from_slice(&7u32.to_le_bytes());
    buf.extend_from_slice(&0x0102_0304u32.to_le_bytes());
    buf.extend_from_slice(&pixels);
    assert_eq!(sprite_hash(&pixels, 7, 0x0102_0304), compute_fnv1a_64(&buf));
    assert_ne!(sprite_hash(&pixels, 7, 1), sprite_hash(&pixels, 1, 7));
}
