use imagen_duplicada::hasher::{
    dhash_bytes, dhash_grid, hamming_distance, sha256_bytes, visualmente_similares, DHASH_THRESHOLD,
};

#[test]
fn hamming_counts_differing_bits() {
    assert_eq!(hamming_distance(0, 0), 0);
    assert_eq!(hamming_distance(0b1011, 0b0001), 2);
    assert_eq!(hamming_distance(u64::MAX, 0), 64);
    assert_eq!(hamming_distance(0xF0, 0x0F), hamming_distance(0x0F, 0xF0));
}

#[test]
fn similarity_uses_threshold() {
    assert_eq!(DHASH_THRESHOLD, 8);
    assert!(visualmente_similares(Some(0), Some(0xFF)));
    assert!(!visualmente_similares(Some(0), Some(0x1FF)));
    assert!(!visualmente_similares(None, Some(0)));
    assert!(!visualmente_similares(Some(0), None));
    assert!(!visualmente_similares(None, None));
    assert!(visualmente_similares(Some(12345), Some(12345)));
}

#[test]
fn sha256_of_known_inputs() {
    assert_eq!(
        sha256_bytes(b""),
        "e3b0c44298fc1c149afbf4c8996fb92427ae41e4649b934ca495991b7852b855"
    );
    assert_eq!(
        sha256_bytes(b"abc"),
        "ba7816bf8f01cfea414140de5dae2223b00361a396177a9cb410ff61f20015ad"
    );
}

fn grid(f: impl Fn(usize, usize) -> u8) -> Vec<u8> {
    let mut g = Vec::new();
    for y in 0..8 {
        for x in 0..9 {
            g.push(f(x, y));
        }
    }
    g
}

#[test]
fn dhash_of_gradients() {
    assert_eq!(dhash_grid(&grid(|x, _| 200 - 10 * x as u8)), u64::MAX);
    assert_eq!(dhash_grid(&grid(|x, _| 10 * x as u8)), 0);
    assert_eq!(dhash_grid(&grid(|_, _| 7)), 0);
    // Only the first pair of the first row falls.
    assert_eq!(dhash_grid(&grid(|x, y| if x == 0 && y == 0 { 255 } else { 0 })), 1u64 << 63);
    // Only the last pair of the last row falls.
    assert_eq!(dhash_grid(&grid(|x, y| if x == 7 && y == 7 { 255 } else { 0 })), 1);
}

#[test]
fn dhash_of_non_image_is_none() {
    assert_eq!(dhash_bytes(b"not an image"), None);
    assert_eq!(dhash_bytes(b""), None);
}

#[test]
fn dhash_of_flat_bitmap() {
    let mut bmp: Vec<u8> = Vec::new();
    bmp.extend_from_slice(b"BM");
    bmp.extend_from_slice(&(54u32 + 24).to_le_bytes());
    bmp.extend_from_slice(&[0, 0, 0, 0]);
    bmp.extend_from_slice(&54u32.to_le_bytes());
    bmp.extend_from_slice(&40u32.to_le_bytes());
    bmp.extend_from_slice(&3i32.to_le_bytes());
    bmp.extend_from_slice(&2i32.to_le_bytes());
    bmp.extend_from_slice(&1u16.to_le_bytes());
    bmp.extend_from_slice(&24u16.to_le_bytes());
    bmp.extend_from_slice(&[0u8; 24]);
    bmp.extend_from_slice(&[0u8; 24]);
    assert_eq!(dhash_bytes(&bmp), Some(0));
}
