use freq_sketch::hashing::digest;
use freq_sketch::hashing::slot;
use freq_sketch::hashing::Key;

#[test]
fn digest_is_repeatable() {
    assert_eq!(digest(&7u64.to_le_bytes(), b"key"), digest(&7u64.to_le_bytes(), b"key"));
    assert_eq!(digest(b"", b""), digest(b"", b""));
}

#[test]
fn digest_depends_on_prefix_and_key() {
    assert_ne!(digest(&1u64.to_le_bytes(), b"key"), digest(&2u64.to_le_bytes(), b"key"));
    assert_ne!(digest(&1u64.to_le_bytes(), b"key"), digest(&1u64.to_le_bytes(), b"kez"));
    assert_ne!(digest(b"p", b""), digest(b"p", b"\0"));
}

#[test]
fn slot_is_digest_modulo_width() {
    for seed in 0u64..20 {
        let prefix = seed.to_le_bytes();
        for width in 1usize..9 {
            let j = slot(&prefix, b"some key", width);
            assert!(j < width);
            assert_eq!(j as u64, digest(&prefix, b"some key") % (width as u64));
        }
    }
    assert_eq!(slot(&99u64.to_le_bytes(), b"x", 1), 0);
}

#[test]
fn key_bytes_of_strings_and_slices() {
    assert_eq!("abc".as_key_bytes(), b"abc");
    assert_eq!("\u{e9}".as_key_bytes(), [0xc3u8, 0xa9u8]);
    assert_eq!([1u8, 2, 3][..].as_key_bytes(), [1u8, 2, 3]);
    assert_eq!("".as_key_bytes().len(), 0);
}
