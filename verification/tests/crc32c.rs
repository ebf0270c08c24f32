use fastcrc::crc32c::castagnoli;
use fastcrc::{crc32c, Crc32c, Crc32Engine};

/// Test vectors from the RevEng CRC Catalogue.
const CASTAGNOLI_VECTORS: &[(&[u8], u32)] = &[
    (b"", 0x0000_0000),
    (b"123456789", 0xE306_9283),
    (b"The quick brown fox jumps over the lazy dog", 0x2262_0404),
];

#[test]
fn crc32c_known_value() {
    for &(input, expected) in CASTAGNOLI_VECTORS {
        assert_eq!(crc32c(input), expected, "input: {:?}", input);
    }
}

#[test]
fn crc32c_streaming_matches_one_shot() {
    let data = b"The quick brown fox jumps over the lazy dog";
    let mut digest = Crc32c::new();
    for chunk in data.chunks(7) {
        digest.update(chunk);
    }
    assert_eq!(digest.finalize_u32(), crc32c(data));
}

#[test]
fn castagnoli_description() {
    let params = castagnoli();
    assert_eq!(params.name, "crc32c");
    assert_eq!(params.polynomial, 0x1EDC_6F41);
    assert_eq!(params.init, 0xFFFF_FFFF);
    assert_eq!(params.xor_out, 0xFFFF_FFFF);
    assert!(params.reflect_in);
    assert!(params.reflect_out);
}

#[test]
fn crc32c_digest_is_the_castagnoli_engine() {
    let data = b"The quick brown fox jumps over the lazy dog";
    let mut engine = Crc32Engine::new(castagnoli());
    engine.update(data);
    let mut digest = Crc32c::new();
    digest.update(data);
    assert_eq!(digest.finalize_u32(), engine.finalize_u32());
}

#[test]
fn crc32c_streaming_at_every_chunk_size() {
    let data = b"The quick brown fox jumps over the lazy dog";
    for size in 1..=data.len() {
        let mut digest = Crc32c::new();
        for chunk in data.chunks(size) {
            digest.update(chunk);
        }
        assert_eq!(digest.finalize_u32(), 0x2262_0404);
    }
}

#[test]
fn crc32c_default_is_new() {
    let mut digest = Crc32c::default();
    digest.update(b"123456789");
    assert_eq!(digest.finalize_u32(), 0xE306_9283);
}

#[test]
fn crc32c_reset_starts_over() {
    let mut digest = Crc32c::new();
    digest.update(b"something else");
    digest.reset();
    assert_eq!(digest.clone().finalize_u32(), 0);
    digest.update(b"123456789");
    assert_eq!(digest.finalize_u32(), 0xE306_9283);
}

#[test]
fn crc32c_finalize_into_is_big_endian() {
    let mut digest = Crc32c::new();
    digest.update(b"123456789");
    let mut out = [0u8; 4];
    digest.finalize_into(&mut out);
    assert_eq!(out, [0xE3, 0x06, 0x92, 0x83]);
}

#[test]
fn crc32c_finalize_into_reset_allows_reuse() {
    let mut digest = Crc32c::new();
    digest.update(b"123456789");
    let mut out = [0u8; 4];
    digest.finalize_into_reset(&mut out);
    assert_eq!(out, [0xE3, 0x06, 0x92, 0x83]);
    digest.update(b"The quick brown fox jumps over the lazy dog");
    digest.finalize_into_reset(&mut out);
    assert_eq!(out, [0x22, 0x62, 0x04, 0x04]);
}

#[test]
fn the_two_variants_differ() {
    assert_ne!(fastcrc::crc32(b"123456789"), crc32c(b"123456789"));
}
