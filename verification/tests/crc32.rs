use fastcrc::crc32::ieee;
use fastcrc::{crc32, Crc32, Crc32Engine};

#[test]
fn crc32_known_value() {
    let checksum = crc32(b"123456789");
    assert_eq!(checksum, 0xCBF4_3926);
}

#[test]
fn crc32_of_nothing_is_zero() {
    assert_eq!(crc32(b""), 0);
}

#[test]
fn crc32_of_a_sentence() {
    assert_eq!(crc32(b"The quick brown fox jumps over the lazy dog"), 0x414F_A339);
}

#[test]
fn ieee_description() {
    let params = ieee();
    assert_eq!(params.name, "crc32");
    assert_eq!(params.polynomial, 0x04C1_1DB7);
    assert_eq!(params.init, 0xFFFF_FFFF);
    assert_eq!(params.xor_out, 0xFFFF_FFFF);
    assert!(params.reflect_in);
    assert!(params.reflect_out);
}

#[test]
fn crc32_digest_is_the_ieee_engine() {
    let data = b"The quick brown fox jumps over the lazy dog";
    let mut engine = Crc32Engine::new(ieee());
    engine.update(data);
    let mut digest = Crc32::new();
    digest.update(data);
    assert_eq!(digest.finalize_u32(), engine.finalize_u32());
}

#[test]
fn crc32_streaming_matches_one_shot() {
    let data = b"The quick brown fox jumps over the lazy dog";
    for size in 1..=data.len() {
        let mut digest = Crc32::new();
        for chunk in data.chunks(size) {
            digest.update(chunk);
        }
        assert_eq!(digest.finalize_u32(), crc32(data));
    }
}

#[test]
fn crc32_default_is_new() {
    let mut digest = Crc32::default();
    digest.update(b"123456789");
    assert_eq!(digest.finalize_u32(), 0xCBF4_3926);
    assert_eq!(Crc32::default().finalize_u32(), Crc32::new().finalize_u32());
}

#[test]
fn crc32_reset_starts_over() {
    let mut digest = Crc32::new();
    digest.update(b"something else");
    digest.reset();
    digest.update(b"123456789");
    assert_eq!(digest.finalize_u32(), 0xCBF4_3926);
}

#[test]
fn crc32_clone_carries_the_state() {
    let mut digest = Crc32::new();
    digest.update(b"1234");
    let mut copy = digest.clone();
    copy.update(b"56789");
    assert_eq!(copy.finalize_u32(), 0xCBF4_3926);
    assert_eq!(digest.finalize_u32(), crc32(b"1234"));
}

#[test]
fn crc32_finalize_into_is_big_endian() {
    let mut digest = Crc32::new();
    digest.update(b"123456789");
    let mut out = [0u8; 4];
    digest.finalize_into(&mut out);
    assert_eq!(out, [0xCB, 0xF4, 0x39, 0x26]);
    assert_eq!(out, 0xCBF4_3926u32.to_be_bytes());
}

#[test]
fn crc32_finalize_into_reset_allows_reuse() {
    let mut digest = Crc32::new();
    digest.update(b"The quick brown fox jumps over the lazy dog");
    let mut out = [0u8; 4];
    digest.finalize_into_reset(&mut out);
    assert_eq!(out, [0x41, 0x4F, 0xA3, 0x39]);
    digest.update(b"123456789");
    digest.finalize_into_reset(&mut out);
    assert_eq!(out, [0xCB, 0xF4, 0x39, 0x26]);
    assert_eq!(digest.finalize_u32(), 0);
}
