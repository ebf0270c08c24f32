use fastcrc::bits::reflect_bits;
use fastcrc::engine::{finalize_value, update_reflected, update_standard};
use fastcrc::table::build_table;
use fastcrc::{Algorithm32, Crc32Engine};

const CHECK: &[u8] = b"123456789";
const FOX: &[u8] = b"The quick brown fox jumps over the lazy dog";

fn ieee() -> Algorithm32 {
    Algorithm32::new("crc32", 0x04C11DB7, 0xFFFF_FFFF, 0xFFFF_FFFF, true, true)
}

fn checksum(params: Algorithm32, data: &[u8]) -> u32 {
    let mut engine = Crc32Engine::new(params);
    engine.update(data);
    engine.finalize_u32()
}

#[test]
fn reflect_roundtrip() {
    assert_eq!(reflect_bits(0b1001, 4), 0b1001);
    assert_eq!(reflect_bits(0b0011, 4), 0b1100);
}

#[test]
fn dyn_engine_matches_known_checksum() {
    let mut engine = Crc32Engine::new(ieee());
    engine.update(b"123456789");
    assert_eq!(engine.finalize_u32(), 0xCBF4_3926);
}

#[test]
fn descriptor_keeps_its_fields() {
    let params = Algorithm32::new("label", 0x1234_5678, 0x9ABC_DEF0, 0x0F0F_0F0F, true, false);
    assert_eq!(params.name, "label");
    assert_eq!(params.polynomial, 0x1234_5678);
    assert_eq!(params.init, 0x9ABC_DEF0);
    assert_eq!(params.xor_out, 0x0F0F_0F0F);
    assert!(params.reflect_in);
    assert!(!params.reflect_out);
}

#[test]
fn descriptor_has_value_semantics() {
    let params = ieee();
    let copy = params;
    assert_eq!(params, copy);
    assert_eq!(params, ieee());
    let other = Algorithm32::new("crc32", 0x04C11DB7, 0xFFFF_FFFF, 0xFFFF_FFFF, true, false);
    assert_ne!(params, other);
}

#[test]
fn update_reflected_advances_the_register() {
    let table = build_table(0x04C1_1DB7, true);
    assert_eq!(update_reflected(0, &table, b"a"), 0x3AB5_51CE);
    assert_eq!(update_reflected(0xFFFF_FFFF, &table, CHECK), 0x340B_C6D9);
}

#[test]
fn update_standard_advances_the_register() {
    let table = build_table(0x04C1_1DB7, false);
    assert_eq!(update_standard(0, &table, b"a"), 0xA864_DB20);
    assert_eq!(update_standard(0xFFFF_FFFF, &table, CHECK), 0x0376_E6E7);
}

#[test]
fn update_of_nothing_keeps_the_register() {
    let reflected = build_table(0x04C1_1DB7, true);
    let standard = build_table(0x04C1_1DB7, false);
    assert_eq!(update_reflected(0x1234_5678, &reflected, b""), 0x1234_5678);
    assert_eq!(update_standard(0x1234_5678, &standard, b""), 0x1234_5678);
}

#[test]
fn update_follows_the_table_it_is_given() {
    let mut table = [0u32; 256];
    for (index, slot) in table.iter_mut().enumerate() {
        *slot = index as u32;
    }
    assert_eq!(update_reflected(0x0000_01FF, &table, &[0x0F]), 0x0000_0001 ^ 0xF0);
    assert_eq!(update_standard(0xFF00_0001, &table, &[0x0F]), 0x0000_0100 ^ 0xF0);
}

#[test]
fn finalize_value_applies_the_mask() {
    assert_eq!(finalize_value(0x340B_C6D9, ieee()), 0xCBF4_3926);
    let plain = Algorithm32::new("plain", 0x04C11DB7, 0, 0, false, false);
    assert_eq!(finalize_value(0x1234_5678, plain), 0x1234_5678);
}

#[test]
fn finalize_value_reflects_when_the_flags_differ() {
    let in_only = Algorithm32::new("in", 0x04C11DB7, 0, 0x0000_00FF, true, false);
    let out_only = Algorithm32::new("out", 0x04C11DB7, 0, 0x0000_00FF, false, true);
    assert_eq!(finalize_value(0x1234_5678, in_only), 0x1E6A_2C48 ^ 0xFF);
    assert_eq!(finalize_value(0x1234_5678, out_only), 0x1E6A_2C48 ^ 0xFF);
    let both = Algorithm32::new("both", 0x04C11DB7, 0, 0x0000_00FF, true, true);
    assert_eq!(finalize_value(0x1234_5678, both), 0x1234_5678 ^ 0xFF);
}

#[test]
fn standard_mode_variants_match_their_check_values() {
    let bzip2 = Algorithm32::new("crc32/bzip2", 0x04C11DB7, 0xFFFF_FFFF, 0xFFFF_FFFF, false, false);
    let mpeg2 = Algorithm32::new("crc32/mpeg-2", 0x04C11DB7, 0xFFFF_FFFF, 0, false, false);
    let cksum = Algorithm32::new("crc32/cksum", 0x04C11DB7, 0, 0xFFFF_FFFF, false, false);
    assert_eq!(checksum(bzip2, CHECK), 0xFC89_1918);
    assert_eq!(checksum(mpeg2, CHECK), 0x0376_E6E7);
    assert_eq!(checksum(cksum, CHECK), 0x765E_7680);
    assert_eq!(checksum(bzip2, FOX), 0x459D_EE61);
}

#[test]
fn reflected_variant_without_output_mask() {
    let jamcrc = Algorithm32::new("crc32/jamcrc", 0x04C11DB7, 0xFFFF_FFFF, 0, true, true);
    assert_eq!(checksum(jamcrc, CHECK), 0x340B_C6D9);
    assert_eq!(checksum(jamcrc, b""), 0xFFFF_FFFF);
}

#[test]
fn variants_with_differing_flags() {
    let a = Algorithm32::new("a", 0x04C11DB7, 0xFFFF_FFFF, 0xFFFF_FFFF, true, false);
    let b = Algorithm32::new("b", 0x04C11DB7, 0xFFFF_FFFF, 0xFFFF_FFFF, false, true);
    let c = Algorithm32::new("c", 0x1EDC6F41, 0x1234_5678, 0x0F0F_0F0F, true, false);
    let d = Algorithm32::new("d", 0x1EDC6F41, 0x1234_5678, 0x0F0F_0F0F, false, true);
    assert_eq!(checksum(a, CHECK), 0x649C_2FD3);
    assert_eq!(checksum(b, CHECK), 0x1898_913F);
    assert_eq!(checksum(c, CHECK), 0x9CC7_B336);
    assert_eq!(checksum(d, CHECK), 0x0B39_F2A9);
}

#[test]
fn new_engine_holds_the_initial_register() {
    let params = Algorithm32::new("x", 0x04C11DB7, 0x1234_5678, 0, true, true);
    let engine = Crc32Engine::new(params);
    assert_eq!(engine.state(), 0x1234_5678);
    assert_eq!(engine.params(), params);
    assert_eq!(engine.finalize_u32(), 0x1234_5678);
}

#[test]
fn empty_update_is_a_no_op() {
    let mut engine = Crc32Engine::new(ieee());
    engine.update(b"abc");
    let before = engine.state();
    engine.update(b"");
    assert_eq!(engine.state(), before);
    engine.absorb(b"");
    assert_eq!(engine.state(), before);
}

#[test]
fn absorb_and_update_agree() {
    let mut first = Crc32Engine::new(ieee());
    let mut second = Crc32Engine::new(ieee());
    first.absorb(FOX);
    second.update(FOX);
    assert_eq!(first.state(), second.state());
    assert_eq!(first.finalize_u32(), 0x414F_A339);
}

#[test]
fn streaming_equals_one_shot_at_every_split() {
    let bzip2 = Algorithm32::new("crc32/bzip2", 0x04C11DB7, 0xFFFF_FFFF, 0xFFFF_FFFF, false, false);
    for params in [ieee(), bzip2] {
        let whole = checksum(params, FOX);
        for first in 0..=FOX.len() {
            for second in first..=FOX.len() {
                let mut engine = Crc32Engine::new(params);
                engine.update(&FOX[..first]);
                engine.update(&FOX[first..second]);
                engine.update(&FOX[second..]);
                assert_eq!(engine.finalize_u32(), whole);
            }
        }
    }
}

#[test]
fn streaming_byte_by_byte_equals_one_shot() {
    let mut engine = Crc32Engine::new(ieee());
    for byte in CHECK {
        engine.update(&[*byte]);
    }
    assert_eq!(engine.finalize_u32(), 0xCBF4_3926);
}

#[test]
fn reset_gives_a_fresh_engine() {
    let mut used = Crc32Engine::new(ieee());
    used.update(FOX);
    used.update(b"more");
    used.reset();
    let fresh = Crc32Engine::new(ieee());
    assert_eq!(used.state(), fresh.state());
    assert_eq!(used.params(), fresh.params());
    assert_eq!(used.finalize_u32(), fresh.finalize_u32());
    used.update(CHECK);
    assert_eq!(used.finalize_u32(), 0xCBF4_3926);
}

#[test]
fn reset_returns_to_init_not_to_zero() {
    let params = Algorithm32::new("x", 0x04C11DB7, 0x1234_5678, 0, false, false);
    let mut engine = Crc32Engine::new(params);
    engine.update(CHECK);
    engine.reset();
    assert_eq!(engine.state(), 0x1234_5678);
}

#[test]
fn finalize_is_repeatable() {
    let mut engine = Crc32Engine::new(ieee());
    engine.update(CHECK);
    let first = engine.finalize_u32();
    let second = engine.finalize_u32();
    assert_eq!(first, second);
    assert_eq!(engine.state(), 0x340B_C6D9);
    engine.update(b"");
    assert_eq!(engine.finalize_u32(), first);
}

#[test]
fn finalize_into_writes_big_endian() {
    let mut engine = Crc32Engine::new(ieee());
    engine.update(CHECK);
    let mut out = [0u8; 4];
    engine.finalize_into(&mut out);
    assert_eq!(out, [0xCB, 0xF4, 0x39, 0x26]);
}

#[test]
fn finalize_into_reset_writes_then_resets() {
    let mut engine = Crc32Engine::new(ieee());
    engine.update(CHECK);
    let mut out = [0u8; 4];
    engine.finalize_into_reset(&mut out);
    assert_eq!(out, [0xCB, 0xF4, 0x39, 0x26]);
    assert_eq!(engine.state(), 0xFFFF_FFFF);
    engine.update(FOX);
    engine.finalize_into_reset(&mut out);
    assert_eq!(out, [0x41, 0x4F, 0xA3, 0x39]);
}

#[test]
fn clone_is_independent() {
    let mut engine = Crc32Engine::new(ieee());
    engine.update(b"1234");
    let mut copy = engine.clone();
    assert_eq!(copy.state(), engine.state());
    copy.update(b"56789");
    assert_eq!(copy.finalize_u32(), 0xCBF4_3926);
    engine.update(b"56789");
    assert_eq!(engine.finalize_u32(), 0xCBF4_3926);
}

#[test]
fn table_lookups_equal_bit_serial_rounds() {
    let reflected_polynomial = 0xEDB8_8320u32;
    let mut register = 0xFFFF_FFFFu32;
    for byte in FOX {
        register ^= *byte as u32;
        for _ in 0..8 {
            register = if register & 1 != 0 {
                (register >> 1) ^ reflected_polynomial
            } else {
                register >> 1
            };
        }
    }
    let mut engine = Crc32Engine::new(ieee());
    engine.update(FOX);
    assert_eq!(engine.state(), register);

    let polynomial = 0x04C1_1DB7u32;
    let mut register = 0xFFFF_FFFFu32;
    for byte in FOX {
        register ^= (*byte as u32) << 24;
        for _ in 0..8 {
            register = if register & 0x8000_0000 != 0 {
                (register << 1) ^ polynomial
            } else {
                register << 1
            };
        }
    }
    let mpeg2 = Algorithm32::new("crc32/mpeg-2", polynomial, 0xFFFF_FFFF, 0, false, false);
    let mut engine = Crc32Engine::new(mpeg2);
    engine.update(FOX);
    assert_eq!(engine.state(), register);
}

#[test]
fn reflected_engine_mirrors_the_standard_engine() {
    let mirrored: Vec<u8> = FOX.iter().map(|byte| byte.reverse_bits()).collect();
    for (reflect_out, xor_out) in [(true, 0xFFFF_FFFFu32), (false, 0x0F0F_0F0F)] {
        let init = 0x1234_5678u32;
        let reflected = Algorithm32::new("r", 0x1EDC6F41, init, xor_out, true, reflect_out);
        let standard = Algorithm32::new("s", 0x1EDC6F41, init.reverse_bits(), xor_out, false, reflect_out);
        assert_eq!(checksum(reflected, FOX), checksum(standard, &mirrored));
    }
}
