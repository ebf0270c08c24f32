use fastcrc::bits::reflect_bits;

#[test]
fn reflect_zero_width_is_zero() {
    assert_eq!(reflect_bits(5, 0), 0);
    assert_eq!(reflect_bits(0xFFFF_FFFF, 0), 0);
}

#[test]
fn reflect_full_width() {
    assert_eq!(reflect_bits(1, 32), 0x8000_0000);
    assert_eq!(reflect_bits(0x8000_0000, 32), 1);
    assert_eq!(reflect_bits(0x1234_5678, 32), 0x1E6A_2C48);
    assert_eq!(reflect_bits(0x04C1_1DB7, 32), 0xEDB8_8320);
    assert_eq!(reflect_bits(0x1EDC_6F41, 32), 0x82F6_3B78);
}

#[test]
fn reflect_narrow_widths() {
    assert_eq!(reflect_bits(0x01, 8), 0x80);
    assert_eq!(reflect_bits(0xABCD, 16), 0xB3D5);
    assert_eq!(reflect_bits(1, 1), 1);
}

#[test]
fn reflect_ignores_bits_above_width() {
    assert_eq!(reflect_bits(0xF3, 4), 0xC);
    assert_eq!(reflect_bits(0b1011, 3), 0b110);
    assert_eq!(reflect_bits(0xFFFF_FF00, 8), 0);
}

#[test]
fn reflect_width_beyond_word_shifts_out() {
    assert_eq!(reflect_bits(1, 33), 0);
    assert_eq!(reflect_bits(0xFFFF_FFFF, 33), 0xFFFF_FFFE);
    assert_eq!(reflect_bits(0xFFFF_FFFF, 63), 0x8000_0000);
    assert_eq!(reflect_bits(0xFFFF_FFFF, 64), 0);
    assert_eq!(reflect_bits(0xFFFF_FFFF, 255), 0);
}

#[test]
fn reflect_twice_returns_every_four_bit_value() {
    for value in 0u32..16 {
        assert_eq!(reflect_bits(reflect_bits(value, 4), 4), value);
    }
}

#[test]
fn reflect_twice_keeps_the_bits_below_width() {
    let samples = [0u32, 1, 0x8000_0001, 0x1234_5678, 0xDEAD_BEEF, 0xFFFF_FFFF];
    for width in 0u8..=32 {
        let mask = if width == 32 {
            0xFFFF_FFFF
        } else {
            (1u32 << width) - 1
        };
        for value in samples {
            assert_eq!(
                reflect_bits(reflect_bits(value, width), width),
                value & mask
            );
        }
    }
}

#[test]
fn reflect_moves_each_bit_to_its_mirror() {
    for width in 1u8..=32 {
        for index in 0..width {
            let reflected = reflect_bits(1u32 << index, width);
            assert_eq!(reflected, 1u32 << (width - 1 - index));
        }
    }
}
