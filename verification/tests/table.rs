use fastcrc::table::build_table;

#[test]
fn reflected_ieee_table_entries() {
    let table = build_table(0x04C1_1DB7, true);
    assert_eq!(table[0], 0x0000_0000);
    assert_eq!(table[1], 0x7707_3096);
    assert_eq!(table[2], 0xEE0E_612C);
    assert_eq!(table[128], 0xEDB8_8320);
    assert_eq!(table[255], 0x2D02_EF8D);
}

#[test]
fn standard_ieee_table_entries() {
    let table = build_table(0x04C1_1DB7, false);
    assert_eq!(table[0], 0x0000_0000);
    assert_eq!(table[1], 0x04C1_1DB7);
    assert_eq!(table[2], 0x0982_3B6E);
    assert_eq!(table[128], 0x690C_E0EE);
    assert_eq!(table[255], 0xB1F7_40B4);
}

#[test]
fn reflected_castagnoli_table_entries() {
    let table = build_table(0x1EDC_6F41, true);
    assert_eq!(table[0], 0x0000_0000);
    assert_eq!(table[1], 0xF26B_8303);
    assert_eq!(table[255], 0xAD7D_5351);
}

#[test]
fn the_two_table_forms_differ() {
    assert_ne!(build_table(0x04C1_1DB7, true), build_table(0x04C1_1DB7, false));
}

#[test]
fn table_construction_is_deterministic() {
    for reflect in [false, true] {
        for polynomial in [0u32, 1, 0x04C1_1DB7, 0x1EDC_6F41, 0xFFFF_FFFF] {
            let first = build_table(polynomial, reflect);
            let second = build_table(polynomial, reflect);
            for index in 0..256 {
                assert_eq!(first[index], second[index]);
            }
        }
    }
}

#[test]
fn zero_polynomial_only_shifts() {
    let reflected = build_table(0, true);
    let standard = build_table(0, false);
    for index in 0..256 {
        assert_eq!(reflected[index], 0);
        assert_eq!(standard[index], 0);
    }
}

#[test]
fn standard_entries_follow_eight_rounds() {
    let polynomial = 0x04C1_1DB7u32;
    let table = build_table(polynomial, false);
    for index in 0u32..256 {
        let mut crc = index << 24;
        for _ in 0..8 {
            crc = if crc & 0x8000_0000 != 0 {
                (crc << 1) ^ polynomial
            } else {
                crc << 1
            };
        }
        assert_eq!(table[index as usize], crc);
    }
}

#[test]
fn reflected_entries_follow_eight_rounds() {
    let reflected = 0xEDB8_8320u32;
    let table = build_table(0x04C1_1DB7, true);
    for index in 0u32..256 {
        let mut crc = index;
        for _ in 0..8 {
            crc = if crc & 1 != 0 {
                (crc >> 1) ^ reflected
            } else {
                crc >> 1
            };
        }
        assert_eq!(table[index as usize], crc);
    }
}
