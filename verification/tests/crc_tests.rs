use nice_pics::crc::{crc32, Crc32, ALL_ONES, POLYNOMIAL};

#[test]
fn checksum_of_nothing_is_zero() {
    assert_eq!(crc32(&[]), 0);
}

#[test]
fn checksum_of_the_check_string() {
    assert_eq!(crc32(b"123456789"), 0xCBF4_3926);
}

#[test]
fn checksum_of_known_inputs() {
    assert_eq!(crc32(b"a"), 0xE8B7_BE43);
    assert_eq!(crc32(b"abc"), 0x3524_41C2);
    assert_eq!(crc32(b"IEND"), 0xAE42_6082);
    assert_eq!(crc32(&[0]), 0xD202_EF8D);
    assert_eq!(
        crc32(b"The quick brown fox jumps over the lazy dog"),
        0x414F_A339
    );
    assert_eq!(crc32(b"RuStThis is where your secret message will be!"), 2882656334);
}

#[test]
fn constants() {
    assert_eq!(POLYNOMIAL, 0xEDB8_8320);
    assert_eq!(ALL_ONES, 0xFFFF_FFFF);
}

#[test]
fn a_table_can_be_used_again() {
    let engine = Crc32::new();
    assert_eq!(engine.checksum(b"123456789"), 0xCBF4_3926);
    assert_eq!(engine.checksum(b"123456789"), 0xCBF4_3926);
    assert_eq!(engine.checksum(b""), 0);
}

#[test]
fn input_can_be_fed_in_pieces() {
    let engine = Crc32::new();
    let whole = b"The quick brown fox jumps over the lazy dog";
    for cut in 0..=whole.len() {
        let r = engine.update(ALL_ONES, &whole[..cut]);
        let r = engine.update(r, &whole[cut..]);
        assert_eq!(r ^ ALL_ONES, 0x414F_A339);
    }
}

#[test]
fn table_matches_bitwise_computation() {
    let engine = Crc32::new();
    for b in 0..=255u8 {
        let mut r = b as u32;
        for _ in 0..8 {
            r = if r & 1 == 1 { (r >> 1) ^ POLYNOMIAL } else { r >> 1 };
        }
        assert_eq!(engine.update(0, &[b]), r);
    }
}

#[test]
fn change_in_one_byte_changes_the_checksum() {
    let base = b"checksum".to_vec();
    let sum = crc32(&base);
    for at in 0..base.len() {
        for other in 0..=255u8 {
            if other != base[at] {
                let mut changed = base.clone();
                changed[at] = other;
                assert_ne!(crc32(&changed), sum);
            }
        }
    }
}
