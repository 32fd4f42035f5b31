use crc_engine::bitrev::reflect;
use crc_engine::engine::compute_crc;
use crc_engine::engine::crc32_config;
use crc_engine::engine::crc8_config;
use crc_engine::engine::crc_ccitt_config;
use crc_engine::engine::new_config;
use crc_engine::engine::ConfigError;

#[test]
fn reflect_nibble() {
    assert_eq!(reflect(0b1101, 4), 0b1011);
}

#[test]
fn reflect_byte() {
    assert_eq!(reflect(0x80, 8), 0x01);
    assert_eq!(reflect(0x01, 8), 0x80);
    assert_eq!(reflect(0b1100_0000, 8), 0b0000_0011);
}

#[test]
fn reflect_zero_bits() {
    assert_eq!(reflect(0xFF, 0), 0);
    assert_eq!(reflect(u64::MAX, 0), 0);
}

#[test]
fn reflect_ignores_higher_bits() {
    // Only the lowest 4 bits take part; the rest of the word is dropped.
    assert_eq!(reflect(0xFFF0_1101, 4), 0b1000);
}

#[test]
fn reflect_involution_samples() {
    assert_eq!(reflect(reflect(0xA5, 8), 8), 0xA5);
    assert_eq!(reflect(reflect(0x1234, 16), 16), 0x1234);
    assert_eq!(reflect(reflect(0x0123_4567_89AB_CDEF, 64), 64), 0x0123_4567_89AB_CDEF);
}

#[test]
fn crc32_check_string() {
    let cfg = crc32_config();
    assert_eq!(compute_crc(&cfg, b"123456789"), 0xCBF4_3926);
}

#[test]
fn crc32_png_header_chunk() {
    let cfg = crc32_config();
    let msg: &[u8] = &[
        0x49, 0x48, 0x44, 0x52, 0x00, 0x00, 0x03, 0x8C, 0x00, 0x00, 0x02, 0xD0, 0x08, 0x06,
        0x00, 0x00, 0x00,
    ];
    assert_eq!(compute_crc(&cfg, msg), 0xDBF1_FE9A);
}

#[test]
fn crc_ccitt_check_string() {
    // 0x29B1 is the catalog check value for these parameters.
    let cfg = crc_ccitt_config();
    assert_eq!(compute_crc(&cfg, b"123456789"), 0x29B1);
}

#[test]
fn crc_ccitt_short_string() {
    let cfg = crc_ccitt_config();
    assert_eq!(compute_crc(&cfg, b"1234"), 0b0101_0011_0100_1001);
}

#[test]
fn crc8_single_byte_long_division() {
    // Hand-computed long-division trace: remainder 0b11100101, polynomial
    // 0b01011000, eight steps, zero initial remainder and final XOR.
    let cfg = crc8_config();
    assert_eq!(compute_crc(&cfg, &[0b1110_0101]), 0b0100_0000);
}

#[test]
fn empty_message_crc32() {
    // Nonzero initial remainder: the empty checksum is init ^ final_xor,
    // reflected, which for CRC-32 is zero.
    let cfg = crc32_config();
    assert_eq!(compute_crc(&cfg, &[]), 0x0000_0000);
}

#[test]
fn empty_message_returns_final_xor() {
    // With a zero initial remainder the empty checksum is the final XOR mask.
    let cfg = new_config(16, 0x1021, 0, 0x1234, false, false).unwrap();
    assert_eq!(compute_crc(&cfg, &[]), 0x1234);
}

#[test]
fn empty_message_returns_final_xor_reflected() {
    let cfg = new_config(16, 0x1021, 0, 0x1234, false, true).unwrap();
    assert_eq!(reflect(0x1234, 16), 0x2C48);
    assert_eq!(compute_crc(&cfg, &[]), 0x2C48);
}

#[test]
fn determinism() {
    let cfg = crc32_config();
    let msg: &[u8] = b"the same message twice";
    assert_eq!(compute_crc(&cfg, msg), compute_crc(&cfg, msg));
}

#[test]
fn length_sensitivity() {
    let cfg = crc32_config();
    let base = compute_crc(&cfg, b"123456789");
    let mut extended = b"123456789".to_vec();
    extended.push(0xFF);
    assert_ne!(compute_crc(&cfg, &extended), base);
    let mut extended_one = b"123456789".to_vec();
    extended_one.push(0x01);
    assert_ne!(compute_crc(&cfg, &extended_one), base);
}

#[test]
fn width_masking() {
    let cfg8 = crc8_config();
    assert!(compute_crc(&cfg8, b"arbitrary data") <= 0xFF);
    let cfg16 = crc_ccitt_config();
    assert!(compute_crc(&cfg16, b"arbitrary data") <= 0xFFFF);
    // A width that is not a multiple of eight is masked just the same.
    let cfg12 = new_config(12, 0x80F, 0, 0, false, false).unwrap();
    assert!(compute_crc(&cfg12, b"arbitrary data") <= 0xFFF);
}

#[test]
fn rejects_invalid_width() {
    assert_eq!(new_config(4, 0x3, 0, 0, false, false), Err(ConfigError::InvalidWidth));
    assert_eq!(new_config(0, 0, 0, 0, false, false), Err(ConfigError::InvalidWidth));
    assert_eq!(new_config(65, 0, 0, 0, false, false), Err(ConfigError::InvalidWidth));
}

#[test]
fn rejects_out_of_range_parameters() {
    assert_eq!(new_config(8, 0x100, 0, 0, false, false), Err(ConfigError::PolyTooWide));
    assert_eq!(new_config(8, 0xFF, 0x100, 0, false, false), Err(ConfigError::InitTooWide));
    assert_eq!(new_config(8, 0xFF, 0xFF, 0x100, false, false), Err(ConfigError::FinalXorTooWide));
    assert_eq!(
        new_config(32, 0x1_0000_0000, 0, 0, true, true),
        Err(ConfigError::PolyTooWide)
    );
}

#[test]
fn accepts_full_width_parameters() {
    let cfg = new_config(64, u64::MAX, u64::MAX, u64::MAX, true, true).unwrap();
    assert_eq!(cfg.width, 64);
    assert_eq!(cfg.poly, u64::MAX);
    let cfg32 = new_config(32, 0x04C1_1DB7, 0xFFFF_FFFF, 0xFFFF_FFFF, true, true).unwrap();
    assert_eq!(cfg32, crc32_config());
}

#[test]
fn preset_parameters() {
    let c32 = crc32_config();
    assert_eq!(c32.width, 32);
    assert_eq!(c32.poly, 0x04C1_1DB7);
    assert_eq!(c32.init, 0xFFFF_FFFF);
    assert_eq!(c32.final_xor, 0xFFFF_FFFF);
    assert!(c32.reflect_in);
    assert!(c32.reflect_out);
    let ccitt = crc_ccitt_config();
    assert_eq!(ccitt.width, 16);
    assert_eq!(ccitt.poly, 0x1021);
    assert_eq!(ccitt.init, 0xFFFF);
    assert_eq!(ccitt.final_xor, 0);
    assert!(!ccitt.reflect_in);
    assert!(!ccitt.reflect_out);
}
