use qrgen::bits::DATA_LENGTHS;
use qrgen::types::{Color, EcLevel, Mode, QrError, Version};

#[test]
fn mode_max_is_a_common_mode() {
    assert_eq!(Mode::Numeric.max(Mode::Alphanumeric), Mode::Alphanumeric);
    assert_eq!(Mode::Alphanumeric.max(Mode::Numeric), Mode::Alphanumeric);
    assert_eq!(Mode::Kanji.max(Mode::Kanji), Mode::Kanji);
    assert_eq!(Mode::Numeric.max(Mode::Kanji), Mode::Byte);
    assert_eq!(Mode::Kanji.max(Mode::Alphanumeric), Mode::Byte);
    assert_eq!(Mode::Byte.max(Mode::Numeric), Mode::Byte);
    assert!(Mode::Numeric < Mode::Byte);
    assert!(Mode::Kanji.partial_cmp(&Mode::Numeric).is_none());
}

#[test]
fn bit_counts() {
    assert_eq!(Mode::Numeric.data_bits_count(7), 24);
    assert_eq!(Mode::Alphanumeric.data_bits_count(3), 17);
    assert_eq!(Mode::Byte.data_bits_count(3), 24);
    assert_eq!(Mode::Kanji.data_bits_count(2), 26);
    assert_eq!(Mode::Numeric.length_bits_count(Version::Normal(9)), 10);
    assert_eq!(Mode::Byte.length_bits_count(Version::Normal(10)), 16);
    assert_eq!(Mode::Kanji.length_bits_count(Version::Normal(27)), 12);
    assert_eq!(Mode::Numeric.length_bits_count(Version::Micro(2)), 4);
}

#[test]
fn versions() {
    assert_eq!(Version::Normal(1).width(), 21);
    assert_eq!(Version::Normal(40).width(), 177);
    assert_eq!(Version::Micro(1).width(), 11);
    assert_eq!(Version::Normal(3).mode_bits_count(), 4);
    assert_eq!(Version::Micro(3).mode_bits_count(), 2);
    assert!(Version::Micro(3).is_micro());
    assert!(!Version::Normal(3).is_micro());
}

#[test]
fn capacity_lookup() {
    assert_eq!(Version::Normal(1).fetch(EcLevel::L, &DATA_LENGTHS), Ok(152));
    assert_eq!(Version::Normal(40).fetch(EcLevel::H, &DATA_LENGTHS), Ok(10208));
    assert_eq!(Version::Micro(3).fetch(EcLevel::M, &DATA_LENGTHS), Ok(68));
    assert_eq!(Version::Micro(1).fetch(EcLevel::M, &DATA_LENGTHS), Err(QrError::InvalidVersion));
    assert_eq!(Version::Normal(41).fetch(EcLevel::L, &DATA_LENGTHS), Err(QrError::InvalidVersion));
    assert_eq!(Version::Normal(0).fetch(EcLevel::L, &DATA_LENGTHS), Err(QrError::InvalidVersion));
}

#[test]
fn color_select() {
    assert_eq!(Color::Dark.select(1, 0), 1);
    assert_eq!(Color::Light.select(1, 0), 0);
    assert_eq!(!Color::Dark, Color::Light);
    assert_eq!(EcLevel::Q.index(), 2);
}
