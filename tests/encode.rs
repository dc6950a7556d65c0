use qrgen::bits::{encode_auto, Bits, ExtendedMode};
use qrgen::optimize::{total_encoded_len, Optimizer, Parser, Segment};
use qrgen::types::{EcLevel, Mode, QrError, Version};

fn parse(data: &[u8]) -> Vec<Segment> {
    Parser::new(data).collect_segments()
}

fn optimized(data: &[u8], version: Version) -> Vec<Segment> {
    Parser::new(data).optimize(version).collect_segments()
}

#[test]
fn numeric_input_picks_version_one() {
    let bits = encode_auto(b"01234567", EcLevel::L).unwrap();
    assert_eq!(bits.version(), Version::Normal(1));
    assert_eq!(bits.version().width(), 21);
    assert_eq!(bits.len(), 152);
    let segs = optimized(b"01234567", Version::Normal(9));
    assert_eq!(segs, vec![Segment { mode: Mode::Numeric, begin: 0, end: 8 }]);
    assert_eq!(
        bits.into_bytes(),
        vec![
            0x10, 0x20, 0x0c, 0x56, 0x61, 0x80, 0xec, 0x11, 0xec, 0x11, 0xec, 0x11, 0xec, 0x11,
            0xec, 0x11, 0xec, 0x11, 0xec
        ]
    );
}

#[test]
fn hello_world_is_alphanumeric_version_one() {
    let bits = encode_auto(b"HELLO WORLD", EcLevel::Q).unwrap();
    assert_eq!(bits.version(), Version::Normal(1));
    let segs = optimized(b"HELLO WORLD", Version::Normal(9));
    assert_eq!(segs, vec![Segment { mode: Mode::Alphanumeric, begin: 0, end: 11 }]);
    assert_eq!(
        bits.into_bytes(),
        vec![0x20, 0x5b, 0x0b, 0x78, 0xd1, 0x72, 0xdc, 0x4d, 0x43, 0x40, 0xec, 0x11, 0xec]
    );
}

#[test]
fn url_is_byte_mode_version_two() {
    let data = b"http://www.baidu.com";
    let bits = encode_auto(data, EcLevel::L).unwrap();
    assert_eq!(bits.version(), Version::Normal(2));
    assert_eq!(bits.version().width(), 25);
    assert_eq!(bits.len(), 272);
    let segs = optimized(data, Version::Normal(9));
    assert_eq!(segs, vec![Segment { mode: Mode::Byte, begin: 0, end: 20 }]);
    let bytes = bits.into_bytes();
    assert_eq!(bytes[0], 0x41);
    assert_eq!(bytes[1], 0x46);
}

#[test]
fn a1_is_one_alphanumeric_segment() {
    assert_eq!(
        parse(b"A1"),
        vec![
            Segment { mode: Mode::Alphanumeric, begin: 0, end: 1 },
            Segment { mode: Mode::Numeric, begin: 1, end: 2 },
        ]
    );
    assert_eq!(
        optimized(b"A1", Version::Normal(1)),
        vec![Segment { mode: Mode::Alphanumeric, begin: 0, end: 2 }]
    );
}

#[test]
fn shift_jis_pair_is_one_kanji_segment() {
    let data = [0x93u8, 0x5f];
    assert_eq!(parse(&data), vec![Segment { mode: Mode::Kanji, begin: 0, end: 2 }]);
    assert_eq!(
        optimized(&data, Version::Normal(1)),
        vec![Segment { mode: Mode::Kanji, begin: 0, end: 2 }]
    );
}

#[test]
fn too_long_input_fails() {
    let data = vec![0xffu8; 3000];
    assert!(matches!(encode_auto(&data, EcLevel::L), Err(QrError::DataTooLong)));
}

#[test]
fn empty_input_encodes() {
    let bits = encode_auto(b"", EcLevel::H).unwrap();
    assert_eq!(bits.version(), Version::Normal(1));
    assert_eq!(bits.len(), 72);
    assert!(parse(b"").is_empty());
}

#[test]
fn segments_cover_the_input() {
    let inputs: Vec<&[u8]> = vec![
        b"a0000A",
        b"93\xebA\xeb@ X \x8169",
        b"HELLO 123 world \x93\x5f\x81",
        b"\xeb\xc0\x81",
    ];
    for data in inputs {
        for version in [Version::Normal(1), Version::Normal(10), Version::Normal(27)] {
            let segs = optimized(data, version);
            let mut joined = Vec::new();
            let mut at = 0;
            for s in &segs {
                assert_eq!(s.begin, at);
                assert!(s.begin < s.end);
                joined.extend_from_slice(&data[s.begin..s.end]);
                at = s.end;
            }
            assert_eq!(joined, data.to_vec());
        }
    }
}

#[test]
fn optimizer_split_is_not_always_final() {
    let segs = optimized(b"a0000A", Version::Normal(1));
    assert_eq!(
        segs,
        vec![
            Segment { mode: Mode::Byte, begin: 0, end: 1 },
            Segment { mode: Mode::Alphanumeric, begin: 1, end: 6 },
        ]
    );
    let merged = Segment { mode: Mode::Byte, begin: 0, end: 6 };
    let v = Version::Normal(1);
    assert_eq!(segs[0].encoded_len(v) + segs[1].encoded_len(v), 61);
    assert_eq!(merged.encoded_len(v), 60);
}

#[test]
fn optimizer_iterates_like_it_collects() {
    let data = b"HELLO 123 world";
    let mut opt = Optimizer::new(parse(data), Version::Normal(1));
    let mut seen = Vec::new();
    while let Some(s) = opt.next() {
        seen.push(s);
    }
    assert_eq!(seen, optimized(data, Version::Normal(1)));
    assert!(opt.next().is_none());
}

#[test]
fn encoded_lengths() {
    let v = Version::Normal(1);
    let n = Segment { mode: Mode::Numeric, begin: 0, end: 8 };
    assert_eq!(n.encoded_len(v), 4 + 10 + 27);
    let k = Segment { mode: Mode::Kanji, begin: 0, end: 4 };
    assert_eq!(k.encoded_len(v), 4 + 8 + 26);
    assert_eq!(total_encoded_len(&[n, k], v), 41 + 38);
    let b = Segment { mode: Mode::Byte, begin: 0, end: 3 };
    assert_eq!(b.encoded_len(Version::Normal(10)), 4 + 16 + 24);
    assert_eq!(b.encoded_len(Version::Micro(4)), 3 + 5 + 24);
}

#[test]
fn terminator_fills_capacity() {
    for (version, ec, cap) in [
        (Version::Normal(1), EcLevel::L, 152),
        (Version::Normal(5), EcLevel::Q, 496),
        (Version::Normal(40), EcLevel::H, 10208),
    ] {
        let mut bits = Bits::new(version);
        bits.push_byte_data(b"abc").unwrap();
        bits.push_terminator(ec).unwrap();
        assert_eq!(bits.len(), cap);
    }
}

#[test]
fn terminator_on_micro_rounds_up_to_bytes() {
    let mut bits = Bits::new(Version::Micro(1));
    bits.push_numeric_data(b"12").unwrap();
    bits.push_terminator(EcLevel::L).unwrap();
    assert_eq!(bits.len(), 24);
}

#[test]
fn terminator_rejects_overfull_stream() {
    let mut bits = Bits::new(Version::Normal(1));
    bits.push_byte_data(&[0u8; 20]).unwrap();
    assert_eq!(bits.push_terminator(EcLevel::L), Err(QrError::DataTooLong));
}

#[test]
fn micro_versions_refuse_modes() {
    let mut bits = Bits::new(Version::Micro(1));
    assert_eq!(
        bits.push_mode_indicator(ExtendedMode::Data(Mode::Alphanumeric)),
        Err(QrError::UnsupportedCharacterSet)
    );
    assert_eq!(bits.push_mode_indicator(ExtendedMode::Data(Mode::Numeric)), Ok(()));
    assert_eq!(bits.len(), 0);
    let mut bits = Bits::new(Version::Micro(2));
    assert_eq!(bits.push_byte_data(b"a"), Err(QrError::UnsupportedCharacterSet));
    assert_eq!(Bits::new(Version::Micro(1)).max_len(EcLevel::M), Err(QrError::InvalidVersion));
}

#[test]
fn kanji_odd_length_is_invalid() {
    let mut bits = Bits::new(Version::Normal(1));
    assert_eq!(bits.push_kanji_data(&[0x93, 0x5f, 0x93]), Err(QrError::InvalidCharacter));
}

#[test]
fn kanji_value_in_thirteen_bits() {
    let mut bits = Bits::new(Version::Normal(1));
    bits.push_kanji_data(&[0x93, 0x5f]).unwrap();
    assert_eq!(bits.len(), 4 + 8 + 13);
    assert_eq!(bits.into_bytes(), vec![0x80, 0x16, 0xcf, 0x80]);
}

#[test]
fn count_field_overflow_is_data_too_long() {
    let mut bits = Bits::new(Version::Normal(1));
    let data = vec![b'7'; 1024];
    assert_eq!(bits.push_numeric_data(&data), Err(QrError::DataTooLong));
}

#[test]
fn alphanumeric_pairs() {
    let mut bits = Bits::new(Version::Normal(1));
    bits.push_alphanumeric_data(b"AC-42").unwrap();
    assert_eq!(bits.len(), 4 + 9 + 11 + 11 + 6);
    assert_eq!(bits.into_bytes(), vec![0x20, 0x29, 0xce, 0xe7, 0x21, 0x00]);
}

#[test]
fn kanji_writer_takes_any_encodable_pair() {
    let mut bits = Bits::new(Version::Normal(1));
    bits.push_kanji_data(&[0x81, 0x7f]).unwrap();
    assert_eq!(bits.len(), 4 + 8 + 13);
    // 0x817f - 0x8140 = 0x003f: value 63 in 13 bits.
    assert_eq!(bits.into_bytes(), vec![0x80, 0x10, 0x1f, 0x80]);
}

#[test]
fn segments_need_not_follow_each_other() {
    let data = b"12AB";
    let mut bits = Bits::new(Version::Normal(1));
    let segs = [
        Segment { mode: Mode::Alphanumeric, begin: 2, end: 4 },
        Segment { mode: Mode::Numeric, begin: 0, end: 2 },
    ];
    bits.push_segments(data, &segs).unwrap();
    assert_eq!(bits.len(), (4 + 9 + 11) + (4 + 10 + 7));
}
