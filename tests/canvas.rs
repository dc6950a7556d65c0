use qrgen::canvas::{
    checkerboard, diagonal_lines, diamonds, fields, horizontal_lines, large_checkerboard, meadow,
    vertical_lines, Canvas, MaskPattern, Module,
};
use qrgen::qr_code::QrCode;
use qrgen::types::{Color, EcLevel, QrError, Version};

#[test]
fn mask_predicates() {
    assert!(checkerboard(1, 1));
    assert!(!checkerboard(1, 2));
    assert!(horizontal_lines(5, 4));
    assert!(!horizontal_lines(4, 5));
    assert!(vertical_lines(6, 1));
    assert!(!vertical_lines(5, 0));
    assert!(diagonal_lines(1, 2));
    assert!(!diagonal_lines(1, 1));
    assert!(large_checkerboard(2, 1));
    assert!(!large_checkerboard(3, 0));
    assert!(fields(6, 1));
    assert!(!fields(1, 1));
    assert!(diamonds(1, 1));
    assert!(!diamonds(1, 3));
    assert!(meadow(1, 3));
    assert!(!meadow(1, 1));
}

#[test]
fn color_projection() {
    assert_eq!(Color::from(Module::Empty), Color::Light);
    assert_eq!(Color::from(Module::Masked(Color::Dark)), Color::Dark);
    assert_eq!(Color::from(Module::Unmasked(Color::Dark)), Color::Dark);
    assert_eq!(Color::from(Module::Unmasked(Color::Light)), Color::Light);
    assert!(Module::Masked(Color::Dark).is_dark());
    assert!(!Module::Empty.is_dark());
    assert_eq!(!Color::Light, Color::Dark);
}

#[test]
fn module_masking() {
    assert_eq!(Module::Empty.mask(true), Module::Masked(Color::Dark));
    assert_eq!(Module::Unmasked(Color::Light).mask(true), Module::Masked(Color::Dark));
    assert_eq!(Module::Unmasked(Color::Dark).mask(false), Module::Masked(Color::Dark));
    assert_eq!(Module::Masked(Color::Light).mask(true), Module::Masked(Color::Light));
}

#[test]
fn negative_coordinates_wrap() {
    let mut canvas = Canvas::new(Version::Normal(1), EcLevel::L);
    canvas.put(-1, -1, Color::Dark);
    assert_eq!(canvas.get(20, 20), Module::Masked(Color::Dark));
    *canvas.get_mut(3, -2) = Module::Unmasked(Color::Light);
    assert_eq!(canvas.get(3, 19), Module::Unmasked(Color::Light));
    assert_eq!(canvas.get(0, 0), Module::Empty);
}

#[test]
fn function_patterns_are_drawn() {
    let mut canvas = Canvas::new(Version::Normal(1), EcLevel::L);
    canvas.draw_all_functional_patterns();
    assert_eq!(canvas.get(0, 0), Module::Masked(Color::Dark));
    assert_eq!(canvas.get(1, 1), Module::Masked(Color::Light));
    assert_eq!(canvas.get(3, 3), Module::Masked(Color::Dark));
    assert_eq!(canvas.get(7, 7), Module::Masked(Color::Light));
    assert_eq!(canvas.get(-1, 0), Module::Masked(Color::Dark));
    assert_eq!(canvas.get(0, -1), Module::Masked(Color::Dark));
    assert_eq!(canvas.get(8, 6), Module::Masked(Color::Dark));
    assert_eq!(canvas.get(9, 6), Module::Masked(Color::Light));
    assert_eq!(canvas.get(8, -8), Module::Masked(Color::Dark));
    assert_eq!(canvas.get(10, 10), Module::Empty);
}

#[test]
fn alignment_pattern_of_version_two() {
    let mut canvas = Canvas::new(Version::Normal(2), EcLevel::L);
    canvas.draw_all_functional_patterns();
    assert_eq!(canvas.get(-7, -7), Module::Masked(Color::Dark));
    assert_eq!(canvas.get(-8, -7), Module::Masked(Color::Light));
    assert_eq!(canvas.get(-9, -7), Module::Masked(Color::Dark));
}

#[test]
fn data_fills_from_bottom_right() {
    let mut canvas = Canvas::new(Version::Normal(1), EcLevel::L);
    canvas.draw_all_functional_patterns();
    canvas.draw_data(&[0b1010_0000], &[]);
    assert_eq!(canvas.get(20, 20), Module::Unmasked(Color::Dark));
    assert_eq!(canvas.get(19, 20), Module::Unmasked(Color::Light));
    assert_eq!(canvas.get(20, 19), Module::Unmasked(Color::Dark));
    assert_eq!(canvas.get(19, 19), Module::Unmasked(Color::Light));
    assert_eq!(canvas.get(20, 18), Module::Unmasked(Color::Light));
    assert_eq!(canvas.get(19, 16), Module::Empty);
}

#[test]
fn masking_keeps_function_modules() {
    let mut canvas = Canvas::new(Version::Normal(1), EcLevel::M);
    canvas.draw_all_functional_patterns();
    canvas.draw_data(&[0xff; 19], &[0x00; 7]);
    canvas.apply_mask(MaskPattern::Checkerboard);
    assert_eq!(canvas.get(0, 0), Module::Masked(Color::Dark));
    assert_eq!(canvas.get(1, 1), Module::Masked(Color::Light));
    assert_eq!(canvas.get(8, 6), Module::Masked(Color::Dark));
    // (20, 20): data bit 1, checkerboard inverts it.
    assert_eq!(canvas.get(20, 20), Module::Masked(Color::Light));
    // (19, 20): data bit 1, left as it is.
    assert_eq!(canvas.get(19, 20), Module::Masked(Color::Dark));
}

#[test]
fn format_information_of_mask() {
    let mut canvas = Canvas::new(Version::Normal(1), EcLevel::M);
    canvas.draw_all_functional_patterns();
    canvas.apply_mask(MaskPattern::Checkerboard);
    // M, pattern 0: 0x5412 = 101010000010010, most significant bit first.
    let expected = [1, 0, 1, 0, 1, 0, 0, 0, 0, 0, 1, 0, 0, 1, 0];
    let main = [
        (0, 8), (1, 8), (2, 8), (3, 8), (4, 8), (5, 8), (7, 8), (8, 8), (8, 7), (8, 5), (8, 4),
        (8, 3), (8, 2), (8, 1), (8, 0),
    ];
    for (i, (x, y)) in main.iter().enumerate() {
        let c = if expected[i] == 1 { Color::Dark } else { Color::Light };
        assert_eq!(canvas.get(*x, *y), Module::Masked(c));
    }
}

#[test]
fn best_mask_is_a_masked_canvas() {
    let mut canvas = Canvas::new(Version::Normal(1), EcLevel::L);
    canvas.draw_all_functional_patterns();
    canvas.draw_data(&[0x10, 0x20, 0x0c, 0x56, 0x61, 0x80, 0xec, 0x11, 0xec], &[0x5a; 7]);
    let best = canvas.apply_best_mask();
    let colors = best.into_colors();
    assert_eq!(colors.len(), 441);
    let mut matched = 0;
    for p in [
        MaskPattern::Checkerboard,
        MaskPattern::HorizontalLines,
        MaskPattern::VerticalLines,
        MaskPattern::DiagonalLines,
        MaskPattern::LargeCheckerboard,
        MaskPattern::Fields,
        MaskPattern::Diamonds,
        MaskPattern::Meadow,
    ] {
        let mut c = canvas.clone();
        c.apply_mask(p);
        if c.into_colors() == colors {
            matched += 1;
        }
    }
    assert!(matched >= 1);
}

#[test]
fn symbol_from_codewords() {
    let q = QrCode::with_codewords(Version::Normal(1), EcLevel::L, &[0x11; 19], &[0x22; 7]).unwrap();
    assert_eq!(q.width(), 21);
    assert_eq!(q.version(), Version::Normal(1));
    assert_eq!(q.error_correction_level(), EcLevel::L);
    let colors = q.to_colors();
    assert_eq!(colors.len(), 441);
    assert_eq!(colors[0], Color::Dark);
    assert_eq!(colors[21 + 1], Color::Light);
    assert_eq!(colors[7 * 21 + 7], Color::Light);
}

#[test]
fn micro_symbols_are_refused() {
    assert!(matches!(
        QrCode::with_codewords(Version::Micro(2), EcLevel::L, &[0; 5], &[0; 5]),
        Err(QrError::InvalidVersion)
    ));
}
