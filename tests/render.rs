use qrgen::qr_code::QrCode;
use qrgen::render::{Pixel, Renderer};
use qrgen::types::{Color, EcLevel, Version};

#[derive(Clone, Copy, Debug, PartialEq)]
struct Gray(u8);

impl Pixel for Gray {
    fn default_unit_size() -> (u32, u32) {
        (2, 3)
    }

    fn default_color(color: Color) -> Self {
        Gray(color.select(0, 255))
    }
}

#[test]
fn renders_with_quiet_zone_and_module_size() {
    let q = QrCode::with_codewords(Version::Normal(1), EcLevel::L, &[0x11; 19], &[0x22; 7]).unwrap();
    let image = q.render::<Gray>().build();
    let (w, h) = (29 * 2, 29 * 3);
    assert_eq!(image.len(), w * h);
    assert_eq!(image[0], Gray(255));
    assert_eq!(image[12 * w + 8], Gray(0));
    assert_eq!(image[14 * w + 9], Gray(0));
    assert_eq!(image[15 * w + 10], Gray(255));
}

#[test]
fn renderer_settings() {
    let content = vec![Color::Dark, Color::Light, Color::Light, Color::Dark];
    let mut r: Renderer<Gray> = Renderer::new(&content, 2, 1);
    r.quiet_zone(false);
    r.module_dimensions(0, 0);
    r.dark_color(Gray(7));
    r.light_color(Gray(9));
    assert_eq!(r.build(), vec![Gray(7), Gray(9), Gray(9), Gray(7)]);
    r.quiet_zone(true);
    let image = r.build();
    assert_eq!(image.len(), 16);
    assert_eq!(image[0], Gray(9));
    assert_eq!(image[5], Gray(7));
    assert_eq!(image[6], Gray(9));
    assert_eq!(image[10], Gray(7));
}
