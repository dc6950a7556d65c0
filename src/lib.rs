//! A QR Code symbol generator: segment optimisation, bit stream assembly,
//! canvas layout and mask selection, each stated and proved with Verus.
pub mod types;
pub mod optimize;
pub mod bits;
pub mod canvas;
pub mod qr_code;
pub mod render;
