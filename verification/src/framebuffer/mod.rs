//! Drawing on a linear framebuffer: pixels, PSF bitmap fonts and a text console.

pub mod console;
pub mod font;
pub mod pixel;

pub use font::Font;
pub use pixel::Color;
