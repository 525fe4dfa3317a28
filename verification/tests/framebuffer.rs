use minikernel::framebuffer::console::Console;
use minikernel::framebuffer::pixel::{FbGeometry, FrameBuffer};
use minikernel::framebuffer::{Color, Font};

const X_GLYPH: [u8; 8] = [0x81, 0x42, 0x24, 0x18, 0x18, 0x24, 0x42, 0x81];

fn psf1_font() -> &'static [u8] {
    let mut data = vec![0x36, 0x04, 0x00, 0x08];
    for code in 0..256usize {
        if code == 'A' as usize {
            data.extend_from_slice(&X_GLYPH);
        } else {
            data.extend_from_slice(&[0u8; 8]);
        }
    }
    Box::leak(data.into_boxed_slice())
}

fn psf2_font() -> &'static [u8] {
    let mut data = vec![0x72, 0xb5, 0x4a, 0x86];
    for field in [0u32, 32, 0, 256, 16, 8, 12] {
        data.extend_from_slice(&field.to_le_bytes());
    }
    data.extend(std::iter::repeat(0u8).take(256 * 16));
    Box::leak(data.into_boxed_slice())
}

fn framebuffer(width: u64, height: u64) -> FrameBuffer {
    let pitch = width * 4;
    let mem: &'static mut [u8] = Box::leak(vec![0u8; (pitch * height) as usize].into_boxed_slice());
    FrameBuffer::new(0xfd00_0000, FbGeometry { width, height, pitch, bpp: 32 }, mem)
}

fn pixel(fb: &FrameBuffer, x: u64, y: u64) -> u32 {
    let off = (y * fb.pitch() + x * 4) as usize;
    let m = fb.memory();
    u32::from_le_bytes([m[off], m[off + 1], m[off + 2], m[off + 3]])
}

const RED: u32 = 0xFFFF_0000;
const BLACK: u32 = 0xFF00_0000;

#[test]
fn color_to_rgba() {
    assert_eq!(Color::white().to_rgba(), 0xFFFF_FFFF);
    assert_eq!(Color::black().to_rgba(), 0xFF00_0000);
    assert_eq!(Color::red().to_rgba(), 0xFFFF_0000);
    assert_eq!(Color::green().to_rgba(), 0xFF00_FF00);
    assert_eq!(Color::blue().to_rgba(), 0xFF00_00FF);
    assert_eq!(Color { r: 0x12, g: 0x34, b: 0x56 }.to_rgba(), 0xFF12_3456);
}

#[test]
fn color_to_bgra() {
    assert_eq!(Color::red().to_bgra(), 0xFF00_00FF);
    assert_eq!(Color::blue().to_bgra(), 0xFFFF_0000);
    assert_eq!(Color { r: 0x12, g: 0x34, b: 0x56 }.to_bgra(), 0xFF56_3412);
}

#[test]
fn law_bgra_swaps_red_and_blue() {
    let c = Color { r: 1, g: 2, b: 3 };
    assert_eq!(c.to_bgra(), Color { r: 3, g: 2, b: 1 }.to_rgba());
}

#[test]
fn framebuffer_getters() {
    let fb = framebuffer(4, 3);
    assert_eq!((fb.width(), fb.height(), fb.pitch(), fb.addr()), (4, 3, 16, 0xfd00_0000));
    assert_eq!(fb.memory().len(), 48);
}

#[test]
fn put_pixel_stores_rgba_little_endian() {
    let mut fb = framebuffer(4, 3);
    fb.put_pixel(1, 2, Color::red());
    assert_eq!(&fb.memory()[36..40], &[0x00, 0x00, 0xFF, 0xFF]);
    assert_eq!(pixel(&fb, 1, 2), RED);
    assert!(fb.memory()[..36].iter().all(|&b| b == 0));
}

#[test]
fn put_pixel_off_screen_draws_nothing() {
    let mut fb = framebuffer(4, 3);
    fb.put_pixel(4, 0, Color::red());
    fb.put_pixel(0, 3, Color::red());
    assert!(fb.memory().iter().all(|&b| b == 0));
}

#[test]
fn clear_fills_every_pixel() {
    let mut fb = framebuffer(4, 3);
    fb.clear(Color::blue());
    for y in 0..3 {
        for x in 0..4 {
            assert_eq!(pixel(&fb, x, y), 0xFF00_00FF);
        }
    }
}

#[test]
fn clear_fills_every_row_with_padding() {
    // Rows are wider than their pixels: every pixel is cleared, the padding is not.
    let mem: &'static mut [u8] = Box::leak(vec![0u8; 2 * 12].into_boxed_slice());
    let mut fb = FrameBuffer::new(0, FbGeometry { width: 2, height: 2, pitch: 12, bpp: 32 }, mem);
    fb.clear(Color::white());
    for y in 0..2 {
        assert!(fb.memory()[y * 12..y * 12 + 8].iter().all(|&b| b == 0xFF));
        assert!(fb.memory()[y * 12 + 8..y * 12 + 12].iter().all(|&b| b == 0));
    }
}

#[test]
fn clear_one_pixel_wide_screen() {
    let mem: &'static mut [u8] = Box::leak(vec![7u8; 16].into_boxed_slice());
    let mut fb = FrameBuffer::new(0, FbGeometry { width: 1, height: 2, pitch: 8, bpp: 32 }, mem);
    fb.clear(Color::black());
    assert_eq!(pixel(&fb, 0, 0), BLACK);
    assert_eq!(pixel(&fb, 0, 1), BLACK);
    assert_eq!(&fb.memory()[4..8], &[7, 7, 7, 7]);
}

#[test]
fn psf1_font_parses() {
    let font = Font::from_bytes(psf1_font()).unwrap();
    assert_eq!((font.width(), font.height()), (8, 8));
}

#[test]
fn psf2_font_parses() {
    let font = Font::from_bytes(psf2_font()).unwrap();
    assert_eq!((font.width(), font.height()), (12, 8));
}

#[test]
fn not_a_font() {
    assert!(Font::from_bytes(b"hello world").is_none());
    assert!(Font::from_bytes(&[0x36]).is_none());
    assert!(Font::from_bytes(&[]).is_none());
}

#[test]
fn draw_char_paints_glyph() {
    let font = Font::from_bytes(psf1_font()).unwrap();
    let mut fb = framebuffer(16, 16);
    font.draw_char(&mut fb, 0, 0, 'A', Color::red(), Color::black());
    for row in 0..8u64 {
        for col in 0..8u64 {
            let set = X_GLYPH[row as usize] & (0x80 >> col) != 0;
            assert_eq!(pixel(&fb, col, row), if set { RED } else { BLACK });
        }
    }
    assert_eq!(pixel(&fb, 8, 0), 0);
    assert_eq!(pixel(&fb, 0, 8), 0);
}

#[test]
fn draw_char_clips_at_screen_edge() {
    let font = Font::from_bytes(psf1_font()).unwrap();
    let mut fb = framebuffer(16, 16);
    font.draw_char(&mut fb, 12, 12, 'A', Color::red(), Color::black());
    assert_eq!(pixel(&fb, 12, 12), RED);
    assert_eq!(pixel(&fb, 13, 12), BLACK);
    assert_eq!(pixel(&fb, 15, 15), RED);
    assert_eq!(pixel(&fb, 11, 12), 0);
}

#[test]
fn draw_char_off_screen_or_missing_glyph() {
    let font = Font::from_bytes(psf1_font()).unwrap();
    let mut fb = framebuffer(16, 16);
    font.draw_char(&mut fb, 16, 0, 'A', Color::red(), Color::black());
    font.draw_char(&mut fb, 0, 16, 'A', Color::red(), Color::black());
    let tiny: &'static [u8] = Box::leak(vec![0x36, 0x04, 0, 8, 0xff, 0xff, 0xff, 0xff, 0xff, 0xff, 0xff, 0xff].into_boxed_slice());
    let small = Font::from_bytes(tiny).unwrap();
    small.draw_char(&mut fb, 0, 0, 'A', Color::red(), Color::black());
    assert!(fb.memory().iter().all(|&b| b == 0));
    small.draw_char(&mut fb, 0, 0, '\0', Color::red(), Color::black());
    assert_eq!(pixel(&fb, 7, 7), RED);
}

#[test]
fn draw_string_places_characters_side_by_side() {
    let font = Font::from_bytes(psf1_font()).unwrap();
    let mut fb = framebuffer(16, 16);
    font.draw_string(&mut fb, 0, 8, "AA", Color::red(), Color::black());
    assert_eq!(pixel(&fb, 0, 8), RED);
    assert_eq!(pixel(&fb, 8, 8), RED);
    assert_eq!(pixel(&fb, 1, 8), BLACK);
    assert_eq!(pixel(&fb, 0, 0), 0);
}

#[test]
fn console_starts_at_top_left() {
    let font = Font::from_bytes(psf1_font()).unwrap();
    let console = Console::new(framebuffer(32, 32), font);
    assert_eq!(console.cursor(), (0, 0));
}

#[test]
fn console_putchar_advances_and_wraps() {
    let font = Font::from_bytes(psf1_font()).unwrap();
    let mut console = Console::new(framebuffer(32, 32), font);
    console.putchar('A');
    assert_eq!(console.cursor(), (8, 0));
    assert_eq!(pixel(console.framebuffer(), 0, 0), 0xFFFF_FFFF);
    console.write_str("AA");
    assert_eq!(console.cursor(), (24, 0));
    console.putchar('A');
    assert_eq!(console.cursor(), (0, 8));
    assert_eq!(pixel(console.framebuffer(), 24, 0), 0xFFFF_FFFF);
}

#[test]
fn console_carriage_return_and_tab() {
    let font = Font::from_bytes(psf1_font()).unwrap();
    let mut console = Console::new(framebuffer(128, 16), font);
    console.write_str("AA\r");
    assert_eq!(console.cursor(), (0, 0));
    console.putchar('\t');
    assert_eq!(console.cursor(), (64, 0));
    console.putchar('A');
    console.putchar('\t');
    assert_eq!(console.cursor(), (0, 8));
}

#[test]
fn console_scrolls_at_bottom() {
    let font = Font::from_bytes(psf1_font()).unwrap();
    let mut console = Console::new(framebuffer(32, 32), font);
    console.set_colors(Color::red(), Color::black());
    console.clear();
    console.write_str("\nA");
    assert_eq!(console.cursor(), (8, 8));
    assert_eq!(pixel(console.framebuffer(), 0, 8), RED);
    console.write_str("\n\n");
    assert_eq!(console.cursor(), (0, 24));
    console.putchar('\n');
    assert_eq!(console.cursor(), (0, 24));
    // The line that held the glyph moved up by one text line.
    assert_eq!(pixel(console.framebuffer(), 0, 0), RED);
    assert_eq!(pixel(console.framebuffer(), 1, 0), BLACK);
    assert_eq!(pixel(console.framebuffer(), 0, 8), BLACK);
    assert_eq!(pixel(console.framebuffer(), 0, 31), BLACK);
}

#[test]
fn console_clear_resets_cursor() {
    let font = Font::from_bytes(psf1_font()).unwrap();
    let mut console = Console::new(framebuffer(32, 32), font);
    console.write_str("A\nA");
    console.clear();
    assert_eq!(console.cursor(), (0, 0));
    assert!(console.framebuffer().memory().chunks(4).all(|p| p == [0, 0, 0, 0xFF]));
}

#[test]
fn law_write_concat() {
    let font = Font::from_bytes(psf1_font()).unwrap();
    let mut one = Console::new(framebuffer(32, 32), font);
    one.write_str("A\tA\nAAAAA\n\n\nA");
    let font = Font::from_bytes(psf1_font()).unwrap();
    let mut two = Console::new(framebuffer(32, 32), font);
    two.write_str("A\tA\nAA");
    two.write_str("AAA\n\n\nA");
    assert_eq!(one.cursor(), two.cursor());
    assert_eq!(one.framebuffer().memory(), two.framebuffer().memory());
}

#[test]
fn console_on_zero_area_framebuffer() {
    let font = Font::from_bytes(psf1_font()).unwrap();
    let mem: &'static mut [u8] = Box::leak(Vec::<u8>::new().into_boxed_slice());
    let fb = FrameBuffer::new(0, FbGeometry { width: u64::MAX, height: 0, pitch: 0, bpp: 32 }, mem);
    let mut console = Console::new(fb, font);
    assert_eq!(console.cursor(), (0, 0));
    assert!(!console.writes_any_text());
    console.putchar('\r');
    assert_eq!(console.cursor(), (0, 0));
}

#[test]
fn console_writes_any_text_when_font_fits() {
    let font = Font::from_bytes(psf1_font()).unwrap();
    let console = Console::new(framebuffer(32, 32), font);
    assert!(console.writes_any_text());
    let font = Font::from_bytes(psf1_font()).unwrap();
    let console = Console::new(framebuffer(32, 4), font);
    assert!(!console.writes_any_text());
}

#[test]
fn law_cursor_stays_on_grid() {
    let font = Font::from_bytes(psf1_font()).unwrap();
    let mut console = Console::new(framebuffer(128, 32), font);
    for ch in "A\tAA\tA\rA\n\tAAAAAAAAAAAAAAAAAAAAA\n\n\n\nA".chars() {
        console.putchar(ch);
        let (x, y) = console.cursor();
        assert_eq!(x % 8, 0);
        assert_eq!(y % 8, 0);
        assert!(x < 128 && y + 8 <= 32);
    }
}

#[test]
fn law_write_empty_changes_nothing() {
    let font = Font::from_bytes(psf1_font()).unwrap();
    let mut console = Console::new(framebuffer(32, 32), font);
    console.write_str("AA");
    let before = console.framebuffer().memory().to_vec();
    console.write_str("");
    assert_eq!(console.cursor(), (16, 0));
    assert_eq!(console.framebuffer().memory(), &before[..]);
}
