//! PSF (PC Screen Font) bitmap fonts, versions 1 and 2.

use vstd::prelude::*;
use vstd::slice::slice_subrange;
use crate::memory::bits::bit_is_set;
use super::pixel::{
    le_bytes, lemma_paint_in_order, lemma_row_major_order, paint, pixel_bytes, writes_in_order, Color,
    FbGeometry, FrameBuffer, PixelWrite,
};

verus! {

/// The data starts with the PSF1 magic bytes `36 04`.
pub open spec fn is_psf1(data: Seq<u8>) -> bool {
    data.len() >= 2 && data[0] == 0x36 && data[1] == 0x04
}

/// The data starts with the PSF2 magic bytes `72 b5 4a 86`.
pub open spec fn is_psf2(data: Seq<u8>) -> bool {
    data.len() >= 4 && data[0] == 0x72 && data[1] == 0xb5 && data[2] == 0x4a && data[3] == 0x86
}

/// The header that the magic announces is all there: 4 bytes for PSF1, 32 for PSF2.
pub open spec fn header_complete(data: Seq<u8>) -> bool {
    (is_psf1(data) ==> data.len() >= 4) && (is_psf2(data) ==> data.len() >= 32)
}

/// Whether the header that the magic of `data` announces is all there.
pub fn has_complete_header(data: &[u8]) -> (r: bool)
    ensures
        r == header_complete(data@),
{
    let n = data.len();
    let psf1 = n >= 2 && data[0] == 0x36 && data[1] == 0x04;
    let psf2 = n >= 4 && data[0] == 0x72 && data[1] == 0xb5 && data[2] == 0x4a && data[3] == 0x86;
    (!psf1 || n >= 4) && (!psf2 || n >= 32)
}

/// The little-endian 32-bit number at byte `off`.
pub open spec fn le_u32_at(data: Seq<u8>, off: int) -> int {
    data[off] + data[off + 1] * 0x100 + data[off + 2] * 0x1_0000 + data[off + 3] * 0x100_0000
}

pub open spec fn min_of(a: int, b: int) -> int {
    if a < b {
        a
    } else {
        b
    }
}

/// A bitmap font: glyphs of `width` x `height` pixels, `bytes_per_glyph` bytes each,
/// stored one after the other from `glyph_offset` on, indexed by character code; each
/// glyph row takes `(width + 7) / 8` bytes, most significant bit leftmost.
pub struct Font {
    data: &'static [u8],
    width: u64,
    height: u64,
    glyph_offset: u64,
    bytes_per_glyph: u64,
}

impl Font {
    /// The font's dimensions each fit in the 32 bits a PSF header gives them.
    pub open spec fn wf(self) -> bool {
        &&& self.glyph_width() <= u32::MAX
        &&& self.glyph_height() <= u32::MAX
        &&& self.glyph_offset() <= u32::MAX
        &&& self.bytes_per_glyph() <= u32::MAX
    }

    pub closed spec fn data(self) -> Seq<u8> {
        self.data@
    }

    pub closed spec fn glyph_width(self) -> u64 {
        self.width
    }

    pub closed spec fn glyph_height(self) -> u64 {
        self.height
    }

    pub closed spec fn glyph_offset(self) -> u64 {
        self.glyph_offset
    }

    pub closed spec fn bytes_per_glyph(self) -> u64 {
        self.bytes_per_glyph
    }

    /// Where the glyph of `ch` starts in the data.
    pub open spec fn glyph_start(self, ch: char) -> int {
        self.glyph_offset() + (ch as int) * self.bytes_per_glyph()
    }

    /// The data holds a whole glyph for `ch`.
    pub open spec fn has_glyph(self, ch: char) -> bool {
        self.glyph_start(ch) + self.bytes_per_glyph() <= self.data().len()
    }

    /// The bytes of the glyph of `ch`.
    pub open spec fn glyph(self, ch: char) -> Seq<u8> {
        self.data().subrange(self.glyph_start(ch), self.glyph_start(ch) + self.bytes_per_glyph())
    }

    /// The number of bytes in one row of a glyph.
    pub open spec fn bytes_per_row(self) -> int {
        (self.glyph_width() + 7) / 8
    }

    /// The pixel at (`col`, `row`) of the glyph of `ch` is set.
    pub open spec fn pixel_set(self, ch: char, row: int, col: int) -> bool {
        bit_is_set(self.glyph(ch)[row * self.bytes_per_row() + col / 8], 7 - col % 8)
    }

    /// Drawing `ch` at (`x`, `y`) touches the screen: the glyph exists and (`x`, `y`) is on it.
    pub open spec fn draws(self, g: FbGeometry, x: u64, y: u64, ch: char) -> bool {
        self.has_glyph(ch) && x < g.width && y < g.height
    }

    /// How many columns of the glyph fit on the screen right of `x`.
    pub open spec fn draw_width(self, g: FbGeometry, x: u64) -> int {
        min_of(self.glyph_width() as int, g.width - x)
    }

    /// How many rows of the glyph fit on the screen below `y`.
    pub open spec fn draw_height(self, g: FbGeometry, y: u64) -> int {
        min_of(self.glyph_height() as int, g.height - y)
    }

    /// Every glyph holds all its rows: `height` rows of `(width + 7) / 8` bytes.
    pub open spec fn glyph_rows_complete(self) -> bool {
        self.glyph_height() * self.bytes_per_row() <= self.bytes_per_glyph()
    }

    /// Drawing `ch` at (`x`, `y`) reads no byte beyond its glyph.
    pub open spec fn glyph_covers(self, g: FbGeometry, x: u64, y: u64, ch: char) -> bool {
        self.draws(g, x, y, ch) && self.draw_width(g, x) > 0 && self.draw_height(g, y) > 0 ==> (
        self.draw_height(g, y) - 1) * self.bytes_per_row() + (self.draw_width(g, x) - 1) / 8
            < self.bytes_per_glyph()
    }

    /// The pixels that drawing `ch` at (`x`, `y`) writes, row by row, each in `fg` where
    /// the glyph has its bit set and in `bg` elsewhere, clipped at the screen's edges.
    pub open spec fn glyph_writes(
        self,
        g: FbGeometry,
        x: u64,
        y: u64,
        ch: char,
        fg: Color,
        bg: Color,
    ) -> Seq<PixelWrite> {
        if self.draws(g, x, y, ch) {
            let w = self.draw_width(g, x);
            Seq::new(
                (self.draw_height(g, y) * w) as nat,
                |k: int|
                    PixelWrite {
                        x: (x + k % w) as u64,
                        y: (y + k / w) as u64,
                        color: if self.pixel_set(ch, k / w, k % w) {
                            fg
                        } else {
                            bg
                        },
                    },
            )
        } else {
            Seq::empty()
        }
    }

    /// The pixels that drawing `s` on one line from (`x`, `y`) writes: the glyphs of its
    /// characters in order, the `i`-th at `x + i * width`.
    pub open spec fn string_writes(
        self,
        g: FbGeometry,
        x: u64,
        y: u64,
        s: Seq<char>,
        fg: Color,
        bg: Color,
    ) -> Seq<PixelWrite>
        decreases s.len(),
    {
        if s.len() == 0 {
            Seq::empty()
        } else {
            self.string_writes(g, x, y, s.drop_last(), fg, bg) + self.glyph_writes(
                g,
                (x + (s.len() - 1) * self.glyph_width()) as u64,
                y,
                s.last(),
                fg,
                bg,
            )
        }
    }

    /// Drawing `s` from (`x`, `y`) keeps its positions within a `u64` and reads no byte
    /// beyond a glyph.
    pub open spec fn string_fits(self, g: FbGeometry, x: u64, y: u64, s: Seq<char>) -> bool {
        &&& x + s.len() * self.glyph_width() <= u64::MAX
        &&& forall|i: int|
            0 <= i < s.len() ==> #[trigger] self.glyph_covers(
                g,
                (x + i * self.glyph_width()) as u64,
                y,
                s[i],
            )
    }

    /// Parses a PSF1 or PSF2 font. A PSF1 font has glyphs 8 pixels wide, as many
    /// pixels high as its header's byte 3 says, one byte per row, starting after the
    /// 4-byte header. A PSF2 header gives the header size (bytes 8..12), the bytes per
    /// glyph (20..24), the height (24..28) and the width (28..32), little-endian.
    /// Anything else is not a font.
    pub fn from_bytes(data: &'static [u8]) -> (r: Option<Self>)
        requires
            header_complete(data@),
        ensures
            r is None <==> !is_psf1(data@) && !is_psf2(data@),
            r matches Some(f) ==> f.data() == data@ && f.wf(),
            is_psf1(data@) ==> (r matches Some(f) && f.glyph_width() == 8 && f.glyph_height()
                == data@[3] && f.glyph_offset() == 4 && f.bytes_per_glyph() == data@[3]),
            is_psf2(data@) ==> (r matches Some(f) && f.glyph_width() == le_u32_at(data@, 28)
                && f.glyph_height() == le_u32_at(data@, 24) && f.glyph_offset() == le_u32_at(
                data@,
                8,
            ) && f.bytes_per_glyph() == le_u32_at(data@, 20)),
    {
        if data.len() < 2 {
            return None;
        }
        if data[0] == 0x36 && data[1] == 0x04 {
            let height = data[3] as u64;
            return Some(
                Font { data, width: 8, height, glyph_offset: 4, bytes_per_glyph: height },
            );
        }
        if data.len() >= 4 && data[0] == 0x72 && data[1] == 0xb5 && data[2] == 0x4a && data[3]
            == 0x86 {
            let width = read_le_u32(data, 28);
            let height = read_le_u32(data, 24);
            let glyph_offset = read_le_u32(data, 8);
            let bytes_per_glyph = read_le_u32(data, 20);
            return Some(Font { data, width, height, glyph_offset, bytes_per_glyph });
        }
        None
    }

    /// Whether every glyph holds all its rows.
    pub fn has_complete_glyphs(&self) -> (r: bool)
        requires
            self.wf(),
        ensures
            r == self.glyph_rows_complete(),
    {
        proof {
            assert(self.height * ((self.width + 7) / 8) <= 0xFFFF_FFFF * 0x2000_0000) by (nonlinear_arith)
                requires
                    self.height <= 0xFFFF_FFFF,
                    self.width <= 0xFFFF_FFFF,
            ;
        }
        self.height * ((self.width + 7) / 8) <= self.bytes_per_glyph
    }

    /// With complete glyphs, drawing any character anywhere reads no byte beyond its glyph.
    pub proof fn lemma_complete_glyphs_cover(self, g: FbGeometry, x: u64, y: u64, ch: char)
        requires
            self.glyph_rows_complete(),
        ensures
            self.glyph_covers(g, x, y, ch),
    {
        if self.draws(g, x, y, ch) && self.draw_width(g, x) > 0 && self.draw_height(g, y) > 0 {
            let dw = self.draw_width(g, x);
            let dh = self.draw_height(g, y);
            let bpr = self.bytes_per_row();
            let w = self.glyph_width() as int;
            let h = self.glyph_height() as int;
            assert((dh - 1) * bpr + (dw - 1) / 8 < h * bpr) by (nonlinear_arith)
                requires
                    0 < dh <= h,
                    0 < dw <= w,
                    bpr == (w + 7) / 8,
            ;
        }
    }

    pub fn width(&self) -> (r: u64)
        ensures
            r == self.glyph_width(),
    {
        self.width
    }

    pub fn height(&self) -> (r: u64)
        ensures
            r == self.glyph_height(),
    {
        self.height
    }

    /// The glyph of `ch`, or `None` when the data ends before it does.
    fn glyph_data(&self, ch: char) -> (r: Option<&'static [u8]>)
        requires
            self.wf(),
        ensures
            r is Some <==> self.has_glyph(ch),
            r matches Some(gl) ==> gl@ == self.glyph(ch),
    {
        let code = ch as u64;
        proof {
            assert(code <= 0x10FFFF);
            assert(code * self.bytes_per_glyph <= 0x10FFFF * 0xFFFF_FFFF) by (nonlinear_arith)
                requires
                    code <= 0x10FFFF,
                    self.bytes_per_glyph <= 0xFFFF_FFFF,
            ;
        }
        let start = self.glyph_offset + code * self.bytes_per_glyph;
        let len = self.data.len();
        if start + self.bytes_per_glyph > len as u64 {
            return None;
        }
        let s = start as usize;
        let e = (start + self.bytes_per_glyph) as usize;
        Some(slice_subrange(self.data, s, e))
    }

    /// Draws `ch` with its top left corner at (`x`, `y`): each pixel of the glyph in
    /// `fg` where its bit is set and in `bg` elsewhere, clipped at the screen's edges.
    /// Nothing is drawn when the font has no glyph for `ch` or (`x`, `y`) is off screen.
    pub fn draw_char(&self, fb: &mut FrameBuffer, x: u64, y: u64, ch: char, fg: Color, bg: Color)
        requires
            old(fb).wf(),
            self.wf(),
            self.glyph_covers(old(fb).geometry(), x, y, ch),
        ensures
            final(fb).wf(),
            final(fb).geometry() == old(fb).geometry(),
            final(fb).base_addr() == old(fb).base_addr(),
            final(fb).bytes() == paint(
                old(fb).geometry(),
                old(fb).bytes(),
                self.glyph_writes(old(fb).geometry(), x, y, ch, fg, bg),
            ),
            old(fb).geometry().bpp / 8 >= 4 && self.draws(old(fb).geometry(), x, y, ch) ==> forall|
                row: int,
                col: int,
            |
                0 <= row < self.draw_height(old(fb).geometry(), y) && 0 <= col < self.draw_width(
                    old(fb).geometry(),
                    x,
                ) ==> #[trigger] pixel_bytes(
                    final(fb).bytes(),
                    old(fb).geometry().pixel_offset(x + col, y + row),
                ) == le_bytes(
                    if self.data()[self.glyph_offset() + (ch as int) * self.bytes_per_glyph() + row
                        * ((self.glyph_width() + 7) / 8) + col / 8] & (0x80u8 >> ((col % 8) as u8))
                        != 0 {
                        fg.rgba()
                    } else {
                        bg.rgba()
                    },
                ),
    {
        let ghost g = fb.geometry();
        let ghost before = fb.bytes();
        let ghost writes = self.glyph_writes(g, x, y, ch, fg, bg);
        proof {
            if g.bpp / 8 >= 4 && self.draws(g, x, y, ch) {
                self.lemma_draw_char_pixels(g, before, x, y, ch, fg, bg);
            }
        }
        let glyph = match self.glyph_data(ch) {
            Some(gl) => gl,
            None => {
                assert(writes =~= Seq::<PixelWrite>::empty());
                return ;
            },
        };
        let width = self.width;
        let height = self.height;
        let fb_width = fb.width();
        let fb_height = fb.height();
        if x >= fb_width || y >= fb_height {
            assert(writes =~= Seq::<PixelWrite>::empty());
            return ;
        }
        let bytes_per_row = (width + 7) / 8;
        let max_draw_width = if width < fb_width - x {
            width
        } else {
            fb_width - x
        };
        let max_draw_height = if height < fb_height - y {
            height
        } else {
            fb_height - y
        };
        let mut row: u64 = 0;
        while row < max_draw_height
            invariant
                fb.wf(),
                self.wf(),
                fb.geometry() == g,
                fb.base_addr() == old(fb).base_addr(),
                g == old(fb).geometry(),
                before == old(fb).bytes(),
                self.draws(g, x, y, ch),
                self.glyph_covers(g, x, y, ch),
                glyph@ == self.glyph(ch),
                glyph@.len() == self.bytes_per_glyph(),
                bytes_per_row == self.bytes_per_row(),
                max_draw_width == self.draw_width(g, x),
                max_draw_height == self.draw_height(g, y),
                height == self.glyph_height(),
                height <= u32::MAX,
                width == self.glyph_width(),
                width <= u32::MAX,
                writes == self.glyph_writes(g, x, y, ch, fg, bg),
                row <= max_draw_height,
                fb.bytes() == paint(g, before, writes.take(row * max_draw_width)),
            decreases max_draw_height - row,
        {
            proof {
                assert(row * bytes_per_row <= u32::MAX * 0x2000_0000) by (nonlinear_arith)
                    requires
                        row < height,
                        height <= u32::MAX,
                        bytes_per_row <= 0x2000_0000,
                ;
            }
            let row_start = row * bytes_per_row;
            let mut col: u64 = 0;
            while col < max_draw_width
                invariant
                    fb.wf(),
                    self.wf(),
                    fb.geometry() == g,
                    fb.base_addr() == old(fb).base_addr(),
                    self.draws(g, x, y, ch),
                    self.glyph_covers(g, x, y, ch),
                    glyph@ == self.glyph(ch),
                    glyph@.len() == self.bytes_per_glyph(),
                    bytes_per_row == self.bytes_per_row(),
                    max_draw_width == self.draw_width(g, x),
                    max_draw_height == self.draw_height(g, y),
                    writes == self.glyph_writes(g, x, y, ch, fg, bg),
                    row < max_draw_height,
                    row_start == row * bytes_per_row,
                    col <= max_draw_width,
                    fb.bytes() == paint(g, before, writes.take(row * max_draw_width + col)),
                decreases max_draw_width - col,
            {
                let ghost k = row * max_draw_width + col;
                proof {
                    assert((max_draw_height - 1) * bytes_per_row + (max_draw_width - 1) / 8
                        < glyph@.len());
                    assert(row * bytes_per_row + col / 8 <= (max_draw_height - 1) * bytes_per_row
                        + (max_draw_width - 1) / 8) by (nonlinear_arith)
                        requires
                            row < max_draw_height,
                            col < max_draw_width,
                            bytes_per_row >= 0,
                    ;
                    vstd::arithmetic::div_mod::lemma_fundamental_div_mod_converse(
                        k,
                        max_draw_width as int,
                        row as int,
                        col as int,
                    );
                    assert(k < max_draw_height * max_draw_width) by (nonlinear_arith)
                        requires
                            k == row * max_draw_width + col,
                            row < max_draw_height,
                            col < max_draw_width,
                    ;
                }
                let byte_idx = (row_start + col / 8) as usize;
                let shift = (7 - col % 8) as u8;
                let bit_mask: u8 = 1u8 << shift;
                let byte = glyph[byte_idx];
                let bit = (byte & bit_mask) != 0;
                proof {
                    assert(((byte & (1u8 << shift)) != 0u8) == ((byte >> shift) & 1u8 == 1u8))
                        by (bit_vector)
                        requires
                            shift < 8,
                    ;
                    assert(bit == self.pixel_set(ch, row as int, col as int));
                }
                let color = if bit {
                    fg
                } else {
                    bg
                };
                fb.put_pixel(x + col, y + row, color);
                proof {
                    assert(writes.take(k + 1).drop_last() =~= writes.take(k));
                    assert(writes[k] == PixelWrite { x: (x + col) as u64, y: (y + row) as u64, color });
                }
                col = col + 1;
            }
            proof {
                assert(row * max_draw_width + max_draw_width == (row + 1) * max_draw_width)
                    by (nonlinear_arith);
            }
            row = row + 1;
        }
        proof {
            assert(writes.take(max_draw_height * max_draw_width) =~= writes);
        }
    }

    /// Draws `s` on one line from (`x`, `y`), each character `width` pixels right of
    /// the one before; line breaks are drawn as glyphs too.
    pub fn draw_string(&self, fb: &mut FrameBuffer, x: u64, y: u64, s: &str, fg: Color, bg: Color)
        requires
            old(fb).wf(),
            self.wf(),
            self.string_fits(old(fb).geometry(), x, y, s@),
        ensures
            final(fb).wf(),
            final(fb).geometry() == old(fb).geometry(),
            final(fb).base_addr() == old(fb).base_addr(),
            final(fb).bytes() == paint(
                old(fb).geometry(),
                old(fb).bytes(),
                self.string_writes(old(fb).geometry(), x, y, s@, fg, bg),
            ),
    {
        let ghost g = fb.geometry();
        let ghost before = fb.bytes();
        let mut cx = x;
        let ghost mut done: Seq<char> = Seq::empty();
        broadcast use vstd::string::axiom_spec_iter;
        for ch in it: s.chars()
            invariant
                it.seq() == s@,
                fb.wf(),
                self.wf(),
                fb.geometry() == g,
                fb.base_addr() == old(fb).base_addr(),
                g == old(fb).geometry(),
                before == old(fb).bytes(),
                self.string_fits(g, x, y, s@),
                done == s@.take(it.index() as int),
                cx == x + done.len() * self.glyph_width(),
                fb.bytes() == paint(g, before, self.string_writes(g, x, y, done, fg, bg)),
        {
            proof {
                assert(it.index() < s@.len());
                assert(s@[it.index() as int] == ch);
                assert(self.glyph_covers(g, (x + it.index() * self.glyph_width()) as u64, y, s@[it.index() as int]));
                assert(x + (it.index() + 1) * self.glyph_width() <= x + s@.len() * self.glyph_width()) by (nonlinear_arith)
                    requires it.index() + 1 <= s@.len(), self.glyph_width() >= 0;
            }
            self.draw_char(fb, cx, y, ch, fg, bg);
            proof {
                let next = done.push(ch);
                assert(next =~= s@.take(it.index() + 1));
                assert(next.drop_last() =~= done);
                lemma_paint_append(g, before, self.string_writes(g, x, y, done, fg, bg), self.glyph_writes(g, cx, y, ch, fg, bg));
                done = next;
                assert(x + done.len() * self.glyph_width() == cx + self.glyph_width()) by (nonlinear_arith)
                    requires
                        cx == x + (done.len() - 1) * self.glyph_width(),
                ;
            }
            cx = cx + self.width;
        }
        proof {
            assert(done =~= s@);
        }
    }
}

fn read_le_u32(data: &[u8], off: usize) -> (r: u64)
    requires
        off + 4 <= data@.len(),
    ensures
        r == le_u32_at(data@, off as int),
        r <= u32::MAX,
{
    data[off] as u64 + data[off + 1] as u64 * 0x100 + data[off + 2] as u64 * 0x1_0000
        + data[off + 3] as u64 * 0x100_0000
}

/// Painting `a` and then `b` is painting `a + b`.
pub proof fn lemma_paint_append(g: FbGeometry, bytes: Seq<u8>, a: Seq<PixelWrite>, b: Seq<PixelWrite>)
    ensures
        paint(g, paint(g, bytes, a), b) == paint(g, bytes, a + b),
    decreases b.len(),
{
    if b.len() == 0 {
        assert(a + b =~= a);
    } else {
        lemma_paint_append(g, bytes, a, b.drop_last());
        assert((a + b).drop_last() =~= a + b.drop_last());
    }
}

} // verus!

verus! {

proof fn lemma_msb_first(b: u8, c: u8)
    requires
        c < 8,
    ensures
        bit_is_set(b, 7 - c) == (b & (0x80u8 >> c) != 0),
{
    let s: u8 = (7 - c) as u8;
    assert(((b >> s) & 1u8 == 1u8) == (b & (0x80u8 >> c) != 0u8)) by (bit_vector)
        requires
            c < 8,
            s + c == 7,
    ;
}

impl Font {
    /// Drawing `ch` paints its glyph as the PSF format stores it: the pixel at column
    /// `col` and row `row` of the glyph, on the screen at (`x + col`, `y + row`), gets `fg`
    /// exactly when bit `7 - col % 8` of byte `col / 8` of the glyph's row is set, the
    /// most significant bit being the leftmost pixel, and `bg` otherwise. This holds for
    /// every drawn pixel when pixels are at least four bytes apart, so that no pixel's
    /// write reaches into the next.
    pub proof fn lemma_draw_char_pixels(
        self,
        g: FbGeometry,
        bytes: Seq<u8>,
        x: u64,
        y: u64,
        ch: char,
        fg: Color,
        bg: Color,
    )
        requires
            self.wf(),
            bytes.len() == g.size(),
            g.writes_fit(),
            g.bpp / 8 >= 4,
            self.draws(g, x, y, ch),
            self.glyph_covers(g, x, y, ch),
        ensures
            forall|row: int, col: int|
                0 <= row < self.draw_height(g, y) && 0 <= col < self.draw_width(g, x)
                    ==> #[trigger] pixel_bytes(
                    paint(g, bytes, self.glyph_writes(g, x, y, ch, fg, bg)),
                    g.pixel_offset(x + col, y + row),
                ) == le_bytes(
                    if self.data()[self.glyph_offset() + (ch as int) * self.bytes_per_glyph() + row
                        * ((self.glyph_width() + 7) / 8) + col / 8] & (0x80u8 >> ((col % 8) as u8))
                        != 0 {
                        fg.rgba()
                    } else {
                        bg.rgba()
                    },
                ),
    {
        let writes = self.glyph_writes(g, x, y, ch, fg, bg);
        let w = self.draw_width(g, x);
        let h = self.draw_height(g, y);
        if w > 0 && h > 0 {
            assert(writes.len() == h * w);
            assert forall|k: int| 0 <= k < writes.len() implies #[trigger] writes[k].x < g.width
                && writes[k].y < g.height by {
                vstd::arithmetic::div_mod::lemma_fundamental_div_mod(k, w);
                assert(k / w < h) by (nonlinear_arith)
                    requires
                        k == w * (k / w) + k % w,
                        0 <= k % w,
                        k < h * w,
                        w > 0,
                ;
                assert(0 <= k / w) by (nonlinear_arith)
                    requires
                        k >= 0,
                        w > 0,
                ;
            }
            assert forall|j: int, k: int| 0 <= j < k < writes.len() implies (#[trigger] writes[j].y
                < #[trigger] writes[k].y || (writes[j].y == writes[k].y && writes[j].x
                < writes[k].x)) by {
                lemma_row_major_order(w, j, k);
                vstd::arithmetic::div_mod::lemma_fundamental_div_mod(j, w);
                vstd::arithmetic::div_mod::lemma_fundamental_div_mod(k, w);
                assert(0 <= j / w) by (nonlinear_arith)
                    requires
                        j >= 0,
                        w > 0,
                ;
                assert(k / w < h) by (nonlinear_arith)
                    requires
                        k == w * (k / w) + k % w,
                        0 <= k % w,
                        k < h * w,
                        w > 0,
                ;
            }
            lemma_paint_in_order(g, bytes, writes);
            assert forall|row: int, col: int|
                0 <= row < h && 0 <= col < w implies #[trigger] pixel_bytes(
                paint(g, bytes, writes),
                g.pixel_offset(x + col, y + row),
            ) == le_bytes(
                if self.data()[self.glyph_offset() + (ch as int) * self.bytes_per_glyph() + row * ((
                self.glyph_width() + 7) / 8) + col / 8] & (0x80u8 >> ((col % 8) as u8)) != 0 {
                    fg.rgba()
                } else {
                    bg.rgba()
                },
            ) by {
                let k = row * w + col;
                vstd::arithmetic::div_mod::lemma_fundamental_div_mod_converse(k, w, row, col);
                assert(0 <= k < h * w) by (nonlinear_arith)
                    requires
                        k == row * w + col,
                        0 <= row < h,
                        0 <= col < w,
                ;
                let bpr = (self.glyph_width() + 7) / 8;
                let idx = row * bpr + col / 8;
                assert(idx < self.bytes_per_glyph()) by (nonlinear_arith)
                    requires
                        idx == row * bpr + col / 8,
                        0 <= row < h,
                        0 <= col < w,
                        bpr >= 0,
                        (h - 1) * bpr + (w - 1) / 8 < self.bytes_per_glyph(),
                ;
                assert(0 <= idx) by (nonlinear_arith)
                    requires
                        idx == row * bpr + col / 8,
                        0 <= row,
                        0 <= col,
                        bpr >= 0,
                ;
                assert(self.glyph(ch)[idx] == self.data()[self.glyph_start(ch) + idx]);
                lemma_msb_first(self.glyph(ch)[idx], (col % 8) as u8);
                assert(writes[k].x == x + col && writes[k].y == y + row);
            }
        }
    }
}

} // verus!
