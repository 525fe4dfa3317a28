//! A text console on a framebuffer: characters drawn with a bitmap font at a cursor
//! that moves right, wraps at the screen's edge and scrolls the screen at its bottom.

use vstd::prelude::*;
use super::font::Font;
use super::pixel::{le_bytes, move_bytes, paint, pixel_bytes, screen_writes, Color, FbGeometry, FrameBuffer, PixelWrite};

verus! {

/// The state of a console that its operations change.
pub ghost struct ConsoleView {
    /// The cursor's column, in pixels.
    pub cursor_x: u64,
    /// The cursor's row, in pixels.
    pub cursor_y: u64,
    pub fg: Color,
    pub bg: Color,
    /// The framebuffer's pixel memory.
    pub screen: Seq<u8>,
}

/// The pixels that clear the bottom `fh` rows of the screen in `bg`, row by row.
pub open spec fn bottom_rows(g: FbGeometry, fh: u64, bg: Color) -> Seq<PixelWrite> {
    Seq::new(
        (fh * g.width) as nat,
        |k: int| PixelWrite { x: (k % g.width as int) as u64, y: (g.height - fh + k / g.width as int) as u64, color: bg },
    )
}

/// The screen scrolled up by a text line `fh` pixels high: the rows below the first
/// `fh` move to the top, then the bottom `fh` rows are cleared in `bg`.
pub open spec fn scrolled(g: FbGeometry, fh: u64, bg: Color, screen: Seq<u8>) -> Seq<u8> {
    paint(
        g,
        move_bytes(screen, fh * g.pitch, 0, (g.height - fh) * g.pitch),
        bottom_rows(g, fh, bg),
    )
}

/// A line break: the cursor goes to the start of the next text line, or, when that
/// line would not fit on the screen, the screen scrolls and the cursor stays on its line.
pub open spec fn after_newline(g: FbGeometry, fh: u64, v: ConsoleView) -> ConsoleView {
    if v.cursor_y + fh + fh > g.height {
        ConsoleView { cursor_x: 0, screen: scrolled(g, fh, v.bg, v.screen), ..v }
    } else {
        ConsoleView { cursor_x: 0, cursor_y: (v.cursor_y + fh) as u64, ..v }
    }
}

/// The tab stop after column `x`: the next multiple of 8 character widths.
pub open spec fn next_tab_stop(fw: u64, x: u64) -> int {
    ((x as int) / (8 * fw) + 1) * (8 * fw)
}

/// `ch` is neither a line feed, a carriage return nor a tab.
pub open spec fn is_printable(ch: char) -> bool {
    ch != '\n' && ch != '\r' && ch != '\t'
}

/// Writing `ch` breaks the line: a line feed, a tab past the screen's right edge, or a
/// printable character after which no further character fits on the line.
pub open spec fn breaks_line(font: Font, g: FbGeometry, v: ConsoleView, ch: char) -> bool {
    let fw = font.glyph_width();
    ||| ch == '\n'
    ||| ch == '\t' && next_tab_stop(fw, v.cursor_x) >= g.width
    ||| is_printable(ch) && v.cursor_x + fw + fw > g.width
}

/// The console after writing `ch`: a line feed breaks the line, a carriage return
/// moves the cursor to the line's start, a tab moves it to the next tab stop (breaking
/// the line past the right edge), and any other character is drawn at the cursor, which
/// then moves right by a character width, breaking the line when no further one fits.
pub open spec fn after_putchar(font: Font, g: FbGeometry, v: ConsoleView, ch: char) -> ConsoleView {
    let fw = font.glyph_width();
    let fh = font.glyph_height();
    if ch == '\n' {
        after_newline(g, fh, v)
    } else if ch == '\r' {
        ConsoleView { cursor_x: 0, ..v }
    } else if ch == '\t' {
        if breaks_line(font, g, v, ch) {
            after_newline(g, fh, v)
        } else {
            ConsoleView { cursor_x: next_tab_stop(fw, v.cursor_x) as u64, ..v }
        }
    } else {
        let drawn = ConsoleView {
            screen: paint(g, v.screen, font.glyph_writes(g, v.cursor_x, v.cursor_y, ch, v.fg, v.bg)),
            ..v
        };
        if breaks_line(font, g, v, ch) {
            after_newline(g, fh, drawn)
        } else {
            ConsoleView { cursor_x: (v.cursor_x + fw) as u64, ..drawn }
        }
    }
}

/// Writing `ch` neither scrolls with a font taller than the screen, reads beyond a
/// glyph, nor moves the cursor past what a `u64` holds.
pub open spec fn putchar_ok(font: Font, g: FbGeometry, v: ConsoleView, ch: char) -> bool {
    let fw = font.glyph_width();
    let fh = font.glyph_height();
    &&& breaks_line(font, g, v, ch) ==> fh <= g.height && v.cursor_y + fh + fh <= u64::MAX
    &&& ch == '\t' ==> next_tab_stop(fw, v.cursor_x) <= u64::MAX
    &&& is_printable(ch) ==> v.cursor_x + fw + fw <= u64::MAX && font.glyph_covers(
        g,
        v.cursor_x,
        v.cursor_y,
        ch,
    )
}

/// The cursor is on the screen: its column is 0 or left of the right edge, and its text
/// line is the first or one that fits above the bottom edge.
pub open spec fn cursor_on_screen(font: Font, g: FbGeometry, v: ConsoleView) -> bool {
    &&& v.cursor_x == 0 || v.cursor_x < g.width
    &&& v.cursor_y == 0 || v.cursor_y + font.glyph_height() <= g.height
}

/// The cursor is on the character grid: its column a multiple of the glyph width, its
/// row a multiple of the glyph height.
pub open spec fn cursor_on_grid(font: Font, v: ConsoleView) -> bool {
    &&& (v.cursor_x as int) % (font.glyph_width() as int) == 0
    &&& (v.cursor_y as int) % (font.glyph_height() as int) == 0
}

/// The console after writing the characters of `s` in order.
pub open spec fn after_write(font: Font, g: FbGeometry, v: ConsoleView, s: Seq<char>) -> ConsoleView
    decreases s.len(),
{
    if s.len() == 0 {
        v
    } else {
        after_write(font, g, after_putchar(font, g, v, s[0]), s.drop_first())
    }
}

/// Writing each character of `s` in turn is fine.
pub open spec fn write_ok(font: Font, g: FbGeometry, v: ConsoleView, s: Seq<char>) -> bool
    decreases s.len(),
{
    s.len() == 0 || (putchar_ok(font, g, v, s[0]) && write_ok(
        font,
        g,
        after_putchar(font, g, v, s[0]),
        s.drop_first(),
    ))
}

/// A text console: a framebuffer, a font, a cursor and the colors to write in.
pub struct Console {
    fb: FrameBuffer,
    font: Font,
    cursor_x: u64,
    cursor_y: u64,
    fg_color: Color,
    bg_color: Color,
    width_chars: u64,
    height_chars: u64,
}

impl Console {
    /// The console's invariant: the font's glyphs have a size, and the cursor is on the
    /// screen and on the character grid.
    pub closed spec fn wf(self) -> bool {
        &&& self.fb.wf()
        &&& self.font.wf()
        &&& self.font.glyph_width() > 0
        &&& self.font.glyph_height() > 0
        &&& cursor_on_screen(self.font, self.fb.geometry(), self.view())
        &&& cursor_on_grid(self.font, self.view())
    }

    /// The cursor, the colors and the screen.
    pub closed spec fn view(self) -> ConsoleView {
        ConsoleView {
            cursor_x: self.cursor_x,
            cursor_y: self.cursor_y,
            fg: self.fg_color,
            bg: self.bg_color,
            screen: self.fb.bytes(),
        }
    }

    pub closed spec fn geometry(self) -> FbGeometry {
        self.fb.geometry()
    }

    pub closed spec fn fb_addr(self) -> usize {
        self.fb.base_addr()
    }

    pub closed spec fn font(self) -> Font {
        self.font
    }

    /// How many characters fit on a line.
    pub closed spec fn width_chars(self) -> u64 {
        self.width_chars
    }

    /// How many lines fit on the screen.
    pub closed spec fn height_chars(self) -> u64 {
        self.height_chars
    }

    /// A console on `fb` writing with `font`, white on black, the cursor at the top left.
    pub fn new(fb: FrameBuffer, font: Font) -> (r: Self)
        requires
            fb.wf(),
            font.wf(),
            font.glyph_width() > 0,
            font.glyph_height() > 0,
        ensures
            r.wf(),
            r.view() == (ConsoleView {
                cursor_x: 0,
                cursor_y: 0,
                fg: Color { r: 255, g: 255, b: 255 },
                bg: Color { r: 0, g: 0, b: 0 },
                screen: fb.bytes(),
            }),
            r.geometry() == fb.geometry(),
            r.fb_addr() == fb.base_addr(),
            r.font() == font,
            r.width_chars() == fb.geometry().width / font.glyph_width(),
            r.height_chars() == fb.geometry().height / font.glyph_height(),
    {
        let fb_width = fb.width();
        let fb_height = fb.height();
        let font_width = font.width();
        let font_height = font.height();
        let width_chars = fb_width / font_width;
        let height_chars = fb_height / font_height;
        Console {
            fb,
            font,
            cursor_x: 0,
            cursor_y: 0,
            fg_color: Color::white(),
            bg_color: Color::black(),
            width_chars,
            height_chars,
        }
    }

    /// The framebuffer the console draws on.
    pub fn framebuffer(&self) -> (r: &FrameBuffer)
        ensures
            r.bytes() == self.view().screen,
            r.geometry() == self.geometry(),
            r.base_addr() == self.fb_addr(),
    {
        &self.fb
    }

    /// The cursor's position in pixels: (column, row).
    pub fn cursor(&self) -> (r: (u64, u64))
        ensures
            r == (self.view().cursor_x, self.view().cursor_y),
    {
        (self.cursor_x, self.cursor_y)
    }

    /// Whether any text can be written from any cursor on the screen: the font is no
    /// taller than the screen, its glyphs hold all their rows, and a tab stop or a line
    /// past the screen's edges still fits in a `u64`.
    pub fn writes_any_text(&self) -> (r: bool)
        requires
            self.wf(),
        ensures
            r == text_fits(self.font(), self.geometry()),
            r ==> forall|v: ConsoleView, s: Seq<char>|
                cursor_on_screen(self.font(), self.geometry(), v) ==> write_ok(
                    self.font(),
                    self.geometry(),
                    v,
                    s,
                ),
    {
        let fw = self.font.width();
        let fh = self.font.height();
        let w = self.fb.width();
        let h = self.fb.height();
        let r = fh <= h && self.font.has_complete_glyphs() && w <= u64::MAX - 8 * fw && h
            <= u64::MAX - fh;
        proof {
            if r {
                assert forall|v: ConsoleView, s: Seq<char>|
                    cursor_on_screen(self.font(), self.geometry(), v) implies write_ok(
                    self.font(),
                    self.geometry(),
                    v,
                    s,
                ) by {
                    lemma_write_ok_complete(self.font(), self.geometry(), v, s);
                }
            }
        }
        r
    }

    /// Sets the foreground and background colors.
    pub fn set_colors(&mut self, fg: Color, bg: Color)
        requires
            old(self).wf(),
        ensures
            final(self).wf(),
            final(self).view() == (ConsoleView { fg, bg, ..old(self).view() }),
            final(self).geometry() == old(self).geometry(),
            final(self).fb_addr() == old(self).fb_addr(),
            final(self).font() == old(self).font(),
            final(self).width_chars() == old(self).width_chars(),
            final(self).height_chars() == old(self).height_chars(),
    {
        self.fg_color = fg;
        self.bg_color = bg;
    }

    /// Clears the screen in the background color and moves the cursor to the top left.
    pub fn clear(&mut self)
        requires
            old(self).wf(),
        ensures
            final(self).wf(),
            final(self).view() == (ConsoleView {
                cursor_x: 0,
                cursor_y: 0,
                screen: paint(
                    old(self).geometry(),
                    old(self).view().screen,
                    screen_writes(old(self).geometry(), old(self).view().bg),
                ),
                ..old(self).view()
            }),
            old(self).geometry().bpp / 8 >= 4 ==> forall|x: int, y: int|
                0 <= x < old(self).geometry().width && 0 <= y < old(self).geometry().height
                    ==> #[trigger] pixel_bytes(
                    final(self).view().screen,
                    old(self).geometry().pixel_offset(x, y),
                ) == le_bytes(old(self).view().bg.rgba()),
            final(self).geometry() == old(self).geometry(),
            final(self).fb_addr() == old(self).fb_addr(),
            final(self).font() == old(self).font(),
            final(self).width_chars() == old(self).width_chars(),
            final(self).height_chars() == old(self).height_chars(),
    {
        let bg = self.bg_color;
        self.fb.clear(bg);
        self.cursor_x = 0;
        self.cursor_y = 0;
        proof {
            vstd::arithmetic::div_mod::lemma_small_mod(0, self.font.glyph_width() as nat);
            vstd::arithmetic::div_mod::lemma_small_mod(0, self.font.glyph_height() as nat);
        }
    }

    /// Scrolls the screen up by one text line and clears the bottom line.
    fn scroll(&mut self)
        requires
            old(self).wf(),
            old(self).font().glyph_height() <= old(self).geometry().height,
        ensures
            final(self).wf(),
            final(self).view() == (ConsoleView {
                screen: scrolled(
                    old(self).geometry(),
                    old(self).font().glyph_height(),
                    old(self).view().bg,
                    old(self).view().screen,
                ),
                ..old(self).view()
            }),
            final(self).geometry() == old(self).geometry(),
            final(self).fb_addr() == old(self).fb_addr(),
            final(self).font() == old(self).font(),
            final(self).width_chars() == old(self).width_chars(),
            final(self).height_chars() == old(self).height_chars(),
    {
        let ghost g = self.fb.geometry();
        let font_height = self.font.height();
        let fb_height = self.fb.height();
        let bytes_per_row = self.fb.pitch();
        let src_y = font_height;
        let dst_y: u64 = 0;
        proof {
            assert(font_height * bytes_per_row + (fb_height - font_height) * bytes_per_row
                == fb_height * bytes_per_row) by (nonlinear_arith);
            assert(0 <= font_height * bytes_per_row && 0 <= (fb_height - font_height)
                * bytes_per_row) by (nonlinear_arith)
                requires
                    font_height <= fb_height,
            ;
        }
        let copy_height = fb_height - font_height;
        let copy_bytes = copy_height * bytes_per_row;
        self.fb.move_down(src_y * bytes_per_row, dst_y * bytes_per_row, copy_bytes);
        let ghost moved = self.fb.bytes();
        let ghost rows = bottom_rows(g, font_height, self.bg_color);
        let bg = self.bg_color;
        let fb_width = self.fb.width();
        let mut y: u64 = 0;
        while y < font_height
            invariant
                self.fb.wf(),
                self.fb.geometry() == g,
                self.fb.base_addr() == old(self).fb.base_addr(),
                self.font == old(self).font,
                self.cursor_x == old(self).cursor_x,
                self.cursor_y == old(self).cursor_y,
                self.fg_color == old(self).fg_color,
                self.bg_color == old(self).bg_color,
                self.width_chars == old(self).width_chars,
                self.height_chars == old(self).height_chars,
                bg == self.bg_color,
                g == old(self).fb.geometry(),
                font_height == self.font.glyph_height(),
                font_height <= fb_height,
                fb_height == g.height,
                fb_width == g.width,
                rows == bottom_rows(g, font_height, bg),
                moved == move_bytes(old(self).fb.bytes(), (font_height * g.pitch) as int, 0, (g.height - font_height) * g.pitch),
                y <= font_height,
                self.fb.bytes() == paint(g, moved, rows.take(y * fb_width)),
            decreases font_height - y,
        {
            let mut x: u64 = 0;
            while x < fb_width
                invariant
                    self.fb.wf(),
                    self.fb.geometry() == g,
                    self.fb.base_addr() == old(self).fb.base_addr(),
                    self.font == old(self).font,
                    self.cursor_x == old(self).cursor_x,
                    self.cursor_y == old(self).cursor_y,
                    self.fg_color == old(self).fg_color,
                    self.bg_color == old(self).bg_color,
                    self.width_chars == old(self).width_chars,
                    self.height_chars == old(self).height_chars,
                    bg == self.bg_color,
                    font_height <= fb_height,
                    fb_height == g.height,
                    fb_width == g.width,
                    rows == bottom_rows(g, font_height, bg),
                    y < font_height,
                    x <= fb_width,
                    self.fb.bytes() == paint(g, moved, rows.take(y * fb_width + x)),
                decreases fb_width - x,
            {
                let ghost k = y * fb_width + x;
                proof {
                    vstd::arithmetic::div_mod::lemma_fundamental_div_mod_converse(
                        k,
                        fb_width as int,
                        y as int,
                        x as int,
                    );
                    assert(k < font_height * fb_width) by (nonlinear_arith)
                        requires
                            k == y * fb_width + x,
                            y < font_height,
                            x < fb_width,
                    ;
                }
                self.fb.put_pixel(x, fb_height - font_height + y, bg);
                proof {
                    assert(rows.take(k + 1).drop_last() =~= rows.take(k));
                    assert(rows[k] == PixelWrite { x, y: (fb_height - font_height + y) as u64, color: bg });
                }
                x = x + 1;
            }
            proof {
                assert(y * fb_width + fb_width == (y + 1) * fb_width) by (nonlinear_arith);
            }
            y = y + 1;
        }
        proof {
            assert(rows.take(font_height * fb_width) =~= rows);
        }
    }

    /// Moves the cursor to the start of the next text line, scrolling when that line
    /// would not fit on the screen.
    fn newline(&mut self)
        requires
            old(self).wf(),
            old(self).view().cursor_y + old(self).font().glyph_height() + old(self).font().glyph_height()
                > old(self).geometry().height ==> old(self).font().glyph_height()
                <= old(self).geometry().height,
            old(self).view().cursor_y + old(self).font().glyph_height() + old(self).font().glyph_height()
                <= u64::MAX,
        ensures
            final(self).wf(),
            final(self).view() == after_newline(
                old(self).geometry(),
                old(self).font().glyph_height(),
                old(self).view(),
            ),
            final(self).geometry() == old(self).geometry(),
            final(self).fb_addr() == old(self).fb_addr(),
            final(self).font() == old(self).font(),
            final(self).width_chars() == old(self).width_chars(),
            final(self).height_chars() == old(self).height_chars(),
    {
        self.cursor_x = 0;
        let font_height = self.font.height();
        let y = self.cursor_y + font_height;
        if y + font_height > self.fb.height() {
            self.scroll();
        } else {
            proof {
                vstd::arithmetic::div_mod::lemma_mod_add_multiples_vanish(
                    self.cursor_y as int,
                    font_height as int,
                );
            }
            self.cursor_y = y;
        }
    }

    /// Writes `ch`: a line feed starts a new line, a carriage return returns to the
    /// line's start, a tab moves to the next tab stop, and any other character is drawn
    /// at the cursor, which then moves on, starting a new line when no further
    /// character fits.
    pub fn putchar(&mut self, ch: char)
        requires
            old(self).wf(),
            putchar_ok(old(self).font(), old(self).geometry(), old(self).view(), ch),
        ensures
            final(self).wf(),
            final(self).view() == after_putchar(
                old(self).font(),
                old(self).geometry(),
                old(self).view(),
                ch,
            ),
            final(self).geometry() == old(self).geometry(),
            final(self).fb_addr() == old(self).fb_addr(),
            final(self).font() == old(self).font(),
            final(self).width_chars() == old(self).width_chars(),
            final(self).height_chars() == old(self).height_chars(),
            is_printable(ch) && old(self).view().cursor_x + 2 * old(self).font().glyph_width()
                <= old(self).geometry().width ==> final(self).view().cursor_x == old(
                self,
            ).view().cursor_x + old(self).font().glyph_width() && final(self).view().cursor_y
                == old(self).view().cursor_y,
            is_printable(ch) && old(self).view().cursor_x + 2 * old(self).font().glyph_width()
                > old(self).geometry().width ==> final(self).view().cursor_x == 0,
            is_printable(ch) ==> final(self).view().cursor_x == 0 || final(self).view().cursor_x
                + old(self).font().glyph_width() <= old(self).geometry().width,
    {
        proof {
            lemma_printable_advance(self.font(), self.geometry(), self.view(), ch);
        }
        match ch {
            '\n' => self.newline(),
            '\r' => self.cursor_x = 0,
            '\t' => {
                let tab_width = 8 * self.font.width();
                proof {
                    let q = self.cursor_x / tab_width + 1;
                    assert(0 <= q * tab_width) by (nonlinear_arith)
                        requires
                            tab_width > 0,
                            q >= 0,
                    ;
                    assert(q * tab_width == (q * 8) * self.font.glyph_width()) by (nonlinear_arith)
                        requires
                            tab_width == 8 * self.font.glyph_width(),
                    ;
                    vstd::arithmetic::div_mod::lemma_mod_multiples_basic(
                        q * 8,
                        self.font.glyph_width() as int,
                    );
                }
                let x = ((self.cursor_x / tab_width) + 1) * tab_width;
                if x >= self.fb.width() {
                    self.newline();
                } else {
                    self.cursor_x = x;
                }
            },
            _ => {
                let (x, y, fg, bg) = (self.cursor_x, self.cursor_y, self.fg_color, self.bg_color);
                self.font.draw_char(&mut self.fb, x, y, ch, fg, bg);
                let nx = self.cursor_x + self.font.width();
                if nx + self.font.width() > self.fb.width() {
                    self.newline();
                } else {
                    proof {
                        vstd::arithmetic::div_mod::lemma_mod_add_multiples_vanish(
                            self.cursor_x as int,
                            self.font.glyph_width() as int,
                        );
                    }
                    self.cursor_x = nx;
                }
            },
        }
    }

    /// Writes the characters of `s` in order.
    pub fn write_str(&mut self, s: &str)
        requires
            old(self).wf(),
            write_ok(old(self).font(), old(self).geometry(), old(self).view(), s@),
        ensures
            final(self).wf(),
            final(self).view() == after_write(
                old(self).font(),
                old(self).geometry(),
                old(self).view(),
                s@,
            ),
            final(self).geometry() == old(self).geometry(),
            final(self).fb_addr() == old(self).fb_addr(),
            final(self).font() == old(self).font(),
            final(self).width_chars() == old(self).width_chars(),
            final(self).height_chars() == old(self).height_chars(),
    {
        let ghost font = self.font();
        let ghost g = self.geometry();
        broadcast use vstd::string::axiom_spec_iter;

        assert(s@.skip(0) =~= s@);
        for ch in it: s.chars()
            invariant
                it.seq() == s@,
                self.wf(),
                self.font() == font,
                self.geometry() == g,
                font == old(self).font(),
                g == old(self).geometry(),
                self.fb_addr() == old(self).fb_addr(),
                self.width_chars() == old(self).width_chars(),
                self.height_chars() == old(self).height_chars(),
                0 <= it.index() <= s@.len(),
                write_ok(font, g, self.view(), s@.skip(it.index())),
                after_write(font, g, self.view(), s@.skip(it.index())) == after_write(
                    font,
                    g,
                    old(self).view(),
                    s@,
                ),
        {
            proof {
                let rest = s@.skip(it.index());
                assert(rest[0] == ch);
                assert(rest.drop_first() =~= s@.skip(it.index() + 1));
            }
            self.putchar(ch);
        }
        proof {
            assert(s@.skip(s@.len() as int) =~= Seq::<char>::empty());
        }
    }
}

} // verus!

verus! {

/// Writing `a + b` is writing `a` and then `b`: the console ends in the same state,
/// and the whole write is fine exactly when both parts are.
pub proof fn lemma_write_concat(font: Font, g: FbGeometry, v: ConsoleView, a: Seq<char>, b: Seq<char>)
    ensures
        after_write(font, g, v, a + b) == after_write(font, g, after_write(font, g, v, a), b),
        write_ok(font, g, v, a + b) == (write_ok(font, g, v, a) && write_ok(
            font,
            g,
            after_write(font, g, v, a),
            b,
        )),
    decreases a.len(),
{
    if a.len() == 0 {
        assert(a + b =~= b);
    } else {
        lemma_write_concat(font, g, after_putchar(font, g, v, a[0]), a.drop_first(), b);
        assert((a + b).drop_first() =~= a.drop_first() + b);
        assert((a + b)[0] == a[0]);
    }
}

/// The font is no taller than the screen, its glyphs hold all their rows, and a tab
/// stop right of the screen or a text line below it still fits in a `u64`.
pub open spec fn text_fits(font: Font, g: FbGeometry) -> bool {
    &&& font.glyph_height() <= g.height
    &&& font.glyph_rows_complete()
    &&& g.width + 8 * font.glyph_width() <= u64::MAX
    &&& g.height + font.glyph_height() <= u64::MAX
}

/// Writing a character that may be written keeps the cursor on the screen and on the
/// character grid, and keeps the colors.
pub proof fn lemma_putchar_keeps_cursor(font: Font, g: FbGeometry, v: ConsoleView, ch: char)
    requires
        font.glyph_width() > 0,
        font.glyph_height() > 0,
        putchar_ok(font, g, v, ch),
        cursor_on_screen(font, g, v),
    ensures
        cursor_on_screen(font, g, after_putchar(font, g, v, ch)),
        cursor_on_grid(font, v) ==> cursor_on_grid(font, after_putchar(font, g, v, ch)),
        after_putchar(font, g, v, ch).fg == v.fg,
        after_putchar(font, g, v, ch).bg == v.bg,
{
    let fw = font.glyph_width() as int;
    let fh = font.glyph_height() as int;
    vstd::arithmetic::div_mod::lemma_mod_add_multiples_vanish(v.cursor_x as int, fw);
    vstd::arithmetic::div_mod::lemma_mod_add_multiples_vanish(v.cursor_y as int, fh);
    let q = (v.cursor_x as int) / (8 * fw) + 1;
    assert(q * (8 * fw) == (q * 8) * fw) by (nonlinear_arith);
    vstd::arithmetic::div_mod::lemma_mod_multiples_basic(q * 8, fw);
}

/// After a printable character the cursor moves right by one glyph width when a further
/// whole glyph still fits on the line, that is when `cursor_x + 2 * width` is at most the
/// screen's width; otherwise the line breaks and the cursor returns to column 0, one text
/// line down when a further line fits above the bottom edge and on the same line (the
/// screen having scrolled) when not. So the cursor is always at column 0 or far enough
/// left for a whole glyph: no character is drawn cut off at the right edge.
pub proof fn lemma_printable_advance(font: Font, g: FbGeometry, v: ConsoleView, ch: char)
    ensures
        is_printable(ch) && v.cursor_x + 2 * font.glyph_width() <= g.width ==> after_putchar(
            font,
            g,
            v,
            ch,
        ).cursor_x == v.cursor_x + font.glyph_width() && after_putchar(font, g, v, ch).cursor_y
            == v.cursor_y,
        is_printable(ch) && v.cursor_x + 2 * font.glyph_width() > g.width ==> after_putchar(
            font,
            g,
            v,
            ch,
        ).cursor_x == 0,
        is_printable(ch) && v.cursor_x + 2 * font.glyph_width() > g.width && v.cursor_y + 2
            * font.glyph_height() <= g.height ==> after_putchar(font, g, v, ch).cursor_y
            == v.cursor_y + font.glyph_height(),
        is_printable(ch) && v.cursor_x + 2 * font.glyph_width() > g.width && v.cursor_y + 2
            * font.glyph_height() > g.height ==> after_putchar(font, g, v, ch).cursor_y
            == v.cursor_y,
        is_printable(ch) ==> after_putchar(font, g, v, ch).cursor_x == 0 || after_putchar(
            font,
            g,
            v,
            ch,
        ).cursor_x + font.glyph_width() <= g.width,
{
}

/// When the text fits the screen, any text can be written from a cursor on the screen.
pub proof fn lemma_write_ok_complete(font: Font, g: FbGeometry, v: ConsoleView, s: Seq<char>)
    requires
        font.glyph_width() > 0,
        font.glyph_height() > 0,
        text_fits(font, g),
        cursor_on_screen(font, g, v),
    ensures
        write_ok(font, g, v, s),
    decreases s.len(),
{
    if s.len() > 0 {
        let fw = font.glyph_width() as int;
        font.lemma_complete_glyphs_cover(g, v.cursor_x, v.cursor_y, s[0]);
        assert(next_tab_stop(font.glyph_width(), v.cursor_x) <= v.cursor_x + 8 * fw) by (nonlinear_arith)
            requires
                fw > 0,
                next_tab_stop(font.glyph_width(), v.cursor_x) == ((v.cursor_x as int) / (8 * fw) + 1) * (8 * fw),
                v.cursor_x >= 0,
        ;
        assert(putchar_ok(font, g, v, s[0]));
        lemma_putchar_keeps_cursor(font, g, v, s[0]);
        lemma_write_ok_complete(font, g, after_putchar(font, g, v, s[0]), s.drop_first());
    }
}

/// Writing the empty string changes nothing, and may always be done.
pub proof fn lemma_write_empty(font: Font, g: FbGeometry, v: ConsoleView)
    ensures
        after_write(font, g, v, Seq::empty()) == v,
        write_ok(font, g, v, Seq::empty()),
{
}

/// Writing a one-character string is writing that character.
pub proof fn lemma_write_single(font: Font, g: FbGeometry, v: ConsoleView, ch: char)
    ensures
        after_write(font, g, v, seq![ch]) == after_putchar(font, g, v, ch),
        write_ok(font, g, v, seq![ch]) == putchar_ok(font, g, v, ch),
{
    let s = seq![ch];
    assert(s.drop_first() =~= Seq::<char>::empty());
    assert(s[0] == ch);
    assert(after_write(font, g, after_putchar(font, g, v, ch), s.drop_first()) == after_putchar(font, g, v, ch));
    assert(write_ok(font, g, after_putchar(font, g, v, ch), s.drop_first()));
}

impl Console {
    /// The cursor of a console is always on the screen and on the character grid; with
    /// a glyph no larger than the screen, it is left of the right edge and its text line
    /// fits above the bottom edge.
    pub proof fn lemma_cursor_on_screen(self)
        requires
            self.wf(),
        ensures
            cursor_on_screen(self.font(), self.geometry(), self.view()),
            cursor_on_grid(self.font(), self.view()),
            self.font().glyph_width() <= self.geometry().width ==> self.view().cursor_x
                < self.geometry().width,
            self.font().glyph_height() <= self.geometry().height ==> self.view().cursor_y
                + self.font().glyph_height() <= self.geometry().height,
    {
    }
}

} // verus!
