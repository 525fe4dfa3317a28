//! Colors and the framebuffer's pixel memory.

use vstd::prelude::*;

verus! {

/// An RGB color.
#[derive(Clone, Copy, Debug, PartialEq, Eq, Structural)]
pub struct Color {
    /// red
    pub r: u8,
    /// green
    pub g: u8,
    /// blue
    pub b: u8,
}

impl Color {
    pub fn black() -> (c: Color)
        ensures
            c == (Color { r: 0, g: 0, b: 0 }),
    {
        Color { r: 0, g: 0, b: 0 }
    }

    pub fn white() -> (c: Color)
        ensures
            c == (Color { r: 255, g: 255, b: 255 }),
    {
        Color { r: 255, g: 255, b: 255 }
    }

    pub fn red() -> (c: Color)
        ensures
            c == (Color { r: 255, g: 0, b: 0 }),
    {
        Color { r: 255, g: 0, b: 0 }
    }

    pub fn green() -> (c: Color)
        ensures
            c == (Color { r: 0, g: 255, b: 0 }),
    {
        Color { r: 0, g: 255, b: 0 }
    }

    pub fn blue() -> (c: Color)
        ensures
            c == (Color { r: 0, g: 0, b: 255 }),
    {
        Color { r: 0, g: 0, b: 255 }
    }

    /// The color as an opaque 32-bit pixel: alpha 0xFF in the top byte, then red, green, blue.
    pub open spec fn rgba(self) -> u32 {
        (0xFF00_0000 + self.r * 0x1_0000 + self.g * 0x100 + self.b) as u32
    }

    /// The color as an opaque 32-bit pixel with red and blue swapped.
    pub open spec fn bgra(self) -> u32 {
        (0xFF00_0000 + self.b * 0x1_0000 + self.g * 0x100 + self.r) as u32
    }

    pub fn to_rgba(self) -> (v: u32)
        ensures
            v == self.rgba(),
    {
        let (r, g, b) = (self.r, self.g, self.b);
        let v = ((r as u32) << 16) | ((g as u32) << 8) | (b as u32) | 0xFF00_0000;
        assert(v == 0xFF00_0000 + r * 0x1_0000 + g * 0x100 + b) by (bit_vector)
            requires
                v == ((r as u32) << 16) | ((g as u32) << 8) | (b as u32) | 0xFF00_0000u32,
        ;
        v
    }

    pub fn to_bgra(self) -> (v: u32)
        ensures
            v == self.bgra(),
    {
        let (r, g, b) = (self.r, self.g, self.b);
        let v = ((b as u32) << 16) | ((g as u32) << 8) | (r as u32) | 0xFF00_0000;
        assert(v == 0xFF00_0000 + b * 0x1_0000 + g * 0x100 + r) by (bit_vector)
            requires
                v == ((b as u32) << 16) | ((g as u32) << 8) | (r as u32) | 0xFF00_0000u32,
        ;
        v
    }
}

} // verus!

verus! {

/// The shape of a framebuffer: `width` x `height` pixels, rows `pitch` bytes apart,
/// `bpp` bits per pixel.
#[derive(Clone, Copy, Debug, PartialEq, Eq, Structural)]
pub struct FbGeometry {
    pub width: u64,
    pub height: u64,
    pub pitch: u64,
    pub bpp: u16,
}

impl FbGeometry {
    /// The byte offset of pixel (`x`, `y`).
    pub open spec fn pixel_offset(self, x: int, y: int) -> int {
        y * self.pitch + x * (self.bpp / 8) as int
    }

    /// The size of the pixel memory: `height` rows of `pitch` bytes.
    pub open spec fn size(self) -> int {
        self.height * self.pitch
    }

    /// Whether every pixel write stays in the pixel memory (see `writes_fit`).
    pub fn fits_writes(&self) -> (r: bool)
        ensures
            r == self.writes_fit(),
    {
        if self.height == 0 || self.width == 0 {
            return true;
        }
        let bpb = self.bpp as u128 / 8;
        proof {
            assert((self.width - 1) * bpb <= 0xFFFF_FFFF_FFFF_FFFF * 8191) by (nonlinear_arith)
                requires
                    bpb <= 8191,
                    self.width - 1 <= 0xFFFF_FFFF_FFFF_FFFF,
            ;
        }
        (self.width as u128 - 1) * bpb + 4 <= self.pitch as u128
    }

    /// Every pixel write stays in the pixel memory: the four bytes written for the last
    /// pixel of a row end within the row.
    pub open spec fn writes_fit(self) -> bool {
        self.height == 0 || self.width == 0 || (self.width - 1) * (self.bpp / 8) as int + 4
            <= self.pitch
    }
}

/// The four bytes of `v`, least significant first.
pub open spec fn le_bytes(v: u32) -> Seq<u8> {
    seq![(v % 0x100) as u8, (v / 0x100 % 0x100) as u8, (v / 0x1_0000 % 0x100) as u8, (v / 0x100_0000) as u8]
}

/// `bytes` with the little-endian `v` stored at `off`.
pub open spec fn store_u32(bytes: Seq<u8>, off: int, v: u32) -> Seq<u8> {
    bytes.update(off, le_bytes(v)[0]).update(off + 1, le_bytes(v)[1]).update(off + 2, le_bytes(v)[2]).update(
        off + 3,
        le_bytes(v)[3],
    )
}

/// The pixel memory after drawing pixel (`x`, `y`) in color `c`; a pixel outside the
/// screen is not drawn.
pub open spec fn set_pixel(g: FbGeometry, bytes: Seq<u8>, x: u64, y: u64, c: Color) -> Seq<u8> {
    if x < g.width && y < g.height {
        store_u32(bytes, g.pixel_offset(x as int, y as int), c.rgba())
    } else {
        bytes
    }
}

/// One pixel to draw.
#[derive(Clone, Copy, Debug, PartialEq, Eq, Structural)]
pub struct PixelWrite {
    pub x: u64,
    pub y: u64,
    pub color: Color,
}

/// The pixel memory after drawing `writes` in order.
pub open spec fn paint(g: FbGeometry, bytes: Seq<u8>, writes: Seq<PixelWrite>) -> Seq<u8>
    decreases writes.len(),
{
    if writes.len() == 0 {
        bytes
    } else {
        let w = writes.last();
        set_pixel(g, paint(g, bytes, writes.drop_last()), w.x, w.y, w.color)
    }
}

/// Every pixel of the screen in `color`, row by row.
pub open spec fn screen_writes(g: FbGeometry, color: Color) -> Seq<PixelWrite> {
    Seq::new(
        (g.height * g.width) as nat,
        |k: int| PixelWrite { x: (k % g.width as int) as u64, y: (k / g.width as int) as u64, color },
    )
}

/// `bytes` with the `count` bytes at `src` copied to `dst`.
pub open spec fn move_bytes(bytes: Seq<u8>, src: int, dst: int, count: int) -> Seq<u8> {
    Seq::new(bytes.len(), |k: int| if dst <= k < dst + count { bytes[k - dst + src] } else { bytes[k] })
}

proof fn lemma_le_bytes(v: u32)
    ensures
        (v & 0xff) as u8 == le_bytes(v)[0],
        ((v >> 8) & 0xff) as u8 == le_bytes(v)[1],
        ((v >> 16) & 0xff) as u8 == le_bytes(v)[2],
        ((v >> 24) & 0xff) as u8 == le_bytes(v)[3],
{
    assert(v & 0xff == v % 0x100) by (bit_vector);
    assert((v >> 8) & 0xff == v / 0x100 % 0x100) by (bit_vector);
    assert((v >> 16) & 0xff == v / 0x1_0000 % 0x100) by (bit_vector);
    assert((v >> 24) & 0xff == v / 0x100_0000) by (bit_vector);
}

/// A linear framebuffer: its pixel memory and its shape.
pub struct FrameBuffer {
    addr: usize,
    geom: FbGeometry,
    mem: &'static mut [u8],
}

impl FrameBuffer {
    /// The pixel memory spans the whole shape, and every pixel write stays inside it.
    pub open spec fn wf(self) -> bool {
        &&& self.bytes().len() == self.geometry().size()
        &&& self.geometry().size() <= usize::MAX
        &&& self.geometry().writes_fit()
    }

    /// The address the pixel memory is mapped at.
    pub closed spec fn base_addr(self) -> usize {
        self.addr
    }

    pub closed spec fn geometry(self) -> FbGeometry {
        self.geom
    }

    /// The contents of the pixel memory.
    pub closed spec fn bytes(self) -> Seq<u8> {
        self.mem@
    }

    /// A framebuffer over `mem`, the `height * pitch` bytes of pixel memory mapped at `addr`.
    pub fn new(addr: usize, geom: FbGeometry, mem: &'static mut [u8]) -> (r: Self)
        requires
            geom.writes_fit(),
            old(mem)@.len() == geom.size(),
        ensures
            r.wf(),
            r.base_addr() == addr,
            r.geometry() == geom,
            r.bytes() == old(mem)@,
    {
        let len = mem.len();
        assert(geom.size() == len);
        FrameBuffer { addr, geom, mem }
    }

    /// Draws pixel (`x`, `y`) in `color`: the 32-bit value `color.to_rgba()` is stored
    /// at byte `y * pitch + x * (bpp / 8)`. A pixel outside the screen is not drawn.
    pub fn put_pixel(&mut self, x: u64, y: u64, color: Color)
        requires
            old(self).wf(),
        ensures
            final(self).wf(),
            final(self).geometry() == old(self).geometry(),
            final(self).base_addr() == old(self).base_addr(),
            final(self).bytes() == set_pixel(old(self).geometry(), old(self).bytes(), x, y, color),
    {
        let g = self.geom;
        if x >= g.width || y >= g.height {
            return;
        }
        let bpb = g.bpp as u64 / 8;
        let n = self.mem.len();
        proof {
            assert(y * g.pitch + x * bpb + 4 <= g.height * g.pitch) by (nonlinear_arith)
                requires
                    x < g.width,
                    y < g.height,
                    (g.width - 1) * bpb + 4 <= g.pitch,
            ;
            assert(0 <= y * g.pitch && 0 <= x * bpb) by (nonlinear_arith);
        }
        let offset = y * g.pitch + x * bpb;
        let v = color.to_rgba();
        let o = offset as usize;
        proof {
            lemma_le_bytes(v);
        }
        self.mem[o] = (v & 0xff) as u8;
        self.mem[o + 1] = ((v >> 8) & 0xff) as u8;
        self.mem[o + 2] = ((v >> 16) & 0xff) as u8;
        self.mem[o + 3] = ((v >> 24) & 0xff) as u8;
    }

    /// Draws every pixel of the screen in `color`, row by row.
    pub fn clear(&mut self, color: Color)
        requires
            old(self).wf(),
        ensures
            final(self).wf(),
            final(self).geometry() == old(self).geometry(),
            final(self).base_addr() == old(self).base_addr(),
            final(self).bytes() == paint(
                old(self).geometry(),
                old(self).bytes(),
                screen_writes(old(self).geometry(), color),
            ),
            old(self).geometry().bpp / 8 >= 4 ==> forall|x: int, y: int|
                0 <= x < old(self).geometry().width && 0 <= y < old(self).geometry().height
                    ==> #[trigger] pixel_bytes(
                    final(self).bytes(),
                    old(self).geometry().pixel_offset(x, y),
                ) == le_bytes(color.rgba()),
    {
        let g = self.geom;
        let ghost before = self.mem@;
        let ghost writes = screen_writes(g, color);
        let mut y: u64 = 0;
        while y < g.height
            invariant
                self.wf(),
                self.geom == g,
                self.addr == old(self).addr,
                g == old(self).geom,
                before == old(self).mem@,
                writes == screen_writes(g, color),
                y <= g.height,
                self.mem@ == paint(g, before, writes.take(y * g.width)),
            decreases g.height - y,
        {
            let mut x: u64 = 0;
            while x < g.width
                invariant
                    self.wf(),
                    self.geom == g,
                    self.addr == old(self).addr,
                    writes == screen_writes(g, color),
                    y < g.height,
                    x <= g.width,
                    self.mem@ == paint(g, before, writes.take(y * g.width + x)),
                decreases g.width - x,
            {
                let ghost k = y * g.width + x;
                proof {
                    vstd::arithmetic::div_mod::lemma_fundamental_div_mod_converse(
                        k,
                        g.width as int,
                        y as int,
                        x as int,
                    );
                    assert(k < g.height * g.width) by (nonlinear_arith)
                        requires
                            k == y * g.width + x,
                            y < g.height,
                            x < g.width,
                    ;
                }
                self.put_pixel(x, y, color);
                proof {
                    assert(writes.take(k + 1).drop_last() =~= writes.take(k));
                    assert(writes[k] == PixelWrite { x, y, color });
                }
                x = x + 1;
            }
            proof {
                assert(y * g.width + g.width == (y + 1) * g.width) by (nonlinear_arith);
            }
            y = y + 1;
        }
        proof {
            assert(writes.take(g.height * g.width) =~= writes);
            if g.bpp / 8 >= 4 {
                lemma_clear_fills_screen(g, before, color);
            }
        }
    }

    /// Copies `count` bytes of pixel memory from `src` down to `dst`, front to back, so
    /// that overlapping ranges move as a whole.
    pub(crate) fn move_down(&mut self, src: u64, dst: u64, count: u64)
        requires
            old(self).wf(),
            dst <= src,
            src + count <= old(self).bytes().len(),
        ensures
            final(self).wf(),
            final(self).geometry() == old(self).geometry(),
            final(self).base_addr() == old(self).base_addr(),
            final(self).bytes() == move_bytes(old(self).bytes(), src as int, dst as int, count as int),
    {
        let ghost before = self.mem@;
        let n = self.mem.len();
        let mut i: u64 = 0;
        while i < count
            invariant
                self.geom == old(self).geom,
                self.addr == old(self).addr,
                n == self.mem@.len(),
                n == before.len(),
                dst <= src,
                src + count <= n,
                i <= count,
                self.mem@ == move_bytes(before, src as int, dst as int, i as int),
            decreases count - i,
        {
            let byte = self.mem[(src + i) as usize];
            self.mem[(dst + i) as usize] = byte;
            i = i + 1;
            assert(self.mem@ =~= move_bytes(before, src as int, dst as int, i as int));
        }
    }

    pub fn width(&self) -> (r: u64)
        ensures
            r == self.geometry().width,
    {
        self.geom.width
    }

    pub fn height(&self) -> (r: u64)
        ensures
            r == self.geometry().height,
    {
        self.geom.height
    }

    pub fn pitch(&self) -> (r: u64)
        ensures
            r == self.geometry().pitch,
    {
        self.geom.pitch
    }

    /// The pixel memory.
    pub fn memory(&self) -> (r: &[u8])
        ensures
            r@ == self.bytes(),
    {
        self.mem
    }

    pub fn addr(&self) -> (r: usize)
        ensures
            r == self.base_addr(),
    {
        self.addr
    }
}

} // verus!

verus! {

/// The BGRA pixel of a color is the RGBA pixel of the color with red and blue swapped.
pub proof fn lemma_bgra_swaps_red_blue(c: Color)
    ensures
        c.bgra() == (Color { r: c.b, g: c.g, b: c.r }).rgba(),
{
}

} // verus!

verus! {

/// The four bytes of the pixel at byte `off`.
pub open spec fn pixel_bytes(bytes: Seq<u8>, off: int) -> Seq<u8> {
    bytes.subrange(off, off + 4)
}

pub(crate) proof fn lemma_row_major_order(w: int, j: int, k: int)
    requires
        0 <= j < k,
        w > 0,
    ensures
        j / w < k / w || (j / w == k / w && j % w < k % w),
{
    vstd::arithmetic::div_mod::lemma_fundamental_div_mod(j, w);
    vstd::arithmetic::div_mod::lemma_fundamental_div_mod(k, w);
    let (qj, rj, qk, rk) = (j / w, j % w, k / w, k % w);
    assert(0 <= rj < w && 0 <= rk < w);
    if qj > qk {
        assert(j >= k) by (nonlinear_arith)
            requires
                j == w * qj + rj,
                k == w * qk + rk,
                qj >= qk + 1,
                0 <= rj,
                rk < w,
                w > 0,
        ;
    } else if qj == qk {
        assert(rj < rk) by (nonlinear_arith)
            requires
                j == w * qj + rj,
                k == w * qk + rk,
                qj == qk,
                j < k,
        ;
    }
}

/// With pixels at least four bytes apart, the pixels of a screen, taken row by row,
/// lie one after the other without overlapping.
proof fn lemma_pixels_ordered(g: FbGeometry, x1: int, y1: int, x2: int, y2: int)
    requires
        g.writes_fit(),
        g.bpp / 8 >= 4,
        0 <= x1 < g.width,
        0 <= x2 < g.width,
        0 <= y1 < g.height,
        0 <= y2 < g.height,
        y1 < y2 || (y1 == y2 && x1 < x2),
    ensures
        g.pixel_offset(x1, y1) + 4 <= g.pixel_offset(x2, y2),
        g.pixel_offset(x2, y2) + 4 <= g.size(),
{
    let b = (g.bpp / 8) as int;
    let p = g.pitch as int;
    let w = g.width as int;
    let h = g.height as int;
    assert((w - 1) * b + 4 <= p);
    if y1 < y2 {
        assert(y1 * p + x1 * b + 4 <= y2 * p + x2 * b) by (nonlinear_arith)
            requires
                y1 < y2,
                0 <= x1 < w,
                0 <= x2,
                b >= 4,
                (w - 1) * b + 4 <= p,
                0 <= y1,
        ;
    } else {
        assert(y1 * p + x1 * b + 4 <= y2 * p + x2 * b) by (nonlinear_arith)
            requires
                y1 == y2,
                x1 < x2,
                b >= 4,
        ;
    }
    assert(y2 * p + x2 * b + 4 <= h * p) by (nonlinear_arith)
        requires
            0 <= y2 < h,
            0 <= x2 < w,
            b >= 0,
            (w - 1) * b + 4 <= p,
    ;
}

proof fn lemma_pixel_in_memory(g: FbGeometry, x: int, y: int)
    requires
        g.writes_fit(),
        0 <= x < g.width,
        0 <= y < g.height,
    ensures
        0 <= g.pixel_offset(x, y),
        g.pixel_offset(x, y) + 4 <= g.size(),
{
    let b = (g.bpp / 8) as int;
    let p = g.pitch as int;
    assert(0 <= y * p + x * b && y * p + x * b + 4 <= g.height * p) by (nonlinear_arith)
        requires
            0 <= y < g.height,
            0 <= x < g.width,
            b >= 0,
            p >= 0,
            (g.width - 1) * b + 4 <= p,
    ;
}

proof fn lemma_clear_prefix(g: FbGeometry, bytes: Seq<u8>, c: Color, k: int)
    requires
        bytes.len() == g.size(),
        g.writes_fit(),
        g.bpp / 8 >= 4,
        0 <= k <= g.height * g.width,
    ensures
        paint(g, bytes, screen_writes(g, c).take(k)).len() == bytes.len(),
        forall|j: int|
            0 <= j < k ==> #[trigger] pixel_bytes(
                paint(g, bytes, screen_writes(g, c).take(k)),
                g.pixel_offset(j % g.width as int, j / g.width as int),
            ) == le_bytes(c.rgba()),
    decreases k,
{
    let writes = screen_writes(g, c);
    if k > 0 {
        lemma_clear_prefix(g, bytes, c, k - 1);
        let w = g.width as int;
        assert(w > 0) by (nonlinear_arith)
            requires
                0 < k <= g.height * w,
                g.height >= 0,
        ;
        let prev = paint(g, bytes, writes.take(k - 1));
        assert(writes.take(k).drop_last() =~= writes.take(k - 1));
        let xk = (k - 1) % w;
        let yk = (k - 1) / w;
        vstd::arithmetic::div_mod::lemma_fundamental_div_mod(k - 1, w);
        assert(0 <= xk < w);
        assert(0 <= yk < g.height) by (nonlinear_arith)
            requires
                k - 1 == w * yk + xk,
                0 <= xk < w,
                k - 1 < g.height * w,
                k - 1 >= 0,
        ;
        assert(writes[k - 1] == PixelWrite { x: xk as u64, y: yk as u64, color: c });
        let off = g.pixel_offset(xk, yk);
        let cur = paint(g, bytes, writes.take(k));
        assert(cur == store_u32(prev, off, c.rgba()));
        assert(0 <= off) by (nonlinear_arith)
            requires
                off == yk * g.pitch + xk * (g.bpp / 8) as int,
                yk >= 0,
                xk >= 0,
        ;
        lemma_pixel_in_memory(g, xk, yk);
        assert forall|j: int| 0 <= j < k implies #[trigger] pixel_bytes(
            cur,
            g.pixel_offset(j % w, j / w),
        ) == le_bytes(c.rgba()) by {
            if j == k - 1 {
                assert(pixel_bytes(cur, off) =~= le_bytes(c.rgba()));
            } else {
                lemma_row_major_order(w, j, k - 1);
                vstd::arithmetic::div_mod::lemma_fundamental_div_mod(j, w);
                let (xj, yj) = (j % w, j / w);
                assert(0 <= yj) by (nonlinear_arith)
                    requires
                        j == w * yj + xj,
                        0 <= xj < w,
                        j >= 0,
                ;
                lemma_pixels_ordered(g, xj, yj, xk, yk);
                assert(pixel_bytes(cur, g.pixel_offset(xj, yj)) =~= pixel_bytes(
                    prev,
                    g.pixel_offset(xj, yj),
                ));
            }
        }
    }
}

/// Clearing the screen draws every pixel in the color: when pixels are at least four
/// bytes apart, so that no pixel's write reaches into the next, each pixel of the
/// screen then holds `c.rgba()`.
pub proof fn lemma_clear_fills_screen(g: FbGeometry, bytes: Seq<u8>, c: Color)
    requires
        bytes.len() == g.size(),
        g.writes_fit(),
        g.bpp / 8 >= 4,
    ensures
        forall|x: int, y: int|
            0 <= x < g.width && 0 <= y < g.height ==> #[trigger] pixel_bytes(
                paint(g, bytes, screen_writes(g, c)),
                g.pixel_offset(x, y),
            ) == le_bytes(c.rgba()),
{
    let n = g.height * g.width;
    lemma_clear_prefix(g, bytes, c, n);
    assert(screen_writes(g, c).take(n) =~= screen_writes(g, c));
    assert forall|x: int, y: int| 0 <= x < g.width && 0 <= y < g.height implies #[trigger] pixel_bytes(
        paint(g, bytes, screen_writes(g, c)),
        g.pixel_offset(x, y),
    ) == le_bytes(c.rgba()) by {
        let w = g.width as int;
        let j = y * w + x;
        vstd::arithmetic::div_mod::lemma_fundamental_div_mod_converse(j, w, y, x);
        assert(j < n) by (nonlinear_arith)
            requires
                j == y * w + x,
                0 <= x < w,
                0 <= y < g.height,
                n == g.height * w,
        ;
    }
}

} // verus!

verus! {

/// The pixel writes are on the screen and in row-major order: each one lies in a later
/// row than the one before it, or further right in the same row.
pub open spec fn writes_in_order(g: FbGeometry, writes: Seq<PixelWrite>) -> bool {
    &&& forall|j: int|
        0 <= j < writes.len() ==> #[trigger] writes[j].x < g.width && writes[j].y < g.height
    &&& forall|j: int, k: int|
        0 <= j < k < writes.len() ==> (#[trigger] writes[j].y < #[trigger] writes[k].y || (
        writes[j].y == writes[k].y && writes[j].x < writes[k].x))
}

/// Drawing pixels in row-major order, with pixels at least four bytes apart so that no
/// write reaches into another pixel, leaves each drawn pixel holding its write's color.
pub proof fn lemma_paint_in_order(g: FbGeometry, bytes: Seq<u8>, writes: Seq<PixelWrite>)
    requires
        bytes.len() == g.size(),
        g.writes_fit(),
        g.bpp / 8 >= 4,
        writes_in_order(g, writes),
    ensures
        paint(g, bytes, writes).len() == bytes.len(),
        forall|j: int|
            0 <= j < writes.len() ==> #[trigger] pixel_bytes(
                paint(g, bytes, writes),
                g.pixel_offset(writes[j].x as int, writes[j].y as int),
            ) == le_bytes(writes[j].color.rgba()),
    decreases writes.len(),
{
    if writes.len() > 0 {
        let n = writes.len() - 1;
        let rest = writes.drop_last();
        assert(writes_in_order(g, rest)) by {
            assert forall|j: int| 0 <= j < rest.len() implies #[trigger] rest[j].x < g.width
                && rest[j].y < g.height by {
                assert(rest[j] == writes[j]);
            }
            assert forall|j: int, k: int| 0 <= j < k < rest.len() implies (#[trigger] rest[j].y
                < #[trigger] rest[k].y || (rest[j].y == rest[k].y && rest[j].x < rest[k].x)) by {
                assert(rest[j] == writes[j] && rest[k] == writes[k]);
            }
        }
        lemma_paint_in_order(g, bytes, rest);
        let prev = paint(g, bytes, rest);
        let last = writes[n];
        assert(0 <= n < writes.len());
        assert(writes[n].x < g.width);
        assert(writes[n].y < g.height);
        let off = g.pixel_offset(last.x as int, last.y as int);
        lemma_pixel_in_memory(g, last.x as int, last.y as int);
        let cur = paint(g, bytes, writes);
        assert(cur == store_u32(prev, off, last.color.rgba()));
        assert forall|j: int| 0 <= j < writes.len() implies #[trigger] pixel_bytes(
            cur,
            g.pixel_offset(writes[j].x as int, writes[j].y as int),
        ) == le_bytes(writes[j].color.rgba()) by {
            if j == n {
                assert(pixel_bytes(cur, off) =~= le_bytes(last.color.rgba()));
            } else {
                let wj = writes[j];
                assert(rest[j] == wj);
                assert(writes[j].y < writes[n].y || (writes[j].y == writes[n].y && writes[j].x < writes[n].x));
                assert(writes[j].x < g.width && writes[j].y < g.height);
                lemma_pixels_ordered(g, wj.x as int, wj.y as int, last.x as int, last.y as int);
                lemma_pixel_in_memory(g, wj.x as int, wj.y as int);
                assert(pixel_bytes(cur, g.pixel_offset(wj.x as int, wj.y as int)) =~= pixel_bytes(
                    prev,
                    g.pixel_offset(wj.x as int, wj.y as int),
                ));
            }
        }
    }
}

} // verus!
