//! The RGBA pixel buffer and its rectangle writer.

use vstd::prelude::*;
use vstd::arithmetic::div_mod::{lemma_fundamental_div_mod, lemma_mod_bound};

verus! {

/// Failures of the rendering calls.
#[derive(Debug, Clone, Copy, PartialEq, Eq, Structural)]
pub enum RenderError {
    /// The image has no rows or no columns.
    DegenerateViewport,
}

/// Byte offset of pixel `(x, y)` in a row-major RGBA buffer `width` pixels wide.
pub open spec fn offset(width: int, x: int, y: int) -> int {
    (y * width + x) * 4
}

/// The four bytes (R, G, B, A) of pixel `(x, y)`.
pub open spec fn pixel_of(b: Seq<u8>, width: int, x: int, y: int) -> (u8, u8, u8, u8) {
    let o = offset(width, x, y);
    (b[o], b[o + 1], b[o + 2], b[o + 3])
}

/// The opaque pixel value of an RGB color.
pub open spec fn opaque(color: [u8; 3]) -> (u8, u8, u8, u8) {
    (color[0], color[1], color[2], 255u8)
}

/// Whether `(x, y)` lies in the inclusive rectangle `[x1, x2] x [y1, y2]`.
pub open spec fn in_rect(x: int, y: int, x1: int, y1: int, x2: int, y2: int) -> bool {
    x1 <= x <= x2 && y1 <= y <= y2
}

/// Distinct pixels of one row width have distinct linear indices.
pub proof fn lemma_index_distinct(width: int, x: int, y: int, xx: int, yy: int)
    requires
        0 <= x < width,
        0 <= xx < width,
        0 <= y,
        0 <= yy,
        x != xx || y != yy,
    ensures
        y * width + x != yy * width + xx,
{
    if y < yy {
        assert(y * width + x < yy * width + xx) by (nonlinear_arith)
            requires
                0 <= x < width,
                0 <= xx,
                y < yy,
        {
            assert(yy * width >= (y + 1) * width);
        }
    } else if yy < y {
        assert(yy * width + xx < y * width + x) by (nonlinear_arith)
            requires
                0 <= xx < width,
                0 <= x,
                yy < y,
        {
            assert(y * width >= (yy + 1) * width);
        }
    }
}

/// A pixel inside the image has its four bytes inside the buffer.
pub proof fn lemma_index_bound(width: int, height: int, x: int, y: int)
    requires
        0 <= x < width,
        0 <= y < height,
    ensures
        0 <= y * width + x,
        y * width + x + 1 <= width * height,
{
    assert(0 <= y * width + x && y * width + x + 1 <= width * height) by (nonlinear_arith)
        requires
            0 <= x < width,
            0 <= y < height,
    {
        assert(y * width + x + 1 <= (y + 1) * width);
        assert((y + 1) * width <= height * width);
    }
}

/// `b` with every pixel of the inclusive rectangle `[x1, x2] x [y1, y2]` set to
/// `color` and full alpha.
pub open spec fn paint(b: Seq<u8>, width: int, x1: int, y1: int, x2: int, y2: int, color: [u8; 3]) -> Seq<u8> {
    Seq::new(
        b.len(),
        |i: int|
            {
                let p = i / 4;
                if in_rect(p % width, p / width, x1, y1, x2, y2) {
                    if i % 4 == 0 {
                        color[0]
                    } else if i % 4 == 1 {
                        color[1]
                    } else if i % 4 == 2 {
                        color[2]
                    } else {
                        255u8
                    }
                } else {
                    b[i]
                }
            },
    )
}

/// Byte `i` of an image is byte `i % 4` of pixel `((i / 4) % width, (i / 4) / width)`.
pub proof fn lemma_byte_pixel(i: int, width: int, height: int)
    requires
        0 <= i < width * height * 4,
        0 < width,
        0 < height,
    ensures
        0 <= (i / 4) % width < width,
        0 <= (i / 4) / width < height,
        0 <= i % 4 < 4,
        offset(width, (i / 4) % width, (i / 4) / width) + i % 4 == i,
{
    let p = i / 4;
    lemma_fundamental_div_mod(i, 4);
    lemma_mod_bound(i, 4);
    lemma_fundamental_div_mod(p, width);
    lemma_mod_bound(p, width);
    let x = p % width;
    let y = p / width;
    assert(p < width * height);
    assert(0 <= y < height) by (nonlinear_arith)
        requires
            p == width * y + x,
            0 <= x < width,
            0 <= p < width * height,
    ;
    assert(offset(width, x, y) == i - i % 4) by (nonlinear_arith)
        requires
            p == width * y + x,
            i == 4 * p + i % 4,
    ;
}

/// A row-major RGBA image, four bytes per pixel.
pub struct PixelBuffer {
    width: u32,
    height: u32,
    data: Vec<u8>,
}

impl View for PixelBuffer {
    type V = Seq<u8>;

    closed spec fn view(&self) -> Seq<u8> {
        self.data@
    }
}

impl PixelBuffer {
    /// Width in pixels.
    pub closed spec fn spec_width(&self) -> int {
        self.width as int
    }

    /// Height in pixels.
    pub closed spec fn spec_height(&self) -> int {
        self.height as int
    }

    /// Both sides are at least one pixel and the bytes cover every pixel.
    pub open spec fn wf(&self) -> bool {
        &&& self.spec_width() >= 1
        &&& self.spec_height() >= 1
        &&& self@.len() == self.spec_width() * self.spec_height() * 4
    }

    /// The four bytes of pixel `(x, y)`.
    pub open spec fn pixel(&self, x: int, y: int) -> (u8, u8, u8, u8) {
        pixel_of(self@, self.spec_width(), x, y)
    }

    /// A zeroed buffer of `width` by `height` pixels; an empty side is refused.
    pub fn new(width: u32, height: u32) -> (r: Result<PixelBuffer, RenderError>)
        requires
            width * height * 4 <= usize::MAX,
        ensures
            width == 0 || height == 0 <==> r is Err,
            r is Err ==> r == Err::<PixelBuffer, RenderError>(RenderError::DegenerateViewport),
            r matches Ok(b) ==> {
                &&& b.wf()
                &&& b.spec_width() == width
                &&& b.spec_height() == height
                &&& forall|i: int| 0 <= i < b@.len() ==> b@[i] == 0u8
            },
    {
        if width == 0 || height == 0 {
            return Err(RenderError::DegenerateViewport);
        }
        let n: usize = (width as usize) * (height as usize) * 4;
        let data = vec![0u8; n];
        Ok(PixelBuffer { width, height, data })
    }

    /// Width in pixels.
    pub fn width(&self) -> (r: u32)
        ensures
            r == self.spec_width(),
    {
        self.width
    }

    /// Height in pixels.
    pub fn height(&self) -> (r: u32)
        ensures
            r == self.spec_height(),
    {
        self.height
    }

    /// The bytes, row-major, four per pixel.
    pub fn as_bytes(&self) -> (r: &Vec<u8>)
        ensures
            r@ == self@,
    {
        &self.data
    }

    /// The bytes, row-major, four per pixel, handed over whole.
    pub fn into_bytes(self) -> (r: Vec<u8>)
        ensures
            r@ == self@,
    {
        self.data
    }

    /// Sets pixel `(x, y)` to `color` with full alpha and leaves every other pixel alone.
    pub fn put_pixel(&mut self, x: u32, y: u32, color: [u8; 3])
        requires
            old(self).wf(),
            x < old(self).spec_width(),
            y < old(self).spec_height(),
        ensures
            final(self).wf(),
            final(self).spec_width() == old(self).spec_width(),
            final(self).spec_height() == old(self).spec_height(),
            final(self).pixel(x as int, y as int) == opaque(color),
            forall|xx: int, yy: int|
                0 <= xx < final(self).spec_width() && 0 <= yy < final(self).spec_height() && (xx
                    != x || yy != y) ==> #[trigger] final(self).pixel(xx, yy) == old(self).pixel(
                    xx,
                    yy,
                ),
    {
        let ghost w = self.width as int;
        let ghost h = self.height as int;
        let ghost before = self@;
        proof {
            lemma_index_bound(w, h, x as int, y as int);
        }
        let len: usize = self.data.len();
        assert((y as int * w + x) * 4 + 4 <= len);
        let lin: usize = (y as usize) * (self.width as usize) + (x as usize);
        let i: usize = lin * 4;
        self.data[i] = color[0];
        self.data[i + 1] = color[1];
        self.data[i + 2] = color[2];
        self.data[i + 3] = 255u8;
        assert forall|xx: int, yy: int|
            0 <= xx < w && 0 <= yy < h && (xx != x || yy != y) implies #[trigger] self.pixel(
            xx,
            yy,
        ) == pixel_of(before, w, xx, yy) by {
            lemma_index_distinct(w, x as int, y as int, xx, yy);
            lemma_index_bound(w, h, xx, yy);
        }
    }

    /// Sets every pixel of the inclusive rectangle `[x1, x2] x [y1, y2]` to `color`
    /// with full alpha; every pixel outside it keeps its bytes.
    pub fn fill_rect(&mut self, x1: u32, y1: u32, x2: u32, y2: u32, color: [u8; 3])
        requires
            old(self).wf(),
            x1 <= x2 < old(self).spec_width(),
            y1 <= y2 < old(self).spec_height(),
        ensures
            final(self).wf(),
            final(self).spec_width() == old(self).spec_width(),
            final(self).spec_height() == old(self).spec_height(),
            forall|x: int, y: int|
                0 <= x < final(self).spec_width() && 0 <= y < final(self).spec_height()
                    ==> #[trigger] final(self).pixel(x, y) == if in_rect(x, y, x1 as int, y1 as int, x2 as int, y2 as int) {
                    opaque(color)
                } else {
                    old(self).pixel(x, y)
                },
            final(self)@ == paint(
                old(self)@,
                old(self).spec_width(),
                x1 as int,
                y1 as int,
                x2 as int,
                y2 as int,
                color,
            ),
    {
        let ghost start = *self;
        let mut y: u32 = y1;
        while y <= y2
            invariant
                self.wf(),
                self.spec_width() == start.spec_width(),
                self.spec_height() == start.spec_height(),
                x1 <= x2 < start.spec_width(),
                y1 <= y <= y2 + 1,
                y2 < start.spec_height(),
                forall|px: int, py: int|
                    0 <= px < start.spec_width() && 0 <= py < start.spec_height() ==> #[trigger] self.pixel(
                        px,
                        py,
                    ) == if in_rect(px, py, x1 as int, y1 as int, x2 as int, y as int - 1) {
                        opaque(color)
                    } else {
                        start.pixel(px, py)
                    },
            decreases y2 + 1 - y,
        {
            let mut x: u32 = x1;
            while x <= x2
                invariant
                    self.wf(),
                    self.spec_width() == start.spec_width(),
                    self.spec_height() == start.spec_height(),
                    x1 <= x <= x2 + 1,
                    x2 < start.spec_width(),
                    y1 <= y <= y2,
                    y2 < start.spec_height(),
                    forall|px: int, py: int|
                        0 <= px < start.spec_width() && 0 <= py < start.spec_height() ==> #[trigger] self.pixel(
                            px,
                            py,
                        ) == if in_rect(px, py, x1 as int, y1 as int, x2 as int, y as int - 1) || (
                        py == y && x1 <= px < x) {
                            opaque(color)
                        } else {
                            start.pixel(px, py)
                        },
                decreases x2 + 1 - x,
            {
                self.put_pixel(x, y, color);
                x = x + 1;
            }
            y = y + 1;
        }
        let ghost w = start.spec_width();
        let ghost h = start.spec_height();
        assert forall|i: int| 0 <= i < self@.len() implies self@[i] == paint(
            start@,
            w,
            x1 as int,
            y1 as int,
            x2 as int,
            y2 as int,
            color,
        )[i] by {
            lemma_byte_pixel(i, w, h);
            let px = (i / 4) % w;
            let py = (i / 4) / w;
            assert(self.pixel(px, py) == if in_rect(px, py, x1 as int, y1 as int, x2 as int, y2 as int) {
                opaque(color)
            } else {
                start.pixel(px, py)
            });
        }
        assert(self@ =~= paint(start@, w, x1 as int, y1 as int, x2 as int, y2 as int, color));
    }
}

} // verus!
