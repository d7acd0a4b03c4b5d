use vstd::prelude::*;

verus! {

/// One colour with alpha, as both decoders and the idx palette carry it.
#[derive(Clone, Copy, Debug, PartialEq, Eq, Structural)]
pub struct Rgba {
    pub r: u8,
    pub g: u8,
    pub b: u8,
    pub a: u8,
}

impl Rgba {
    /// The four bytes of this colour in BGRA order.
    pub open spec fn bgra(self) -> Seq<u8> {
        seq![self.b, self.g, self.r, self.a]
    }
}

/// A decoded subtitle frame: BGRA8, row-major, top-down.
pub struct Bitmap {
    pub width: usize,
    pub height: usize,
    pub pixels: Vec<u8>,
}

impl Bitmap {
    /// Every bitmap the decoders hand out satisfies this: four bytes per pixel.
    pub open spec fn wf(&self) -> bool {
        self.pixels@.len() == self.width * self.height * 4
    }

    /// The four BGRA bytes of the pixel at column `x`, row `y`.
    pub open spec fn pixel(&self, x: int, y: int) -> Seq<u8> {
        self.pixels@.subrange((y * self.width + x) * 4, (y * self.width + x) * 4 + 4)
    }

    pub fn new(width: usize, height: usize, pixels: Vec<u8>) -> (r: Bitmap)
        requires
            pixels@.len() == width * height * 4,
        ensures
            r.wf(),
            r.width == width,
            r.height == height,
            r.pixels@ == pixels@,
    {
        Bitmap { width, height, pixels }
    }
}

/// How one channel is flattened against an opaque background:
/// `dst = src·a/255 + bg·(255−a)/255`, kept exact in integers.
pub open spec fn blend_channel(src: u8, bg: u8, a: u8) -> u8 {
    ((src * a + bg * (255 - a)) / 255) as u8
}

/// Pixel `p` of `newp` is pixel `p` of `oldp` flattened against opaque `bg`.
pub open spec fn pixel_blended(oldp: Seq<u8>, newp: Seq<u8>, bg: Rgba, p: int) -> bool {
    let a = oldp[4 * p + 3];
    &&& newp[4 * p] == blend_channel(oldp[4 * p], bg.b, a)
    &&& newp[4 * p + 1] == blend_channel(oldp[4 * p + 1], bg.g, a)
    &&& newp[4 * p + 2] == blend_channel(oldp[4 * p + 2], bg.r, a)
    &&& newp[4 * p + 3] == 255
}

/// Alpha-blends every pixel against the opaque colour `bg` and makes the
/// result fully opaque, as the OCR engine expects.
pub fn blend_with_color(bitmap: &mut Bitmap, bg: &Rgba)
    requires
        old(bitmap).wf(),
    ensures
        final(bitmap).wf(),
        final(bitmap).width == old(bitmap).width,
        final(bitmap).height == old(bitmap).height,
        final(bitmap).pixels@.len() == old(bitmap).pixels@.len(),
        forall|p: int|
            0 <= p < old(bitmap).width * old(bitmap).height ==> #[trigger] pixel_blended(
                old(bitmap).pixels@,
                final(bitmap).pixels@,
                *bg,
                p,
            ),
{
    let total: usize = bitmap.pixels.len() / 4;
    proof {
        let w = old(bitmap).width as int;
        let h = old(bitmap).height as int;
        assert(w * h * 4 == 4 * (w * h)) by (nonlinear_arith);
    }
    let mut p: usize = 0;
    while p < total
        invariant
            bitmap.wf(),
            bitmap.width == old(bitmap).width,
            bitmap.height == old(bitmap).height,
            total == old(bitmap).width * old(bitmap).height,
            bitmap.pixels@.len() == old(bitmap).pixels@.len(),
            bitmap.pixels@.len() == 4 * total,
            p <= total,
            forall|q: int| 4 * p <= q < 4 * total ==> #[trigger] bitmap.pixels@[q] == old(bitmap).pixels@[q],
            forall|q: int|
                0 <= q < p ==> #[trigger] pixel_blended(old(bitmap).pixels@, bitmap.pixels@, *bg, q),
        decreases total - p,
    {
        let plen: usize = bitmap.pixels.len();
        proof {
            assert(4 * p + 4 <= plen);
        }
        let base: usize = 4 * p;
        let a: u8 = bitmap.pixels[base + 3];
        let sb: u8 = bitmap.pixels[base];
        let sg: u8 = bitmap.pixels[base + 1];
        let sr: u8 = bitmap.pixels[base + 2];
        let nb: u8 = blend_one(sb, bg.b, a);
        let ng: u8 = blend_one(sg, bg.g, a);
        let nr: u8 = blend_one(sr, bg.r, a);
        let ghost prev = bitmap.pixels@;
        bitmap.pixels.set(base, nb);
        bitmap.pixels.set(base + 1, ng);
        bitmap.pixels.set(base + 2, nr);
        bitmap.pixels.set(base + 3, 255);
        proof {
            assert(pixel_blended(old(bitmap).pixels@, bitmap.pixels@, *bg, p as int));
            assert forall|q: int|
                0 <= q < p implies #[trigger] pixel_blended(
                old(bitmap).pixels@,
                bitmap.pixels@,
                *bg,
                q,
            ) by {
                assert(pixel_blended(old(bitmap).pixels@, prev, *bg, q));
                assert(4 * q + 3 < 4 * p);
                assert(bitmap.pixels@[4 * q] == prev[4 * q]);
                assert(bitmap.pixels@[4 * q + 1] == prev[4 * q + 1]);
                assert(bitmap.pixels@[4 * q + 2] == prev[4 * q + 2]);
                assert(bitmap.pixels@[4 * q + 3] == prev[4 * q + 3]);
            }
        }
        p = p + 1;
    }
}

fn blend_one(src: u8, bg: u8, a: u8) -> (r: u8)
    ensures
        r == blend_channel(src, bg, a),
{
    proof {
        assert(src * a + bg * (255 - a) <= 255 * 255) by (nonlinear_arith)
            requires
                src <= 255 && a <= 255 && bg <= 255,
        ;
    }
    let v: u32 = (src as u32) * (a as u32) + (bg as u32) * (255 - (a as u32));
    (v / 255) as u8
}

/// Destination pixel `(x, y)` of the scaled buffer `dst` (of row width `nw`)
/// holds the source pixel at the floor of two thirds of each coordinate.
pub open spec fn scaled_pixel_copied(dst: Seq<u8>, nw: int, src: Bitmap, x: int, y: int) -> bool {
    dst.subrange((y * nw + x) * 4, (y * nw + x) * 4 + 4) == src.pixel(2 * x / 3, 2 * y / 3)
}

/// Nearest-neighbour up-scaling by 3/2, used when a frame is too small for
/// the OCR engine; source coordinates are the floor of `dst/1.5`.
#[verifier::rlimit(50)]
pub fn scale_image(src: &Bitmap) -> (r: Bitmap)
    requires
        src.wf(),
        src.width * src.height < 30000,
        src.width > 0,
        src.height > 0,
    ensures
        r.wf(),
        r.width == (3 * src.width + 1) / 2,
        r.height == (3 * src.height + 1) / 2,
        forall|x: int, y: int|
            0 <= x < r.width && 0 <= y < r.height ==> r.pixel(x, y) == src.pixel(
                2 * x / 3,
                2 * y / 3,
            ),
{
    proof {
        assert(src.width < 30000 && src.height < 30000) by (nonlinear_arith)
            requires
                src.width * src.height < 30000 && src.width > 0 && src.height > 0,
        ;
    }
    let new_width: usize = (3 * src.width + 1) / 2;
    let new_height: usize = (3 * src.height + 1) / 2;
    let mut pixels: Vec<u8> = Vec::new();
    let mut y: usize = 0;
    while y < new_height
        invariant
            src.wf(),
            new_width == (3 * src.width + 1) / 2,
            new_height == (3 * src.height + 1) / 2,
            src.width < 30000,
            src.height < 30000,
            y <= new_height,
            pixels@.len() == y * new_width * 4,
            forall|xx: int, yy: int|
                0 <= xx < new_width && 0 <= yy < y ==> #[trigger] scaled_pixel_copied(
                    pixels@,
                    new_width as int,
                    *src,
                    xx,
                    yy,
                ),
        decreases new_height - y,
    {
        let src_y: usize = 2 * y / 3;
        proof {
            lemma_scaled_source_in_range(src.height as int, new_height as int, y as int);
            assert(src_y < src.height);
        }
        let mut x: usize = 0;
        while x < new_width
            invariant
                src.wf(),
                new_width == (3 * src.width + 1) / 2,
                src.width < 30000,
                src.height < 30000,
                src_y == 2 * y / 3,
                src_y < src.height,
                x <= new_width,
                y < new_height,
                pixels@.len() == y * new_width * 4 + x * 4,
                forall|xx: int, yy: int|
                    0 <= xx < new_width && 0 <= yy < y ==> #[trigger] scaled_pixel_copied(
                        pixels@,
                        new_width as int,
                        *src,
                        xx,
                        yy,
                    ),
                forall|xx: int|
                    0 <= xx < x ==> #[trigger] scaled_pixel_copied(
                        pixels@,
                        new_width as int,
                        *src,
                        xx,
                        y as int,
                    ),
            decreases new_width - x,
        {
            let src_x: usize = 2 * x / 3;
            proof {
                lemma_scaled_source_in_range(src.width as int, new_width as int, x as int);
                assert(src_x < src.width);
                assert((src_y * src.width + src_x) * 4 + 4 <= src.pixels@.len()) by (
                nonlinear_arith)
                    requires
                        src_x < src.width && src_y < src.height && src.pixels@.len() == src.width
                            * src.height * 4,
                ;
                assert(src_y * src.width + src_x < 900060000) by (nonlinear_arith)
                    requires
                        src_x < src.width < 30000 && src_y < src.height < 30000,
                ;
            }
            let sbase: usize = (src_y * src.width + src_x) * 4;
            let ghost len0 = pixels@.len() as int;
            let ghost old_pixels = pixels@;
            pixels.push(src.pixels[sbase]);
            pixels.push(src.pixels[sbase + 1]);
            pixels.push(src.pixels[sbase + 2]);
            pixels.push(src.pixels[sbase + 3]);
            proof {
                let nw = new_width as int;
                let yi = y as int;
                assert(pixels@.subrange(len0, len0 + 4) =~= src.pixel(src_x as int, src_y as int));
                assert(len0 == (yi * nw + x) * 4) by (nonlinear_arith)
                    requires
                        len0 == yi * nw * 4 + x * 4,
                ;
                assert(scaled_pixel_copied(pixels@, nw, *src, x as int, yi));
                assert forall|xx: int, yy: int|
                    0 <= xx < new_width && 0 <= yy <= y && (yy < y || xx < x)
                        && scaled_pixel_copied(pixels@.take(len0), nw, *src, xx, yy) implies
                    #[trigger] scaled_pixel_copied(pixels@, nw, *src, xx, yy) by {
                    assert((yy * nw + xx) * 4 + 4 <= len0) by (nonlinear_arith)
                        requires
                            0 <= xx < nw && 0 <= yy <= yi && (yy < yi || xx < x) && len0 == yi * nw
                                * 4 + x * 4,
                    ;
                    assert(pixels@.subrange((yy * nw + xx) * 4, (yy * nw + xx) * 4 + 4)
                        =~= pixels@.take(len0).subrange((yy * nw + xx) * 4, (yy * nw + xx) * 4 + 4));
                }
                assert(pixels@.take(len0) =~= old_pixels);
            }
            x = x + 1;
        }
        proof {
            assert(y * new_width * 4 + new_width * 4 == (y + 1) * new_width * 4) by (
            nonlinear_arith);
        }
        y = y + 1;
    }
    proof {
        assert(new_height * new_width * 4 == new_width * new_height * 4) by (nonlinear_arith);
    }
    let result = Bitmap { width: new_width, height: new_height, pixels };
    proof {
        assert forall|x: int, y: int|
            0 <= x < new_width && 0 <= y < new_height implies result.pixel(x, y) == src.pixel(
            2 * x / 3,
            2 * y / 3,
        ) by {
            assert(scaled_pixel_copied(result.pixels@, new_width as int, *src, x, y));
        }
    }
    result
}

/// For the 3/2 up-scaling: every destination coordinate maps back inside the
/// source.
proof fn lemma_scaled_source_in_range(w: int, nw: int, x: int)
    requires
        w > 0,
        nw == (3 * w + 1) / 2,
        0 <= x < nw,
    ensures
        0 <= 2 * x / 3 < w,
{
    assert(2 * x <= 2 * (nw - 1));
    assert(2 * nw <= 3 * w + 1);
    assert(2 * x <= 3 * w - 1);
    assert(2 * x / 3 < w);
}

} // verus!
