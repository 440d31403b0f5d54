//! Pictures held in memory as rows of RGBA pixels with 16 bits per channel.

use crate::error::FpcError;
use crate::geometry::Rect;
use vstd::prelude::*;

verus! {

/// One pixel: three colour channels and an alpha channel, 16 bits each.
#[derive(Debug, Clone, Copy, PartialEq, Eq, Structural)]
pub struct Pixel {
    pub red: u16,
    pub green: u16,
    pub blue: u16,
    pub alpha: u16,
}

impl Pixel {
    /// A pixel is blank when it is fully transparent.
    pub open spec fn is_blank(self) -> bool {
        self.alpha == 0
    }

    /// The pixel with every channel at zero.
    pub open spec fn clear() -> Pixel {
        Pixel { red: 0, green: 0, blue: 0, alpha: 0 }
    }

    /// The fully transparent pixel, every channel zero.
    pub fn transparent() -> (p: Pixel)
        ensures
            p == Pixel::clear(),
    {
        Pixel { red: 0, green: 0, blue: 0, alpha: 0 }
    }
}

/// The `i`-th pixel of a run of samples that holds four samples per pixel in
/// the order red, green, blue, alpha.
pub open spec fn pixel_in(samples: Seq<u16>, i: int) -> Pixel {
    Pixel {
        red: samples[4 * i],
        green: samples[4 * i + 1],
        blue: samples[4 * i + 2],
        alpha: samples[4 * i + 3],
    }
}

/// What a picture is: its size and its samples, row by row from the top,
/// each row from the left, four samples per pixel.
#[verifier::ext_equal]
pub struct ImageView {
    pub width: nat,
    pub height: nat,
    pub samples: Seq<u16>,
}

impl ImageView {
    /// The samples fill the picture exactly, the sides fit in 32 bits and
    /// the samples can be held in memory.
    pub open spec fn wf(self) -> bool {
        &&& self.width <= u32::MAX
        &&& self.height <= u32::MAX
        &&& self.samples.len() == 4 * ((self.width as int) * (self.height as int))
        &&& self.samples.len() <= usize::MAX
    }

    /// Whether (`x`, `y`) is a pixel of the picture.
    pub open spec fn contains(self, x: int, y: int) -> bool {
        0 <= x < self.width && 0 <= y < self.height
    }

    /// The pixel in column `x` of row `y`.
    pub open spec fn pixel(self, x: int, y: int) -> Pixel {
        pixel_in(self.samples, y * (self.width as int) + x)
    }

    /// Whether the pixel in column `x` of row `y` is fully transparent.
    pub open spec fn is_blank(self, x: int, y: int) -> bool {
        self.pixel(x, y).is_blank()
    }

    /// Whether `rect` lies inside the picture.
    pub open spec fn holds(self, rect: Rect) -> bool {
        rect.fits_within(self.width as int, self.height as int)
    }
}

/// Position (`x`, `y`) of a picture `w` wide and `h` high comes before the
/// end of its pixels.
pub proof fn lemma_pixel_index(x: int, y: int, w: int, h: int)
    requires
        0 <= x < w,
        0 <= y < h,
    ensures
        0 <= y * w <= y * w + x < w * h,
{
    assert(0 <= y * w) by (nonlinear_arith)
        requires
            0 <= y,
            0 <= w,
    ;
    assert((y + 1) * w <= h * w) by (nonlinear_arith)
        requires
            y + 1 <= h,
            0 <= w,
    ;
    assert((y + 1) * w == y * w + w) by (nonlinear_arith);
    assert(h * w == w * h) by (nonlinear_arith);
}

/// A picture no wider and no higher than another has no more pixels.
proof fn lemma_area_within(w1: int, h1: int, w2: int, h2: int)
    requires
        0 <= w1 <= w2,
        0 <= h1 <= h2,
    ensures
        0 <= w1 * h1 <= w2 * h2,
{
    assert(0 <= w1 * h1 <= w2 * h2) by (nonlinear_arith)
        requires
            0 <= w1 <= w2,
            0 <= h1 <= h2,
    ;
}

/// Two positions of one picture that share an index are the same position.
proof fn lemma_pixel_index_unique(x1: int, y1: int, x2: int, y2: int, w: int)
    requires
        0 <= x1 < w,
        0 <= x2 < w,
        0 <= y1,
        0 <= y2,
        y1 * w + x1 == y2 * w + x2,
    ensures
        x1 == x2,
        y1 == y2,
{
    if y1 < y2 {
        assert((y1 + 1) * w <= y2 * w) by (nonlinear_arith)
            requires
                y1 + 1 <= y2,
                0 <= w,
        ;
        assert((y1 + 1) * w == y1 * w + w) by (nonlinear_arith);
    } else if y2 < y1 {
        assert((y2 + 1) * w <= y1 * w) by (nonlinear_arith)
            requires
                y2 + 1 <= y1,
                0 <= w,
        ;
        assert((y2 + 1) * w == y2 * w + w) by (nonlinear_arith);
    }
}

/// Two well-formed pictures of one size that agree on every pixel are the
/// same picture.
pub proof fn lemma_same_pixels(a: ImageView, b: ImageView)
    requires
        a.wf(),
        b.wf(),
        a.width == b.width,
        a.height == b.height,
        forall|x: int, y: int| a.contains(x, y) ==> #[trigger] a.pixel(x, y) == b.pixel(x, y),
    ensures
        a == b,
{
    let w = a.width as int;
    assert forall|k: int| 0 <= k < a.samples.len() implies a.samples[k] == b.samples[k] by {
        let i = k / 4;
        let x = i % w;
        let y = i / w;
        assert(0 <= i < w * a.height);
        assert(w > 0) by (nonlinear_arith)
            requires
                0 <= i < w * a.height,
                0 <= w,
        ;
        vstd::arithmetic::div_mod::lemma_fundamental_div_mod(i, w);
        assert(i == w * y + x);
        assert(w * y == y * w) by (nonlinear_arith);
        assert(0 <= x < w);
        assert(0 <= y < a.height) by (nonlinear_arith)
            requires
                0 <= i < w * a.height,
                i == w * y + x,
                0 <= x < w,
        ;
        assert(a.pixel(x, y) == b.pixel(x, y));
        assert(k == 4 * i + k % 4);
    }
    assert(a.samples =~= b.samples);
}

/// Channel `c` of a pixel, counted red, green, blue, alpha from zero.
pub open spec fn channel(p: Pixel, c: int) -> u16 {
    if c == 0 {
        p.red
    } else if c == 1 {
        p.green
    } else if c == 2 {
        p.blue
    } else {
        p.alpha
    }
}

/// The picture of the given size whose pixel at (`x`, `y`) is `f(x, y)`.
pub open spec fn picture(width: nat, height: nat, f: spec_fn(int, int) -> Pixel) -> ImageView {
    ImageView {
        width,
        height,
        samples: Seq::new(
            (4 * ((width as int) * (height as int))) as nat,
            |k: int| channel(f((k / 4) % (width as int), (k / 4) / (width as int)), k % 4),
        ),
    }
}

/// [`picture`] has the pixels that it was given, and is well formed if it
/// fits in memory.
pub proof fn lemma_picture(width: nat, height: nat, f: spec_fn(int, int) -> Pixel)
    ensures
        picture(width, height, f).samples.len() == 4 * ((width as int) * (height as int)),
        forall|x: int, y: int|
            0 <= x < width && 0 <= y < height ==> #[trigger] picture(width, height, f).pixel(x, y)
                == f(x, y),
        width <= u32::MAX && height <= u32::MAX && 4 * ((width as int) * (height as int))
            <= usize::MAX ==> picture(width, height, f).wf(),
{
    let w = width as int;
    let h = height as int;
    let v = picture(width, height, f);
    assert(0 <= w * h) by (nonlinear_arith)
        requires
            0 <= w,
            0 <= h,
    ;
    assert forall|x: int, y: int| 0 <= x < width && 0 <= y < height implies #[trigger] v.pixel(
        x,
        y,
    ) == f(x, y) by {
        lemma_pixel_index(x, y, w, h);
        let i = y * w + x;
        vstd::arithmetic::div_mod::lemma_fundamental_div_mod_converse(i, w, y, x);
        assert((4 * i) / 4 == i && (4 * i + 1) / 4 == i && (4 * i + 2) / 4 == i && (4 * i + 3) / 4
            == i);
        assert(v.samples[4 * i] == channel(f(x, y), 0));
        assert(v.samples[4 * i + 1] == channel(f(x, y), 1));
        assert(v.samples[4 * i + 2] == channel(f(x, y), 2));
        assert(v.samples[4 * i + 3] == channel(f(x, y), 3));
    }
}

/// A well-formed picture whose pixel at (`x`, `y`) is `f(x, y)` throughout
/// is [`picture`] of `f`.
pub proof fn lemma_is_picture(v: ImageView, f: spec_fn(int, int) -> Pixel)
    requires
        v.wf(),
        forall|x: int, y: int| v.contains(x, y) ==> #[trigger] v.pixel(x, y) == f(x, y),
    ensures
        v == picture(v.width, v.height, f),
{
    lemma_picture(v.width, v.height, f);
    lemma_same_pixels(v, picture(v.width, v.height, f));
}

/// The part of a picture that `rect` covers, as a picture of its own.
pub open spec fn cropped(v: ImageView, rect: Rect) -> ImageView {
    picture(
        rect.width as nat,
        rect.height as nat,
        |x: int, y: int| v.pixel(rect.x + x, rect.y + y),
    )
}

/// A picture in memory. Its fields are its own, so that every picture is
/// well formed: its view satisfies [`ImageView::wf`].
#[derive(Debug, PartialEq, Eq)]
pub struct Image {
    width: u32,
    height: u32,
    samples: Vec<u16>,
}

impl View for Image {
    type V = ImageView;

    closed spec fn view(&self) -> ImageView {
        ImageView {
            width: self.width as nat,
            height: self.height as nat,
            samples: self.samples@,
        }
    }
}

impl Image {
    /// Every picture in memory is well formed.
    #[verifier::type_invariant]
    pub open spec fn well_formed(self) -> bool {
        self@.wf()
    }

    /// The number of columns.
    pub fn width(&self) -> (w: u32)
        ensures
            w == self@.width,
    {
        self.width
    }

    /// The number of rows.
    pub fn height(&self) -> (h: u32)
        ensures
            h == self@.height,
    {
        self.height
    }

    /// Takes over `samples` as a picture `width` wide and `height` high, if
    /// they are exactly four samples for each of its pixels. Any other
    /// number of samples is an image error.
    pub fn from_raw(width: u32, height: u32, samples: Vec<u16>) -> (r: Result<Image, FpcError>)
        ensures
            r.is_ok() <==> samples.len() == 4 * (width * height),
            r matches Ok(img) ==> img@ == (ImageView {
                width: width as nat,
                height: height as nat,
                samples: samples@,
            }) && img@.wf(),
            r matches Err(e) ==> e matches FpcError::ImageError(message) && message@
                == "the samples do not fill the picture"@,
    {
        let n: u64 = samples.len() as u64;
        assert(width * height <= 0xffff_fffe_0000_0001) by (nonlinear_arith)
            requires
                width <= 0xffff_ffff,
                height <= 0xffff_ffff,
        ;
        let pixels: u64 = width as u64 * height as u64;
        if n % 4 == 0 && n / 4 == pixels {
            Ok(Image { width, height, samples })
        } else {
            Err(FpcError::ImageError("the samples do not fill the picture".to_owned()))
        }
    }

    /// Takes over `samples`, which are exactly four for each pixel, as a
    /// picture `width` wide and `height` high.
    pub fn from_samples(width: u32, height: u32, samples: Vec<u16>) -> (img: Image)
        requires
            samples.len() == 4 * (width * height),
        ensures
            img@.wf(),
            img@ == (ImageView { width: width as nat, height: height as nat, samples: samples@ }),
    {
        Image { width, height, samples }
    }

    /// The samples: four for each pixel, row by row.
    pub fn as_raw(&self) -> (samples: &Vec<u16>)
        ensures
            samples@ == self@.samples,
    {
        &self.samples
    }

    /// Gives the samples back: four for each pixel, row by row.
    pub fn into_raw(self) -> (samples: Vec<u16>)
        ensures
            samples@ == self@.samples,
    {
        self.samples
    }

    /// A picture of the given size with every pixel equal to `color`.
    pub fn filled(width: u32, height: u32, color: Pixel) -> (img: Image)
        requires
            4 * (width * height) <= usize::MAX,
        ensures
            img@.wf(),
            img@.width == width,
            img@.height == height,
            forall|x: int, y: int| img@.contains(x, y) ==> #[trigger] img@.pixel(x, y) == color,
    {
        assert(0 <= width * height) by (nonlinear_arith)
            requires
                0 <= width,
                0 <= height,
        ;
        let count: usize = width as usize * height as usize;
        let mut samples: Vec<u16> = Vec::new();
        let mut i: usize = 0;
        while i < count
            invariant
                i <= count,
                4 * count <= usize::MAX,
                samples.len() == 4 * i,
                forall|k: int| 0 <= k < i ==> #[trigger] pixel_in(samples@, k) == color,
            decreases count - i,
        {
            let ghost before = samples@;
            samples.push(color.red);
            samples.push(color.green);
            samples.push(color.blue);
            samples.push(color.alpha);
            assert forall|k: int| 0 <= k < i + 1 implies #[trigger] pixel_in(samples@, k)
                == color by {
                if k < i {
                    assert(pixel_in(before, k) == color);
                }
            }
            i += 1;
        }
        let img = Image { width, height, samples };
        assert forall|x: int, y: int| img@.contains(x, y) implies #[trigger] img@.pixel(x, y)
            == color by {
            lemma_pixel_index(x, y, width as int, height as int);
        }
        img
    }

    /// A copy of the picture.
    pub fn duplicate(&self) -> (img: Image)
        ensures
            img@ == self@,
            img@.wf(),
    {
        proof {
            use_type_invariant(self);
        }
        Image { width: self.width, height: self.height, samples: self.samples.clone() }
    }

    /// The part of the picture that `rect` covers, as a picture of its own.
    pub fn crop(&self, rect: Rect) -> (out: Image)
        requires
            self@.holds(rect),
        ensures
            out@ == cropped(self@, rect),
            out@.wf(),
            out@.width == rect.width,
            out@.height == rect.height,
            forall|x: int, y: int|
                out@.contains(x, y) ==> #[trigger] out@.pixel(x, y) == self@.pixel(
                    rect.x + x,
                    rect.y + y,
                ),
    {
        proof {
            use_type_invariant(self);
            lemma_area_within(
                rect.width as int,
                rect.height as int,
                self@.width as int,
                self@.height as int,
            );
        }
        let mut out = Image::filled(rect.width, rect.height, Pixel::transparent());
        let mut y: u32 = 0;
        while y < rect.height
            invariant
                self@.holds(rect),
                out@.wf(),
                out@.width == rect.width,
                out@.height == rect.height,
                y <= rect.height,
                forall|x2: int, y2: int|
                    0 <= x2 < rect.width && 0 <= y2 < y ==> #[trigger] out@.pixel(x2, y2)
                        == self@.pixel(rect.x + x2, rect.y + y2),
            decreases rect.height - y,
        {
            let mut x: u32 = 0;
            while x < rect.width
                invariant
                    self@.holds(rect),
                    out@.wf(),
                    out@.width == rect.width,
                    out@.height == rect.height,
                    y < rect.height,
                    x <= rect.width,
                    forall|x2: int, y2: int|
                        0 <= x2 < rect.width && 0 <= y2 < y ==> #[trigger] out@.pixel(x2, y2)
                            == self@.pixel(rect.x + x2, rect.y + y2),
                    forall|x2: int|
                        0 <= x2 < x ==> #[trigger] out@.pixel(x2, y as int) == self@.pixel(
                            rect.x + x2,
                            rect.y + y,
                        ),
                decreases rect.width - x,
            {
                let p = self.get_pixel(rect.x + x, rect.y + y);
                out.put_pixel(x, y, p);
                x += 1;
            }
            y += 1;
        }
        proof {
            lemma_is_picture(out@, |x: int, y: int| self@.pixel(rect.x + x, rect.y + y));
        }
        out
    }

    /// The pixel in column `x` of row `y`.
    pub fn get_pixel(&self, x: u32, y: u32) -> (p: Pixel)
        requires
            self@.contains(x as int, y as int),
        ensures
            p == self@.pixel(x as int, y as int),
    {
        proof {
            use_type_invariant(self);
            lemma_pixel_index(x as int, y as int, self.width as int, self.height as int);
            assert(self.samples.len() == 4 * (self.width * self.height));
        }
        let i: usize = (y as usize * self.width as usize + x as usize) * 4;
        Pixel {
            red: self.samples[i],
            green: self.samples[i + 1],
            blue: self.samples[i + 2],
            alpha: self.samples[i + 3],
        }
    }

    /// Sets the pixel in column `x` of row `y` to `p` and leaves every other
    /// pixel as it was.
    pub fn put_pixel(&mut self, x: u32, y: u32, p: Pixel)
        requires
            old(self)@.contains(x as int, y as int),
        ensures
            final(self)@.wf(),
            final(self)@.width == old(self)@.width,
            final(self)@.height == old(self)@.height,
            final(self)@.pixel(x as int, y as int) == p,
            forall|x2: int, y2: int|
                old(self)@.contains(x2, y2) && !(x2 == x && y2 == y)
                    ==> #[trigger] final(self)@.pixel(x2, y2) == old(self)@.pixel(x2, y2),
    {
        proof {
            use_type_invariant(&*self);
            lemma_pixel_index(x as int, y as int, self.width as int, self.height as int);
            assert(self.samples.len() == 4 * (self.width * self.height));
        }
        let ghost before = self@;
        let mut taken = Image { width: 0, height: 0, samples: Vec::new() };
        core::mem::swap(self, &mut taken);
        let Image { width, height, mut samples } = taken;
        let i: usize = (y as usize * width as usize + x as usize) * 4;
        samples.set(i, p.red);
        samples.set(i + 1, p.green);
        samples.set(i + 2, p.blue);
        samples.set(i + 3, p.alpha);
        *self = Image { width, height, samples };
        proof {
            assert forall|x2: int, y2: int|
                before.contains(x2, y2) && !(x2 == x && y2 == y)
                implies #[trigger] self@.pixel(x2, y2) == before.pixel(x2, y2) by {
                lemma_pixel_index(x2, y2, before.width as int, before.height as int);
                if y2 * before.width + x2 == y * before.width + x {
                    lemma_pixel_index_unique(x2, y2, x as int, y as int, before.width as int);
                }
            }
        }
    }
}

} // verus!
