//! Fitting a cell to a wanted aspect ratio and a greatest width.

use crate::geometry::Rect;
use crate::raster::{cropped, Image};
use vstd::arithmetic::power2::{
    lemma2_to64, lemma2_to64_rest, lemma_pow2_adds, lemma_pow2_pos, lemma_pow2_strictly_increases,
    lemma_pow2_unfold, pow2,
};
use vstd::prelude::*;

verus! {

/// An aspect ratio, height to width, as a fraction: a picture `width` wide
/// is `height` high. A playing card of 5 by 7 has the ratio 7 to 5. The two
/// parts are wide enough to hold a ratio that was given in binary floating
/// point without loss.
#[derive(Debug, Clone, Copy, PartialEq, Eq, Structural)]
pub struct AspectRatio {
    pub height: u64,
    pub width: u64,
}

impl AspectRatio {
    /// A ratio needs a width that is not zero.
    pub open spec fn wf(self) -> bool {
        self.width > 0
    }

    /// The height that goes with `width`, rounded to the nearest whole
    /// number, halves upward, and no greater than a side can be.
    pub open spec fn rounded_height_of(self, width: int) -> int {
        let exact = (2 * (width * self.height) + self.width) / (2 * self.width);
        if exact > u32::MAX {
            u32::MAX as int
        } else {
            exact
        }
    }

    /// The height that goes with `width`, with its fraction cut off, and no
    /// greater than a side can be.
    pub open spec fn truncated_height_of(self, width: int) -> int {
        let exact = (width * self.height) / (self.width as int);
        if exact > u32::MAX {
            u32::MAX as int
        } else {
            exact
        }
    }

    /// The ratio `mantissa` times two to the power `power`, as a fraction
    /// over a power of two. A ratio too great for the fraction becomes the
    /// greatest; a ratio finer than a fraction over 2^63 can say is cut off
    /// to one that it can.
    pub open spec fn binary(mantissa: int, power: int) -> AspectRatio {
        if power >= 0 {
            let whole = mantissa * pow2(power as nat);
            AspectRatio {
                height: if whole > u64::MAX {
                    u64::MAX
                } else {
                    whole as u64
                },
                width: 1,
            }
        } else {
            let shift = if -power <= 63 {
                -power
            } else {
                63
            };
            AspectRatio {
                height: (mantissa / (pow2((-power - shift) as nat) as int)) as u64,
                width: pow2(shift as nat) as u64,
            }
        }
    }

    /// The ratio `mantissa` times two to the power `power`: what a binary
    /// fraction with that mantissa and that exponent stands for.
    pub fn from_binary(mantissa: u64, power: i32) -> (ratio: AspectRatio)
        ensures
            ratio == AspectRatio::binary(mantissa as int, power as int),
            ratio.wf(),
    {
        proof {
            lemma2_to64();
            assert(mantissa * pow2(0) == mantissa) by (nonlinear_arith)
                requires
                    pow2(0) == 1,
            ;
            assert(mantissa as int / (pow2(0) as int) == mantissa);
        }
        if power >= 0 {
            let mut height: u64 = mantissa;
            let mut done: i32 = 0;
            while done < power && height > 0 && height <= u64::MAX / 2
                invariant
                    0 <= done <= power,
                    height == mantissa * pow2(done as nat),
                decreases power - done,
            {
                proof {
                    lemma_pow2_unfold((done + 1) as nat);
                    assert(mantissa * (2 * pow2(done as nat)) == 2 * (mantissa * pow2(
                        done as nat,
                    ))) by (nonlinear_arith);
                }
                height = height * 2;
                done = done + 1;
            }
            proof {
                let rest = (power - done) as nat;
                lemma_pow2_adds(done as nat, rest);
                lemma_pow2_pos(done as nat);
                lemma_pow2_pos(rest);
                let whole = mantissa * pow2(power as nat);
                assert(whole == height * pow2(rest)) by (nonlinear_arith)
                    requires
                        whole == mantissa * (pow2(done as nat) * pow2(rest)),
                        height == mantissa * pow2(done as nat),
                ;
                if done < power {
                    lemma_pow2_unfold(rest);
                    lemma_pow2_pos((rest - 1) as nat);
                    assert(height * pow2(rest) >= height * 2) by (nonlinear_arith)
                        requires
                            pow2(rest) >= 2,
                            height >= 0,
                    ;
                    if height == 0 {
                        assert(height * pow2(rest) == 0) by (nonlinear_arith)
                            requires
                                height == 0,
                        ;
                    }
                } else {
                    assert(height * pow2(rest) == height) by (nonlinear_arith)
                        requires
                            pow2(rest) == 1,
                    ;
                }
            }
            if done < power && height > 0 {
                AspectRatio { height: u64::MAX, width: 1 }
            } else {
                AspectRatio { height, width: 1 }
            }
        } else {
            let n: i64 = -(power as i64);
            let shift: i64 = if n <= 63 {
                n
            } else {
                63
            };
            let mut width: u64 = 1;
            let mut i: i64 = 0;
            while i < shift
                invariant
                    0 <= i <= shift <= 63,
                    width == pow2(i as nat),
                decreases shift - i,
            {
                proof {
                    lemma_pow2_unfold((i + 1) as nat);
                    lemma2_to64_rest();
                    if i < 62 {
                        lemma_pow2_strictly_increases(i as nat, 62);
                    }
                }
                width = width * 2;
                i = i + 1;
            }
            let drop: i64 = n - shift;
            let mut height: u64 = mantissa;
            let mut j: i64 = 0;
            while j < drop && height > 0
                invariant
                    0 <= j <= drop,
                    height == mantissa as int / (pow2(j as nat) as int),
                decreases drop - j,
            {
                proof {
                    lemma_pow2_unfold((j + 1) as nat);
                    lemma_pow2_pos(j as nat);
                    vstd::arithmetic::div_mod::lemma_div_denominator(
                        mantissa as int,
                        pow2(j as nat) as int,
                        2,
                    );
                    assert(pow2(j as nat) * 2 == 2 * pow2(j as nat));
                }
                height = height / 2;
                j = j + 1;
            }
            proof {
                lemma_pow2_pos(j as nat);
                lemma_pow2_pos(drop as nat);
                lemma_pow2_pos(shift as nat);
                if j < drop {
                    vstd::arithmetic::div_mod::lemma_small_div_converse(
                        mantissa as int,
                        pow2(j as nat) as int,
                    );
                    lemma_pow2_strictly_increases(j as nat, drop as nat);
                    vstd::arithmetic::div_mod::lemma_basic_div(
                        mantissa as int,
                        pow2(drop as nat) as int,
                    );
                }
                vstd::arithmetic::div_mod::lemma_div_pos_is_pos(
                    mantissa as int,
                    pow2(drop as nat) as int,
                );
                vstd::arithmetic::div_mod::lemma_div_is_ordered_by_denominator(
                    mantissa as int,
                    1,
                    pow2(drop as nat) as int,
                );
            }
            assert(width == pow2(shift as nat));
            assert(height == mantissa as int / (pow2(drop as nat) as int));
            AspectRatio { height, width }
        }
    }

    /// The ratio of `height` to `width`, if `width` is not zero.
    pub fn new(height: u64, width: u64) -> (ratio: Option<AspectRatio>)
        ensures
            ratio == if width > 0 {
                Some(AspectRatio { height, width })
            } else {
                None
            },
            ratio matches Some(r) ==> r.wf(),
    {
        if width > 0 {
            Some(AspectRatio { height, width })
        } else {
            None
        }
    }

    /// The height that goes with `width`, rounded to the nearest whole
    /// number: where it is below the greatest side, it differs from the
    /// exact height by half a pixel at most.
    pub fn rounded_height(&self, width: u32) -> (height: u32)
        requires
            self.wf(),
        ensures
            height == self.rounded_height_of(width as int),
            height < u32::MAX ==> 2 * (width * self.height) - self.width < 2 * (height
                * self.width) <= 2 * (width * self.height) + self.width,
    {
        assert(0 <= width * self.height <= 0x1_0000_0000_0000_0000_0000_0000) by (nonlinear_arith)
            requires
                0 <= width <= 0xffff_ffff,
                0 <= self.height <= 0xffff_ffff_ffff_ffff,
        ;
        let product: u128 = width as u128 * self.height as u128;
        let doubled: u128 = 2 * product + self.width as u128;
        let divisor: u128 = 2 * self.width as u128;
        let exact: u128 = doubled / divisor;
        proof {
            vstd::arithmetic::div_mod::lemma_fundamental_div_mod(doubled as int, divisor as int);
            vstd::arithmetic::div_mod::lemma_mod_bound(doubled as int, divisor as int);
            assert(divisor * exact == 2 * (exact * self.width)) by (nonlinear_arith)
                requires
                    divisor == 2 * self.width,
            ;
        }
        if exact > u32::MAX as u128 {
            u32::MAX
        } else {
            exact as u32
        }
    }

    /// The height that goes with `width`, with its fraction cut off.
    pub fn truncated_height(&self, width: u32) -> (height: u32)
        requires
            self.wf(),
        ensures
            height == self.truncated_height_of(width as int),
    {
        assert(0 <= width * self.height <= 0x1_0000_0000_0000_0000_0000_0000) by (nonlinear_arith)
            requires
                0 <= width <= 0xffff_ffff,
                0 <= self.height <= 0xffff_ffff_ffff_ffff,
        ;
        let exact: u128 = (width as u128 * self.height as u128) / self.width as u128;
        if exact > u32::MAX as u128 {
            u32::MAX
        } else {
            exact as u32
        }
    }
}

/// The smaller of two numbers.
pub open spec fn smaller(a: int, b: int) -> int {
    if a <= b {
        a
    } else {
        b
    }
}

/// The box that a cell is cut down to. Its width is the cell's, or
/// `max_width` if that is less; its height follows from the width by the
/// aspect ratio. If that height is more than the cell has, width and height
/// are both multiplied by the whole number of times that the wanted height
/// goes into the cell's height. The box lies in the middle of `bounds`.
pub open spec fn fitted_box(bounds: Rect, ratio: AspectRatio, max_width: u32) -> Rect {
    let target_width = smaller(bounds.width as int, max_width as int);
    let target_height = ratio.rounded_height_of(target_width);
    let scale = if target_height > bounds.height {
        bounds.height as int / target_height
    } else {
        1
    };
    let width = target_width * scale;
    let height = target_height * scale;
    Rect {
        x: (bounds.x + (bounds.width - width) / 2) as u32,
        y: (bounds.y + (bounds.height - height) / 2) as u32,
        width: width as u32,
        height: height as u32,
    }
}

/// What [`fitted_box`] promises. The box is no wider than `max_width` and
/// lies inside `bounds`, in the middle: the margins left and right differ by
/// one pixel at most, and so do those above and below. Where the wanted
/// height fits into the cell, the box has the wanted width and the height
/// that the aspect ratio gives for that width. Where it does not fit, the
/// wanted height goes into the cell's height zero times, and the box is
/// empty.
pub proof fn lemma_fitted_box(bounds: Rect, ratio: AspectRatio, max_width: u32)
    requires
        ratio.wf(),
        bounds.right() <= u32::MAX,
        bounds.bottom() <= u32::MAX,
    ensures
        ({
            let fitted = fitted_box(bounds, ratio, max_width);
            let wanted_width = smaller(bounds.width as int, max_width as int);
            let wanted_height = ratio.rounded_height_of(wanted_width);
            let left = fitted.x - bounds.x;
            let right = bounds.right() - fitted.right();
            let above = fitted.y - bounds.y;
            let below = bounds.bottom() - fitted.bottom();
            &&& fitted.width <= max_width
            &&& bounds.x <= fitted.x && fitted.right() <= bounds.right()
            &&& bounds.y <= fitted.y && fitted.bottom() <= bounds.bottom()
            &&& left <= right <= left + 1
            &&& above <= below <= above + 1
            &&& wanted_height <= bounds.height ==> fitted.width == wanted_width && fitted.height
                == ratio.rounded_height_of(fitted.width as int)
            &&& wanted_height > bounds.height ==> fitted.width == 0 && fitted.height == 0
        }),
{
    let wanted_width = smaller(bounds.width as int, max_width as int);
    let wanted_height = ratio.rounded_height_of(wanted_width);
    lemma_rounded_height_bounds(ratio, wanted_width);
    if wanted_height > bounds.height {
        lemma_small_quotient(bounds.height as int, wanted_height);
        assert(wanted_width * 0 == 0 && wanted_height * 0 == 0);
    } else {
        assert(wanted_width * 1 == wanted_width && wanted_height * 1 == wanted_height);
    }
}

/// A smaller number goes into a greater one zero times.
proof fn lemma_small_quotient(a: int, b: int)
    requires
        0 <= a < b,
    ensures
        a / b == 0,
{
    vstd::arithmetic::div_mod::lemma_basic_div(a, b);
}

/// The rounded height of a width that is not negative lies between zero and
/// the greatest side.
proof fn lemma_rounded_height_bounds(ratio: AspectRatio, width: int)
    requires
        ratio.wf(),
        0 <= width,
    ensures
        0 <= ratio.rounded_height_of(width) <= u32::MAX,
{
    let doubled = 2 * (width * ratio.height) + ratio.width;
    assert(0 <= width * ratio.height) by (nonlinear_arith)
        requires
            0 <= width,
            0 <= ratio.height,
    ;
    vstd::arithmetic::div_mod::lemma_div_pos_is_pos(doubled, 2 * ratio.width);
}

/// The box that a cell of the given bounds is cut down to.
pub fn fit_to_constraints(bounds: Rect, aspect_ratio: AspectRatio, max_width: u32) -> (fitted: Rect)
    requires
        aspect_ratio.wf(),
        bounds.right() <= u32::MAX,
        bounds.bottom() <= u32::MAX,
    ensures
        fitted == fitted_box(bounds, aspect_ratio, max_width),
{
    let mut maybe_width: u32 = if bounds.width < max_width {
        bounds.width
    } else {
        max_width
    };
    let mut maybe_height: u32 = aspect_ratio.rounded_height(maybe_width);
    if maybe_height > bounds.height {
        let scale_by: u32 = bounds.height / maybe_height;
        proof {
            lemma_small_quotient(bounds.height as int, maybe_height as int);
            assert(maybe_width * 0 == 0 && maybe_height * 0 == 0);
        }
        maybe_width = maybe_width * scale_by;
        maybe_height = maybe_height * scale_by;
    } else {
        assert(maybe_width * 1 == maybe_width && maybe_height * 1 == maybe_height);
    }
    Rect {
        x: bounds.x + (bounds.width - maybe_width) / 2,
        y: bounds.y + (bounds.height - maybe_height) / 2,
        width: maybe_width,
        height: maybe_height,
    }
}

/// Cuts the part `bounds` of `img` down to the aspect ratio and the greatest
/// width: the result is the part of `img` that [`fitted_box`] names.
pub fn scale_to_constraints(
    img: &Image,
    bounds: Rect,
    aspect_ratio: AspectRatio,
    max_width: u32,
) -> (out: Image)
    requires
        img@.holds(bounds),
        aspect_ratio.wf(),
    ensures
        out@ == cropped(img@, fitted_box(bounds, aspect_ratio, max_width)),
        out@.wf(),
        out@.width == fitted_box(bounds, aspect_ratio, max_width).width,
        out@.height == fitted_box(bounds, aspect_ratio, max_width).height,
        out@.width <= max_width,
        out@.width <= img@.width,
{
    proof {
        use_type_invariant(img);
    }
    let new_bounds = fit_to_constraints(bounds, aspect_ratio, max_width);
    proof {
        lemma_fitted_box(bounds, aspect_ratio, max_width);
    }
    img.crop(new_bounds)
}

} // verus!
