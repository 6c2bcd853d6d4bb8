//! Integer screen geometry: lengths, rectangles and per-edge deltas.
//!
//! Coordinates are `i32` pixels. Arithmetic saturates at the bounds of
//! `i32`, so no operation can overflow.
//! Percentages are held in hundredths of a percent (`10000` is 100%), and
//! scale factors as integer percentages (`100` is a factor of 1).
use vstd::prelude::*;

verus! {

/// Hundredths of a percent that make up a whole.
pub const PERCENT_WHOLE: i32 = 10000;

/// The scale factor of an unscaled monitor, as a percentage.
pub const UNIT_SCALE: u32 = 100;

/// Clamps a mathematical integer into the range of `i32`.
pub open spec fn clamp_i32(x: int) -> i32 {
    if x < i32::MIN {
        i32::MIN
    } else if x > i32::MAX {
        i32::MAX
    } else {
        x as i32
    }
}

/// Division that rounds toward zero, as Rust's integer division does.
pub open spec fn div_trunc(a: int, b: int) -> int
    recommends
        b > 0,
{
    if a >= 0 {
        a / b
    } else {
        -((-a) / b)
    }
}

/// Saturating `i32` addition.
pub fn sat_add(a: i32, b: i32) -> (r: i32)
    ensures
        r == clamp_i32(a + b),
{
    let s: i64 = a as i64 + b as i64;
    clamp_i64(s)
}

/// Saturating `i32` subtraction.
pub fn sat_sub(a: i32, b: i32) -> (r: i32)
    ensures
        r == clamp_i32(a - b),
{
    let s: i64 = a as i64 - b as i64;
    clamp_i64(s)
}

/// Clamps an `i64` into the range of `i32`.
pub fn clamp_i64(x: i64) -> (r: i32)
    ensures
        r == clamp_i32(x as int),
{
    if x < i32::MIN as i64 {
        i32::MIN
    } else if x > i32::MAX as i64 {
        i32::MAX
    } else {
        x as i32
    }
}

/// Clamps an `i128` into the range of `i32`.
fn clamp_i128(x: i128) -> (r: i32)
    ensures
        r == clamp_i32(x as int),
{
    if x < i32::MIN as i128 {
        i32::MIN
    } else if x > i32::MAX as i128 {
        i32::MAX
    } else {
        x as i32
    }
}

/// Truncating division of an `i128` by a positive divisor.
pub(crate) fn i128_div_trunc(a: i128, b: i128) -> (r: i128)
    requires
        b > 0,
        a > i128::MIN,
    ensures
        r == div_trunc(a as int, b as int),
{
    if a >= 0 {
        a / b
    } else {
        let n: i128 = -a;
        -(n / b)
    }
}

#[derive(Clone, Copy, Debug, PartialEq, Eq, Structural)]
pub enum LengthUnit {
    Pixel,
    Percentage,
}

/// A length given either in pixels or as a share of some total.
#[derive(Clone, Copy, Debug, PartialEq, Eq, Structural)]
pub struct LengthValue {
    /// Pixels, or hundredths of a percent for `Percentage`.
    pub amount: i32,
    pub unit: LengthUnit,
}

impl LengthValue {
    /// Converts to pixels: a percentage is taken of `total_px`, a pixel
    /// amount is multiplied by the scale factor (an integer percentage,
    /// `None` meaning unscaled). Rounds toward zero and saturates.
    pub open spec fn spec_to_px(&self, total_px: i32, scale: Option<u32>) -> i32 {
        match self.unit {
            LengthUnit::Percentage => clamp_i32(
                div_trunc(self.amount * total_px, PERCENT_WHOLE as int),
            ),
            LengthUnit::Pixel => clamp_i32(
                div_trunc(
                    self.amount * (match scale {
                        Some(s) => s as int,
                        None => UNIT_SCALE as int,
                    }),
                    UNIT_SCALE as int,
                ),
            ),
        }
    }

    pub fn from_px(px: i32) -> (r: LengthValue)
        ensures
            r.amount == px,
            r.unit == LengthUnit::Pixel,
    {
        LengthValue { amount: px, unit: LengthUnit::Pixel }
    }

    /// A length given in hundredths of a percent.
    pub fn from_percent_hundredths(amount: i32) -> (r: LengthValue)
        ensures
            r.amount == amount,
            r.unit == LengthUnit::Percentage,
    {
        LengthValue { amount, unit: LengthUnit::Percentage }
    }

    #[verifier::when_used_as_spec(spec_to_px)]
    pub fn to_px(&self, total_px: i32, scale: Option<u32>) -> (r: i32)
        ensures
            r == self.spec_to_px(total_px, scale),
    {
        match self.unit {
            LengthUnit::Percentage => {
                let a: i128 = self.amount as i128;
                let t: i128 = total_px as i128;
                proof {
                    lemma_i32_product_bounds(a as int, t as int);
                }
                let p: i128 = a * t;
                clamp_i128(i128_div_trunc(p, PERCENT_WHOLE as i128))
            },
            LengthUnit::Pixel => {
                let s: u32 = match scale {
                    Some(s) => s,
                    None => UNIT_SCALE,
                };
                let a: i128 = self.amount as i128;
                let t: i128 = s as i128;
                proof {
                    lemma_i32_product_bounds(a as int, t as int);
                }
                let p: i128 = a * t;
                clamp_i128(i128_div_trunc(p, UNIT_SCALE as i128))
            },
        }
    }

    /// The same length with its amount negated (saturating at `i32::MIN`).
    pub open spec fn spec_negated(&self) -> LengthValue {
        LengthValue { amount: clamp_i32(-self.amount), unit: self.unit }
    }

    #[verifier::when_used_as_spec(spec_negated)]
    pub fn negated(&self) -> (r: LengthValue)
        ensures
            r == self.spec_negated(),
    {
        LengthValue { amount: sat_sub(0, self.amount), unit: self.unit }
    }
}

/// A per-edge adjustment of a rectangle.
#[derive(Clone, Copy, Debug, PartialEq, Eq, Structural)]
pub struct RectDelta {
    pub left: LengthValue,
    pub top: LengthValue,
    pub right: LengthValue,
    pub bottom: LengthValue,
}

impl RectDelta {
    pub fn new(
        left: LengthValue,
        top: LengthValue,
        right: LengthValue,
        bottom: LengthValue,
    ) -> (r: RectDelta)
        ensures
            r.left == left,
            r.top == top,
            r.right == right,
            r.bottom == bottom,
    {
        RectDelta { left, top, right, bottom }
    }

    /// A delta of zero pixels on every edge.
    pub fn zero() -> (r: RectDelta)
        ensures
            r.left == (LengthValue { amount: 0, unit: LengthUnit::Pixel }),
            r.top == r.left,
            r.right == r.left,
            r.bottom == r.left,
    {
        let z = LengthValue::from_px(0);
        RectDelta { left: z, top: z, right: z, bottom: z }
    }

    pub open spec fn spec_inverse(&self) -> RectDelta {
        RectDelta {
            left: self.left.spec_negated(),
            top: self.top.spec_negated(),
            right: self.right.spec_negated(),
            bottom: self.bottom.spec_negated(),
        }
    }

    /// The delta with every edge amount negated.
    #[verifier::when_used_as_spec(spec_inverse)]
    pub fn inverse(&self) -> (r: RectDelta)
        ensures
            r == self.spec_inverse(),
    {
        RectDelta {
            left: self.left.negated(),
            top: self.top.negated(),
            right: self.right.negated(),
            bottom: self.bottom.negated(),
        }
    }
}

/// A rectangle given by its four edges.
#[derive(Clone, Copy, Debug, PartialEq, Eq, Structural)]
pub struct Rect {
    pub left: i32,
    pub top: i32,
    pub right: i32,
    pub bottom: i32,
}

impl Rect {
    pub open spec fn spec_width(&self) -> i32 {
        clamp_i32(self.right - self.left)
    }

    pub open spec fn spec_height(&self) -> i32 {
        clamp_i32(self.bottom - self.top)
    }

    pub open spec fn spec_from_xy(x: i32, y: i32, width: i32, height: i32) -> Rect {
        Rect { left: x, top: y, right: clamp_i32(x + width), bottom: clamp_i32(y + height) }
    }

    /// A rectangle from its top-left corner and its size.
    #[verifier::when_used_as_spec(spec_from_xy)]
    pub fn from_xy(x: i32, y: i32, width: i32, height: i32) -> (r: Rect)
        ensures
            r == Rect::spec_from_xy(x, y, width, height),
    {
        Rect { left: x, top: y, right: sat_add(x, width), bottom: sat_add(y, height) }
    }

    pub fn from_ltrb(left: i32, top: i32, right: i32, bottom: i32) -> (r: Rect)
        ensures
            r == (Rect { left, top, right, bottom }),
    {
        Rect { left, top, right, bottom }
    }

    pub fn x(&self) -> (r: i32)
        ensures
            r == self.left,
    {
        self.left
    }

    pub fn y(&self) -> (r: i32)
        ensures
            r == self.top,
    {
        self.top
    }

    #[verifier::when_used_as_spec(spec_width)]
    pub fn width(&self) -> (r: i32)
        ensures
            r == self.spec_width(),
    {
        sat_sub(self.right, self.left)
    }

    #[verifier::when_used_as_spec(spec_height)]
    pub fn height(&self) -> (r: i32)
        ensures
            r == self.spec_height(),
    {
        sat_sub(self.bottom, self.top)
    }

    pub open spec fn spec_apply_delta(&self, delta: &RectDelta, scale: Option<u32>) -> Rect {
        Rect {
            left: clamp_i32(self.left - delta.left.spec_to_px(self.spec_width(), scale)),
            top: clamp_i32(self.top - delta.top.spec_to_px(self.spec_height(), scale)),
            right: clamp_i32(
                self.right + delta.right.spec_to_px(self.spec_width(), scale),
            ),
            bottom: clamp_i32(
                self.bottom + delta.bottom.spec_to_px(self.spec_height(), scale),
            ),
        }
    }

    /// Moves each edge outward by the delta's amount on that edge
    /// (inward for negative amounts). Percentages are taken of the width
    /// for the left and right edges and of the height for the others.
    #[verifier::when_used_as_spec(spec_apply_delta)]
    pub fn apply_delta(&self, delta: &RectDelta, scale: Option<u32>) -> (r: Rect)
        ensures
            r == self.spec_apply_delta(delta, scale),
    {
        let w = self.width();
        let h = self.height();
        Rect {
            left: sat_sub(self.left, delta.left.to_px(w, scale)),
            top: sat_sub(self.top, delta.top.to_px(h, scale)),
            right: sat_add(self.right, delta.right.to_px(w, scale)),
            bottom: sat_add(self.bottom, delta.bottom.to_px(h, scale)),
        }
    }

    pub open spec fn spec_delta(&self, other: &Rect) -> RectDelta {
        RectDelta {
            left: LengthValue { amount: clamp_i32(other.left - self.left), unit: LengthUnit::Pixel },
            top: LengthValue { amount: clamp_i32(other.top - self.top), unit: LengthUnit::Pixel },
            right: LengthValue {
                amount: clamp_i32(self.right - other.right),
                unit: LengthUnit::Pixel,
            },
            bottom: LengthValue {
                amount: clamp_i32(self.bottom - other.bottom),
                unit: LengthUnit::Pixel,
            },
        }
    }

    /// The pixel delta that turns `other` into `self` when applied to it.
    #[verifier::when_used_as_spec(spec_delta)]
    pub fn delta(&self, other: &Rect) -> (r: RectDelta)
        ensures
            r == self.spec_delta(other),
    {
        RectDelta {
            left: LengthValue::from_px(sat_sub(other.left, self.left)),
            top: LengthValue::from_px(sat_sub(other.top, self.top)),
            right: LengthValue::from_px(sat_sub(self.right, other.right)),
            bottom: LengthValue::from_px(sat_sub(self.bottom, other.bottom)),
        }
    }

    pub open spec fn spec_union(&self, other: &Rect) -> Rect {
        Rect {
            left: if self.left <= other.left { self.left } else { other.left },
            top: if self.top <= other.top { self.top } else { other.top },
            right: if self.right >= other.right { self.right } else { other.right },
            bottom: if self.bottom >= other.bottom { self.bottom } else { other.bottom },
        }
    }

    /// The smallest rectangle that holds both rectangles.
    #[verifier::when_used_as_spec(spec_union)]
    pub fn union(&self, other: &Rect) -> (r: Rect)
        ensures
            r == self.spec_union(other),
    {
        Rect {
            left: if self.left <= other.left { self.left } else { other.left },
            top: if self.top <= other.top { self.top } else { other.top },
            right: if self.right >= other.right { self.right } else { other.right },
            bottom: if self.bottom >= other.bottom { self.bottom } else { other.bottom },
        }
    }
}

/// Bounds on a product of an `i32`-sized and a `u32`-sized factor.
proof fn lemma_i32_product_bounds(a: int, b: int)
    requires
        i32::MIN <= a <= i32::MAX,
        i32::MIN <= b <= u32::MAX,
    ensures
        -0x1_0000_0000_0000_0000 < a * b < 0x1_0000_0000_0000_0000,
{
    assert(-0x1_0000_0000_0000_0000 < a * b < 0x1_0000_0000_0000_0000) by (nonlinear_arith)
        requires
            i32::MIN <= a <= i32::MAX,
            i32::MIN <= b <= u32::MAX,
    ;
}

/// Scaling by the unit scale and dividing back gives the same amount.
proof fn lemma_unit_scale_cancels(a: int)
    ensures
        div_trunc(a * (UNIT_SCALE as int), UNIT_SCALE as int) == a,
{
    assert((a * 100) / 100 == a) by (nonlinear_arith);
    assert(((-a) * 100) / 100 == -a) by (nonlinear_arith);
}

/// Applying the pixel delta between two rectangles to the second one gives
/// back the first, for rectangles whose edge differences and sizes fit in
/// `i32`.
pub proof fn law_delta_then_apply_restores(target: Rect, base: Rect)
    requires
        i32::MIN <= base.left - target.left <= i32::MAX,
        i32::MIN <= base.top - target.top <= i32::MAX,
        i32::MIN <= target.right - base.right <= i32::MAX,
        i32::MIN <= target.bottom - base.bottom <= i32::MAX,
    ensures
        base.spec_apply_delta(&target.spec_delta(&base), None) == target,
{
    let d = target.spec_delta(&base);
    lemma_unit_scale_cancels(d.left.amount as int);
    lemma_unit_scale_cancels(d.top.amount as int);
    lemma_unit_scale_cancels(d.right.amount as int);
    lemma_unit_scale_cancels(d.bottom.amount as int);
    assert(d.left.spec_to_px(base.spec_width(), None) == base.left - target.left);
    assert(d.top.spec_to_px(base.spec_height(), None) == base.top - target.top);
    assert(d.right.spec_to_px(base.spec_width(), None) == target.right - base.right);
    assert(d.bottom.spec_to_px(base.spec_height(), None) == target.bottom - base.bottom);
}

/// Half of `x`, rounded toward zero.
pub fn half(x: i32) -> (r: i32)
    ensures
        r == div_trunc(x as int, 2),
{
    if x >= 0 {
        x / 2
    } else {
        let n: i64 = -(x as i64);
        -((n / 2) as i32)
    }
}

impl Rect {
    pub open spec fn spec_clamp_size(&self, width: i32, height: i32) -> Rect {
        let w = self.spec_width();
        let h = self.spec_height();
        Rect::spec_from_xy(self.left, self.top, if w < width { w } else { width }, if h < height { h } else { height })
    }

    /// The same top-left corner, with the size cut down to at most
    /// `width` by `height`.
    #[verifier::when_used_as_spec(spec_clamp_size)]
    pub fn clamp_size(&self, width: i32, height: i32) -> (r: Rect)
        ensures
            r == self.spec_clamp_size(width, height),
    {
        let w = self.width();
        let h = self.height();
        Rect::from_xy(self.left, self.top, if w < width {
            w
        } else {
            width
        }, if h < height {
            h
        } else {
            height
        })
    }

    pub open spec fn spec_translate_to_center(&self, outer: &Rect) -> Rect {
        Rect::spec_from_xy(
            clamp_i32(clamp_i32(outer.left + div_trunc(outer.spec_width() as int, 2)) - div_trunc(self.spec_width() as int, 2)),
            clamp_i32(clamp_i32(outer.top + div_trunc(outer.spec_height() as int, 2)) - div_trunc(self.spec_height() as int, 2)),
            self.spec_width(),
            self.spec_height(),
        )
    }

    /// The same size, moved so that its centre is the centre of `outer`
    /// (halves rounded toward zero).
    #[verifier::when_used_as_spec(spec_translate_to_center)]
    pub fn translate_to_center(&self, outer: &Rect) -> (r: Rect)
        ensures
            r == self.spec_translate_to_center(outer),
    {
        let w = self.width();
        let h = self.height();
        let x = sat_sub(sat_add(outer.left, half(outer.width())), half(w));
        let y = sat_sub(sat_add(outer.top, half(outer.height())), half(h));
        Rect::from_xy(x, y, w, h)
    }
}

} // verus!
