//! Integer coordinates, points and axis-aligned boxes.
use vstd::prelude::*;

use crate::text::{decimal, push_decimal};
use crate::TreeError;

verus! {

/// Whether `n` is a power of two (1, 2, 4, ...).
pub open spec fn is_pow2(n: nat) -> bool
    decreases n,
{
    if n == 0 {
        false
    } else if n == 1 {
        true
    } else {
        n % 2 == 0 && is_pow2(n / 2)
    }
}

/// An unsigned machine integer usable as a coordinate of the tree.
///
/// Each coordinate type is seen in contracts through `val`, its value as a
/// natural number, which never exceeds `max_val`.
pub trait Unsigned: Copy + Sized {
    spec fn val(self) -> nat;

    spec fn max_val() -> nat;

    proof fn lemma_val(x: Self)
        ensures
            x.val() <= Self::max_val(),
            forall|y: Self| #[trigger] y.val() == x.val() ==> y == x,
            Self::max_val() >= 255,
            x.succ_sat().val() == (if x.val() < Self::max_val() { x.val() + 1 } else { Self::max_val() }),
    ;

    fn zero() -> (r: Self)
        ensures
            r.val() == 0,
    ;

    fn one() -> (r: Self)
        ensures
            r.val() == 1,
    ;

    fn plus(self, rhs: Self) -> (r: Self)
        requires
            self.val() + rhs.val() <= Self::max_val(),
        ensures
            r.val() == self.val() + rhs.val(),
    ;

    fn minus(self, rhs: Self) -> (r: Self)
        requires
            rhs.val() <= self.val(),
        ensures
            r.val() == self.val() - rhs.val(),
    ;

    /// The next value, or the largest value of the type itself.
    spec fn succ_sat(self) -> Self;

    /// Adds one, stopping at the largest value of the type.
    fn inc_sat(self) -> (r: Self)
        ensures
            r == self.succ_sat(),
    ;

    fn halve(self) -> (r: Self)
        ensures
            r.val() == self.val() / 2,
    ;

    fn less(self, rhs: Self) -> (r: bool)
        ensures
            r == (self.val() < rhs.val()),
    ;

    fn same(self, rhs: Self) -> (r: bool)
        ensures
            r == (self.val() == rhs.val()),
    ;

    fn is_even(self) -> (r: bool)
        ensures
            r == (self.val() % 2 == 0),
    ;

    /// The value widened to `u128`, for messages.
    fn widen(self) -> (r: u128)
        ensures
            r == self.val(),
    ;
}

impl Unsigned for u8 {
    open spec fn val(self) -> nat {
        self as nat
    }

    open spec fn max_val() -> nat {
        u8::MAX as nat
    }

    proof fn lemma_val(x: Self) {
    }

    fn zero() -> (r: Self) {
        0
    }

    fn one() -> (r: Self) {
        1
    }

    fn plus(self, rhs: Self) -> (r: Self) {
        self + rhs
    }

    fn minus(self, rhs: Self) -> (r: Self) {
        self - rhs
    }

    open spec fn succ_sat(self) -> Self {
        if self < u8::MAX {
            (self + 1) as u8
        } else {
            u8::MAX
        }
    }

    fn inc_sat(self) -> (r: Self) {
        if self < u8::MAX {
            self + 1
        } else {
            u8::MAX
        }
    }

    fn halve(self) -> (r: Self) {
        self / 2
    }

    fn less(self, rhs: Self) -> (r: bool) {
        self < rhs
    }

    fn same(self, rhs: Self) -> (r: bool) {
        self == rhs
    }

    fn is_even(self) -> (r: bool) {
        self % 2 == 0
    }

    fn widen(self) -> (r: u128) {
        self as u128
    }
}

impl Unsigned for u16 {
    open spec fn val(self) -> nat {
        self as nat
    }

    open spec fn max_val() -> nat {
        u16::MAX as nat
    }

    proof fn lemma_val(x: Self) {
    }

    fn zero() -> (r: Self) {
        0
    }

    fn one() -> (r: Self) {
        1
    }

    fn plus(self, rhs: Self) -> (r: Self) {
        self + rhs
    }

    fn minus(self, rhs: Self) -> (r: Self) {
        self - rhs
    }

    open spec fn succ_sat(self) -> Self {
        if self < u16::MAX {
            (self + 1) as u16
        } else {
            u16::MAX
        }
    }

    fn inc_sat(self) -> (r: Self) {
        if self < u16::MAX {
            self + 1
        } else {
            u16::MAX
        }
    }

    fn halve(self) -> (r: Self) {
        self / 2
    }

    fn less(self, rhs: Self) -> (r: bool) {
        self < rhs
    }

    fn same(self, rhs: Self) -> (r: bool) {
        self == rhs
    }

    fn is_even(self) -> (r: bool) {
        self % 2 == 0
    }

    fn widen(self) -> (r: u128) {
        self as u128
    }
}

impl Unsigned for u32 {
    open spec fn val(self) -> nat {
        self as nat
    }

    open spec fn max_val() -> nat {
        u32::MAX as nat
    }

    proof fn lemma_val(x: Self) {
    }

    fn zero() -> (r: Self) {
        0
    }

    fn one() -> (r: Self) {
        1
    }

    fn plus(self, rhs: Self) -> (r: Self) {
        self + rhs
    }

    fn minus(self, rhs: Self) -> (r: Self) {
        self - rhs
    }

    open spec fn succ_sat(self) -> Self {
        if self < u32::MAX {
            (self + 1) as u32
        } else {
            u32::MAX
        }
    }

    fn inc_sat(self) -> (r: Self) {
        if self < u32::MAX {
            self + 1
        } else {
            u32::MAX
        }
    }

    fn halve(self) -> (r: Self) {
        self / 2
    }

    fn less(self, rhs: Self) -> (r: bool) {
        self < rhs
    }

    fn same(self, rhs: Self) -> (r: bool) {
        self == rhs
    }

    fn is_even(self) -> (r: bool) {
        self % 2 == 0
    }

    fn widen(self) -> (r: u128) {
        self as u128
    }
}

impl Unsigned for u64 {
    open spec fn val(self) -> nat {
        self as nat
    }

    open spec fn max_val() -> nat {
        u64::MAX as nat
    }

    proof fn lemma_val(x: Self) {
    }

    fn zero() -> (r: Self) {
        0
    }

    fn one() -> (r: Self) {
        1
    }

    fn plus(self, rhs: Self) -> (r: Self) {
        self + rhs
    }

    fn minus(self, rhs: Self) -> (r: Self) {
        self - rhs
    }

    open spec fn succ_sat(self) -> Self {
        if self < u64::MAX {
            (self + 1) as u64
        } else {
            u64::MAX
        }
    }

    fn inc_sat(self) -> (r: Self) {
        if self < u64::MAX {
            self + 1
        } else {
            u64::MAX
        }
    }

    fn halve(self) -> (r: Self) {
        self / 2
    }

    fn less(self, rhs: Self) -> (r: bool) {
        self < rhs
    }

    fn same(self, rhs: Self) -> (r: bool) {
        self == rhs
    }

    fn is_even(self) -> (r: bool) {
        self % 2 == 0
    }

    fn widen(self) -> (r: u128) {
        self as u128
    }
}

impl Unsigned for usize {
    open spec fn val(self) -> nat {
        self as nat
    }

    open spec fn max_val() -> nat {
        usize::MAX as nat
    }

    proof fn lemma_val(x: Self) {
    }

    fn zero() -> (r: Self) {
        0
    }

    fn one() -> (r: Self) {
        1
    }

    fn plus(self, rhs: Self) -> (r: Self) {
        self + rhs
    }

    fn minus(self, rhs: Self) -> (r: Self) {
        self - rhs
    }

    open spec fn succ_sat(self) -> Self {
        if self < usize::MAX {
            (self + 1) as usize
        } else {
            usize::MAX
        }
    }

    fn inc_sat(self) -> (r: Self) {
        if self < usize::MAX {
            self + 1
        } else {
            usize::MAX
        }
    }

    fn halve(self) -> (r: Self) {
        self / 2
    }

    fn less(self, rhs: Self) -> (r: bool) {
        self < rhs
    }

    fn same(self, rhs: Self) -> (r: bool) {
        self == rhs
    }

    fn is_even(self) -> (r: bool) {
        self % 2 == 0
    }

    fn widen(self) -> (r: u128) {
        self as u128
    }
}

/// A point with `u8` coordinates.
pub type TUVec3u8 = TUVec3<u8>;

/// A point with `u16` coordinates.
pub type TUVec3u16 = TUVec3<u16>;

/// A point with `u32` coordinates.
pub type TUVec3u32 = TUVec3<u32>;

/// A point with `u64` coordinates.
pub type TUVec3u64 = TUVec3<u64>;

/// A point with unsigned integer coordinates.
#[derive(Clone, Copy, Debug, PartialEq, Eq, PartialOrd, Ord, Hash, Default)]
pub struct TUVec3<U: Unsigned> {
    pub x: U,
    pub y: U,
    pub z: U,
}

impl<U: Unsigned> TUVec3<U> {
    pub fn new(x: U, y: U, z: U) -> (r: Self)
        ensures
            r == (TUVec3 { x, y, z }),
    {
        TUVec3 { x, y, z }
    }

    /// The point written as `(x, y, z)`.
    pub open spec fn text(self) -> Seq<char> {
        "("@ + decimal(self.x.val()) + ", "@ + decimal(self.y.val()) + ", "@ + decimal(self.z.val()) + ")"@
    }

    /// The point written as `(x, y, z)`.
    pub fn to_text(&self) -> (r: String)
        ensures
            r@ == self.text(),
    {
        let mut s = String::from_str("(");
        push_decimal(&mut s, self.x.widen());
        s.append(", ");
        push_decimal(&mut s, self.y.widen());
        s.append(", ");
        push_decimal(&mut s, self.z.widen());
        s.append(")");
        s
    }

    pub fn splat(v: U) -> (r: Self)
        ensures
            r == (TUVec3 { x: v, y: v, z: v }),
    {
        TUVec3 { x: v, y: v, z: v }
    }
}

/// Whether `v` is a power of two.
pub fn is_power_of_two<U: Unsigned>(v: U) -> (r: bool)
    ensures
        r == is_pow2(v.val()),
{
    let one = U::one();
    let mut x = v;
    while one.less(x) && x.is_even()
        invariant
            is_pow2(x.val()) == is_pow2(v.val()),
        decreases x.val(),
    {
        x = x.halve();
    }
    x.same(one)
}

/// Whether the half-open spans `[a0, a1)` and `[b0, b1)` share a point.
pub open spec fn spans_overlap(a0: nat, a1: nat, b0: nat, b1: nat) -> bool {
    a0 < b1 && b0 < a1
}

/// Whether the closed spans `[a0, a1]` and `[b0, b1]` share a point.
pub open spec fn spans_touch(a0: nat, a1: nat, b0: nat, b1: nat) -> bool {
    a0 <= b1 && b0 <= a1
}

/// The middle of the span `[lo, hi)`, rounded down.
pub open spec fn mid(lo: nat, hi: nat) -> nat {
    if lo <= hi {
        lo + ((hi - lo) as nat) / 2
    } else {
        lo
    }
}

/// The lower end of the lower (`upper == false`) or upper half of `[lo, hi)`.
pub open spec fn half_lo(lo: nat, hi: nat, upper: bool) -> nat {
    if upper {
        mid(lo, hi)
    } else {
        lo
    }
}

/// The upper end of the lower (`upper == false`) or upper half of `[lo, hi)`.
pub open spec fn half_hi(lo: nat, hi: nat, upper: bool) -> nat {
    if upper {
        hi
    } else {
        mid(lo, hi)
    }
}

/// The length of `[lo, hi)`, zero when the span is reversed.
pub open spec fn span_len(lo: nat, hi: nat) -> nat {
    if lo <= hi {
        (hi - lo) as nat
    } else {
        0
    }
}

/// Bit `k` (0, 1 or 2) of a child index: which half of the parent the child
/// takes on axis x, y or z.
pub open spec fn upper_bit(i: int, k: int) -> bool {
    if k == 0 {
        i % 2 == 1
    } else if k == 1 {
        (i / 2) % 2 == 1
    } else {
        (i / 4) % 2 == 1
    }
}

/// Axis-aligned box `[min, max)` with unsigned integer corners.
#[derive(Clone, Copy, Debug, PartialEq, Eq, PartialOrd, Ord, Hash, Default)]
pub struct Aabb<U: Unsigned> {
    pub min: TUVec3<U>,
    pub max: TUVec3<U>,
}

impl<U: Unsigned> TUVec3<U> {
    /// The box of the unit cell whose lowest corner is this point. On an axis
    /// where the coordinate is the largest value of `U`, the box is empty.
    pub fn unit_aabb(&self) -> (r: Aabb<U>)
        ensures
            r == unit_box(*self),
    {
        Aabb { min: *self, max: TUVec3 { x: self.x.inc_sat(), y: self.y.inc_sat(), z: self.z.inc_sat() } }
    }
}

/// The unit cell whose lowest corner is `p`; on an axis where `p` is at the
/// largest coordinate the cell is empty.
pub open spec fn unit_box<U: Unsigned>(p: TUVec3<U>) -> Aabb<U> {
    Aabb { min: p, max: TUVec3 { x: p.x.succ_sat(), y: p.y.succ_sat(), z: p.z.succ_sat() } }
}

impl<U: Unsigned> Aabb<U> {
    pub open spec fn overlaps_spec(self, other: Self) -> bool {
        &&& spans_overlap(self.min.x.val(), self.max.x.val(), other.min.x.val(), other.max.x.val())
        &&& spans_overlap(self.min.y.val(), self.max.y.val(), other.min.y.val(), other.max.y.val())
        &&& spans_overlap(self.min.z.val(), self.max.z.val(), other.min.z.val(), other.max.z.val())
    }

    pub open spec fn touches_spec(self, other: Self) -> bool {
        &&& spans_touch(self.min.x.val(), self.max.x.val(), other.min.x.val(), other.max.x.val())
        &&& spans_touch(self.min.y.val(), self.max.y.val(), other.min.y.val(), other.max.y.val())
        &&& spans_touch(self.min.z.val(), self.max.z.val(), other.min.z.val(), other.max.z.val())
    }

    pub open spec fn contains_spec(self, p: TUVec3<U>) -> bool {
        &&& self.min.x.val() <= p.x.val() < self.max.x.val()
        &&& self.min.y.val() <= p.y.val() < self.max.y.val()
        &&& self.min.z.val() <= p.z.val() < self.max.z.val()
    }

    /// Every side has length exactly one.
    pub open spec fn is_unit_spec(self) -> bool {
        &&& self.max.x.val() == self.min.x.val() + 1
        &&& self.max.y.val() == self.min.y.val() + 1
        &&& self.max.z.val() == self.min.z.val() + 1
    }

    /// No side is reversed.
    pub open spec fn ordered(self) -> bool {
        &&& self.min.x.val() <= self.max.x.val()
        &&& self.min.y.val() <= self.max.y.val()
        &&& self.min.z.val() <= self.max.z.val()
    }

    /// Every side has positive length and the box is not a unit cell, so that
    /// halving it gives strictly smaller boxes.
    pub open spec fn splittable(self) -> bool {
        &&& self.min.x.val() < self.max.x.val()
        &&& self.min.y.val() < self.max.y.val()
        &&& self.min.z.val() < self.max.z.val()
        &&& !self.is_unit_spec()
    }

    /// Sum of the side lengths.
    pub open spec fn side_sum(self) -> nat {
        span_len(self.min.x.val(), self.max.x.val()) + span_len(self.min.y.val(), self.max.y.val())
            + span_len(self.min.z.val(), self.max.z.val())
    }

    /// `c` is the child number `i` (0..8) of this box: on each axis the lower
    /// or the upper half, as the bits of `i` say (bit 0: x, bit 1: y, bit 2: z).
    pub open spec fn is_child(self, i: int, c: Self) -> bool {
        &&& c.min.x.val() == half_lo(self.min.x.val(), self.max.x.val(), upper_bit(i, 0))
        &&& c.max.x.val() == half_hi(self.min.x.val(), self.max.x.val(), upper_bit(i, 0))
        &&& c.min.y.val() == half_lo(self.min.y.val(), self.max.y.val(), upper_bit(i, 1))
        &&& c.max.y.val() == half_hi(self.min.y.val(), self.max.y.val(), upper_bit(i, 1))
        &&& c.min.z.val() == half_lo(self.min.z.val(), self.max.z.val(), upper_bit(i, 2))
        &&& c.max.z.val() == half_hi(self.min.z.val(), self.max.z.val(), upper_bit(i, 2))
    }

    /// The box written as `[min, max)`.
    pub open spec fn text(self) -> Seq<char> {
        "["@ + self.min.text() + ", "@ + self.max.text() + ")"@
    }

    /// The box written as `[min, max)`.
    pub fn to_text(&self) -> (r: String)
        ensures
            r@ == self.text(),
    {
        let mut s = String::from_str("[");
        s.append(self.min.to_text().as_str());
        s.append(", ");
        s.append(self.max.to_text().as_str());
        s.append(")");
        s
    }

    /// The box with the given corners.
    pub fn from_min_max(min: TUVec3<U>, max: TUVec3<U>) -> (r: Self)
        ensures
            r.min == min,
            r.max == max,
    {
        Aabb { min, max }
    }

    /// The box `[center - half_size, center + half_size)`, without checks on
    /// its size.
    pub fn new_unchecked(center: TUVec3<U>, half_size: U) -> (r: Self)
        requires
            half_size.val() <= center.x.val(),
            half_size.val() <= center.y.val(),
            half_size.val() <= center.z.val(),
            center.x.val() + half_size.val() <= U::max_val(),
            center.y.val() + half_size.val() <= U::max_val(),
            center.z.val() + half_size.val() <= U::max_val(),
        ensures
            r.min.x.val() == center.x.val() - half_size.val(),
            r.min.y.val() == center.y.val() - half_size.val(),
            r.min.z.val() == center.z.val() - half_size.val(),
            r.max.x.val() == center.x.val() + half_size.val(),
            r.max.y.val() == center.y.val() + half_size.val(),
            r.max.z.val() == center.z.val() + half_size.val(),
    {
        Aabb {
            min: TUVec3 {
                x: center.x.minus(half_size),
                y: center.y.minus(half_size),
                z: center.z.minus(half_size),
            },
            max: TUVec3 {
                x: center.x.plus(half_size),
                y: center.y.plus(half_size),
                z: center.z.plus(half_size),
            },
        }
    }

    /// The box `[center - half_size, center + half_size)`, checked: fails with
    /// `NotPositive` when `half_size` is zero or the box would reach below
    /// zero on some axis, and with `NotPower2` when `half_size` (so the side
    /// length) is not a power of two.
    pub fn new(center: TUVec3<U>, half_size: U) -> (r: Result<Self, TreeError>)
        requires
            center.x.val() + half_size.val() <= U::max_val(),
            center.y.val() + half_size.val() <= U::max_val(),
            center.z.val() + half_size.val() <= U::max_val(),
        ensures
            r matches Err(TreeError::NotPositive(_)) <==> (half_size.val() == 0 || center.x.val()
                < half_size.val() || center.y.val() < half_size.val() || center.z.val()
                < half_size.val()),
            r matches Err(TreeError::NotPower2(_)) <==> !(half_size.val() == 0 || center.x.val()
                < half_size.val() || center.y.val() < half_size.val() || center.z.val()
                < half_size.val()) && !is_pow2(half_size.val()),
            r matches Ok(a) ==> {
                &&& a.min.x.val() == center.x.val() - half_size.val()
                &&& a.min.y.val() == center.y.val() - half_size.val()
                &&& a.min.z.val() == center.z.val() - half_size.val()
                &&& a.max.x.val() == center.x.val() + half_size.val()
                &&& a.max.y.val() == center.y.val() + half_size.val()
                &&& a.max.z.val() == center.z.val() + half_size.val()
            },
            r is Ok || r matches Err(TreeError::NotPositive(_)) || r matches Err(TreeError::NotPower2(_)),
            r matches Err(TreeError::NotPositive(m)) ==> m@ == "center: "@ + center.text() + ", half size: "@
                + decimal(half_size.val()),
            r matches Err(TreeError::NotPower2(m)) ==> m@ == "half size: "@ + decimal(half_size.val()),
    {
        let zero = U::zero();
        if half_size.same(zero) || center.x.less(half_size) || center.y.less(half_size)
            || center.z.less(half_size) {
            let mut msg = String::from_str("center: ");
            msg.append(center.to_text().as_str());
            msg.append(", half size: ");
            push_decimal(&mut msg, half_size.widen());
            return Err(TreeError::NotPositive(msg));
        }
        if !is_power_of_two(half_size) {
            let mut msg = String::from_str("half size: ");
            push_decimal(&mut msg, half_size.widen());
            return Err(TreeError::NotPower2(msg));
        }
        Ok(Self::new_unchecked(center, half_size))
    }

    /// Whether the two boxes share a cell (half-open on both ends).
    pub fn overlaps(&self, other: &Self) -> (r: bool)
        ensures
            r == self.overlaps_spec(*other),
    {
        self.min.x.less(other.max.x) && other.min.x.less(self.max.x) && self.min.y.less(
            other.max.y,
        ) && other.min.y.less(self.max.y) && self.min.z.less(other.max.z) && other.min.z.less(
            self.max.z,
        )
    }

    /// Whether the two boxes, taken as closed, share a point.
    pub fn touches(&self, other: &Self) -> (r: bool)
        ensures
            r == self.touches_spec(*other),
    {
        !other.max.x.less(self.min.x) && !self.max.x.less(other.min.x) && !other.max.y.less(
            self.min.y,
        ) && !self.max.y.less(other.min.y) && !other.max.z.less(self.min.z) && !self.max.z.less(
            other.min.z,
        )
    }

    /// Whether the point lies in the box (lower corner included, upper
    /// excluded).
    pub fn contains(&self, p: &TUVec3<U>) -> (r: bool)
        ensures
            r == self.contains_spec(*p),
    {
        !p.x.less(self.min.x) && p.x.less(self.max.x) && !p.y.less(self.min.y) && p.y.less(
            self.max.y,
        ) && !p.z.less(self.min.z) && p.z.less(self.max.z)
    }

    /// Whether every side of the box has positive length.
    pub fn is_proper(&self) -> (r: bool)
        ensures
            r == proper(*self),
    {
        self.min.x.less(self.max.x) && self.min.y.less(self.max.y) && self.min.z.less(self.max.z)
    }

    /// Whether every side of the box has length one.
    pub fn unit(&self) -> (r: bool)
        ensures
            r == self.is_unit_spec(),
    {
        let one = U::one();
        self.min.x.less(self.max.x) && self.max.x.minus(self.min.x).same(one) && self.min.y.less(
            self.max.y,
        ) && self.max.y.minus(self.min.y).same(one) && self.min.z.less(self.max.z)
            && self.max.z.minus(self.min.z).same(one)
    }

    /// The middle of the box, rounded down on each axis.
    pub fn center(&self) -> (r: TUVec3<U>)
        requires
            self.ordered(),
        ensures
            r.x.val() == mid(self.min.x.val(), self.max.x.val()),
            r.y.val() == mid(self.min.y.val(), self.max.y.val()),
            r.z.val() == mid(self.min.z.val(), self.max.z.val()),
    {
        proof {
            U::lemma_val(self.max.x);
            U::lemma_val(self.max.y);
            U::lemma_val(self.max.z);
        }
        TUVec3 {
            x: self.min.x.plus(self.max.x.minus(self.min.x).halve()),
            y: self.min.y.plus(self.max.y.minus(self.min.y).halve()),
            z: self.min.z.plus(self.max.z.minus(self.min.z).halve()),
        }
    }

    /// The side lengths of the box.
    pub fn size(&self) -> (r: TUVec3<U>)
        requires
            self.ordered(),
        ensures
            r.x.val() == self.max.x.val() - self.min.x.val(),
            r.y.val() == self.max.y.val() - self.min.y.val(),
            r.z.val() == self.max.z.val() - self.min.z.val(),
    {
        TUVec3 {
            x: self.max.x.minus(self.min.x),
            y: self.max.y.minus(self.min.y),
            z: self.max.z.minus(self.min.z),
        }
    }

    /// The eight halves of the box: child `i` takes the upper half on axis x,
    /// y, z when bit 0, 1, 2 of `i` is set.
    pub fn split(&self) -> (r: [Self; 8])
        requires
            self.ordered(),
        ensures
            forall|i: int| 0 <= i < 8 ==> self.is_child(i, #[trigger] r[i]),
    {
        let c = self.center();
        let lo = self.min;
        let hi = self.max;
        let r = [
            Aabb { min: TUVec3 { x: lo.x, y: lo.y, z: lo.z }, max: TUVec3 { x: c.x, y: c.y, z: c.z } },
            Aabb { min: TUVec3 { x: c.x, y: lo.y, z: lo.z }, max: TUVec3 { x: hi.x, y: c.y, z: c.z } },
            Aabb { min: TUVec3 { x: lo.x, y: c.y, z: lo.z }, max: TUVec3 { x: c.x, y: hi.y, z: c.z } },
            Aabb { min: TUVec3 { x: c.x, y: c.y, z: lo.z }, max: TUVec3 { x: hi.x, y: hi.y, z: c.z } },
            Aabb { min: TUVec3 { x: lo.x, y: lo.y, z: c.z }, max: TUVec3 { x: c.x, y: c.y, z: hi.z } },
            Aabb { min: TUVec3 { x: c.x, y: lo.y, z: c.z }, max: TUVec3 { x: hi.x, y: c.y, z: hi.z } },
            Aabb { min: TUVec3 { x: lo.x, y: c.y, z: c.z }, max: TUVec3 { x: c.x, y: hi.y, z: hi.z } },
            Aabb { min: TUVec3 { x: c.x, y: c.y, z: c.z }, max: TUVec3 { x: hi.x, y: hi.y, z: hi.z } },
        ];
        assert forall|i: int| 0 <= i < 8 implies self.is_child(i, #[trigger] r[i]) by {
            assert(i == 0 || i == 1 || i == 2 || i == 3 || i == 4 || i == 5 || i == 6 || i == 7);
        }
        r
    }
}

/// The child index that a descent towards `p` takes from a box whose middle
/// is `c`: bit 0, 1, 2 set when `p` is at or above `c` on axis x, y, z.
pub open spec fn child_index_spec<U: Unsigned>(p: TUVec3<U>, c: TUVec3<U>) -> int {
    (if p.x.val() >= c.x.val() { 1int } else { 0int }) + (if p.y.val() >= c.y.val() {
        2int
    } else {
        0int
    }) + (if p.z.val() >= c.z.val() { 4int } else { 0int })
}

/// The middle of a box, as values.
pub open spec fn is_center<U: Unsigned>(a: Aabb<U>, c: TUVec3<U>) -> bool {
    &&& c.x.val() == mid(a.min.x.val(), a.max.x.val())
    &&& c.y.val() == mid(a.min.y.val(), a.max.y.val())
    &&& c.z.val() == mid(a.min.z.val(), a.max.z.val())
}

/// A box whose every side has positive length.
pub open spec fn proper<U: Unsigned>(a: Aabb<U>) -> bool {
    &&& a.min.x.val() < a.max.x.val()
    &&& a.min.y.val() < a.max.y.val()
    &&& a.min.z.val() < a.max.z.val()
}

/// The children of a box that can be split lie inside it, are ordered and
/// have a strictly smaller side sum.
pub proof fn lemma_child_smaller<U: Unsigned>(a: Aabb<U>, i: int, c: Aabb<U>)
    requires
        a.splittable(),
        0 <= i < 8,
        a.is_child(i, c),
    ensures
        c.ordered(),
        c.side_sum() < a.side_sum(),
        a.min.x.val() <= c.min.x.val() && c.max.x.val() <= a.max.x.val(),
        a.min.y.val() <= c.min.y.val() && c.max.y.val() <= a.max.y.val(),
        a.min.z.val() <= c.min.z.val() && c.max.z.val() <= a.max.z.val(),
{
}

/// Of the eight children of an ordered box (those that [`Aabb::split`] gives
/// around [`Aabb::center`]), the one with the index that
/// [`Branch::find_child`](crate::node::Branch::find_child) picks for a point
/// of the box holds the point, and no other child holds it.
pub proof fn lemma_descent_child<U: Unsigned>(a: Aabb<U>, c: TUVec3<U>, p: TUVec3<U>, i: int, ch: Aabb<U>)
    requires
        a.ordered(),
        is_center(a, c),
        0 <= i < 8,
        a.is_child(i, ch),
    ensures
        0 <= child_index_spec(p, c) < 8,
        a.contains_spec(p) && i == child_index_spec(p, c) ==> ch.contains_spec(p),
        ch.contains_spec(p) ==> i == child_index_spec(p, c),
{
    assert(upper_bit(i, 0) == (i == 1 || i == 3 || i == 5 || i == 7));
    assert(upper_bit(i, 1) == (i == 2 || i == 3 || i == 6 || i == 7));
    assert(upper_bit(i, 2) == (i == 4 || i == 5 || i == 6 || i == 7));
}

/// Two different children of a box that can be split are different boxes.
pub proof fn lemma_children_differ<U: Unsigned>(a: Aabb<U>, i: int, j: int, c: Aabb<U>, d: Aabb<U>)
    requires
        a.splittable(),
        0 <= i < 8,
        0 <= j < 8,
        i != j,
        a.is_child(i, c),
        a.is_child(j, d),
    ensures
        c != d,
{
    assert(upper_bit(i, 0) == (i == 1 || i == 3 || i == 5 || i == 7));
    assert(upper_bit(i, 1) == (i == 2 || i == 3 || i == 6 || i == 7));
    assert(upper_bit(i, 2) == (i == 4 || i == 5 || i == 6 || i == 7));
    assert(upper_bit(j, 0) == (j == 1 || j == 3 || j == 5 || j == 7));
    assert(upper_bit(j, 1) == (j == 2 || j == 3 || j == 6 || j == 7));
    assert(upper_bit(j, 2) == (j == 4 || j == 5 || j == 6 || j == 7));
}

/// The side sum of a box never exceeds three times the largest coordinate.
pub proof fn lemma_side_bound<U: Unsigned>(a: Aabb<U>)
    ensures
        a.side_sum() <= 3 * U::max_val(),
{
    U::lemma_val(a.max.x);
    U::lemma_val(a.max.y);
    U::lemma_val(a.max.z);
}

} // verus!
