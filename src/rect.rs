use crate::bounding::BoundingNumber;
use std::cmp::Ordering;
use vstd::prelude::*;

verus! {

/// An axis-aligned box: origin `(x, y)`, extent `(w, h)`, covering
/// `[x, x + w] x [y, y + h]`.
#[derive(Clone, Copy, Debug, Hash)]
pub struct Rect<T> {
    pub x: T,
    pub y: T,
    pub w: T,
    pub h: T,
}

/// Halving as integer division does it: truncated toward zero.
pub open spec fn half(v: int) -> int {
    if v >= 0 {
        v / 2
    } else {
        -((-v) / 2)
    }
}

impl<T: BoundingNumber> Rect<T> {
    pub open spec fn left(self) -> int {
        self.x.value()
    }

    pub open spec fn right(self) -> int {
        self.x.value() + self.w.value()
    }

    pub open spec fn top(self) -> int {
        self.y.value()
    }

    pub open spec fn bottom(self) -> int {
        self.y.value() + self.h.value()
    }

    /// The four coordinates, as integers, are those of `o`.
    pub open spec fn same_as(self, o: Rect<T>) -> bool {
        &&& self.x.value() == o.x.value()
        &&& self.y.value() == o.y.value()
        &&& self.w.value() == o.w.value()
        &&& self.h.value() == o.h.value()
    }

    /// `self` lies within `o` on both axes.
    pub open spec fn spec_fits_inside(self, o: Rect<T>) -> bool {
        &&& self.left() >= o.left()
        &&& self.right() <= o.right()
        &&& self.top() >= o.top()
        &&& self.bottom() <= o.bottom()
    }

    /// The far corner `(x + w, y + h)` can be held in `T` too; every quadrant
    /// of such a box can then be computed without overflow.
    pub open spec fn representable(self) -> bool {
        &&& T::lowest() <= self.right() <= T::highest()
        &&& T::lowest() <= self.bottom() <= T::highest()
    }

    /// `c` is quadrant `k` of `self`, in the order top-left, top-right,
    /// bottom-right, bottom-left.
    pub open spec fn is_quadrant(self, c: Rect<T>, k: int) -> bool {
        let hw = half(self.w.value());
        let hh = half(self.h.value());
        &&& c.w.value() == hw
        &&& c.h.value() == hh
        &&& c.x.value() == self.x.value() + (if k == 1 || k == 2 { hw } else { 0 })
        &&& c.y.value() == self.y.value() + (if k == 2 || k == 3 { hh } else { 0 })
    }

    /// Whether `self` lies within `other`: `x >= other.x`, `x + w <= other.x + other.w`,
    /// and the same on the vertical axis.
    pub fn fits_inside(&self, other: &Rect<T>) -> (r: bool)
        ensures
            r == self.spec_fits_inside(*other),
    {
        let (x, y, w, h) = (self.x.widen(), self.y.widen(), self.w.widen(), self.h.widen());
        let (ox, oy, ow, oh) = (other.x.widen(), other.y.widen(), other.w.widen(), other.h.widen());
        x >= ox && x + w <= ox + ow && y >= oy && y + h <= oy + oh
    }
}

impl<T: BoundingNumber> PartialEq for Rect<T> {
    /// Field-wise equality of the four coordinates.
    fn eq(&self, other: &Rect<T>) -> (r: bool) {
        self.x.widen() == other.x.widen() && self.y.widen() == other.y.widen() && self.w.widen()
            == other.w.widen() && self.h.widen() == other.h.widen()
    }
}

impl<T: BoundingNumber> vstd::std_specs::cmp::PartialEqSpecImpl for Rect<T> {
    open spec fn obeys_eq_spec() -> bool {
        true
    }

    open spec fn eq_spec(&self, other: &Rect<T>) -> bool {
        self.same_as(*other)
    }
}

impl<T: BoundingNumber> Eq for Rect<T> {
}

/// The containment order on boxes. It is not a lawful partial order: equal
/// boxes compare `Equal`, a box that fits inside the other (and differs from
/// it) compares `Less`, and every other pair, including a box that strictly
/// contains the other, compares `Greater`. Use `fits_inside` to ask about
/// containment.
pub open spec fn containment_order<T: BoundingNumber>(a: Rect<T>, b: Rect<T>) -> Ordering {
    if a.same_as(b) {
        Ordering::Equal
    } else if a.spec_fits_inside(b) {
        Ordering::Less
    } else {
        Ordering::Greater
    }
}

impl<T: BoundingNumber> PartialOrd for Rect<T> {
    fn partial_cmp(&self, other: &Rect<T>) -> (r: Option<Ordering>) {
        if *self == *other {
            Some(Ordering::Equal)
        } else if self.fits_inside(other) {
            Some(Ordering::Less)
        } else {
            Some(Ordering::Greater)
        }
    }
}

impl<T: BoundingNumber> vstd::std_specs::cmp::PartialOrdSpecImpl for Rect<T> {
    open spec fn obeys_partial_cmp_spec() -> bool {
        true
    }

    open spec fn partial_cmp_spec(&self, other: &Rect<T>) -> Option<Ordering> {
        Some(containment_order(*self, *other))
    }
}

} // verus!
