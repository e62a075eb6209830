use crate::rect::Rect;
use vstd::prelude::*;

verus! {

/// A coordinate type usable in a `Rect`.
///
/// Each value stands for a mathematical integer (`value`), inside the closed
/// range `lowest() ..= highest()`, which itself lies within 65 bits. Values
/// are widened to `i128` for arithmetic, so that sums of two coordinates never
/// overflow, and narrowed back where the result is known to be in range.
pub trait BoundingNumber: Copy + Sized {
    /// The integer this value stands for.
    spec fn value(self) -> int;

    /// The smallest integer the type can hold.
    spec fn lowest() -> int;

    /// The largest integer the type can hold.
    spec fn highest() -> int;

    proof fn lemma_in_range(self)
        ensures
            Self::lowest() <= self.value() <= Self::highest(),
            -0x1_0000_0000_0000_0000 <= Self::lowest() <= 0,
            0 < Self::highest() <= 0x1_0000_0000_0000_0000,
    ;

    fn widen(self) -> (r: i128)
        ensures
            r as int == self.value(),
            -0x1_0000_0000_0000_0000 <= r <= 0x1_0000_0000_0000_0000,
    ;

    fn narrow(v: i128) -> (r: Self)
        requires
            Self::lowest() <= v <= Self::highest(),
        ensures
            r.value() == v as int,
    ;
}

/// An element that can report the box it occupies.
///
/// `bounding_box` is the box an element occupies; `get_bounding_box` must
/// return it, so that the box of an element does not change while it is held.
pub trait BoxBounded<T: BoundingNumber> {
    spec fn bounding_box(&self) -> Rect<T>;

    fn get_bounding_box(&self) -> (r: Rect<T>)
        ensures
            r == self.bounding_box(),
    ;
}

impl BoundingNumber for i8 {
    open spec fn value(self) -> int {
        self as int
    }

    open spec fn lowest() -> int {
        i8::MIN as int
    }

    open spec fn highest() -> int {
        i8::MAX as int
    }

    proof fn lemma_in_range(self) {
    }

    fn widen(self) -> (r: i128) {
        self as i128
    }

    fn narrow(v: i128) -> (r: i8) {
        v as i8
    }
}

impl BoundingNumber for i16 {
    open spec fn value(self) -> int {
        self as int
    }

    open spec fn lowest() -> int {
        i16::MIN as int
    }

    open spec fn highest() -> int {
        i16::MAX as int
    }

    proof fn lemma_in_range(self) {
    }

    fn widen(self) -> (r: i128) {
        self as i128
    }

    fn narrow(v: i128) -> (r: i16) {
        v as i16
    }
}

impl BoundingNumber for i32 {
    open spec fn value(self) -> int {
        self as int
    }

    open spec fn lowest() -> int {
        i32::MIN as int
    }

    open spec fn highest() -> int {
        i32::MAX as int
    }

    proof fn lemma_in_range(self) {
    }

    fn widen(self) -> (r: i128) {
        self as i128
    }

    fn narrow(v: i128) -> (r: i32) {
        v as i32
    }
}

impl BoundingNumber for i64 {
    open spec fn value(self) -> int {
        self as int
    }

    open spec fn lowest() -> int {
        i64::MIN as int
    }

    open spec fn highest() -> int {
        i64::MAX as int
    }

    proof fn lemma_in_range(self) {
    }

    fn widen(self) -> (r: i128) {
        self as i128
    }

    fn narrow(v: i128) -> (r: i64) {
        v as i64
    }
}

impl BoundingNumber for u8 {
    open spec fn value(self) -> int {
        self as int
    }

    open spec fn lowest() -> int {
        u8::MIN as int
    }

    open spec fn highest() -> int {
        u8::MAX as int
    }

    proof fn lemma_in_range(self) {
    }

    fn widen(self) -> (r: i128) {
        self as i128
    }

    fn narrow(v: i128) -> (r: u8) {
        v as u8
    }
}

impl BoundingNumber for u16 {
    open spec fn value(self) -> int {
        self as int
    }

    open spec fn lowest() -> int {
        u16::MIN as int
    }

    open spec fn highest() -> int {
        u16::MAX as int
    }

    proof fn lemma_in_range(self) {
    }

    fn widen(self) -> (r: i128) {
        self as i128
    }

    fn narrow(v: i128) -> (r: u16) {
        v as u16
    }
}

impl BoundingNumber for u32 {
    open spec fn value(self) -> int {
        self as int
    }

    open spec fn lowest() -> int {
        u32::MIN as int
    }

    open spec fn highest() -> int {
        u32::MAX as int
    }

    proof fn lemma_in_range(self) {
    }

    fn widen(self) -> (r: i128) {
        self as i128
    }

    fn narrow(v: i128) -> (r: u32) {
        v as u32
    }
}

impl BoundingNumber for u64 {
    open spec fn value(self) -> int {
        self as int
    }

    open spec fn lowest() -> int {
        u64::MIN as int
    }

    open spec fn highest() -> int {
        u64::MAX as int
    }

    proof fn lemma_in_range(self) {
    }

    fn widen(self) -> (r: i128) {
        self as i128
    }

    fn narrow(v: i128) -> (r: u64) {
        v as u64
    }
}

} // verus!
