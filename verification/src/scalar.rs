use vstd::prelude::*;

verus! {

/// An integer-like element type: totally ordered, embedded in the mathematical
/// integers, with a successor and a predecessor inside a bounded range.
///
/// Contracts speak of an element through `value()`, the integer it stands for.
pub trait Scalar: Copy + Sized {
    /// The mathematical integer that this element stands for.
    spec fn value(&self) -> int;

    /// The smallest integer that an element of the type can stand for.
    spec fn lowest() -> int;

    /// The largest integer that an element of the type can stand for.
    spec fn highest() -> int;

    /// Every element lies between `lowest()` and `highest()`.
    proof fn lemma_value_in_range(&self)
        ensures
            Self::lowest() <= self.value() <= Self::highest(),
    ;

    /// The type has at most 2^128 elements.
    proof fn lemma_range_width()
        ensures
            Self::highest() - Self::lowest() < 0x1_0000_0000_0000_0000_0000_0000_0000_0000,
    ;

    /// Whether `self` is less than or equal to `other`.
    fn leq(&self, other: &Self) -> (b: bool)
        ensures
            b == (self.value() <= other.value()),
    ;

    /// The element that follows `self`.
    fn successor(&self) -> (r: Self)
        requires
            self.value() < Self::highest(),
        ensures
            r.value() == self.value() + 1,
    ;

    /// The element that precedes `self`.
    fn predecessor(&self) -> (r: Self)
        requires
            self.value() > Self::lowest(),
        ensures
            r.value() == self.value() - 1,
    ;
}

/// Whether `a` is strictly less than `b`.
pub fn less<T: Scalar>(a: &T, b: &T) -> (r: bool)
    ensures
        r == (a.value() < b.value()),
{
    !b.leq(a)
}

/// Whether `a` and `b` stand for the same integer.
pub fn same<T: Scalar>(a: &T, b: &T) -> (r: bool)
    ensures
        r == (a.value() == b.value()),
{
    a.leq(b) && b.leq(a)
}

/// The smaller of two elements; `a` where both stand for the same integer.
pub fn smaller<T: Scalar>(a: T, b: T) -> (r: T)
    ensures
        r == (if a.value() <= b.value() { a } else { b }),
{
    if a.leq(&b) {
        a
    } else {
        b
    }
}

/// The larger of two elements; `a` where both stand for the same integer.
pub fn larger<T: Scalar>(a: T, b: T) -> (r: T)
    ensures
        r == (if b.value() <= a.value() { a } else { b }),
{
    if b.leq(&a) {
        a
    } else {
        b
    }
}

/// Whether `b` is the successor of `a`.
pub fn follows<T: Scalar>(a: &T, b: &T) -> (r: bool)
    ensures
        r == (a.value() + 1 == b.value()),
{
    if less(a, b) {
        proof {
            b.lemma_value_in_range();
        }
        let next = a.successor();
        same(&next, b)
    } else {
        false
    }
}

impl Scalar for i8 {
    open spec fn value(&self) -> int {
        *self as int
    }

    open spec fn lowest() -> int {
        i8::MIN as int
    }

    open spec fn highest() -> int {
        i8::MAX as int
    }

    proof fn lemma_value_in_range(&self) {
    }

    proof fn lemma_range_width() {
    }

    fn leq(&self, other: &Self) -> (b: bool) {
        *self <= *other
    }

    fn successor(&self) -> (r: Self) {
        *self + 1
    }

    fn predecessor(&self) -> (r: Self) {
        *self - 1
    }
}

impl Scalar for i16 {
    open spec fn value(&self) -> int {
        *self as int
    }

    open spec fn lowest() -> int {
        i16::MIN as int
    }

    open spec fn highest() -> int {
        i16::MAX as int
    }

    proof fn lemma_value_in_range(&self) {
    }

    proof fn lemma_range_width() {
    }

    fn leq(&self, other: &Self) -> (b: bool) {
        *self <= *other
    }

    fn successor(&self) -> (r: Self) {
        *self + 1
    }

    fn predecessor(&self) -> (r: Self) {
        *self - 1
    }
}

impl Scalar for i32 {
    open spec fn value(&self) -> int {
        *self as int
    }

    open spec fn lowest() -> int {
        i32::MIN as int
    }

    open spec fn highest() -> int {
        i32::MAX as int
    }

    proof fn lemma_value_in_range(&self) {
    }

    proof fn lemma_range_width() {
    }

    fn leq(&self, other: &Self) -> (b: bool) {
        *self <= *other
    }

    fn successor(&self) -> (r: Self) {
        *self + 1
    }

    fn predecessor(&self) -> (r: Self) {
        *self - 1
    }
}

impl Scalar for i64 {
    open spec fn value(&self) -> int {
        *self as int
    }

    open spec fn lowest() -> int {
        i64::MIN as int
    }

    open spec fn highest() -> int {
        i64::MAX as int
    }

    proof fn lemma_value_in_range(&self) {
    }

    proof fn lemma_range_width() {
    }

    fn leq(&self, other: &Self) -> (b: bool) {
        *self <= *other
    }

    fn successor(&self) -> (r: Self) {
        *self + 1
    }

    fn predecessor(&self) -> (r: Self) {
        *self - 1
    }
}

impl Scalar for i128 {
    open spec fn value(&self) -> int {
        *self as int
    }

    open spec fn lowest() -> int {
        i128::MIN as int
    }

    open spec fn highest() -> int {
        i128::MAX as int
    }

    proof fn lemma_value_in_range(&self) {
    }

    proof fn lemma_range_width() {
    }

    fn leq(&self, other: &Self) -> (b: bool) {
        *self <= *other
    }

    fn successor(&self) -> (r: Self) {
        *self + 1
    }

    fn predecessor(&self) -> (r: Self) {
        *self - 1
    }
}

impl Scalar for isize {
    open spec fn value(&self) -> int {
        *self as int
    }

    open spec fn lowest() -> int {
        isize::MIN as int
    }

    open spec fn highest() -> int {
        isize::MAX as int
    }

    proof fn lemma_value_in_range(&self) {
    }

    proof fn lemma_range_width() {
    }

    fn leq(&self, other: &Self) -> (b: bool) {
        *self <= *other
    }

    fn successor(&self) -> (r: Self) {
        *self + 1
    }

    fn predecessor(&self) -> (r: Self) {
        *self - 1
    }
}

impl Scalar for u8 {
    open spec fn value(&self) -> int {
        *self as int
    }

    open spec fn lowest() -> int {
        u8::MIN as int
    }

    open spec fn highest() -> int {
        u8::MAX as int
    }

    proof fn lemma_value_in_range(&self) {
    }

    proof fn lemma_range_width() {
    }

    fn leq(&self, other: &Self) -> (b: bool) {
        *self <= *other
    }

    fn successor(&self) -> (r: Self) {
        *self + 1
    }

    fn predecessor(&self) -> (r: Self) {
        *self - 1
    }
}

impl Scalar for u16 {
    open spec fn value(&self) -> int {
        *self as int
    }

    open spec fn lowest() -> int {
        u16::MIN as int
    }

    open spec fn highest() -> int {
        u16::MAX as int
    }

    proof fn lemma_value_in_range(&self) {
    }

    proof fn lemma_range_width() {
    }

    fn leq(&self, other: &Self) -> (b: bool) {
        *self <= *other
    }

    fn successor(&self) -> (r: Self) {
        *self + 1
    }

    fn predecessor(&self) -> (r: Self) {
        *self - 1
    }
}

impl Scalar for u32 {
    open spec fn value(&self) -> int {
        *self as int
    }

    open spec fn lowest() -> int {
        u32::MIN as int
    }

    open spec fn highest() -> int {
        u32::MAX as int
    }

    proof fn lemma_value_in_range(&self) {
    }

    proof fn lemma_range_width() {
    }

    fn leq(&self, other: &Self) -> (b: bool) {
        *self <= *other
    }

    fn successor(&self) -> (r: Self) {
        *self + 1
    }

    fn predecessor(&self) -> (r: Self) {
        *self - 1
    }
}

impl Scalar for u64 {
    open spec fn value(&self) -> int {
        *self as int
    }

    open spec fn lowest() -> int {
        u64::MIN as int
    }

    open spec fn highest() -> int {
        u64::MAX as int
    }

    proof fn lemma_value_in_range(&self) {
    }

    proof fn lemma_range_width() {
    }

    fn leq(&self, other: &Self) -> (b: bool) {
        *self <= *other
    }

    fn successor(&self) -> (r: Self) {
        *self + 1
    }

    fn predecessor(&self) -> (r: Self) {
        *self - 1
    }
}

impl Scalar for u128 {
    open spec fn value(&self) -> int {
        *self as int
    }

    open spec fn lowest() -> int {
        u128::MIN as int
    }

    open spec fn highest() -> int {
        u128::MAX as int
    }

    proof fn lemma_value_in_range(&self) {
    }

    proof fn lemma_range_width() {
    }

    fn leq(&self, other: &Self) -> (b: bool) {
        *self <= *other
    }

    fn successor(&self) -> (r: Self) {
        *self + 1
    }

    fn predecessor(&self) -> (r: Self) {
        *self - 1
    }
}

impl Scalar for usize {
    open spec fn value(&self) -> int {
        *self as int
    }

    open spec fn lowest() -> int {
        usize::MIN as int
    }

    open spec fn highest() -> int {
        usize::MAX as int
    }

    proof fn lemma_value_in_range(&self) {
    }

    proof fn lemma_range_width() {
    }

    fn leq(&self, other: &Self) -> (b: bool) {
        *self <= *other
    }

    fn successor(&self) -> (r: Self) {
        *self + 1
    }

    fn predecessor(&self) -> (r: Self) {
        *self - 1
    }
}

} // verus!
