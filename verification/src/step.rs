//! Discretely steppable coordinate values.
//!
//! A coordinate type is modelled by the integer each of its values stands
//! for.  Everything the region and odometer logic needs from a coordinate is
//! stated over that integer: ordering, the successor, and the distance
//! between two values.  The integers of a coordinate type lie within the
//! range of `i128`, so that coordinates of different types can be compared.

use vstd::prelude::*;

verus! {

/// A coordinate type whose values sit on the integer line and can be
/// advanced one step at a time.
pub trait Step: Copy + Sized {
    /// The integer this coordinate stands for.
    spec fn value(self) -> int;

    /// Distinct coordinates stand for distinct integers.
    proof fn lemma_value_injective(a: Self, b: Self)
        requires
            a.value() == b.value(),
        ensures
            a == b,
    ;

    /// The integer this coordinate stands for, as a machine integer wide
    /// enough for every coordinate type.
    fn wide(self) -> (r: i128)
        ensures
            r == self.value(),
    ;

    /// The next coordinate, or `None` when `self` is the largest value of
    /// the type.
    fn forward(self) -> (r: Option<Self>)
        ensures
            (match r {
                Some(n) => n.value() == self.value() + 1,
                None => forall|x: Self| #[trigger] x.value() <= self.value(),
            }),
    ;
}

/// The integers that the coordinates of a point stand for.
pub open spec fn values<T: Step>(p: Seq<T>) -> Seq<int> {
    Seq::new(p.len(), |i: int| p[i].value())
}

/// The count of integers in the half-open interval `start..end`, when it
/// fits a `usize`.
pub open spec fn steps(start: int, end: int) -> Option<usize> {
    if end <= start {
        Some(0usize)
    } else if end - start <= usize::MAX {
        Some((end - start) as usize)
    } else {
        None
    }
}

/// Whether `a` comes before `b` on the integer line.  The two coordinates
/// may be of different types.
pub fn lt<A: Step, B: Step>(a: A, b: B) -> (r: bool)
    ensures
        r == (a.value() < b.value()),
{
    a.wide() < b.wide()
}

/// Whether `a` and `b` stand for the same integer.  The two coordinates may
/// be of different types.
pub fn same<A: Step, B: Step>(a: A, b: B) -> (r: bool)
    ensures
        r == (a.value() == b.value()),
{
    a.wide() == b.wide()
}

/// The number of steps from `start` up to `end`: zero when `end` is not
/// above `start`, `None` when the count does not fit a `usize`.
pub fn steps_between<T: Step>(start: T, end: T) -> (r: Option<usize>)
    ensures
        r == steps(start.value(), end.value()),
{
    let from: i128 = start.wide();
    let to: i128 = end.wide();
    if to <= from {
        Some(0)
    } else {
        match to.checked_sub(from) {
            Some(d) => if d <= usize::MAX as i128 {
                Some(d as usize)
            } else {
                None
            },
            None => None,
        }
    }
}

impl Step for i8 {
    open spec fn value(self) -> int {
        self as int
    }

    proof fn lemma_value_injective(a: Self, b: Self) {
    }

    fn wide(self) -> (r: i128) {
        self as i128
    }

    fn forward(self) -> (r: Option<Self>) {
        if self < i8::MAX {
            Some(self + 1)
        } else {
            None
        }
    }
}

impl Step for i16 {
    open spec fn value(self) -> int {
        self as int
    }

    proof fn lemma_value_injective(a: Self, b: Self) {
    }

    fn wide(self) -> (r: i128) {
        self as i128
    }

    fn forward(self) -> (r: Option<Self>) {
        if self < i16::MAX {
            Some(self + 1)
        } else {
            None
        }
    }
}

impl Step for i32 {
    open spec fn value(self) -> int {
        self as int
    }

    proof fn lemma_value_injective(a: Self, b: Self) {
    }

    fn wide(self) -> (r: i128) {
        self as i128
    }

    fn forward(self) -> (r: Option<Self>) {
        if self < i32::MAX {
            Some(self + 1)
        } else {
            None
        }
    }
}

impl Step for i64 {
    open spec fn value(self) -> int {
        self as int
    }

    proof fn lemma_value_injective(a: Self, b: Self) {
    }

    fn wide(self) -> (r: i128) {
        self as i128
    }

    fn forward(self) -> (r: Option<Self>) {
        if self < i64::MAX {
            Some(self + 1)
        } else {
            None
        }
    }
}

impl Step for isize {
    open spec fn value(self) -> int {
        self as int
    }

    proof fn lemma_value_injective(a: Self, b: Self) {
    }

    fn wide(self) -> (r: i128) {
        self as i128
    }

    fn forward(self) -> (r: Option<Self>) {
        if self < isize::MAX {
            Some(self + 1)
        } else {
            None
        }
    }
}

impl Step for u8 {
    open spec fn value(self) -> int {
        self as int
    }

    proof fn lemma_value_injective(a: Self, b: Self) {
    }

    fn wide(self) -> (r: i128) {
        self as i128
    }

    fn forward(self) -> (r: Option<Self>) {
        if self < u8::MAX {
            Some(self + 1)
        } else {
            None
        }
    }
}

impl Step for u16 {
    open spec fn value(self) -> int {
        self as int
    }

    proof fn lemma_value_injective(a: Self, b: Self) {
    }

    fn wide(self) -> (r: i128) {
        self as i128
    }

    fn forward(self) -> (r: Option<Self>) {
        if self < u16::MAX {
            Some(self + 1)
        } else {
            None
        }
    }
}

impl Step for u32 {
    open spec fn value(self) -> int {
        self as int
    }

    proof fn lemma_value_injective(a: Self, b: Self) {
    }

    fn wide(self) -> (r: i128) {
        self as i128
    }

    fn forward(self) -> (r: Option<Self>) {
        if self < u32::MAX {
            Some(self + 1)
        } else {
            None
        }
    }
}

impl Step for u64 {
    open spec fn value(self) -> int {
        self as int
    }

    proof fn lemma_value_injective(a: Self, b: Self) {
    }

    fn wide(self) -> (r: i128) {
        self as i128
    }

    fn forward(self) -> (r: Option<Self>) {
        if self < u64::MAX {
            Some(self + 1)
        } else {
            None
        }
    }
}

impl Step for usize {
    open spec fn value(self) -> int {
        self as int
    }

    proof fn lemma_value_injective(a: Self, b: Self) {
    }

    fn wide(self) -> (r: i128) {
        self as i128
    }

    fn forward(self) -> (r: Option<Self>) {
        if self < usize::MAX {
            Some(self + 1)
        } else {
            None
        }
    }
}

} // verus!
