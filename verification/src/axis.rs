//! One-dimensional axes.
//!
//! An axis is anything that can report a lower and an upper bound over a
//! [`Step`] coordinate type.  Its meaning is an [`Interval`] of integers;
//! membership, emptiness and cardinality are all derived from the two
//! bounds and stated over that interval.

use crate::step::{lt, same, steps_between, Step};
use core::ops::Range;
use vstd::prelude::*;
use vstd::std_specs::cmp::PartialEqSpecImpl;

verus! {

/// One endpoint of an axis.
#[derive(Debug, Hash)]
pub enum Bound<T> {
    /// The endpoint itself belongs to the axis.
    Included(T),
    /// The endpoint is the first value outside the axis.
    Excluded(T),
    /// The axis has no endpoint on this side.
    Unbounded,
}

impl<T: Copy> Copy for Bound<T> {

}

impl<T: Copy> Clone for Bound<T> {
    fn clone(&self) -> (r: Self)
        ensures
            r == *self,
    {
        *self
    }
}

impl<T: Step> PartialEq for Bound<T> {
    /// Two bounds are equal when they are of the same kind and hold the
    /// same coordinate.
    fn eq(&self, other: &Self) -> (r: bool) {
        match (*self, *other) {
            (Bound::Included(x), Bound::Included(y)) | (Bound::Excluded(x), Bound::Excluded(y)) => {
                proof {
                    if x.value() == y.value() {
                        T::lemma_value_injective(x, y);
                    }
                }
                same(x, y)
            },
            (Bound::Unbounded, Bound::Unbounded) => true,
            _ => false,
        }
    }
}

impl<T: Step> PartialEqSpecImpl for Bound<T> {
    open spec fn obeys_eq_spec() -> bool {
        true
    }

    open spec fn eq_spec(&self, other: &Self) -> bool {
        *self == *other
    }
}

impl<T: Step> Eq for Bound<T> {

}

impl<T: Step> Bound<T> {
    /// The least integer this bound admits when it is the start of an axis.
    pub open spec fn lower(self) -> Option<int> {
        match self {
            Bound::Included(s) => Some(s.value()),
            Bound::Excluded(s) => Some(s.value() + 1),
            Bound::Unbounded => None,
        }
    }

    /// The greatest integer this bound admits when it is the end of an axis.
    pub open spec fn upper(self) -> Option<int> {
        match self {
            Bound::Included(e) => Some(e.value()),
            Bound::Excluded(e) => Some(e.value() - 1),
            Bound::Unbounded => None,
        }
    }

    /// Whether the bound, taken as the start of an axis, names a first
    /// coordinate: it is not `Unbounded`, and an excluded value has a
    /// successor in `T`.
    pub open spec fn resolvable(self) -> bool {
        match self {
            Bound::Included(_) => true,
            Bound::Excluded(s) => exists|x: T| s.value() < #[trigger] x.value(),
            Bound::Unbounded => false,
        }
    }
}

/// The set of integers an axis stands for: every `v` with `lo <= v <= hi`,
/// where a missing side is unbounded.
pub struct Interval {
    pub lo: Option<int>,
    pub hi: Option<int>,
}

impl Interval {
    /// Whether `v` is one of the integers of the interval.
    pub open spec fn contains(self, v: int) -> bool {
        &&& self.lo matches Some(l) ==> l <= v
        &&& self.hi matches Some(h) ==> v <= h
    }

    /// Whether the interval has both a least and a greatest side.
    pub open spec fn bounded(self) -> bool {
        self.lo is Some && self.hi is Some
    }

    /// The number of integers in a bounded interval.
    pub open spec fn len(self) -> nat
        recommends
            self.bounded(),
    {
        if self.bounded() && self.lo->0 <= self.hi->0 {
            (self.hi->0 - self.lo->0 + 1) as nat
        } else {
            0
        }
    }
}

/// A count as a `usize`, when it fits.
pub open spec fn fit(n: nat) -> Option<usize> {
    if n <= usize::MAX {
        Some(n as usize)
    } else {
        None
    }
}

/// A one-dimensional range of `T` coordinates, described by its two bounds.
pub trait Axis<T: Step> {
    /// The bound at which the axis starts.
    spec fn start_spec(&self) -> Bound<T>;

    /// The bound at which the axis ends.
    spec fn end_spec(&self) -> Bound<T>;

    /// Reports the start of the axis.
    fn start_bound(&self) -> (b: Bound<T>)
        ensures
            b == self.start_spec(),
    ;

    /// Reports the end of the axis.
    fn end_bound(&self) -> (b: Bound<T>)
        ensures
            b == self.end_spec(),
    ;
}

/// The interval of integers that `axis` covers.
pub open spec fn span<T: Step, R: Axis<T>>(axis: R) -> Interval {
    Interval { lo: axis.start_spec().lower(), hi: axis.end_spec().upper() }
}

/// The intervals that a sequence of axes covers, axis by axis.
pub open spec fn spans<T: Step, R: Axis<T>>(axes: Seq<R>) -> Seq<Interval> {
    Seq::new(axes.len(), |i: int| span(axes[i]))
}

/// The bounds of a sequence of axes, axis by axis.
pub open spec fn shape<T: Step, R: Axis<T>>(axes: Seq<R>) -> Seq<(Bound<T>, Bound<T>)> {
    Seq::new(axes.len(), |i: int| (axes[i].start_spec(), axes[i].end_spec()))
}

/// Shapes are compared axis by axis: two sequences of axes of one length
/// have the same shape exactly when, at every position, the two axes have
/// the same start and the same end.
pub proof fn lemma_shape_axiswise<T: Step, R: Axis<T>>(a: Seq<R>, b: Seq<R>)
    requires
        a.len() == b.len(),
    ensures
        shape(a) == shape(b) <==> forall|i: int|
            0 <= i < a.len() ==> (#[trigger] a[i]).start_spec() == b[i].start_spec()
                && a[i].end_spec() == b[i].end_spec(),
{
    if shape(a) == shape(b) {
        assert forall|i: int| 0 <= i < a.len() implies (#[trigger] a[i]).start_spec()
            == b[i].start_spec() && a[i].end_spec() == b[i].end_spec() by {
            assert(shape(a)[i] == shape(b)[i]);
        }
    }
    if forall|i: int|
        0 <= i < a.len() ==> (#[trigger] a[i]).start_spec() == b[i].start_spec()
            && a[i].end_spec() == b[i].end_spec() {
        assert(shape(a) =~= shape(b));
    }
}

/// The order of the axes matters: exchanging two axes with different bounds
/// makes a different shape.
pub proof fn lemma_shape_order_sensitive<T: Step, R: Axis<T>>(a: Seq<R>, b: Seq<R>, i: int, j: int)
    requires
        a.len() == b.len(),
        0 <= i < a.len(),
        0 <= j < a.len(),
        a[i] == b[j],
        a[j] == b[i],
        shape(a)[i] != shape(a)[j],
    ensures
        shape(a) != shape(b),
{
    assert(shape(b)[i] == shape(a)[j]);
}

/// A bounded axis that is not empty has a first coordinate.
pub proof fn lemma_nonempty_resolvable<T: Step, R: Axis<T>>(axis: R)
    requires
        span(axis).bounded(),
        span(axis).len() > 0,
    ensures
        axis.start_spec().resolvable(),
{
    if let Bound::Excluded(s) = axis.start_spec() {
        match axis.end_spec() {
            Bound::Included(e) => {
                assert(s.value() < e.value());
            },
            Bound::Excluded(e) => {
                assert(s.value() < e.value());
            },
            Bound::Unbounded => {},
        }
    }
}

/// The half-open range `start..end`.
impl<T: Step> Axis<T> for Range<T> {
    open spec fn start_spec(&self) -> Bound<T> {
        Bound::Included(self.start)
    }

    open spec fn end_spec(&self) -> Bound<T> {
        Bound::Excluded(self.end)
    }

    fn start_bound(&self) -> (b: Bound<T>) {
        Bound::Included(self.start)
    }

    fn end_bound(&self) -> (b: Bound<T>) {
        Bound::Excluded(self.end)
    }
}

/// An explicit pair of bounds: closed, open or unbounded on either side.
impl<T: Step> Axis<T> for (Bound<T>, Bound<T>) {
    open spec fn start_spec(&self) -> Bound<T> {
        self.0
    }

    open spec fn end_spec(&self) -> Bound<T> {
        self.1
    }

    fn start_bound(&self) -> (b: Bound<T>) {
        self.0
    }

    fn end_bound(&self) -> (b: Bound<T>) {
        self.1
    }
}

/// Resolves a start bound to the first coordinate it admits.
pub fn get_real_bound<T: Step>(bound: Bound<T>) -> (r: T)
    requires
        bound.resolvable(),
    ensures
        bound.lower() == Some(r.value()),
{
    match bound {
        Bound::Included(s) => s,
        Bound::Excluded(s) => {
            let next = s.forward();
            assert(next is Some) by {
                if next is None {
                    let x = choose|x: T| s.value() < #[trigger] x.value();
                    assert(x.value() <= s.value());
                }
            }
            next.unwrap()
        },
        Bound::Unbounded => unreached(),
    }
}

/// The first coordinate of `axis`.
pub fn get_bound_start<R, T>(axis: &R) -> (r: T) where R: Axis<T>, T: Step
    requires
        axis.start_spec().resolvable(),
    ensures
        span(*axis).lo == Some(r.value()),
{
    get_real_bound(axis.start_bound())
}

/// Whether `v` lies on `axis`.  The coordinate may be of another type than
/// the bounds of the axis: the two are compared as integers.
pub fn axis_contains<R, T, U>(axis: &R, v: U) -> (r: bool) where R: Axis<T>, T: Step, U: Step
    ensures
        r == span(*axis).contains(v.value()),
{
    let above = match axis.start_bound() {
        Bound::Included(s) => !lt(v, s),
        Bound::Excluded(s) => lt(s, v),
        Bound::Unbounded => true,
    };
    let below = match axis.end_bound() {
        Bound::Included(e) => !lt(e, v),
        Bound::Excluded(e) => lt(v, e),
        Bound::Unbounded => true,
    };
    above && below
}

/// Whether `axis` has both a first and a last coordinate.
pub fn axis_is_bounded<R, T>(axis: &R) -> (r: bool) where R: Axis<T>, T: Step
    ensures
        r == span(*axis).bounded(),
{
    let start = match axis.start_bound() {
        Bound::Unbounded => false,
        _ => true,
    };
    let end = match axis.end_bound() {
        Bound::Unbounded => false,
        _ => true,
    };
    start && end
}

/// The number of coordinates on a bounded `axis`, or `None` when that
/// number does not fit a `usize`.
pub fn checked_axis_len<R, T>(axis: &R) -> (n: Option<usize>) where R: Axis<T>, T: Step
    requires
        span(*axis).bounded(),
    ensures
        n == fit(span(*axis).len()),
{
    let first = match axis.start_bound() {
        Bound::Included(s) => Some(s),
        Bound::Excluded(s) => s.forward(),
        Bound::Unbounded => None,
    };
    match first {
        Some(lo) => match axis.end_bound() {
            Bound::Included(e) => if lt(e, lo) {
                Some(0)
            } else {
                match steps_between(lo, e) {
                    Some(d) => d.checked_add(1),
                    None => None,
                }
            },
            Bound::Excluded(e) => steps_between(lo, e),
            Bound::Unbounded => None,
        },
        None => Some(0),
    }
}

/// Whether a bounded `axis` holds no coordinate at all.
pub fn axis_is_empty<R, T>(axis: &R) -> (r: bool) where R: Axis<T>, T: Step
    requires
        span(*axis).bounded(),
    ensures
        r == (span(*axis).len() == 0),
{
    match checked_axis_len(axis) {
        Some(n) => n == 0,
        None => false,
    }
}

/// The number of coordinates on a bounded `axis`.
pub fn axis_len<R, T>(axis: &R) -> (n: usize) where R: Axis<T>, T: Step
    requires
        span(*axis).bounded(),
        span(*axis).len() <= usize::MAX,
    ensures
        n == span(*axis).len(),
{
    checked_axis_len(axis).unwrap()
}

/// Whether two axes have the same bounds.
pub fn same_axis<R, T>(a: &R, b: &R) -> (r: bool) where R: Axis<T>, T: Step
    ensures
        r == (a.start_spec() == b.start_spec() && a.end_spec() == b.end_spec()),
{
    a.start_bound() == b.start_bound() && a.end_bound() == b.end_bound()
}

/// One default value of `R`.
pub fn default_axis<R: Default>() -> (r: R)
    ensures
        call_ensures(R::default, (), r),
{
    R::default()
}

/// `core::array::from_fn`, handed a closure that makes one default axis for
/// each index.  The array it returns holds, at every index, what one call of
/// that closure returned: a value that `R::default` may produce.
#[verifier::external_body]
pub(crate) fn default_axes<R: Default, const N: usize>() -> (a: [R; N])
    ensures
        forall|i: int| 0 <= i < N ==> call_ensures(R::default, (), #[trigger] a@[i]),
{
    core::array::from_fn(|_| default_axis::<R>())
}

/// Whether two arrays of axes have the same bounds, axis by axis.
pub fn same_axes<R, T, const N: usize>(a: &[R; N], b: &[R; N]) -> (r: bool) where
    R: Axis<T>,
    T: Step,

    ensures
        r == (shape(a@) == shape(b@)),
{
    let mut i: usize = 0;
    while i < N
        invariant
            i <= N,
            forall|j: int| 0 <= j < i ==> shape(a@)[j] == shape(b@)[j],
        decreases N - i,
    {
        if !same_axis(&a[i], &b[i]) {
            assert(shape(a@)[i as int] != shape(b@)[i as int]);
            return false;
        }
        i = i + 1;
    }
    assert(shape(a@) =~= shape(b@));
    true
}

} // verus!
