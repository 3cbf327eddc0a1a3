//! `NdRange`: an N-dimensional region that keeps its axes to itself.

use crate::axis::{
    default_axes, lemma_shape_axiswise, lemma_shape_order_sensitive, same_axes, shape, spans, Axis,
    Interval,
};
use crate::nditer::NdIter;
use crate::odometer::{lemma_start_wf, Odometer};
use crate::region::{
    bounded, contains_point, count_points, first_point, inside, is_empty,
    lemma_empty_iff_no_volume, lemma_starts_resolvable, region_is_empty, volume,
};
use crate::step::{values, Step};
use core::marker::PhantomData;
use vstd::prelude::*;
use vstd::std_specs::cmp::{PartialEqSpec, PartialEqSpecImpl};

verus! {

/// The Cartesian product of `N` axes of type `R` over coordinates of type
/// `Idx`, fixed once it is made.  Axis 0 is the one that varies fastest when
/// the region is walked.
#[derive(Debug, Eq, Hash)]
pub struct NdRange<R, Idx, const N: usize> where R: Axis<Idx>, Idx: Step {
    pub(crate) ranges: [R; N],
    pub(crate) _phantom: PhantomData<Idx>,
}

impl<R, Idx, const N: usize> View for NdRange<R, Idx, N> where R: Axis<Idx>, Idx: Step {
    type V = Seq<Interval>;

    /// The intervals of integers covered by the axes, in axis order.
    open spec fn view(&self) -> Seq<Interval> {
        spans(self.axes())
    }
}

impl<R, Idx, const N: usize> NdRange<R, Idx, N> where R: Axis<Idx>, Idx: Step {
    /// The axes the region was made of, in order.
    pub closed spec fn axes(&self) -> Seq<R> {
        self.ranges@
    }

    /// A region has exactly `N` axes.
    pub proof fn lemma_axes_len(&self)
        ensures
            self.axes().len() == N,
    {
    }

    /// Makes a region of the given axes, taken as they are.
    pub fn new(ranges: [R; N]) -> (r: Self)
        ensures
            r.axes() == ranges@,
    {
        Self { ranges, _phantom: PhantomData }
    }

    /// The axes of the region, in order.
    pub fn ranges(&self) -> (r: &[R; N])
        ensures
            r@ == self.axes(),
    {
        &self.ranges
    }

    /// Whether every coordinate of `other` lies on its axis.  The
    /// coordinates of `other` may be of another type than the bounds of the
    /// axes: the two are compared as integers.
    pub fn contains<U: Step>(&self, other: &[U; N]) -> (r: bool)
        ensures
            r == inside(self@, values(other@)),
    {
        contains_point(&self.ranges, other)
    }

    /// Whether the region has no points: it has no axes, or one of its axes
    /// is empty.
    pub fn is_empty(&self) -> (r: bool)
        requires
            bounded(self@),
        ensures
            r == is_empty(self@),
            r == (volume(self@) == 0),
    {
        proof {
            lemma_empty_iff_no_volume(self@);
        }
        region_is_empty(&self.ranges)
    }

    /// The number of points of the region: the product of the cardinalities
    /// of its axes, and zero for a region without axes.
    pub fn len(&self) -> (n: usize)
        requires
            bounded(self@),
            volume(self@) <= usize::MAX,
        ensures
            n == volume(self@),
            is_empty(self@) ==> n == 0,
    {
        proof {
            lemma_empty_iff_no_volume(self@);
        }
        count_points(&self.ranges)
    }

    /// Starts a walk over the points of the region.
    pub fn into_iter(self) -> (it: NdIter<R, Idx, N>)
        requires
            bounded(self@),
        ensures
            it.wf(),
            it@ == Odometer::start(self@),
            it is Done <==> is_empty(self@),
            it is Iterating ==> it->ndrange == self,
    {
        if region_is_empty(&self.ranges) {
            NdIter::Done
        } else {
            proof {
                lemma_starts_resolvable(self.ranges@);
                lemma_start_wf(self@);
            }
            let current = first_point(&self.ranges);
            NdIter::Iterating { ndrange: self, current }
        }
    }
}

impl<R, Idx, const N: usize> Default for NdRange<R, Idx, N> where R: Axis<Idx> + Default, Idx: Step {
    /// The region whose every axis is the default axis.
    fn default() -> (r: Self)
        ensures
            forall|i: int| 0 <= i < N ==> call_ensures(R::default, (), #[trigger] r.axes()[i]),
    {
        Self { ranges: default_axes(), _phantom: PhantomData }
    }
}

impl<R, Idx, const N: usize> Clone for NdRange<R, Idx, N> where R: Axis<Idx> + Clone, Idx: Step {
    /// Clones the region axis by axis.
    fn clone(&self) -> (r: Self)
        ensures
            forall|i: int| 0 <= i < N ==> cloned(self.axes()[i], #[trigger] r.axes()[i]),
    {
        Self { ranges: self.ranges.clone(), _phantom: PhantomData }
    }
}

impl<R, Idx, const N: usize> PartialEq for NdRange<R, Idx, N> where R: Axis<Idx>, Idx: Step {
    /// Two regions are equal when their axes have the same bounds, position
    /// by position.
    fn eq(&self, other: &Self) -> (r: bool) {
        same_axes(&self.ranges, &other.ranges)
    }
}

impl<R, Idx, const N: usize> PartialEqSpecImpl for NdRange<R, Idx, N> where R: Axis<Idx>, Idx: Step {
    open spec fn obeys_eq_spec() -> bool {
        true
    }

    open spec fn eq_spec(&self, other: &Self) -> bool {
        shape(self.axes()) == shape(other.axes())
    }
}

/// Equality is decided axis by axis: two regions are equal exactly when, at
/// every position, their axes have the same start and the same end.
pub proof fn lemma_eq_axiswise<R, Idx, const N: usize>(
    x: NdRange<R, Idx, N>,
    y: NdRange<R, Idx, N>,
) where R: Axis<Idx>, Idx: Step
    ensures
        PartialEqSpec::eq_spec(&x, &y) <==> forall|i: int|
            0 <= i < N ==> (#[trigger] x.axes()[i]).start_spec() == y.axes()[i].start_spec()
                && x.axes()[i].end_spec() == y.axes()[i].end_spec(),
{
    lemma_shape_axiswise(x.axes(), y.axes());
}

/// Regions made of the same axes are equal.
pub proof fn lemma_eq_same_axes<R, Idx, const N: usize>(
    x: NdRange<R, Idx, N>,
    y: NdRange<R, Idx, N>,
) where R: Axis<Idx>, Idx: Step
    requires
        x.axes() == y.axes(),
    ensures
        PartialEqSpec::eq_spec(&x, &y),
{
}

/// The order of the axes matters: two regions that differ by the exchange of
/// two axes are unequal as soon as those two axes have different bounds.
pub proof fn lemma_eq_order_sensitive<R, Idx, const N: usize>(
    x: NdRange<R, Idx, N>,
    y: NdRange<R, Idx, N>,
    i: int,
    j: int,
) where R: Axis<Idx>, Idx: Step
    requires
        0 <= i < N,
        0 <= j < N,
        x.axes()[i] == y.axes()[j],
        x.axes()[j] == y.axes()[i],
        shape(x.axes())[i] != shape(x.axes())[j],
    ensures
        !PartialEqSpec::eq_spec(&x, &y),
{
    lemma_shape_order_sensitive(x.axes(), y.axes(), i, j);
}

} // verus!
