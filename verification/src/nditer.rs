//! The walk over an [`NdRange`].

use crate::axis::Axis;
use crate::ndrange::NdRange;
use crate::odometer::{advance, lemma_step_wf, Odometer};
use crate::region::{bounded, contains_point, inside, region_is_bounded, volume};
use crate::step::{values, Step};
use vstd::prelude::*;

verus! {

/// A cursor over the points of an [`NdRange`], axis 0 varying fastest.
pub enum NdIter<R, T, const N: usize> where R: Axis<T>, T: Step {
    /// `current` is the next point to hand out.
    Iterating { ndrange: NdRange<R, T, N>, current: [T; N] },
    /// Every point has been handed out.
    Done,
}

impl<R, T, const N: usize> View for NdIter<R, T, N> where R: Axis<T>, T: Step {
    type V = Odometer;

    open spec fn view(&self) -> Odometer {
        match self {
            NdIter::Iterating { ndrange, current } => Odometer::Iterating {
                axes: ndrange@,
                point: values(current@),
            },
            NdIter::Done => Odometer::Done,
        }
    }
}

impl<R, T, const N: usize> NdIter<R, T, N> where R: Axis<T>, T: Step {
    /// The next point lies inside the region, which is bounded and has at
    /// least one axis.
    pub open spec fn wf(&self) -> bool {
        self@.wf()
    }

    /// The region being walked is bounded and the number of its points fits
    /// a `usize`.
    pub open spec fn countable(&self) -> bool {
        self is Iterating ==> bounded(self->ndrange@) && volume(self->ndrange@) <= usize::MAX
    }

    /// The count that a walk under way reports: the volume of its region.
    pub open spec fn size(&self) -> nat {
        match self {
            NdIter::Iterating { ndrange, .. } => volume(ndrange@),
            NdIter::Done => 0,
        }
    }

    /// Whether the cursor is well-formed, for a caller that put it together
    /// by hand.
    pub fn is_wf(&self) -> (r: bool)
        ensures
            r == self.wf(),
    {
        match self {
            NdIter::Iterating { ndrange, current } => {
                N > 0 && region_is_bounded(ndrange.ranges()) && contains_point(
                    ndrange.ranges(),
                    current,
                )
            },
            NdIter::Done => true,
        }
    }

    /// Hands out the next point and moves on, or returns `None` once the
    /// walk is over.
    pub fn next(&mut self) -> (ret: Option<[T; N]>)
        requires
            old(self).wf(),
        ensures
            final(self).wf(),
            final(self)@ == old(self)@.step().0,
            old(self)@.step().1 == (match ret {
                Some(p) => Some(values(p@)),
                None => None,
            }),
            (match ret {
                Some(p) => *old(self) is Iterating && p == old(self)->current,
                None => *old(self) is Done,
            }),
            *final(self) is Iterating ==> final(self)->ndrange == old(self)->ndrange,
            ret matches Some(p) ==> inside(old(self)->ndrange@, values(p@)),
            *old(self) is Done ==> ret is None && *final(self) is Done,
    {
        proof {
            lemma_step_wf(self@);
        }
        match self {
            NdIter::Iterating { ndrange, current } => {
                let ret = *current;
                let more = advance(ndrange.ranges(), current);
                if !more {
                    *self = NdIter::Done;
                }
                Some(ret)
            },
            NdIter::Done => None,
        }
    }

    /// The number of points of the region being walked, as both the lower
    /// and the upper estimate; zero for both once the walk is over.
    pub fn size_hint(&self) -> (r: (usize, Option<usize>))
        requires
            self.countable(),
        ensures
            r.0 == self.size(),
            r.1 == Some(r.0),
    {
        match self {
            NdIter::Iterating { ndrange, .. } => {
                let size: usize = ndrange.len();
                (size, Some(size))
            },
            NdIter::Done => (0, Some(0)),
        }
    }

    /// The lower estimate of [`size_hint`](Self::size_hint).
    pub fn len(&self) -> (n: usize)
        requires
            self.countable(),
        ensures
            n == self.size(),
    {
        self.size_hint().0
    }
}

} // verus!
