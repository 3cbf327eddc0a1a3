//! The odometer: a cursor that walks the points of a region in order.
//!
//! [`Odometer`] is the mathematical state of an iteration, [`Odometer::step`]
//! one pull of it.  The laws proved here say that the walk visits every
//! point of the region exactly once, in the order of [`rank`], and that it
//! stays finished once it has finished.  [`advance`] is the carry
//! propagation that the executable iterators share.

use crate::axis::{axis_contains, get_bound_start, lemma_nonempty_resolvable, spans, Axis, Interval};
use crate::region::{
    bounded, corner, inside, is_empty, lemma_empty_iff_no_volume, lemma_inside_nonempty,
    lemma_point_at_rank, lemma_product_zero, lemma_rank_bounds, lemma_rank_carry,
    lemma_rank_corner, lemma_rank_origin, lemma_rank_point_at, origin, point_at, rank, volume,
};
use crate::step::{values, Step};
use vstd::prelude::*;

verus! {

/// The state of a walk over a region.
pub enum Odometer {
    /// The walk is under way; `point` is the next point to hand out.
    Iterating { axes: Seq<Interval>, point: Seq<int> },
    /// The walk is over.
    Done,
}

impl Odometer {
    /// A walk under way is over a bounded region with at least one axis, and
    /// its next point lies inside that region.
    pub open spec fn wf(self) -> bool {
        self matches Odometer::Iterating { axes, point } ==> {
            &&& axes.len() > 0
            &&& bounded(axes)
            &&& inside(axes, point)
        }
    }

    /// The state in which a walk over `axes` begins.
    pub open spec fn start(axes: Seq<Interval>) -> Odometer {
        if is_empty(axes) {
            Odometer::Done
        } else {
            Odometer::Iterating { axes, point: origin(axes) }
        }
    }

    /// One pull: the state that follows, and the point handed out.
    pub open spec fn step(self) -> (Odometer, Option<Seq<int>>) {
        match self {
            Odometer::Iterating { axes, point } => {
                let k = rank(axes, point) + 1;
                if k < volume(axes) {
                    (Odometer::Iterating { axes, point: point_at(axes, k) }, Some(point))
                } else {
                    (Odometer::Done, Some(point))
                }
            },
            Odometer::Done => (Odometer::Done, None),
        }
    }

    /// The state after `k` pulls.
    pub open spec fn after(self, k: nat) -> Odometer
        decreases k,
    {
        if k == 0 {
            self
        } else {
            self.after((k - 1) as nat).step().0
        }
    }

    /// The number of points still to be handed out.
    pub open spec fn remaining(self) -> nat {
        match self {
            Odometer::Iterating { axes, point } => (volume(axes) - rank(axes, point)) as nat,
            Odometer::Done => 0,
        }
    }

    /// What pull number `k` hands out, counting from zero.
    pub open spec fn yielded(self, k: nat) -> Option<Seq<int>> {
        self.after(k).step().1
    }
}

/// A walk over a bounded region begins in a well-formed state, with every
/// point of the region still to be handed out.
pub proof fn lemma_start_wf(axes: Seq<Interval>)
    requires
        bounded(axes),
    ensures
        Odometer::start(axes).wf(),
        Odometer::start(axes).remaining() == volume(axes),
{
    lemma_empty_iff_no_volume(axes);
    if !is_empty(axes) {
        lemma_rank_origin(axes);
    }
}

/// A pull keeps the state well-formed, and a point handed out lies inside
/// the region being walked.
pub proof fn lemma_step_wf(o: Odometer)
    requires
        o.wf(),
    ensures
        o.step().0.wf(),
        o.step().1 matches Some(p) ==> o is Iterating && inside(o->axes, p),
        o.step().1 is None <==> o is Done,
{
    if let Odometer::Iterating { axes, point } = o {
        let k = rank(axes, point) + 1;
        lemma_rank_bounds(axes, point);
        if k < volume(axes) {
            lemma_rank_point_at(axes, k);
        }
    }
}

/// Every pull of a walk under way leaves one point fewer to hand out, so a
/// walk comes to its end.
pub proof fn lemma_step_remaining(o: Odometer)
    requires
        o.wf(),
        o is Iterating,
    ensures
        o.remaining() > 0,
        o.step().0.remaining() == o.remaining() - 1,
{
    let axes = o->axes;
    let k = rank(axes, o->point) + 1;
    lemma_rank_bounds(axes, o->point);
    if k < volume(axes) {
        lemma_rank_point_at(axes, k);
    }
}

/// Once a walk is over it stays over: every later pull hands out nothing.
pub proof fn lemma_done_is_final(o: Odometer, k: nat)
    requires
        o is Done,
    ensures
        o.after(k) is Done,
        o.yielded(k) is None,
    decreases k,
{
    if k > 0 {
        lemma_done_is_final(o, (k - 1) as nat);
    }
}

/// Pulls are fused: after a pull that hands out nothing, every later pull
/// hands out nothing as well.
pub proof fn lemma_fused(o: Odometer, j: nat, k: nat)
    requires
        o.yielded(j) is None,
        j <= k,
    ensures
        o.yielded(k) is None,
    decreases k - j,
{
    if j < k {
        assert(o.after(j) is Done);
        assert(o.after(j + 1) == o.after(j).step().0);
        lemma_fused(o, j + 1, k);
    }
}

/// The walk over a bounded region hands out the points of the region in the
/// order of their numbers: pull `k` hands out `point_at(axes, k)` for every
/// `k` below the volume, and nothing from then on.
pub proof fn lemma_enumeration(axes: Seq<Interval>, k: nat)
    requires
        bounded(axes),
    ensures
        k < volume(axes) ==> Odometer::start(axes).after(k) == (Odometer::Iterating {
            axes,
            point: point_at(axes, k as int),
        }),
        k >= volume(axes) ==> Odometer::start(axes).after(k) is Done,
        Odometer::start(axes).yielded(k) == (if k < volume(axes) {
            Some(point_at(axes, k as int))
        } else {
            None
        }),
    decreases k,
{
    let s = Odometer::start(axes);
    lemma_empty_iff_no_volume(axes);
    if k == 0 {
        if !is_empty(axes) {
            lemma_rank_origin(axes);
            lemma_point_at_rank(axes, origin(axes));
        }
    } else {
        let j = (k - 1) as nat;
        lemma_enumeration(axes, j);
        if j < volume(axes) {
            lemma_rank_point_at(axes, j as int);
        }
    }
}

/// Every point inside a bounded region with at least one axis is handed out
/// by the walk, at the pull given by its number and at no other.
pub proof fn lemma_every_point_once(axes: Seq<Interval>, p: Seq<int>, k: nat)
    requires
        bounded(axes),
        axes.len() > 0,
        inside(axes, p),
    ensures
        0 <= rank(axes, p) < volume(axes),
        Odometer::start(axes).yielded(k) == Some(p) <==> k == rank(axes, p),
{
    lemma_rank_bounds(axes, p);
    lemma_point_at_rank(axes, p);
    lemma_enumeration(axes, k);
    if k < volume(axes) {
        lemma_rank_point_at(axes, k as int);
    }
}

/// A point with a coordinate off its axis is not inside the region.
pub proof fn lemma_outside(axes: Seq<Interval>, p: Seq<int>, i: int)
    requires
        0 <= i < axes.len(),
        !axes[i].contains(p[i]),
    ensures
        !inside(axes, p),
{
}

/// A bounded region with an empty axis has no points, and the walk over it
/// is over before it begins.
pub proof fn lemma_empty_axis(axes: Seq<Interval>, i: int)
    requires
        0 <= i < axes.len(),
        axes[i].len() == 0,
    ensures
        volume(axes) == 0,
        Odometer::start(axes) is Done,
{
    lemma_product_zero(axes);
}

/// A region without axes has no points, and the walk over it is over before
/// it begins.
pub proof fn lemma_no_axes(axes: Seq<Interval>)
    requires
        axes.len() == 0,
    ensures
        volume(axes) == 0,
        Odometer::start(axes) is Done,
{
}

/// Moves `current` to the next point of the region in enumeration order.
/// Returns `false`, with every coordinate back at the start of its axis,
/// when `current` was the last point.
pub fn advance<R, T, const N: usize>(axes: &[R; N], current: &mut [T; N]) -> (more: bool) where
    R: Axis<T>,
    T: Step,

    requires
        N > 0,
        bounded(spans(axes@)),
        inside(spans(axes@), values(old(current)@)),
    ensures
        more == (rank(spans(axes@), values(old(current)@)) + 1 < volume(spans(axes@))),
        more ==> values(final(current)@) == point_at(
            spans(axes@),
            rank(spans(axes@), values(old(current)@)) + 1,
        ),
        !more ==> values(final(current)@) == origin(spans(axes@)),
{
    let ghost all = spans(axes@);
    let ghost before = values(current@);
    let mut i: usize = 0;
    while i < N
        invariant
            N > 0,
            i <= N,
            all == spans(axes@),
            before == values(old(current)@),
            bounded(all),
            inside(all, before),
            forall|j: int| 0 <= j < i ==> before[j] == (#[trigger] all[j]).hi->0,
            forall|j: int| 0 <= j < i ==> (#[trigger] current@[j]).value() == all[j].lo->0,
            forall|j: int| i <= j < N ==> (#[trigger] current@[j]).value() == before[j],
        decreases N - i,
    {
        proof {
            assert(all[i as int].bounded());
            assert(all[i as int].contains(before[i as int]));
            lemma_nonempty_resolvable(axes@[i as int]);
        }
        let moved = match current[i].forward() {
            Some(next) => if axis_contains(&axes[i], next) {
                current[i] = next;
                true
            } else {
                false
            },
            None => false,
        };
        if moved {
            proof {
                let after = values(current@);
                lemma_rank_carry(all, before, after, i as int);
                lemma_rank_bounds(all, after);
                lemma_point_at_rank(all, after);
            }
            return true;
        }
        current[i] = get_bound_start(&axes[i]);
        i = i + 1;
    }
    proof {
        lemma_inside_nonempty(all, before);
        assert(before =~= corner(all));
        lemma_rank_corner(all);
        assert(values(current@) =~= origin(all));
    }
    false
}

} // verus!
