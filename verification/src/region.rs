//! The mathematics of a rectangular region of integer points.
//!
//! A region is a sequence of [`Interval`]s, one per axis; a point is a
//! sequence of integers of the same length.  The points of a bounded region
//! are numbered in mixed-radix order with axis 0 as the fastest digit:
//! [`rank`] gives the number of a point and [`point_at`] the point of a
//! number, and the two are inverse to each other.

use crate::axis::{
    axis_contains, axis_is_bounded, axis_is_empty, checked_axis_len, fit, get_bound_start,
    lemma_nonempty_resolvable, spans, Axis, Interval,
};
use crate::step::{values, Step};
use vstd::prelude::*;

verus! {

/// Every axis has both a first and a last coordinate.
pub open spec fn bounded(axes: Seq<Interval>) -> bool {
    forall|i: int| 0 <= i < axes.len() ==> (#[trigger] axes[i]).bounded()
}

/// The product of the axis cardinalities; `1` for no axes.
pub open spec fn product(axes: Seq<Interval>) -> nat
    decreases axes.len(),
{
    if axes.len() == 0 {
        1
    } else {
        product(axes.drop_last()) * axes.last().len()
    }
}

/// The number of points of a region.  A region without axes has no points.
pub open spec fn volume(axes: Seq<Interval>) -> nat {
    if axes.len() == 0 {
        0
    } else {
        product(axes)
    }
}

/// A region is empty when it has no axes or when one of its axes is empty.
pub open spec fn is_empty(axes: Seq<Interval>) -> bool {
    axes.len() == 0 || exists|i: int| 0 <= i < axes.len() && (#[trigger] axes[i]).len() == 0
}

/// Every coordinate of `p` lies on its axis.
pub open spec fn inside(axes: Seq<Interval>, p: Seq<int>) -> bool {
    &&& p.len() == axes.len()
    &&& forall|i: int|
        #![trigger axes[i]]
        #![trigger p[i]]
        0 <= i < axes.len() ==> axes[i].contains(p[i])
}

/// The point made of the first coordinate of every axis.
pub open spec fn origin(axes: Seq<Interval>) -> Seq<int> {
    Seq::new(axes.len(), |i: int| axes[i].lo->0)
}

/// The point made of the last coordinate of every axis.
pub open spec fn corner(axes: Seq<Interval>) -> Seq<int> {
    Seq::new(axes.len(), |i: int| axes[i].hi->0)
}

/// The number of a point in enumeration order: its offsets from the origin
/// read as a mixed-radix numeral whose least significant digit is axis 0.
pub open spec fn rank(axes: Seq<Interval>, p: Seq<int>) -> int
    decreases axes.len(),
{
    if axes.len() == 0 {
        0
    } else {
        rank(axes.drop_last(), p.drop_last()) + (p.last() - axes.last().lo->0) * product(
            axes.drop_last(),
        )
    }
}

/// The point whose number is `k`.
pub open spec fn point_at(axes: Seq<Interval>, k: int) -> Seq<int>
    decreases axes.len(),
{
    if axes.len() == 0 {
        Seq::empty()
    } else {
        let below = product(axes.drop_last()) as int;
        point_at(axes.drop_last(), k % below).push(axes.last().lo->0 + k / below)
    }
}

/// Dropping the last axis and the last coordinate keeps a point inside.
pub proof fn lemma_inside_drop_last(axes: Seq<Interval>, p: Seq<int>)
    requires
        axes.len() > 0,
        inside(axes, p),
    ensures
        inside(axes.drop_last(), p.drop_last()),
        axes.last().contains(p.last()),
{
    let a = axes.drop_last();
    let q = p.drop_last();
    assert forall|i: int| 0 <= i < a.len() implies (#[trigger] a[i]).contains(q[i]) by {
        assert(a[i] == axes[i]);
        assert(q[i] == p[i]);
    }
    assert(axes[axes.len() - 1].contains(p[axes.len() - 1]));
}

/// A region is empty exactly when it has no points.
pub proof fn lemma_empty_iff_no_volume(axes: Seq<Interval>)
    ensures
        is_empty(axes) <==> volume(axes) == 0,
{
    if axes.len() > 0 {
        lemma_product_zero(axes);
    }
}

/// The product of the cardinalities is zero exactly when one of them is.
pub proof fn lemma_product_zero(axes: Seq<Interval>)
    ensures
        product(axes) == 0 <==> exists|i: int|
            0 <= i < axes.len() && (#[trigger] axes[i]).len() == 0,
    decreases axes.len(),
{
    if axes.len() > 0 {
        let a = axes.drop_last();
        let n = axes.last().len();
        lemma_product_zero(a);
        assert(product(a) * n == 0 <==> product(a) == 0 || n == 0) by (nonlinear_arith);
        if product(axes) == 0 {
            if n == 0 {
                assert(axes[axes.len() - 1].len() == 0);
            } else {
                let i = choose|i: int| 0 <= i < a.len() && (#[trigger] a[i]).len() == 0;
                assert(axes[i].len() == 0);
            }
        }
        if exists|i: int| 0 <= i < axes.len() && (#[trigger] axes[i]).len() == 0 {
            let i = choose|i: int| 0 <= i < axes.len() && (#[trigger] axes[i]).len() == 0;
            if i < a.len() {
                assert(a[i].len() == 0);
            }
        }
    }
}

/// The product over the first `i` axes never exceeds the product over the
/// first `j >= i` axes when none of the axes in between is empty.
pub proof fn lemma_product_prefix(axes: Seq<Interval>, i: int, j: int)
    requires
        0 <= i <= j <= axes.len(),
        forall|k: int| i <= k < j ==> (#[trigger] axes[k]).len() > 0,
    ensures
        product(axes.take(i)) <= product(axes.take(j)),
    decreases j - i,
{
    if i < j {
        lemma_product_prefix(axes, i, j - 1);
        lemma_product_take(axes, j - 1);
        let below = product(axes.take(j - 1));
        let n = axes[j - 1].len();
        assert(below <= below * n) by (nonlinear_arith)
            requires
                n > 0,
        ;
    }
}

/// Extending a prefix by one axis multiplies the product by its cardinality.
pub proof fn lemma_product_take(axes: Seq<Interval>, i: int)
    requires
        0 <= i < axes.len(),
    ensures
        product(axes.take(i + 1)) == product(axes.take(i)) * axes[i].len(),
{
    assert(axes.take(i + 1).drop_last() =~= axes.take(i));
    assert(axes.take(i + 1).last() == axes[i]);
}

/// The number of a point inside a bounded region is below the product of
/// the cardinalities.
pub proof fn lemma_rank_bounds(axes: Seq<Interval>, p: Seq<int>)
    requires
        bounded(axes),
        inside(axes, p),
    ensures
        0 <= rank(axes, p) < product(axes),
    decreases axes.len(),
{
    if axes.len() > 0 {
        let a = axes.drop_last();
        let q = p.drop_last();
        lemma_inside_drop_last(axes, p);
        lemma_rank_bounds(a, q);
        let below = product(a) as int;
        let n = axes.last().len() as int;
        let d = p.last() - axes.last().lo->0;
        assert(axes[axes.len() - 1].bounded());
        assert(0 <= d < n);
        assert(0 <= d * below && d * below + below <= below * n) by (nonlinear_arith)
            requires
                0 <= d < n,
                0 < below,
        ;
    }
}

/// The origin of a region without empty axes is inside it and has number 0.
pub proof fn lemma_rank_origin(axes: Seq<Interval>)
    requires
        bounded(axes),
        forall|i: int| 0 <= i < axes.len() ==> (#[trigger] axes[i]).len() > 0,
    ensures
        inside(axes, origin(axes)),
        rank(axes, origin(axes)) == 0,
    decreases axes.len(),
{
    if axes.len() > 0 {
        let a = axes.drop_last();
        assert(origin(axes).drop_last() =~= origin(a));
        assert forall|i: int| 0 <= i < a.len() implies (#[trigger] a[i]).len() > 0 by {
            assert(a[i] == axes[i]);
        }
        lemma_rank_origin(a);
        assert(origin(axes).last() == axes.last().lo->0);
    }
    assert forall|i: int| 0 <= i < axes.len() implies (#[trigger] axes[i]).contains(
        origin(axes)[i],
    ) by {
        assert(axes[i].bounded());
        assert(axes[i].len() > 0);
    }
}

/// The far corner of a region without empty axes is inside it and is the
/// last point in enumeration order.
pub proof fn lemma_rank_corner(axes: Seq<Interval>)
    requires
        bounded(axes),
        forall|i: int| 0 <= i < axes.len() ==> (#[trigger] axes[i]).len() > 0,
    ensures
        inside(axes, corner(axes)),
        rank(axes, corner(axes)) == product(axes) - 1,
    decreases axes.len(),
{
    if axes.len() > 0 {
        let a = axes.drop_last();
        assert(corner(axes).drop_last() =~= corner(a));
        assert forall|i: int| 0 <= i < a.len() implies (#[trigger] a[i]).len() > 0 by {
            assert(a[i] == axes[i]);
        }
        lemma_rank_corner(a);
        let below = product(a) as int;
        let n = axes.last().len() as int;
        assert(axes[axes.len() - 1].bounded());
        assert(axes[axes.len() - 1].len() > 0);
        assert(corner(axes).last() == axes.last().hi->0);
        assert((n - 1) * below == below * n - below) by (nonlinear_arith);
    }
    assert forall|i: int| 0 <= i < axes.len() implies (#[trigger] axes[i]).contains(
        corner(axes)[i],
    ) by {
        assert(axes[i].bounded());
        assert(axes[i].len() > 0);
    }
}

/// A region that holds a point has no empty axis.
pub proof fn lemma_inside_nonempty(axes: Seq<Interval>, p: Seq<int>)
    requires
        bounded(axes),
        inside(axes, p),
    ensures
        forall|i: int| 0 <= i < axes.len() ==> (#[trigger] axes[i]).len() > 0,
{
    assert forall|i: int| 0 <= i < axes.len() implies (#[trigger] axes[i]).len() > 0 by {
        assert(axes[i].contains(p[i]));
        assert(axes[i].bounded());
    }
}

/// Carrying: when the first `i` coordinates of `p` sit at the end of their
/// axes and coordinate `i` does not, the point `q` that resets those first
/// coordinates and advances coordinate `i` by one is the next point.
pub proof fn lemma_rank_carry(axes: Seq<Interval>, p: Seq<int>, q: Seq<int>, i: int)
    requires
        bounded(axes),
        inside(axes, p),
        0 <= i < axes.len(),
        q.len() == p.len(),
        forall|j: int| 0 <= j < i ==> p[j] == (#[trigger] axes[j]).hi->0,
        forall|j: int| 0 <= j < i ==> q[j] == (#[trigger] axes[j]).lo->0,
        q[i] == p[i] + 1,
        q[i] <= axes[i].hi->0,
        forall|j: int| i < j < axes.len() ==> #[trigger] q[j] == p[j],
    ensures
        inside(axes, q),
        rank(axes, q) == rank(axes, p) + 1,
    decreases axes.len(),
{
    let a = axes.drop_last();
    let pa = p.drop_last();
    let qa = q.drop_last();
    let last = axes.len() - 1;
    lemma_inside_drop_last(axes, p);
    assert forall|j: int| 0 <= j < axes.len() implies (#[trigger] axes[j]).contains(q[j]) by {
        assert(axes[j].contains(p[j]));
        assert(axes[j].bounded());
        if j > i {
            assert(q[j] == p[j]);
        }
    }
    if i == last {
        lemma_inside_nonempty(a, pa);
        assert(pa =~= corner(a)) by {
            assert forall|j: int| 0 <= j < a.len() implies pa[j] == corner(a)[j] by {
                assert(a[j] == axes[j]);
            }
        }
        lemma_rank_corner(a);
        assert(qa =~= origin(a)) by {
            assert forall|j: int| 0 <= j < a.len() implies qa[j] == origin(a)[j] by {
                assert(a[j] == axes[j]);
            }
        }
        lemma_rank_origin(a);
        let below = product(a) as int;
        let d = p.last() - axes.last().lo->0;
        assert((d + 1) * below == d * below + below) by (nonlinear_arith);
    } else {
        assert forall|j: int| 0 <= j < i implies pa[j] == (#[trigger] a[j]).hi->0 by {
            assert(a[j] == axes[j]);
        }
        assert forall|j: int| 0 <= j < i implies qa[j] == (#[trigger] a[j]).lo->0 by {
            assert(a[j] == axes[j]);
        }
        assert forall|j: int| i < j < a.len() implies #[trigger] qa[j] == pa[j] by {
            assert(q[j] == p[j]);
        }
        assert(a[i] == axes[i]);
        lemma_rank_carry(a, pa, qa, i);
        assert(q[last] == p[last]);
    }
}

/// Numbering is one-to-one: the point at the number of `p` is `p` itself.
pub proof fn lemma_point_at_rank(axes: Seq<Interval>, p: Seq<int>)
    requires
        bounded(axes),
        inside(axes, p),
    ensures
        point_at(axes, rank(axes, p)) == p,
    decreases axes.len(),
{
    if axes.len() == 0 {
        assert(p =~= Seq::<int>::empty());
    } else {
        let a = axes.drop_last();
        let q = p.drop_last();
        lemma_inside_drop_last(axes, p);
        lemma_rank_bounds(a, q);
        lemma_point_at_rank(a, q);
        let below = product(a) as int;
        let d = p.last() - axes.last().lo->0;
        let r = rank(a, q);
        assert(rank(axes, p) == d * below + r);
        vstd::arithmetic::div_mod::lemma_fundamental_div_mod_converse(rank(axes, p), below, d, r);
        assert(point_at(axes, rank(axes, p)) =~= q.push(p.last()));
        assert(q.push(p.last()) =~= p);
    }
}

/// Numbering is onto: every number below the product names a point inside
/// the region, and that point has this number.
pub proof fn lemma_rank_point_at(axes: Seq<Interval>, k: int)
    requires
        bounded(axes),
        0 <= k < product(axes),
    ensures
        inside(axes, point_at(axes, k)),
        rank(axes, point_at(axes, k)) == k,
    decreases axes.len(),
{
    if axes.len() > 0 {
        let a = axes.drop_last();
        let last = axes.len() - 1;
        let below = product(a) as int;
        let n = axes.last().len() as int;
        assert(below > 0 && n > 0) by (nonlinear_arith)
            requires
                below * n > 0,
                below >= 0,
                n >= 0,
        ;
        let p = point_at(axes, k);
        let q = point_at(a, k % below);
        assert(p == q.push(axes.last().lo->0 + k / below));
        assert(p.drop_last() =~= q);
        vstd::arithmetic::div_mod::lemma_fundamental_div_mod(k, below);
        vstd::arithmetic::div_mod::lemma_mod_bound(k, below);
        lemma_rank_point_at(a, k % below);
        let d = k / below;
        assert(0 <= d < n) by (nonlinear_arith)
            requires
                0 <= k < below * n,
                k == below * d + k % below,
                0 <= k % below < below,
        ;
        assert(axes[last].bounded());
        assert forall|i: int| 0 <= i < axes.len() implies (#[trigger] axes[i]).contains(p[i]) by {
            if i < last {
                assert(a[i] == axes[i]);
                assert(a[i].contains(q[i]));
                assert(p[i] == q[i]);
            }
        }
        assert(d * below == below * d) by (nonlinear_arith);
    }
}

/// Whether every coordinate of `point` lies on its axis.  The coordinates
/// may be of another type than the bounds of the axes.
pub fn contains_point<R, T, U, const N: usize>(axes: &[R; N], point: &[U; N]) -> (r: bool) where
    R: Axis<T>,
    T: Step,
    U: Step,

    ensures
        r == inside(spans(axes@), values(point@)),
{
    let mut i: usize = 0;
    while i < N
        invariant
            i <= N,
            forall|j: int| 0 <= j < i ==> (#[trigger] spans(axes@)[j]).contains(values(point@)[j]),
        decreases N - i,
    {
        if !axis_contains(&axes[i], point[i]) {
            assert(!spans(axes@)[i as int].contains(values(point@)[i as int]));
            return false;
        }
        i = i + 1;
    }
    true
}

/// Whether a bounded region has no points: it has no axes, or one of its
/// axes is empty.
pub fn region_is_empty<R, T, const N: usize>(axes: &[R; N]) -> (r: bool) where
    R: Axis<T>,
    T: Step,

    requires
        bounded(spans(axes@)),
    ensures
        r == is_empty(spans(axes@)),
{
    let mut i: usize = 0;
    while i < N
        invariant
            i <= N,
            bounded(spans(axes@)),
            forall|j: int| 0 <= j < i ==> (#[trigger] spans(axes@)[j]).len() > 0,
        decreases N - i,
    {
        assert(spans(axes@)[i as int].bounded());
        if axis_is_empty(&axes[i]) {
            assert(spans(axes@)[i as int].len() == 0);
            return true;
        }
        i = i + 1;
    }
    N == 0
}

/// Whether every axis of the region has both a first and a last coordinate.
pub fn region_is_bounded<R, T, const N: usize>(axes: &[R; N]) -> (r: bool) where
    R: Axis<T>,
    T: Step,

    ensures
        r == bounded(spans(axes@)),
{
    let mut i: usize = 0;
    while i < N
        invariant
            i <= N,
            forall|j: int| 0 <= j < i ==> (#[trigger] spans(axes@)[j]).bounded(),
        decreases N - i,
    {
        if !axis_is_bounded(&axes[i]) {
            assert(!spans(axes@)[i as int].bounded());
            return false;
        }
        i = i + 1;
    }
    true
}

/// The number of points of a bounded region, or `None` when that number
/// does not fit a `usize`.
pub fn checked_count_points<R, T, const N: usize>(axes: &[R; N]) -> (n: Option<usize>) where
    R: Axis<T>,
    T: Step,

    requires
        bounded(spans(axes@)),
    ensures
        n == fit(volume(spans(axes@))),
{
    let ghost all = spans(axes@);
    if region_is_empty(axes) {
        proof {
            lemma_empty_iff_no_volume(all);
        }
        return Some(0);
    }
    let mut size: usize = 1;
    let mut i: usize = 0;
    while i < N
        invariant
            i <= N,
            all == spans(axes@),
            bounded(all),
            !is_empty(all),
            size == product(all.take(i as int)),
        decreases N - i,
    {
        let ghost here = all[i as int].len();
        proof {
            assert(all[i as int].bounded());
            assert forall|k: int| 0 <= k < all.len() implies (#[trigger] all[k]).len() > 0 by {}
            lemma_product_prefix(all, 0, i as int);
            lemma_product_prefix(all, i + 1, N as int);
            lemma_product_take(all, i as int);
            assert(all.take(N as int) =~= all);
            assert(here <= size * here) by (nonlinear_arith)
                requires
                    size >= 1,
            ;
        }
        let next = match checked_axis_len(&axes[i]) {
            Some(n) => size.checked_mul(n),
            None => None,
        };
        match next {
            Some(m) => {
                size = m;
            },
            None => {
                return None;
            },
        }
        i = i + 1;
    }
    assert(all.take(N as int) =~= all);
    Some(size)
}

/// The number of points of a bounded region.
pub fn count_points<R, T, const N: usize>(axes: &[R; N]) -> (n: usize) where
    R: Axis<T>,
    T: Step,

    requires
        bounded(spans(axes@)),
        volume(spans(axes@)) <= usize::MAX,
    ensures
        n == volume(spans(axes@)),
{
    checked_count_points(axes).unwrap()
}

/// Every axis of a bounded region that is not empty has a first coordinate.
pub proof fn lemma_starts_resolvable<R, T>(axes: Seq<R>) where R: Axis<T>, T: Step
    requires
        bounded(spans(axes)),
        !is_empty(spans(axes)),
    ensures
        axes.len() > 0,
        forall|i: int| 0 <= i < axes.len() ==> (#[trigger] axes[i]).start_spec().resolvable(),
{
    assert forall|i: int| 0 <= i < axes.len() implies (#[trigger] axes[i]).start_spec().resolvable(
    ) by {
        assert(spans(axes)[i].bounded() && spans(axes)[i].len() > 0);
        lemma_nonempty_resolvable(axes[i]);
    }
}

/// The point made of the first coordinate of every axis.
pub fn first_point<R, T, const N: usize>(axes: &[R; N]) -> (p: [T; N]) where
    R: Axis<T>,
    T: Step,

    requires
        N > 0,
        forall|i: int| 0 <= i < N ==> (#[trigger] axes@[i]).start_spec().resolvable(),
    ensures
        values(p@) == origin(spans(axes@)),
{
    let mut p = [get_bound_start(&axes[0]); N];
    let mut i: usize = 1;
    while i < N
        invariant
            1 <= i <= N,
            forall|j: int| 0 <= j < N ==> (#[trigger] axes@[j]).start_spec().resolvable(),
            forall|j: int| 0 <= j < i ==> Some((#[trigger] p@[j]).value()) == spans(axes@)[j].lo,
        decreases N - i,
    {
        p[i] = get_bound_start(&axes[i]);
        i = i + 1;
    }
    assert(values(p@) =~= origin(spans(axes@)));
    p
}

} // verus!
