use nrange::axis::Bound;
use nrange::iter::NRangeIter;
use nrange::range::NRange;
use std::marker::PhantomData;
use std::ops::Range;

#[test]
fn eq() {
    let arr = [
        NRange::new([1..3, 1..3]),
        {
            let arr: [_; 2] = std::array::from_fn(|_| 1..3);
            NRange::new(arr)
        },
        NRange::new([1..3, 1..3]),
    ];

    for a in &arr {
        for b in &arr {
            assert_eq!(a, b);
        }
    }
}

#[test]
fn order() {
    let mut nd = NRange::new([0..2, 0..2]).into_iter();
    assert_eq!(nd.next(), Some([0, 0]));
    assert_eq!(nd.next(), Some([1, 0]));
    assert_eq!(nd.next(), Some([0, 1]));
}

#[test]
fn emptiness() {
    let nd = NRange::new([0..100, 0..99999, 0..0]).into_iter();
    assert_eq!(nd.len(), 0);
}

#[test]
fn length() {
    let nd = NRange::new([0..100, 0..100, 0..33]).into_iter();
    assert_eq!(nd.len(), 100 * 100 * 33);
}

#[test]
fn eq_direct_field_construction() {
    let built = NRange::new([1..3, 1..3]);
    let direct = NRange { bounds: [1..3, 1..3], _phantom: PhantomData::<i32> };
    assert_eq!(built, direct);
    assert_eq!(direct, built);
}

#[test]
fn eq_is_order_sensitive() {
    let a = NRange::new([1..3, 2..5]);
    let b = NRange::new([2..5, 1..3]);
    assert_ne!(a, b);
    assert_ne!(b, a);
    assert_eq!(a, NRange::new([1..3, 2..5]));
}

#[test]
fn eq_tells_empty_axes_apart() {
    let a = NRange::new([3..3, 0..2]);
    let b = NRange::new([4..4, 0..2]);
    assert_ne!(a, b);
}

#[test]
fn eq_compares_bound_kinds() {
    let a = NRange::new([(Bound::Included(1u8), Bound::Excluded(3u8))]);
    let b = NRange::new([(Bound::Included(1u8), Bound::Included(2u8))]);
    let c = NRange::new([(Bound::Included(1u8), Bound::Excluded(3u8))]);
    assert_ne!(a, b);
    assert_eq!(a, c);
    let open_start = NRange::new([(Bound::Unbounded, Bound::Excluded(3u8))]);
    let open_end = NRange::new([(Bound::Included(1u8), Bound::Unbounded)]);
    assert_ne!(open_start, open_end);
    assert_eq!(open_start, NRange::new([(Bound::Unbounded, Bound::Excluded(3u8))]));
}

#[test]
fn order_runs_to_the_end() {
    let mut nd = NRange::new([0..2, 0..2]).into_iter();
    assert_eq!(nd.next(), Some([0, 0]));
    assert_eq!(nd.next(), Some([1, 0]));
    assert_eq!(nd.next(), Some([0, 1]));
    assert_eq!(nd.next(), Some([1, 1]));
    assert_eq!(nd.next(), None);
    assert!(matches!(nd, NRangeIter::Done));
}

#[test]
fn order_with_offsets_and_unequal_axes() {
    let mut nd = NRange::new([1..4, -1..1]).into_iter();
    let mut seen = Vec::new();
    while let Some(p) = nd.next() {
        seen.push(p);
    }
    assert_eq!(seen, vec![[1, -1], [2, -1], [3, -1], [1, 0], [2, 0], [3, 0]]);
}

#[test]
fn three_axes_carry_twice() {
    let mut nd = NRange::new([0u8..2, 5..6, 7..9]).into_iter();
    assert_eq!(nd.next(), Some([0, 5, 7]));
    assert_eq!(nd.next(), Some([1, 5, 7]));
    assert_eq!(nd.next(), Some([0, 5, 8]));
    assert_eq!(nd.next(), Some([1, 5, 8]));
    assert_eq!(nd.next(), None);
}

#[test]
fn single_axis_walk() {
    let mut nd = NRange::new([3usize..6]).into_iter();
    assert_eq!(nd.next(), Some([3]));
    assert_eq!(nd.next(), Some([4]));
    assert_eq!(nd.next(), Some([5]));
    assert_eq!(nd.next(), None);
}

#[test]
fn empty_axis_yields_nothing() {
    let range = NRange::new([0..100, 0..99999, 0..0]);
    assert_eq!(range.len(), 0);
    let mut nd = range.into_iter();
    assert!(matches!(nd, NRangeIter::Done));
    assert_eq!(nd.next(), None);
}

#[test]
fn empty_axis_in_front_yields_nothing() {
    let range = NRange::new([5..5, 0..3]);
    assert_eq!(range.len(), 0);
    let mut nd = range.into_iter();
    assert_eq!(nd.next(), None);
}

#[test]
fn reversed_axis_is_empty() {
    let range = NRange::new([0..3, 5..2]);
    assert_eq!(range.len(), 0);
    let mut nd = range.into_iter();
    assert_eq!(nd.next(), None);
    assert_eq!(nd.len(), 0);
}

#[test]
fn length_is_the_count_of_yielded_points() {
    let range = NRange::new([0..100, 0..100, 0..33]);
    assert_eq!(range.len(), 100 * 100 * 33);
    let mut nd = range.into_iter();
    let mut count: usize = 0;
    while let Some(_) = nd.next() {
        count += 1;
    }
    assert_eq!(count, 100 * 100 * 33);
    assert_eq!(nd.next(), None);
}

#[test]
fn length_multiplies_unequal_axes() {
    assert_eq!(NRange::new([0..3, 10..14, -2..3]).len(), 3 * 4 * 5);
    assert_eq!(NRange::new([7..8]).len(), 1);
    assert_eq!(NRange::new([0usize..3, 0..3]).len(), 9);
}

#[test]
fn zero_dimensions_yield_nothing() {
    let axes: [Range<i32>; 0] = [];
    let range = NRange::new(axes);
    assert_eq!(range.len(), 0);
    let mut nd = range.into_iter();
    assert!(matches!(nd, NRangeIter::Done));
    assert_eq!(nd.len(), 0);
    assert_eq!(nd.next(), None);
}

#[test]
fn zero_dimensions_pass_every_check_of_contains() {
    let axes: [Range<i32>; 0] = [];
    let range = NRange::new(axes);
    let point: [i32; 0] = [];
    assert!(range.contains(&point));
}

#[test]
fn done_stays_done() {
    let mut nd = NRange::new([0..2]).into_iter();
    assert_eq!(nd.next(), Some([0]));
    assert_eq!(nd.next(), Some([1]));
    for _ in 0..10 {
        assert_eq!(nd.next(), None);
        assert!(matches!(nd, NRangeIter::Done));
    }
    let mut never: NRangeIter<Range<i32>, i32, 2> = NRangeIter::Done;
    for _ in 0..3 {
        assert_eq!(never.next(), None);
    }
}

#[test]
fn every_yielded_point_is_contained() {
    let range = NRange::new([-2..3, 4..7, 0..2]);
    let mut nd = NRange::new([-2..3, 4..7, 0..2]).into_iter();
    let mut seen = Vec::new();
    while let Some(p) = nd.next() {
        assert!(range.contains(&p));
        assert!(!seen.contains(&p));
        seen.push(p);
    }
    assert_eq!(seen.len(), range.len());
    for x in -4..5 {
        for y in 2..9 {
            for z in -2..4 {
                let inside = (-2..3).contains(&x) && (4..7).contains(&y) && (0..2).contains(&z);
                assert_eq!(range.contains(&[x, y, z]), inside);
                assert_eq!(seen.contains(&[x, y, z]), inside);
            }
        }
    }
}

#[test]
fn contains_rejects_a_coordinate_off_its_axis() {
    let range = NRange::new([0..10, 0..10]);
    assert!(range.contains(&[2, 4]));
    assert!(range.contains(&[0, 0]));
    assert!(range.contains(&[9, 9]));
    assert!(!range.contains(&[10, 4]));
    assert!(!range.contains(&[2, 10]));
    assert!(!range.contains(&[-1, 4]));
    assert!(!range.contains(&[2, -1]));
}

#[test]
fn contains_is_false_with_an_empty_axis() {
    assert!(!NRange::new([0..3, 0..2, 0..0]).contains(&[2, 1, 0]));
}

#[test]
fn contains_on_unbounded_axes() {
    let range = NRange::new([
        (Bound::Unbounded, Bound::Excluded(3i64)),
        (Bound::Included(-1i64), Bound::Unbounded),
        (Bound::Unbounded, Bound::Unbounded),
    ]);
    assert!(range.contains(&[i64::MIN, -1, 77]));
    assert!(range.contains(&[2, i64::MAX, i64::MIN]));
    assert!(!range.contains(&[3, 0, 0]));
    assert!(!range.contains(&[0, -2, 0]));
}

#[test]
fn size_hint_reports_the_whole_region_while_iterating() {
    let mut nd = NRange::new([0..3, 0..4]).into_iter();
    assert_eq!(nd.size_hint(), (12, Some(12)));
    assert_eq!(nd.len(), 12);
    nd.next();
    nd.next();
    assert_eq!(nd.size_hint(), (12, Some(12)));
    assert_eq!(nd.len(), 12);
}

#[test]
fn size_hint_is_zero_when_done() {
    let mut nd = NRange::new([0..1, 0..2]).into_iter();
    assert_eq!(nd.next(), Some([0, 0]));
    assert_eq!(nd.next(), Some([0, 1]));
    assert_eq!(nd.next(), None);
    assert_eq!(nd.size_hint(), (0, Some(0)));
    assert_eq!(nd.len(), 0);
}

#[test]
fn closed_axes_walk_up_to_the_largest_value() {
    let mut nd = NRange::new([
        (Bound::Included(254u8), Bound::Included(255u8)),
        (Bound::Included(0u8), Bound::Included(1u8)),
    ])
    .into_iter();
    assert_eq!(nd.len(), 4);
    assert_eq!(nd.next(), Some([254, 0]));
    assert_eq!(nd.next(), Some([255, 0]));
    assert_eq!(nd.next(), Some([254, 1]));
    assert_eq!(nd.next(), Some([255, 1]));
    assert_eq!(nd.next(), None);
}

#[test]
fn excluded_start_begins_one_step_later() {
    let range = NRange::new([(Bound::Excluded(-3i16), Bound::Excluded(0i16))]);
    assert_eq!(range.len(), 2);
    let mut nd = range.into_iter();
    assert_eq!(nd.next(), Some([-2]));
    assert_eq!(nd.next(), Some([-1]));
    assert_eq!(nd.next(), None);
}

#[test]
fn signed_axis_reaching_the_largest_value() {
    let region = NRange::new([(Bound::Excluded(i64::MAX - 2), Bound::Included(i64::MAX))]);
    let mut nd = region.into_iter();
    assert_eq!(nd.next(), Some([i64::MAX - 1]));
    assert_eq!(nd.next(), Some([i64::MAX]));
    assert_eq!(nd.next(), None);
}

#[test]
fn default_region_has_default_axes() {
    let range: NRange<Range<i32>, i32, 3> = NRange::default();
    assert_eq!(range, NRange::new([0..0, 0..0, 0..0]));
    assert_eq!(range.bounds, [0..0, 0..0, 0..0]);
    assert_eq!(range.len(), 0);
    let mut nd = range.into_iter();
    assert_eq!(nd.next(), None);
}

#[test]
fn clone_keeps_the_axes() {
    let range = NRange::new([1..3, 2..7]);
    let copy = range.clone();
    assert_eq!(range, copy);
    assert_eq!(copy.bounds, [1..3, 2..7]);
}

#[test]
fn new_stores_the_axes_as_given() {
    let range = NRange::new([4..2, 0..9]);
    assert_eq!(range.bounds, [4..2, 0..9]);
}

#[test]
fn region_read_through_the_crate_root() {
    let range: nrange::NRange<Range<u32>, u32, 2> = nrange::NRange::new([0..2, 0..3]);
    assert_eq!(range.len(), 6);
}

#[test]
fn cursor_validity() {
    let mut nd = NRange::new([0..2, 0..2]).into_iter();
    assert!(nd.is_wf());
    nd.next();
    assert!(nd.is_wf());
    let done: NRangeIter<Range<i32>, i32, 2> = NRangeIter::Done;
    assert!(done.is_wf());
    let outside = NRangeIter::Iterating { nrange: NRange::new([0..2, 0..2]), current: [0, 2] };
    assert!(!outside.is_wf());
    let unbounded = NRangeIter::Iterating {
        nrange: NRange::new([(Bound::Included(0), Bound::Unbounded)]),
        current: [0],
    };
    assert!(!unbounded.is_wf());
    let axes: [Range<i32>; 0] = [];
    let no_axes = NRangeIter::Iterating { nrange: NRange::new(axes), current: [] };
    assert!(!no_axes.is_wf());
    let inside = NRangeIter::Iterating { nrange: NRange::new([0..2, 0..2]), current: [1, 1] };
    assert!(inside.is_wf());
}

#[test]
fn walk_resumed_from_a_given_point() {
    let mut nd = NRangeIter::Iterating { nrange: NRange::new([0..2, 0..3]), current: [1, 1] };
    assert_eq!(nd.next(), Some([1, 1]));
    assert_eq!(nd.next(), Some([0, 2]));
    assert_eq!(nd.next(), Some([1, 2]));
    assert_eq!(nd.next(), None);
}

#[test]
fn contains_takes_points_of_another_coordinate_type() {
    let range = NRange::new([0u8..10, 250..255]);
    assert!(range.contains(&[9i64, 254]));
    assert!(!range.contains(&[9i64, 255]));
    assert!(!range.contains(&[-1i64, 254]));
    assert!(!range.contains(&[9i64, 1 << 40]));
    assert!(range.contains(&[0usize, 250]));
}

#[test]
fn emptiness_query() {
    assert!(NRange::new([0..100, 0..99999, 0..0]).is_empty());
    assert!(NRange::new([3..3]).is_empty());
    assert!(NRange::new([0..3, 7..2]).is_empty());
    assert!(!NRange::new([0..1, 0..1]).is_empty());
    let axes: [Range<i32>; 0] = [];
    assert!(NRange::new(axes).is_empty());
    assert!(NRange::<Range<i32>, i32, 4>::default().is_empty());
}
