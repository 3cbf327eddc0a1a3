use nrange::nditer::NdIter;
use nrange::ndrange::NdRange;
use std::ops::Range;

#[test]
fn nd_eq_by_axes() {
    assert_eq!(NdRange::new([0..5, 0..5]), NdRange::new([0..5, 0..5]));
    assert_ne!(NdRange::new([0..5, 0..4]), NdRange::new([0..4, 0..5]));
    assert_ne!(NdRange::new([0..5, 0..5]), NdRange::new([0..5, 1..5]));
}

#[test]
fn nd_len_is_the_product() {
    assert_eq!(NdRange::new([0..3, 0..3]).len(), 9);
    assert_eq!(NdRange::new([0..100, 0..100, 0..33]).len(), 100 * 100 * 33);
}

#[test]
fn nd_len_with_an_empty_axis() {
    assert_eq!(NdRange::new([0..7, 0..0]).len(), 0);
    assert_eq!(NdRange::new([0..100, 0..99999, 0..0]).len(), 0);
}

#[test]
fn nd_len_without_axes() {
    let axes: [Range<i32>; 0] = [];
    assert_eq!(NdRange::new(axes).len(), 0);
}

#[test]
fn nd_order() {
    let mut iter = NdRange::new([0..2, 0..2]).into_iter();
    assert_eq!(iter.next(), Some([0, 0]));
    assert_eq!(iter.next(), Some([1, 0]));
    assert_eq!(iter.next(), Some([0, 1]));
    assert_eq!(iter.next(), Some([1, 1]));
    assert_eq!(iter.next(), None);
    assert_eq!(iter.next(), None);
    assert!(matches!(iter, NdIter::Done));
}

#[test]
fn nd_contains() {
    assert!(NdRange::new([0..10, 0..10]).contains(&[2, 4]));
    assert!(!NdRange::new([0..10, 0..10]).contains(&[2, 10]));
    assert!(!NdRange::new([0..3, 0..2, 0..0]).contains(&[2, 1, 0]));
}

#[test]
fn nd_walk_without_axes_is_over_at_once() {
    let axes: [Range<i32>; 0] = [];
    let mut iter = NdRange::new(axes).into_iter();
    assert!(matches!(iter, NdIter::Done));
    assert_eq!(iter.next(), None);
}

#[test]
fn nd_walk_yields_len_points_all_contained() {
    let region = NdRange::new([0u16..5, 3..5, 1..4]);
    let mut iter = NdRange::new([0u16..5, 3..5, 1..4]).into_iter();
    let mut count = 0;
    let mut last = None;
    while let Some(p) = iter.next() {
        assert!(region.contains(&p));
        assert_ne!(Some(p), last);
        last = Some(p);
        count += 1;
    }
    assert_eq!(count, region.len());
    assert_eq!(last, Some([4, 4, 3]));
}

#[test]
fn nd_size_hint() {
    let mut iter = NdRange::new([0..2, 0..5]).into_iter();
    assert_eq!(iter.size_hint(), (10, Some(10)));
    iter.next();
    assert_eq!(iter.size_hint(), (10, Some(10)));
    assert_eq!(iter.len(), 10);
    let mut done = NdRange::new([0..2, 0..0]).into_iter();
    assert_eq!(done.size_hint(), (0, Some(0)));
    assert_eq!(done.len(), 0);
    assert_eq!(done.next(), None);
}

#[test]
fn nd_ranges_gives_the_axes_back() {
    let region = NdRange::new([1..2, 3..4]);
    assert_eq!(region.ranges(), &[1..2, 3..4]);
}

#[test]
fn nd_default_and_clone() {
    let region: NdRange<Range<u8>, u8, 2> = NdRange::default();
    assert_eq!(region, NdRange::new([0..0, 0..0]));
    assert_eq!(region.len(), 0);
    let other = NdRange::new([1u8..2, 3..9]);
    assert_eq!(other.clone(), other);
    assert_eq!(other.clone().ranges(), &[1..2, 3..9]);
}

#[test]
fn nd_cursor_validity() {
    let mut iter = NdRange::new([0..2, 0..2]).into_iter();
    assert!(iter.is_wf());
    iter.next();
    assert!(iter.is_wf());
    let outside = NdIter::Iterating { ndrange: NdRange::new([0..2, 0..2]), current: [2, 0] };
    assert!(!outside.is_wf());
    let done: NdIter<Range<i32>, i32, 2> = NdIter::Done;
    assert!(done.is_wf());
}

#[test]
fn nd_emptiness_query() {
    assert!(NdRange::new([0..7, 0..0]).is_empty());
    assert!(!NdRange::new([0..7, 0..1]).is_empty());
    let axes: [Range<u8>; 0] = [];
    assert!(NdRange::new(axes).is_empty());
}
