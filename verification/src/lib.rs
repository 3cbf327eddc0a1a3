//! N-dimensional ranges.
//!
//! An [`NRange`] is the Cartesian product of `N` one-dimensional axes; its
//! points are the arrays of `N` coordinates that lie, coordinate by
//! coordinate, on those axes.  A region can say whether it contains a
//! point, how many points it has, and can be walked: the walk hands out
//! every point exactly once, axis 0 varying fastest, the way `N` nested
//! loops would with axis 0 innermost.
//!
//! ```text
//! let range = NRange::new([0..2, 0..2]);
//! assert!(range.contains(&[0, 1]));
//! assert_eq!(range.len(), 4);
//! let mut points = range.into_iter();
//! assert_eq!(points.next(), Some([0, 0]));
//! assert_eq!(points.next(), Some([1, 0]));
//! assert_eq!(points.next(), Some([0, 1]));
//! assert_eq!(points.next(), Some([1, 1]));
//! assert_eq!(points.next(), None);
//! ```
//!
//! The modules, from the ground up:
//!
//! - [`step`]: coordinate types, modelled by the integers they stand for;
//! - [`axis`]: axes, modelled by intervals of integers;
//! - [`region`]: the mathematics of regions and the numbering of their
//!   points, with the queries that work on plain arrays of axes;
//! - [`odometer`]: the state machine of a walk, the laws it obeys, and the
//!   carry step;
//! - [`range`] and [`iter`]: `NRange` and its cursor;
//! - [`ndrange`] and [`nditer`]: `NdRange`, the same region with its axes
//!   kept private, and its cursor.

#![allow(unused_imports)]

pub mod axis;
pub mod iter;
pub mod nditer;
pub mod ndrange;
pub mod odometer;
pub mod range;
pub mod region;
pub mod step;

pub use axis::{Axis, Bound};
pub use iter::NRangeIter;
pub use nditer::NdIter;
pub use ndrange::NdRange;
pub use range::NRange;
pub use step::Step;
