//! Verified core of a two-channel line follower.
//!
//! Each cycle the follower samples two line sensors, keeps the last samples
//! of each in a sliding window, estimates one stable value per channel and
//! steers against the difference of the two.
//!
//! * [`window`]: the sliding window of a channel.
//! * [`sort`]: the in-place sort behind the estimator's snapshot.
//! * [`estimator`]: the exact part of the estimator, from the window to the
//!   sorted snapshot, its sum and the budget of refinement rounds.
//! * [`limit`]: bounding a value into an interval.
//! * [`control`]: the steering duty and the wheel commands of a cycle.
//!
//! The arithmetic on real numbers between the snapshot and the estimate, and
//! all access to the hardware, are left to the program around this library.

pub mod control;
pub mod estimator;
pub mod limit;
pub mod sort;
pub mod window;
