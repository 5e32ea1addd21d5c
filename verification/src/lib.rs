//! A small engine for windowed processing of timestamped data.
//!
//! - [`PCollection`]: a collection of values with event times
//! - [`Transforms`]: map, flat map, filter, group by key, combine per key
//! - [`WindowAssigner`]: fixed, sliding and session windows
//! - [`Watermark`]: progress of event time
//! - [`DirectRunner`]: windowed aggregation on the local machine

pub mod assigner;
pub mod collection;
pub mod groups;
pub mod index;
pub mod laws;
pub mod order;
pub mod plan;
pub mod runner;
pub mod timestamp;
pub mod totals;
pub mod transforms;
pub mod watermark;
pub mod window;

pub use assigner::WindowAssigner;
pub use collection::{PCollection, TimestampedValue};
pub use groups::KeyGroups;
pub use runner::DirectRunner;
pub use timestamp::Timestamp;
pub use transforms::Transforms;
pub use watermark::Watermark;
pub use window::{Window, WindowingStrategy};
