//! What holds of the library as a whole.

pub mod assigned;
pub mod keys;
pub mod plans;
pub mod rearranging;
pub mod sessions;
pub mod summed;
pub mod sums;
pub mod text;
pub mod times;
pub mod transformed;
pub mod values;
pub mod windows;
