mod distance;

pub use distance::{distance, distance_byte, distance_unicode};
