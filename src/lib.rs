//! Finds the photographs that were taken near a given point.
//!
//! Coordinates are held as whole billionths of a degree and distances as whole
//! micrometres, so that every step from a metadata record or a typed coordinate
//! to the final verdict is integer arithmetic with a proved contract.

pub mod coordinate_text;
pub mod cosine;
pub mod distance;
pub mod gps_position;
pub mod metadata;
pub mod path_order;
pub mod scan;

pub use distance::ConvertError;
pub use gps_position::GPSPosition;
