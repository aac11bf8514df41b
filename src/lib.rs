//! Mean-shift clustering over fixed-point coordinates.
//!
//! Every input point climbs a kernel density estimate to a local mode; the
//! modes are then folded greedily into cluster centers. Coordinates are
//! integers in a caller-chosen fixed-point scale, so every distance comparison
//! is exact.
pub mod cluster;
pub mod kernel;
pub mod merger;
pub mod point;
pub mod seeker;
