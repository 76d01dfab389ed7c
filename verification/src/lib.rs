//! Discrete core of a 2D SLAM toolkit: occupancy-grid storage and ray
//! tracing, landmark identity management, nearest/within selection over
//! ordered distance keys, and the integer parts of particle sampling.

pub mod landmark;
pub mod map;
pub mod occupancy;
pub mod particle;

