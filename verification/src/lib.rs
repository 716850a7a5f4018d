use vstd::prelude::*;

pub mod lcg;
pub mod lcg_span;
pub mod splitmix;
pub mod region;
pub mod restore;
pub mod metrics;
pub mod detection;
pub mod shapes;
pub mod caption;
pub mod palette;
pub mod roi;
pub mod scenes;
pub mod gesture;
pub mod faces;
pub mod face_scene;

verus! {
} // verus!
