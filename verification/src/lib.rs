pub mod diff;
pub mod laws;
pub mod model;
