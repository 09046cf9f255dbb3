pub mod grid;
pub mod laws;
pub mod model;
pub mod scorer;
pub mod search;
pub mod step;
