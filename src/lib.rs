pub mod error;
pub mod lines;
pub mod reservoir;
pub mod rng;
pub mod run;
pub mod select;
pub mod size;
