//! An online scheduler simulation for a space-time packing problem on a
//! rectangular fabric: jobs present 3-D programs (polycubes or cuboid lists)
//! that are placed without overlap inside `[0, X) x [0, Y) x [0, inf)`,
//! where the third axis is interpreted as execution time in cycles.

pub mod config;
pub mod environment;
pub mod error;
pub mod dataset;
pub mod event;
pub mod generator;
pub mod job;
pub mod preprocess;
pub mod program;
pub mod scheduler;
