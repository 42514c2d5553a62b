//! Dependency resolution for protocol buffer packages.
pub mod builder;
pub mod choice;
pub mod conflicts;
pub mod course_laws;
pub mod cycles;
pub mod determinism;
pub mod error;
pub mod finite;
pub mod graph;
pub mod kinds;
pub mod laws;
pub mod lists;
pub mod lockfile;
pub mod manifest;
pub mod model;
pub mod package;
pub mod package_laws;
pub mod pick;
pub mod progress;
pub mod reachability;
pub mod resolver;
pub mod soundness;
pub mod state_laws;
pub mod termination;
pub mod text;
pub mod text_laws;
pub mod version;
