//! Memory accounting for macOS processes: reading the reports of `vmmap`,
//! `top`, `footprint` and `sysctl`, scaling per-process swap to the system
//! figure, the state and reactions of the interactive process table, and
//! the lines of the one-shot report.
pub mod app;
pub mod cli;
pub mod decimal;
pub mod events;
pub mod float;
pub mod footprint;
pub mod fraction;
pub mod normalize;
pub mod scan;
pub mod scanner;
pub mod size;
pub mod text;
pub mod top;
pub mod view;
