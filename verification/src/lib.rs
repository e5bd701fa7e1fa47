//! Memory-content analysis for a process inspector: byte scanning,
//! region bookkeeping, analysis findings and process list handling.

pub mod text;
pub mod scan;
pub mod region;
pub mod batch;
pub mod analysis;
pub mod tracker;
pub mod process;
pub mod hexview;
pub mod state;
