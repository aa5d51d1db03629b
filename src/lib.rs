//! A size-based log rotator: lines go to numbered files in a directory, a new
//! file is started once the active one would exceed its byte budget, and the
//! oldest files are removed once more than the retention count exist.
//!
//! The library holds every decision of the rotator: how files are named and
//! recognised, how a directory listing is recovered into an ordered set of
//! files, when a write rolls over, and which files retention evicts. Opening,
//! writing and deleting files is left to the caller, which carries out the
//! actions that the library hands back.

pub mod error;
pub mod naming;
pub mod size;
pub mod writer;
