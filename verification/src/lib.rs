//! Synchronisation of a boot catalogue with a rEFInd boot partition.
//!
//! The generations of an operating system are immutable builds, each with a
//! descriptor of what it takes to boot it. This crate turns them into the
//! boot manager's configuration, keeps track of the kernels and initial
//! ramdisks that the configuration needs on the boot partition, and decides
//! how the firmware's boot entry is brought in line.
//!
//! Nothing here reads or writes a file or runs a program. The caller does
//! that and hands in what it found; what comes back is text, or steps to
//! carry out. Paths are text, see [`path`].

pub mod bootspec;
pub mod config;
pub mod efi;
pub mod fs;
pub mod generation;
pub mod menu;
pub mod path;
pub mod progress;
pub mod text;
