//! Publishes a directory tree as an RRDP repository: snapshots, deltas and a
//! notification file, with the state machine that advances them.
pub mod index;
pub mod names;
pub mod options;
pub mod rrdp;
pub mod session;
pub mod sync;
pub mod text;
pub mod xml;
