//! Audits which governing bodies ("boards") a deciding assembly can grant
//! discharge, given that assembly members who also sat on a board are
//! conflicted and must recuse themselves.  The engine computes the quorum
//! threshold, resolves absences, extracts per-board conflict sets, and
//! greedily batches boards into voting groups that still satisfy quorum.

pub mod analyzer;
pub mod config;
pub mod names;
pub mod parser;
pub mod types;
