//! Session listing and reveal planning for a desktop flight-data viewer.
//!
//! `sessions` turns what was read of one directory into the newest-first list
//! of recorded sessions; `file_manager` decides how the host's file manager is asked
//! to show a path. Reading the disk, spawning processes and talking to the
//! desktop bus are left to the caller.
pub mod file_manager;
pub mod sessions;
