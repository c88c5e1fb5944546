//! Destination handling for transfer dialogs of a file browser: resolving what
//! the user typed into a destination path, and choosing which folders to offer
//! as completions.
pub mod text;
pub mod paths;
pub mod destination;
pub mod ordering;
pub mod suggestions;
pub mod transfer;
