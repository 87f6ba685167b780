//! Sorting and column rendering for a colored directory listing.

pub mod calendar;
pub mod cli;
pub mod columns;
pub mod entry;
pub mod format;
pub mod listing;
pub mod order;
pub mod sort;
pub mod text;
