//! An application launcher's program index: entries gathered from several
//! sources, a versioned snapshot of them with usage statistics, fuzzy search
//! with frecency-aware ranking, and the bookkeeping of launches.
pub mod control;
pub mod dates;
pub mod index;
pub mod laws;
pub mod matcher;
pub mod patch;
pub mod search;
pub mod text;
