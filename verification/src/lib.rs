//! Sequencing of fragment trees: events that travel through a hierarchy of
//! fragments, the per-fragment bookkeeping they drive, selection between
//! alternatives, delayed follow-ups and the saving and restoring of a tree's
//! progress.

pub mod fragment;
pub mod combinators;
pub mod schedule;
