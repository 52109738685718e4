//! Combinators that shape how a fragment tree runs: saving and restoring
//! its progress, choosing between alternatives, and delayed follow-ups.

pub mod save;
pub mod select;
pub mod delay;
