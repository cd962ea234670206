//! PowerSort: a stable, run-adaptive merge sort whose merge order follows the
//! node power of adjacent runs.

pub mod order;
pub mod merging;
pub mod runs;
pub mod stable;
pub mod powersort;
pub mod alternatives;
pub mod powersort_alternatives;
pub mod sequences;
