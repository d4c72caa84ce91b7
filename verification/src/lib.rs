//! Compares two runs of a reference-mining analysis.
//!
//! Each run maps declared symbols to the source positions that reference
//! them.  The comparator joins two such collections by a normalized
//! declaration identity and reports, per declaration, which reference
//! positions the runs agree on and which are found by only one side.

pub mod compare;
pub mod refs;
pub mod comparisons;
pub mod order;
pub mod relations;

pub use compare::{Comparator, CompareError};
pub use comparisons::{Comparison, Comparisons, PerFile, Versus};
pub use relations::{Info, PerModule, Perfs, Position, Range, Relation, Relations, RelationsWithPerfs};
