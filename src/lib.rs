//! Sets of indices kept as sorted, disjoint, non-touching half-open ranges.

pub mod model;
pub mod vec_ops;
pub mod interval_set;
pub mod minus_iter;
pub mod edit_map;
pub mod laws;

pub use edit_map::RopeEdit;
pub use interval_set::IndexSet;
pub use minus_iter::MinusIter;
pub use vec_ops::remove_n_at;
