//! Project contract registry: the contract model and its validation rules,
//! the field-level diff between two contracts, the acceptance of diff
//! changes, the text normalisation behind project search, and the layout
//! of the on-disk store.

pub mod text;
pub mod model;
pub mod diff;
pub mod search;
pub mod store;
pub mod workflow;
pub mod paths;
pub mod diff_laws;
pub mod mirror;
pub mod agreement;
pub mod selective;
