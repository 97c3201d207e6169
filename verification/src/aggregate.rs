//! From fetched text to finished addlists.

pub mod data;
pub mod limits;
pub mod lists;
pub mod validation;
