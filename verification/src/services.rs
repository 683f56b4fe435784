pub mod search;
pub mod stats;
