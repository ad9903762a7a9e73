pub mod lower_bound;
pub mod order;
pub mod upper_bound;
