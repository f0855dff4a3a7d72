pub mod bitset2d;
pub mod update_steps;
pub mod laws;
