pub mod distribution;
pub mod quick;
