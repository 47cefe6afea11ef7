//! Mergeable priority queues with worst-case bounds, and companion
//! order-maintenance and sorting utilities, verified with Verus.

pub mod heap;
pub mod order;
pub mod sort;
pub mod util;
