pub mod cyclic_list;
pub mod random;
