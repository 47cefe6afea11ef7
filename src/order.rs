pub mod linked_list;
pub mod ofm;
