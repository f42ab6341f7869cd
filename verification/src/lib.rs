pub mod dl_list;
pub mod laws;
