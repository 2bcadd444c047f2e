pub mod algebra;
pub mod fenwick;
pub mod lazy_seg_tree;
pub mod laws;
