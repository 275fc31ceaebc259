//! Topic taxonomy: clustering podcast topics by their embeddings into named
//! groups, with every decision of the pipeline verified.

pub mod agglomerative;
pub mod dbscan;
pub mod density;
pub mod filter;
pub mod hierarchy;
pub mod naming;
pub mod postprocess;
pub mod records;
pub mod spanning;
pub mod taxonomy;
pub mod text;
pub mod union_find;
pub mod ward;
