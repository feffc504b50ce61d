//! Array-chained incidence lists for directed graphs, and a depth-first
//! traversal over them that assigns pre-order and post-order labels.

pub mod incidence;
pub mod traversal;

pub use incidence::DirectedGraph;
pub use incidence::EdgeList;
pub use incidence::dicomp_incidence_list_construct;
pub use traversal::DfsTime;
pub use traversal::dfs;
