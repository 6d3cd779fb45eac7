//! Approximate minimum degree ordering of a sparse symmetric pattern,
//! with the assembly-tree postordering it relies on.
pub mod amd;
pub mod amd_2;
pub mod forest;
pub mod post_tree;
pub mod postorder;
