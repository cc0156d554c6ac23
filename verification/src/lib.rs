//! A batch-parallel kd-tree (PKD tree) over integer points, with its
//! selection, bucketing and nearest-neighbour machinery.

pub mod point;
pub mod bbox;
pub mod pkd_tree;
pub mod radix;
pub mod sieve;
pub mod rng;
pub mod std_order;
pub mod utils;
pub mod batch_par_kd_tree_trait;
pub mod prefix;
pub mod parallel;
pub mod lib_kd_tree;
