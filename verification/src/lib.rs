pub mod driver;
pub mod order;
pub mod partition;
pub mod perm;

pub use driver::add_intervals;
pub use driver::sort_1;
pub use driver::sort_2;
pub use driver::Interval;
pub use driver::Strategy;
pub use driver::__sort;
pub use order::lemma_sorted_permutation_equal;
pub use order::sorted;
pub use order::SortKey;
pub use partition::sort_one_1;
pub use partition::sort_one_2;
pub use partition::swap;
