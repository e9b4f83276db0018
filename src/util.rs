pub mod bit_set;
pub mod cartesian_product;
pub mod either;
pub mod join_iter;
pub mod set_partition;
pub mod step;
pub mod storage_int;
pub mod vec_set;

pub use bit_set::{BlockIter, FixedBitSet};
pub use cartesian_product::CartesianProductIter;
pub use either::Either;
pub use join_iter::Join;
pub use set_partition::{SetPartitionIter, SetPartitions};
pub use step::{Bounded, Range, Step};
pub use storage_int::{Sealed, StorageInt};
pub use vec_set::VecSet;
