//! Smallest and second-smallest element of a sequence under a caller-supplied
//! strict weak order.
//!
//! The crate offers a plain linear scan, a scan that keeps the two smallest
//! elements seen so far, and a knockout tournament that finds both with the
//! fewest comparisons. The tournament is driven by a binary counter
//! ([`BinaryCounter`]) whose slots hold the winners of blocks of `2^i`
//! elements, and by a pooled singly linked list ([`ListPool`]) that records,
//! for every winner, the elements it has beaten.
pub mod agreement;
pub mod bracket;
pub mod counter;
pub mod error;
pub mod order;
pub mod pool;
pub mod powers;
pub mod runner_up;
pub mod scan;
pub mod tournament;

pub use counter::{add_to_counter, reduce_counter, BinaryCounter, BinaryOp, FnOp};
pub use error::Error;
pub use order::less;
pub use pool::{free_list, min_element_list, ListPool, ListType};
pub use runner_up::{combine, min12_op, min_element12, Min12EltType, Min12Op};
pub use scan::{min_element, min_element12_practical};
pub use tournament::{min_element_binary, min_op, MinOp};
