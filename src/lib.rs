//! Bitonic sorting of power-of-two length slices, driven by a caller-supplied
//! comparator, with its correctness proved against a total-order model.
pub mod laws;
pub mod network;
pub mod order;
pub mod pow2;
pub mod sorter;
pub mod utils;
pub mod zero_one;

pub use pow2::is_power_of_two;
pub use sorter::{sort, sort_by, LengthError, SortOrder};
pub use utils::{is_sorted_ascending, is_sorted_descending, new_u32_vec};
