//! The block sort of bzip2: its comparison, its shell sort and
//! the data they share.
pub mod gtu;
pub mod qsort;
pub mod primary;
pub mod unrolled;
pub mod simple;
pub mod fallback;
pub mod bucket_sort;
