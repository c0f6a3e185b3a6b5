//! Sparse shadow memory: records which bytes of a 64-bit address space have
//! been patched, and with what value, allocating storage one page at a time.
pub mod align;
pub mod laws;
pub mod manager;
pub mod page;

pub use align::{align_8, align_next_8};
pub use manager::{ShadowError, ShadowManager};
pub use page::{ShadowPage, MAP_LEN, PAGE_SIZE};
