//! Physical and virtual memory management of the kernel.

pub mod bits;
pub mod phys;

pub use phys::{alloc_page, free_page};
pub mod virt;
