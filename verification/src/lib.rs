//! A small x86_64 kernel's core: the physical page allocator, the kernel's
//! virtual address bookkeeping, PSF font parsing and a framebuffer text console.

pub mod framebuffer;
pub mod logging;
pub mod memory;

pub use framebuffer::Color;
