//! Early-boot support for a freestanding kernel: a text-mode console that
//! appends and scrolls, an allocator that hands out the free physical frames
//! of the firmware's memory map, and the kernel image's address range.

pub mod kernel_image;
pub mod memory;
pub mod vga_buffer;
