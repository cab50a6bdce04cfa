//! Kernel support library: time spans, checksums, one-shot initialisation, the frame buffer.

pub mod time;
pub mod crc32;
pub mod late_init;
pub mod framebuffer;
