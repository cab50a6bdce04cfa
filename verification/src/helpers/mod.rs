pub mod crc;
pub mod crc32;
pub mod time;
pub mod late_init;
pub mod wait;
