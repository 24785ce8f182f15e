//! Decoding of the load-command region of Mach-O object files.
//!
//! The decoder reads a header, then exactly as many load commands as the
//! header declares. Segment commands (32- and 64-bit) are decoded together
//! with their nested section descriptors; every other command is skipped by
//! its declared size and classified by its required-by-loader bit.
pub mod cursor;
pub mod records;
pub mod commands;
pub mod macho;
