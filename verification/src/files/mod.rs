//! Carriers: byte sequences that hold a hidden text.
pub mod bmp;
