//! Hex dump rendering: turns raw bytes into rows of offsets, hex pairs and text.

mod bridge;
pub mod cli;
pub mod driver;
pub mod hex;
pub mod layout;
pub mod text;

pub use cli::CommandLine;
pub use driver::{dump_bytes, DumpSession};
pub use hex::{address_to_hex, byte_to_hex};
pub use layout::{create_row, data_row, gen_block, join_strings, locations_header, Render};
pub use text::{byte_to_string, lowercase_ascii};
