//! Rainbow-table password recovery: hash primitives, the reduction function,
//! the chain engine, the table and hash file formats, the server's caches and
//! its request protocol.

pub mod bytes;
pub mod error;
pub mod hash;
pub mod radix_type;
pub mod reduction;
pub mod text;

pub mod chain;
pub mod format;

pub mod crack;
pub mod dump_hashes;
pub mod dump_rainbow_table;
pub mod generate_hashes;
pub mod generate_passwords;
pub mod generate_rainbow_table;

pub mod cache_memory;
pub mod compute_threads;
pub mod crack_hashes;
pub mod save_rainbow_table;
pub mod server;

pub mod client;
