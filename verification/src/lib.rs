//! A block-mode scanner for serialized literal databases.
//!
//! [`serialized`] takes a database apart, [`rose`] reads the header of its
//! bytecode, [`hwlm`] finds literals in a block, [`literal`] runs the programs
//! that decide what a literal reports, and [`scan`] puts them together.
//! Whatever the bytes of a database or of a block are, no function panics.

pub mod bits;
pub mod bytes;
pub mod corpus;
pub mod crc32c;
pub mod fuzz;
pub mod hwlm;
pub mod literal;
pub mod messages;
pub mod nfa;
pub mod rose;
pub mod scan;
pub mod serialized;
pub mod simd;
pub mod text;
