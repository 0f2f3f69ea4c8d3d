//! A reversible text codec over the Thousand Character Classic: bytes become a
//! run of characters of the classical text, and a run of such characters
//! expands back into every text it may have come from.

pub mod corpus;
pub mod decode;
pub mod encode;
pub mod laws;
pub mod numeral;
pub mod table;

pub use corpus::{bundled_sources, bundled_tables, THOUSAND_CHARACTER_CLASSIC};
pub use decode::{decode, decode_all, Decoding};
pub use encode::{encode, encode_with_rng};
pub use numeral::chunk_positions;
pub use table::{build, BuildError, Tables, POSITIONS};
