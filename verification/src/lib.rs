//! A canonicalizing table of exact algebraic complex numbers.
//!
//! A complex amplitude is a pair of quadratic surds, numbers of the form
//! `(a + b·√r) / c` with integers `a`, `b`, `c`, `r`, kept in a canonical form in
//! which equal numbers have equal parts. The table stores every distinct value
//! once, hands out a handle for it, counts the references to it and reclaims it
//! when the last reference is released.
//!
//! - `surd`: the canonical form of a quadratic surd.
//! - `arithmetic`: sums, differences and products of surds, computed by the
//!   `num_irrational` crate over big integers and stored wherever their parts
//!   are 64-bit integers.
//! - `identities`: laws of those sums and products.
//! - `value`: complex values and their arithmetic.
//! - `order`: the order of values by size.
//! - `text`: the textual form `<int>+<int>i`.
//! - `hashing`: the hash that picks the bucket of a value.
//! - `table`: the table, its handles and its reference counts.

pub mod arithmetic;
mod chains;
pub mod error;
pub mod hashing;
pub mod identities;
pub mod order;
pub mod surd;
pub mod table;
pub mod text;
pub mod value;
mod wide;
