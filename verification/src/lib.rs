//! A small tabular data engine.
//!
//! Rows are kept in a slotted page as self-describing binary records. The
//! storage layer is made of a variable-length integer codec ([`varint`]), a
//! tagged scalar ([`value`]) with its order ([`compare`]) and its text form
//! ([`text`]), a record of such scalars ([`record`]) and a fixed-capacity
//! page ([`page`]). On top of it stand tables with named columns
//! ([`table`]), compound keys ([`key`]) and ordering by them ([`order`]),
//! reading of delimited text ([`read`]), layout for printing ([`print`]),
//! and a scanner for a query language ([`sql`]).
//!
//! Floats are stored and compared as their 64 bits. Parsing and printing
//! them is left to the caller.
pub mod compare;
pub mod endian;
pub mod error;
pub mod id_sequence;
pub mod key;
pub mod order;
pub mod page;
pub mod print;
pub mod read;
pub mod record;
pub mod seqs;
pub mod split;
pub mod sql;
pub mod strings;
pub mod table;
pub mod text;
pub mod value;
pub mod varint;
