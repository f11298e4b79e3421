//! Processing of diagnostic trace logs of embedded control units.
//!
//! A byte stream of framed trace records ([`frame`], [`record`]) is parsed
//! with byte-wise resynchronisation ([`reader`]), every record is attributed
//! to a lifecycle of its device ([`lifecycle`]) and the lifecycles are
//! published for concurrent readers ([`table`]), the stream can be brought
//! back into time order within a bounded window ([`reorder`]), filtered by
//! index range and lifecycle ([`filter`]) and handed to a remote viewer
//! through a small session protocol ([`session`], [`remote_types`]).
//! [`convert`] runs all stages on sources in memory, as [`options`] ask.
//!
//! Every function states what it returns over the mathematical value of its
//! arguments, and the verifier proves that it does. The one exception is
//! [`table`], whose contracts describe the map of another crate.
pub mod record;
pub mod frame;
pub mod reader;
pub mod table;
pub mod lifecycle;
pub mod reorder;
pub mod filter;
pub mod session;
pub mod options;
pub mod remote_types;
pub mod convert;
