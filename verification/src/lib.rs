//! A typed access layer over an ordered, transactional key-value store.
//!
//! Tables hold byte-string entries in lexicographic key order. Codecs turn
//! typed keys and values into bytes and back; cursors stand at a position
//! in one table of one transaction; iterators walk a table, an interval or
//! a prefix, forward or backward; and the two database handles, the
//! polymorphic one and the uniform one, build point lookups, neighbour
//! queries, writes and ranged deletion from these.
//!
//! Every function states in its contract what it returns and changes, over
//! the entries of a table as a sorted sequence of byte-string pairs.

pub mod bounds;
pub mod bytes;
pub mod codec;
pub mod cursor;
pub mod db;
pub mod env;
pub mod error;
pub mod iter;
pub mod laws;
pub mod reserved;
pub mod table;
pub mod uniform;
