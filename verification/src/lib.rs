//! A hash table from machine words to machine words, with something attached to each
//! entry, after the non-blocking hash map of Cliff Click.
//!
//! A table keeps its entries in a chunk: an array of pairs of words whose size is a
//! power of two, probed linearly. The value word of an entry tells whether the slot is
//! empty, holds an ordinary value, holds a value that is on its way in (primed), or
//! forwards to the chunk that takes over (sentinel). A chunk that is overloaded hands
//! its entries over to a larger one, slot by slot; between any two of these steps the
//! table can be read and written.
//!
//! The table belongs to one owner. Every function states what it returns and what it
//! leaves behind, and is proved to do so.

pub mod attachment;
pub mod chunk;
pub mod hasher;
pub mod laws;
pub mod layout;
pub mod lookup;
pub mod maps;
pub mod migration;
pub mod table;
pub mod value;
