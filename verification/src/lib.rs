//! A loader for a configuration notation that extends JSON: objects and
//! arrays, comments, unquoted keys and values, values written side by
//! side, multi-line strings, substitutions, the append operator, and
//! documents that bring in other documents.
//!
//! A text is read by the grammar (`grammar`, over the scanners of `scan`)
//! into a `document::Document`: its entries, each a value under a path, in
//! the order in which they were written. The entries are folded into a
//! tree and their substitutions replaced (`resolve`), and the tree is
//! projected onto the value tree `hocon::Hocon`. `loader::Loader` says
//! which other documents are to be read, and takes in what reading gave;
//! the reading itself is left to the caller.
//!
//! Every function states what it returns over mathematical values, and
//! Verus proves that it does. Some things hold of the library as a whole
//! and are proved as such: a JSON document in any tidy layout, with its
//! strings in any spelling, loads to its value (`layout`, `spelling`), what
//! was written as the shortest text loads back to the same value
//! (`idempotence`), what is written later at a path
//! overrides what stood there (`overriding`), substitutions without a
//! value to end in give bad values (`cycles`), no document is read
//! beyond the allowed depth (`loader`), and loading comes to an end
//! (`progress`).

pub mod cycles;
pub mod document;
pub mod error;
pub mod escapes;
pub mod grammar;
pub mod hocon;
pub mod idempotence;
pub mod layout;
pub mod loader;
pub mod loader_config;
pub mod number_text;
pub mod overriding;
pub mod paths;
pub mod progress;
pub mod reading;
pub mod render;
pub mod resolve;
pub mod roundtrip;
pub mod scan;
pub mod spelling;
pub mod text;
pub mod tree;
pub mod unescape;
pub mod value;
pub mod vecs;
pub mod words;
pub mod write;
