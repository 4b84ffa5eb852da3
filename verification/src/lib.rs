//! ACON, the Awk-Compatible Object Notation: a line-oriented text format
//! for arrays, strings and tables, with a verified parser and printer.
//!
//! # The format
//!
//! A document is a table. The first word of every line decides what the
//! line is:
//!
//! ```text
//! key some value            a string under a key
//! { name                    opens a table
//!   key value
//! }                         closes it
//! [ name                    opens an array
//!   every line is one element
//! ]                         closes it
//! $                         closes whatever is open
//! ```
//!
//! Words are separated by whitespace, and a value is its words joined by
//! single spaces. A name is the second word of the line that opens a
//! nesting; without one the name is empty. In a table an empty line means
//! nothing, in an array it is an element, the empty string. A table never
//! takes a key twice, and it is walked in the order of its keys.
//!
//! # The library
//!
//! - [`Acon`] is the value tree, [`Table`] its table, [`AconError`] what
//!   parsing reports. `Acon::parse` and `str::parse` read a document,
//!   `Acon::render` prints one, and `get`, `get_mut`, `path` and `path_mut`
//!   walk the tree by keys and dotted paths.
//! - [`model`] is what a tree stands for, [`machine`] what parsing means
//!   and [`printer`] what printing means, all three as mathematics. Every
//!   function that runs has a contract over them, and Verus proves that it
//!   keeps it.
//! - [`canon`] names the shape of the trees that parsing gives,
//!   [`roundtrip`] proves what printing and parsing again makes of them,
//!   and [`laws`] states what holds of the format as a whole.
//! - [`text`] is the ground under it all: whitespace, words, lines and the
//!   order of keys.

pub mod canon;
pub mod error;
pub mod laws;
pub mod machine;
pub mod model;
pub mod parser;
pub mod printer;
pub mod roundtrip;
pub mod text;
pub mod value;

pub use error::AconError;
pub use value::{Acon, Array, Table};
