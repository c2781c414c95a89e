//! Lexical front end of a template language that interleaves markup with
//! embedded statements enclosed in a configurable delimiter pair.
//!
//! The scanner turns a byte buffer into a stream of positioned tokens, one
//! per pull. Every executable function carries a contract over a
//! mathematical model of the buffer, and the contracts are proved.
//!
//! * [`cursor`] holds the buffer and the position. The cursor never leaves
//!   the buffer: it rests on the last byte at the latest, and where it rests
//!   there nothing is left to read. Line and column are functions of the
//!   offset.
//! * [`extract`] holds the recognisers for a fixed byte sequence, a name and
//!   a quoted string. Each consumes what it recognised or leaves the cursor
//!   where it was.
//! * [`model`] says, on sequences of bytes, what a pull returns and how it
//!   changes the state.
//! * [`scanner`] is the scanner itself, proved against the model.
//! * [`laws`] states what holds of every pull.
//!
//! Bytes are read through the cursor. A line feed that a carriage return
//! follows is stepped over with it, so a raw span or a quoted string that
//! runs over the two holds the carriage return only. The delimiters are
//! compared with the buffer byte for byte.
//!
//! Failures are values. A pull that fails, and a recogniser that does not
//! match, leave the scanner as it was.

pub mod ascii;
pub mod cursor;
pub mod error;
pub mod extract;
pub mod laws;
pub mod model;
pub mod scanner;
pub mod token;
