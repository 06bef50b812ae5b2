//! A verified parser for comma-separated lines with double-quote quoting.
//!
//! One line of text is split into fields at commas that lie outside quoted
//! regions.  A quoted region is opened by a `"` character, a doubled `""`
//! inside it decodes to one literal quote, and the region is closed by a `"`
//! that is followed by a comma or by the end of the line.  A closing quote
//! followed by any other character is malformed, and the parser reports the
//! exact 1-based column of the offending position.

pub mod digits;
pub mod parser;
pub mod scan;
pub mod split;
