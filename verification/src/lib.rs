//! A JSON parser that keeps going after the first defect.
//!
//! Raw text is split into lexical units, the units are classified into
//! tokens, and a recursive-descent parser builds a value tree while
//! collecting an ordered list of diagnostics.  A parse either yields one
//! value and no diagnostics, or no value and at least one diagnostic; every
//! diagnostic carries a closed-set error code together with the line and
//! column at which it arose.

pub mod errors;
pub mod lexical;
pub mod lexical_tokenization;
pub mod number;
pub mod parsing;
pub mod round_trip;
