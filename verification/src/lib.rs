//! Country-filtered conversion of RIR delegated-extended statistics into
//! ordered, duplicate-free lists of canonical CIDR blocks.
//!
//! The library parses pipe-delimited allocation records, converts IPv4
//! `(start, count)` ranges into the minimal ordered list of aligned CIDR
//! blocks that exactly tiles the range, passes IPv6 prefixes through, and
//! aggregates everything into per-family ordered sets.

pub mod blockset;
pub mod cidr;
pub mod convert;
pub mod num;
pub mod parse;
pub mod process;
pub mod text;

use vstd::prelude::*;

verus! {

/// Errors of the record parser and the range-to-CIDR converter.
#[derive(Clone, Copy, Debug, PartialEq, Eq, Structural)]
pub enum CoreError {
    /// A line or a field fails to parse.
    Format,
    /// An IPv4 range's end address would pass the end of the address space.
    Overflow,
}

} // verus!
