//! Unicode interval computation: a 30-category general-category set type,
//! an algebra over sorted inclusive codepoint-interval lists, a per-version
//! query engine with memoization, and a rank/select index over interval
//! lists, plus a small example-database abstraction.

use vstd::prelude::*;

pub mod categories;
pub mod database;
pub mod engine;
pub mod intervals;
pub mod intervalset;
pub mod names;

verus! {

/// Errors reported by the query surface.
#[derive(Debug, Eq, PartialEq)]
pub enum Error<'a> {
    /// The given name is not a valid Unicode category for this engine.
    InvalidCategory(&'a str),
    /// The minimum codepoint is greater than the maximum codepoint.
    InvalidCodepoints(u32, u32),
}

/// An inclusive range of Unicode codepoints.
pub type Interval = (u32, u32);

/// The largest Unicode codepoint.
pub const MAX_CODEPOINT: u32 = 1114111;

/// A codepoint `x` lies in some interval of `ivs`.
pub open spec fn covers(ivs: Seq<Interval>, x: int) -> bool {
    exists|i: int| 0 <= i < ivs.len() && (#[trigger] ivs[i]).0 <= x <= ivs[i].1
}

} // verus!
