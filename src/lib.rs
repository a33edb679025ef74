//! Building blocks of small Unix text utilities, each with its contract.
//!
//! - [`tail`]: the tail-selection engine. A count token becomes a
//!   [`tail::TakeValue`], which is resolved against the extent of an input
//!   (its lines or bytes, counted in a first pass) into a start offset; the
//!   lines or bytes from there on are then streamed out.
//! - [`decimal`]: decimal integer tokens and decimal text.
//! - [`cal`]: month and year arguments, and the grid of a month.
//! - [`cut`]: position lists and the characters, bytes or fields they select.
//! - [`head`]: positive counts.
//! - [`owner`]: permission strings such as `rwxr-x--x`.
//! - [`wc`]: line, word, byte and character counts.

pub mod cal;
pub mod cut;
pub mod decimal;
pub mod head;
pub mod owner;
pub mod tail;
pub mod wc;

use vstd::prelude::*;

verus! {

/// `before + s + after`: a text quoted inside an error message.
pub open spec fn quoted(before: Seq<char>, s: Seq<char>, after: Seq<char>) -> Seq<char> {
    before + s + after
}

/// The texts that a list of strings holds.
pub open spec fn views(v: Seq<String>) -> Seq<Seq<char>> {
    v.map_values(|s: String| s@)
}

} // verus!
