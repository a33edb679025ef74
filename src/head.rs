//! Counts for `head`.

use crate::decimal::DecimalInt;
use vstd::prelude::*;

verus! {

/// Parses a strictly positive count; the error holds the token as given.
pub fn parse_positive_int(val: &str) -> (r: Result<usize, String>)
    ensures
        match <usize as DecimalInt>::token_value(val@) {
            Some(n) => if n > 0 {
                r == Ok::<usize, String>(n)
            } else {
                r matches Err(e) && e@ == val@
            },
            None => r matches Err(e) && e@ == val@,
        },
{
    match usize::parse_decimal(val) {
        Some(n) => {
            if n > 0 {
                Ok(n)
            } else {
                Err(val.to_owned())
            }
        },
        None => Err(val.to_owned()),
    }
}

} // verus!
