//! The yes-or-no form of colour validation.

use crate::hex::is_hex_color;
use vstd::prelude::*;

verus! {

/// Whether `hexstr` has the form of a colour.
pub fn validate_hex(hexstr: &str) -> (valid: bool)
    ensures
        valid == is_hex_color(hexstr@),
{
    crate::hex::validate_hex(hexstr).is_some()
}

} // verus!
