//! Validation of colours written as `#` and six alphanumeric characters.

use crate::text::chars_of;
use crate::unicode::{is_alphanumeric, is_alphanumeric_char};
use vstd::prelude::*;
use vstd::utf8::encode_utf8;

verus! {

/// Whether character `c` may stand at `position` of a colour, given whether it
/// is alphanumeric: the first character is `#`, every other one is
/// alphanumeric.
pub open spec fn char_fits(position: int, c: char, alphanumeric: bool) -> bool {
    if position == 0 {
        c == '#'
    } else {
        alphanumeric
    }
}

/// Whether `text` has the form of a colour: seven bytes long in UTF-8, not
/// empty, and with every character fitting its position.
pub open spec fn is_hex_color(text: Seq<char>) -> bool {
    &&& encode_utf8(text).len() == 7
    &&& text.len() >= 1
    &&& forall|i: int|
        0 <= i < text.len() ==> char_fits(i, #[trigger] text[i], is_alphanumeric_char(text[i]))
}

/// Decides whether `c` may stand at `position`, given whether it is
/// alphanumeric.
pub fn fits(position: usize, c: char, alphanumeric: bool) -> (ok: bool)
    ensures
        ok == char_fits(position as int, c, alphanumeric),
{
    if position == 0 {
        c == '#'
    } else {
        alphanumeric
    }
}

/// Returns `hexstr` if it has the form of a colour, and `None` if not.
pub fn validate_hex(hexstr: &str) -> (valid: Option<&str>)
    ensures
        valid is Some <==> is_hex_color(hexstr@),
        valid matches Some(color) ==> color@ == hexstr@,
{
    if hexstr.as_bytes().len() != 7 {
        return None;
    }
    let chars: Vec<char> = chars_of(hexstr);
    assert(hexstr@.len() >= 1) by {
        if hexstr@.len() == 0 {
            assert(encode_utf8(hexstr@).len() == 0);
        }
    }
    let mut position: usize = 0;
    while position < chars.len()
        invariant
            chars@ == hexstr@,
            position <= chars@.len(),
            forall|i: int|
                0 <= i < position ==> char_fits(
                    i,
                    #[trigger] hexstr@[i],
                    is_alphanumeric_char(hexstr@[i]),
                ),
        decreases chars@.len() - position,
    {
        let c: char = chars[position];
        if !fits(position, c, is_alphanumeric(c)) {
            return None;
        }
        position += 1;
    }
    Some(hexstr)
}

} // verus!
