//! Text decoding at the trust boundary: turning untrusted bytes into strings.

use vstd::prelude::*;

verus! {

use vstd::utf8::{decode_utf8, valid_utf8};

/// Relies on `String::from_utf8`: it returns the string read from the given
/// bytes exactly when they are valid UTF-8, and refuses them otherwise.
#[verifier::external_body]
pub fn utf8_from_bytes(b: &Vec<u8>) -> (r: Option<String>)
    ensures
        match r {
            Some(s) => valid_utf8(b@) && s@ == decode_utf8(b@),
            None => !valid_utf8(b@),
        },
{
    match std::string::String::from_utf8(b.clone()) {
        Ok(s) => Some(s),
        Err(_) => None,
    }
}

} // verus!
