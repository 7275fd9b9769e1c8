//! Text fields on the wire are UTF-8; this is where bytes become text.
use vstd::prelude::*;
use vstd::utf8::{decode_utf8, valid_utf8};

verus! {

/// `std::str::from_utf8`: the text that `bytes` encode when they are valid
/// UTF-8 (in the sense of vstd's `valid_utf8`), and nothing otherwise. The
/// error's detail (where the encoding breaks) is dropped here.
#[verifier::external_body]
pub(crate) fn utf8_text(bytes: &[u8]) -> (res: Option<&str>)
    ensures
        res is Some <==> valid_utf8(bytes@),
        res matches Some(s) ==> s@ == decode_utf8(bytes@),
{
    match std::str::from_utf8(bytes) {
        Ok(s) => Some(s),
        Err(_) => None,
    }
}

} // verus!
