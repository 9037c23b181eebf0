//! Text as the standard library validates it.

use vstd::prelude::*;
use vstd::string::StringSliceAdditionalSpecFns;
use vstd::utf8::valid_utf8;

verus! {

/// `core::str::Utf8Error`, the standard library's account of why bytes are
/// not UTF-8. It is carried through unread.
#[verifier::external_type_specification]
#[verifier::external_body]
pub struct ExUtf8Error(core::str::Utf8Error);

/// `core::str::from_utf8` accepts exactly the byte runs that are valid UTF-8,
/// and the text it hands out is made of the bytes it was given. Nothing is
/// claimed of the error it reports otherwise.
pub assume_specification[ core::str::from_utf8 ](v: &[u8]) -> (res: Result<
    &str,
    core::str::Utf8Error,
>)
    ensures
        res.is_ok() <==> valid_utf8(v@),
        res matches Ok(s) ==> s.spec_bytes() == v@,
;

} // verus!
