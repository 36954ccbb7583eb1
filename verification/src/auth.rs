//! Session check on the `Cookie` request header.
use vstd::prelude::*;
use crate::text::{chars_of, contains_chars, contains_seq};

verus! {

/// The login form.
pub struct LoginRequest {
    pub password: String,
}

/// A header byte that `HeaderValue::to_str` accepts: visible ASCII or tab.
pub open spec fn visible_ascii(b: u8) -> bool {
    (32 <= b && b < 127) || b == 9
}

/// The text of a header value, as `HeaderValue::to_str` gives it: the bytes
/// read as ASCII when all of them are visible, and no text otherwise.
pub open spec fn header_text(b: Seq<u8>) -> Option<Seq<char>> {
    if forall|i: int| 0 <= i < b.len() ==> visible_ascii(#[trigger] b[i]) {
        Some(b.map_values(|x: u8| x as char))
    } else {
        None
    }
}

/// A request is authenticated when its `Cookie` header is readable text
/// holding `auth_session=true`.
pub open spec fn is_authenticated(cookie: Option<Seq<u8>>) -> bool {
    match cookie {
        Some(b) => match header_text(b) {
            Some(t) => contains_seq(t, "auth_session=true"@),
            None => false,
        },
        None => false,
    }
}

/// The bytes of an optional header value.
pub open spec fn cookie_bytes(cookie: Option<&[u8]>) -> Option<Seq<u8>> {
    match cookie {
        Some(c) => Some(c@),
        None => None,
    }
}

/// Whether a request with this `Cookie` header value (if any) carries the
/// session cookie.
pub fn check_auth(cookie: Option<&[u8]>) -> (b: bool)
    ensures
        b == is_authenticated(cookie_bytes(cookie)),
{
    match cookie {
        None => false,
        Some(bytes) => {
            let mut text: Vec<char> = Vec::new();
            let mut i: usize = 0;
            while i < bytes.len()
                invariant
                    cookie == Some(bytes),
                    i <= bytes@.len(),
                    text@ == bytes@.take(i as int).map_values(|x: u8| x as char),
                    forall|k: int| 0 <= k < i ==> visible_ascii(#[trigger] bytes@[k]),
                decreases bytes@.len() - i,
            {
                let b = bytes[i];
                if !((32 <= b && b < 127) || b == 9) {
                    assert(!visible_ascii(bytes@[i as int]));
                    assert(header_text(bytes@) is None);
                    assert(cookie_bytes(cookie) == Some(bytes@));
                    assert(!is_authenticated(Some(bytes@)));
                    return false;
                }
                text.push(b as char);
                i = i + 1;
                assert(text@ =~= bytes@.take(i as int).map_values(|x: u8| x as char));
            }
            assert(bytes@.take(i as int) =~= bytes@);
            let pattern = chars_of("auth_session=true");
            contains_chars(&text, &pattern)
        },
    }
}

} // verus!
