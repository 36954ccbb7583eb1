//! Login and logout: setting and clearing the session cookie.
use vstd::prelude::*;
use crate::handlers::Reply;
use crate::auth::is_authenticated;
use crate::text::{owned, starts_with_seq};

verus! {

/// The cookie that login sets.
pub open spec fn session_cookie() -> Seq<char> {
    "auth_session=true; Path=/; HttpOnly; SameSite=Lax"@
}

/// The cookie that logout sets, which the browser drops at once.
pub open spec fn cleared_cookie() -> Seq<char> {
    "auth_session=; Path=/; Max-Age=0"@
}

/// A redirection to `/` that sets `cookie` (if any).
pub open spec fn is_home_redirect(r: Reply, cookie: Option<Seq<char>>) -> bool {
    match r {
        Reply::Redirect { location, set_cookie } => {
            &&& location@ == "/"@
            &&& match (set_cookie, cookie) {
                (Some(c), Some(e)) => c@ == e,
                (None, None) => true,
                _ => false,
            }
        },
        _ => false,
    }
}

/// Login with the submitted `password`, against the configured
/// `admin_password` (`ADMIN_PASSWORD`; `None` when it is not set, which counts
/// as empty). A non-empty configured password that equals the submitted one
/// sets the session cookie; either way the browser is sent back to `/`.
pub fn login_handler(admin_password: Option<&str>, password: &str) -> (r: Reply)
    ensures
        ({
            let admin = match admin_password {
                Some(a) => a@,
                None => Seq::<char>::empty(),
            };
            if admin.len() > 0 && password@ == admin {
                is_home_redirect(r, Some(session_cookie()))
            } else {
                is_home_redirect(r, None)
            }
        }),
{
    let admin = match admin_password {
        Some(a) => owned(a),
        None => String::new(),
    };
    let submitted = owned(password);
    if !admin.as_str().is_empty() && submitted == admin {
        Reply::Redirect {
            location: owned("/"),
            set_cookie: Some(owned("auth_session=true; Path=/; HttpOnly; SameSite=Lax")),
        }
    } else {
        Reply::Redirect { location: owned("/"), set_cookie: None }
    }
}

/// Logout: clears the session cookie and sends the browser back to `/`.
pub fn logout_handler() -> (r: Reply)
    ensures
        is_home_redirect(r, Some(cleared_cookie())),
{
    Reply::Redirect {
        location: owned("/"),
        set_cookie: Some(owned("auth_session=; Path=/; Max-Age=0")),
    }
}

/// The bytes of ASCII text.
pub open spec fn ascii_bytes(s: Seq<char>) -> Seq<u8> {
    s.map_values(|c: char| c as u8)
}

/// The cookie that login sets begins with the pair `auth_session=true`,
/// which, sent back in a `Cookie` header, authenticates the request; the
/// cookie that logout sets begins with the pair `auth_session=`, which does
/// not.
pub proof fn law_login_cookie_authenticates()
    ensures
        starts_with_seq(session_cookie(), "auth_session=true;"@),
        is_authenticated(Some(ascii_bytes("auth_session=true"@))),
        starts_with_seq(cleared_cookie(), "auth_session=;"@),
        !is_authenticated(Some(ascii_bytes("auth_session="@))),
{
    reveal_strlit("auth_session=true; Path=/; HttpOnly; SameSite=Lax");
    reveal_strlit("auth_session=; Path=/; Max-Age=0");
    reveal_strlit("auth_session=true;");
    reveal_strlit("auth_session=;");
    reveal_strlit("auth_session=true");
    reveal_strlit("auth_session=");
    assert(session_cookie().subrange(0, 18) =~= "auth_session=true;"@);
    assert(cleared_cookie().subrange(0, 14) =~= "auth_session=;"@);
    let on = ascii_bytes("auth_session=true"@);
    let off = ascii_bytes("auth_session="@);
    assert(on.map_values(|x: u8| x as char) =~= "auth_session=true"@);
    assert(off.map_values(|x: u8| x as char) =~= "auth_session="@);
    assert("auth_session=true"@.subrange(0, 17) =~= "auth_session=true"@);
    assert forall|i: int| 0 <= i < on.len() implies crate::auth::visible_ascii(#[trigger] on[i]) by {
        let c = "auth_session=true"@[i];
        assert(32 <= (c as u32) < 127);
    }
    assert(crate::auth::header_text(on) == Some("auth_session=true"@));
    assert(crate::text::occurs_at("auth_session=true"@, "auth_session=true"@, 0));
}

} // verus!
