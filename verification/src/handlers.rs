//! What the HTTP handlers decide: the replies they send and the commands
//! they run, as plain values.
pub mod authentification;
pub mod browse;
pub mod download;
pub mod system;

use vstd::prelude::*;
use crate::text::{owned, views};

verus! {

/// The form of the earlier single-download handler: one URL and a category.
pub struct DownloadRequest {
    pub url: String,
    pub category: String,
}

/// An HTTP reply.
pub enum Reply {
    /// A plain-text body with a status code (`(StatusCode, text)`, or a bare
    /// `&str` with 200).
    Text { status: u16, body: String },
    /// An HTML body with status 200 (`Html(..)`).
    Html { body: String },
    /// An empty body with a status code (`StatusCode::..`).
    Status { status: u16 },
    /// A `303 See Other` redirection (`Redirect::to`), possibly setting a cookie.
    Redirect { location: String, set_cookie: Option<String> },
}

/// An external command to run: program, arguments and working directory.
pub struct CommandSpec {
    pub program: String,
    pub args: Vec<String>,
    pub current_dir: Option<String>,
}

/// How running a command went, as `Command::status` reported it (the text is
/// the `Display` rendering of the exit status or of the error).
pub enum CommandOutcome {
    Succeeded,
    Exited(String),
    SpawnFailed(String),
}

/// A text reply with this status and body.
pub open spec fn is_text(r: Reply, status: u16, body: Seq<char>) -> bool {
    r matches Reply::Text { status: s, body: b } && s == status && b@ == body
}

/// An HTML reply with this body.
pub open spec fn is_html(r: Reply, body: Seq<char>) -> bool {
    r matches Reply::Html { body: b } && b@ == body
}

/// The reply to a request that lacks the session cookie.
pub open spec fn is_unauthorized(r: Reply) -> bool {
    is_text(r, 401, "Unauthorized"@)
}

/// A command with this program, these arguments and no working directory.
pub open spec fn is_command(c: CommandSpec, program: Seq<char>, args: Seq<Seq<char>>) -> bool {
    &&& c.program@ == program
    &&& views(c.args@) == args
    &&& c.current_dir is None
}

/// A text reply.
pub fn text_reply(status: u16, body: &str) -> (r: Reply)
    ensures
        is_text(r, status, body@),
{
    Reply::Text { status, body: owned(body) }
}

/// The `401 Unauthorized` reply.
pub fn unauthorized() -> (r: Reply)
    ensures
        is_unauthorized(r),
{
    text_reply(401, "Unauthorized")
}

/// A vector of owned strings with the given contents.
pub fn strings(parts: &[&str]) -> (r: Vec<String>)
    ensures
        r@.len() == parts@.len(),
        forall|i: int| 0 <= i < parts@.len() ==> #[trigger] r@[i]@ == parts@[i]@,
{
    let mut r: Vec<String> = Vec::new();
    let mut i: usize = 0;
    while i < parts.len()
        invariant
            i <= parts@.len(),
            r@.len() == i,
            forall|k: int| 0 <= k < i ==> #[trigger] r@[k]@ == parts@[k]@,
        decreases parts@.len() - i,
    {
        r.push(owned(parts[i]));
        i = i + 1;
    }
    r
}

} // verus!
