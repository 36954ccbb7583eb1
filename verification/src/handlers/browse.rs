//! The directory browser: which folder to show and how it is listed.
use vstd::prelude::*;
use crate::handlers::{is_html, is_unauthorized, unauthorized, Reply};
use crate::text::{
    chars_of, escape_html, escaped, last_index_of, lex_less, owned, push_escaped, push_str,
    seq_eq, sort_strings, sorted_lex, split_chars, split_on, starts_with_seq, str_eq, string_of,
    string_of_range, views,
};

verus! {

/// The query of the directory browser.
pub struct BrowseQuery {
    pub path: Option<String>,
}

/// The folder the browser is confined to and the path it was asked for.
pub struct BrowseTarget {
    pub root: String,
    pub raw_path: String,
}

/// One entry of a directory: its name (read as text) and whether it is a
/// directory.
pub struct DirEntryInfo {
    pub name: String,
    pub is_dir: bool,
}

/// Escapes text for HTML, including double quotes.
pub fn esc(s: &str) -> (r: String)
    ensures
        r@ == escape_html(s@, true),
{
    escaped(s, true)
}

/// Number of `/` at the end of `s`.
pub open spec fn trailing_slashes(s: Seq<char>) -> nat
    decreases s.len(),
{
    if s.len() > 0 && s.last() == '/' {
        1 + trailing_slashes(s.drop_last())
    } else {
        0
    }
}

/// `s` without its trailing `/` (`str::trim_end_matches('/')`).
pub open spec fn trim_end_slashes(s: Seq<char>) -> Seq<char> {
    s.take(s.len() - trailing_slashes(s))
}

proof fn lemma_trailing_slashes_bound(s: Seq<char>)
    ensures
        trailing_slashes(s) <= s.len(),
    decreases s.len(),
{
    if s.len() > 0 && s.last() == '/' {
        lemma_trailing_slashes_bound(s.drop_last());
    }
}

/// `s` without its trailing `/`.
pub fn trim_end_slashes_of(s: &str) -> (r: String)
    ensures
        r@ == trim_end_slashes(s@),
{
    let v = chars_of(s);
    let n = v.len();
    let mut j = n;
    assert(v@.take(n as int) =~= v@);
    while j > 0 && v[j - 1] == '/'
        invariant
            j <= n == v@.len(),
            trailing_slashes(v@) == (n - j) + trailing_slashes(v@.take(j as int)),
        decreases j,
    {
        assert(v@.take(j as int).drop_last() =~= v@.take(j - 1));
        j = j - 1;
    }
    assert(trailing_slashes(v@.take(j as int)) == 0);
    let r = string_of_range(&v, 0, j);
    assert(v@.subrange(0, j as int) =~= v@.take(j as int));
    r
}

/// The browser's root folder: `BROWSE_ROOT` (`/stockage` when unset)
/// without trailing `/`.
pub open spec fn browse_root_of(env: Option<Seq<char>>) -> Seq<char> {
    trim_end_slashes(
        match env {
            Some(r) => r,
            None => "/stockage"@,
        },
    )
}

/// `browse_handler`: unauthenticated requests get `401`; otherwise the root
/// folder and the asked path (the root itself when the query names none).
pub fn browse_handler(authenticated: bool, root_env: Option<&str>, query_path: Option<&str>) -> (r:
    Result<BrowseTarget, Reply>)
    ensures
        !authenticated ==> (r matches Err(e) && is_unauthorized(e)),
        authenticated ==> (r matches Ok(t) && t.root@ == browse_root_of(
            match root_env {
                Some(e) => Some(e@),
                None => None,
            },
        ) && t.raw_path@ == match query_path {
            Some(p) => p@,
            None => t.root@,
        }),
{
    if !authenticated {
        return Err(unauthorized());
    }
    let configured = match root_env {
        Some(e) => owned(e),
        None => owned("/stockage"),
    };
    let root = trim_end_slashes_of(configured.as_str());
    let raw_path = match query_path {
        Some(p) => owned(p),
        None => root.clone(),
    };
    Ok(BrowseTarget { root, raw_path })
}

// ---------------------------------------------------------------------------
// Path components (`Path::components` on Unix), with the root written `/`
// ---------------------------------------------------------------------------

/// The components of a path, as `Path::components` yields them: the root
/// (written `/`) when the path is absolute, a leading `.` when the path starts
/// with a `.` component, then every non-empty piece between separators other
/// than `.` (`..` kept).
pub open spec fn components(s: Seq<char>) -> Seq<Seq<char>> {
    let pieces = split_on(s, '/');
    let head = if s.len() > 0 && s[0] == '/' {
        seq!["/"@]
    } else if pieces[0] == "."@ {
        seq!["."@]
    } else {
        Seq::empty()
    };
    head + pieces.filter(|p: Seq<char>| p.len() > 0 && p != "."@)
}

/// `Path::starts_with`: the components of `base` begin the components of
/// `path`.
pub open spec fn path_starts_with_spec(path: Seq<char>, base: Seq<char>) -> bool {
    starts_with_seq(components(path), components(base))
}

/// The components of a path.
pub fn path_components(s: &str) -> (r: Vec<Vec<char>>)
    ensures
        r@.map_values(|c: Vec<char>| c@) == components(s@),
{
    let v = chars_of(s);
    let pieces = split_chars(&v, '/');
    proof {
        crate::text::lemma_split_on_nonempty(v@, '/');
    }
    let ghost ps = split_on(s@, '/');
    assert(pieces@.map_values(|p: Vec<char>| p@) == ps);
    let dot = chars_of(".");
    let mut out: Vec<Vec<char>> = Vec::new();
    if v.len() > 0 && v[0] == '/' {
        out.push(chars_of("/"));
    } else if seq_eq(&pieces[0], &dot) {
        out.push(dot.clone());
    }
    let ghost head = out@.map_values(|c: Vec<char>| c@);
    assert(head =~= if s@.len() > 0 && s@[0] == '/' {
        seq!["/"@]
    } else if ps[0] == "."@ {
        seq!["."@]
    } else {
        Seq::<Seq<char>>::empty()
    });
    let mut i: usize = 0;
    while i < pieces.len()
        invariant
            i <= pieces@.len(),
            pieces@.map_values(|p: Vec<char>| p@) == ps,
            dot@ == "."@,
            out@.map_values(|c: Vec<char>| c@) == head + ps.take(i as int).filter(
                |p: Seq<char>| p.len() > 0 && p != "."@,
            ),
        decreases pieces@.len() - i,
    {
        let p = &pieces[i];
        assert(p@ == ps[i as int]);
        proof {
            reveal(Seq::filter);
            assert(ps.take(i + 1).drop_last() =~= ps.take(i as int));
            assert(ps.take(i + 1).last() == ps[i as int]);
        }
        if p.len() > 0 && !seq_eq(p, &dot) {
            let ghost old_out = out@;
            out.push(p.clone());
            assert(out@.map_values(|c: Vec<char>| c@) =~= old_out.map_values(|c: Vec<char>| c@).push(
                p@,
            ));
        }
        i = i + 1;
    }
    assert(ps.take(i as int) =~= ps);
    out
}

/// `Path::starts_with`.
pub fn path_starts_with(path: &str, base: &str) -> (b: bool)
    ensures
        b == path_starts_with_spec(path@, base@),
{
    let pc = path_components(path);
    let bc = path_components(base);
    let ghost pv = pc@.map_values(|c: Vec<char>| c@);
    let ghost bv = bc@.map_values(|c: Vec<char>| c@);
    if bc.len() > pc.len() {
        return false;
    }
    let mut k: usize = 0;
    while k < bc.len()
        invariant
            bc@.len() <= pc@.len(),
            pv == components(path@),
            bv == components(base@),
            pv == pc@.map_values(|c: Vec<char>| c@),
            bv == bc@.map_values(|c: Vec<char>| c@),
            k <= bc@.len(),
            forall|m: int| 0 <= m < k ==> pv[m] == bv[m],
        decreases bc@.len() - k,
    {
        if !seq_eq(&pc[k], &bc[k]) {
            assert(pv.subrange(0, bv.len() as int)[k as int] != bv[k as int]);
            return false;
        }
        k = k + 1;
    }
    assert(pv.subrange(0, bv.len() as int) =~= bv);
    true
}

/// Every path lies within itself, so the root folder itself may always be
/// listed.
pub proof fn law_path_within_itself(p: Seq<char>)
    ensures
        path_starts_with_spec(p, p),
{
    assert(components(p).subrange(0, components(p).len() as int) =~= components(p));
}

// ---------------------------------------------------------------------------
// Canonical paths
// ---------------------------------------------------------------------------

/// A canonical absolute path, as `canonicalize` returns: `/`, or `/`
/// followed by non-empty names other than `.` and `..` joined by `/`.
pub open spec fn is_canonical(p: Seq<char>) -> bool {
    ||| p == seq!['/']
    ||| {
        &&& p.len() > 1
        &&& p[0] == '/'
        &&& forall|i: int|
            0 <= i < split_on(p.drop_first(), '/').len() ==> {
                let q = #[trigger] split_on(p.drop_first(), '/')[i];
                q.len() > 0 && q != "."@ && q != ".."@
            }
    }
}

/// The parent of a canonical path (`Path::parent`): none for `/`, `/` for a
/// top-level folder, otherwise everything before the last `/`.
pub open spec fn parent_path(p: Seq<char>) -> Option<Seq<char>> {
    if p == seq!['/'] {
        None
    } else {
        let i = last_index_of(p, '/');
        if i == 0 {
            Some(seq!['/'])
        } else {
            Some(p.take(i))
        }
    }
}

/// Whether `p` is a canonical absolute path.
pub fn is_canonical_path(p: &str) -> (b: bool)
    ensures
        b == is_canonical(p@),
{
    let v = chars_of(p);
    if v.len() == 1 && v[0] == '/' {
        assert(v@ =~= seq!['/']);
        return true;
    }
    if v.len() <= 1 || v[0] != '/' {
        assert(v@ != seq!['/']);
        return false;
    }
    assert(v@ != seq!['/']);
    let rest = string_of_range(&v, 1, v.len());
    assert(rest@ =~= v@.drop_first());
    let rv = chars_of(rest.as_str());
    let pieces = split_chars(&rv, '/');
    let ghost ps = split_on(v@.drop_first(), '/');
    assert(pieces@.map_values(|q: Vec<char>| q@) == ps);
    let dot = chars_of(".");
    let dotdot = chars_of("..");
    let mut i: usize = 0;
    while i < pieces.len()
        invariant
            i <= pieces@.len(),
            pieces@.map_values(|q: Vec<char>| q@) == ps,
            ps == split_on(p@.drop_first(), '/'),
            v@ == p@,
            v@ != seq!['/'],
            dot@ == "."@,
            dotdot@ == ".."@,
            forall|k: int| 0 <= k < i ==> {
                let q = #[trigger] ps[k];
                q.len() > 0 && q != "."@ && q != ".."@
            },
        decreases pieces@.len() - i,
    {
        let q = &pieces[i];
        assert(q@ == ps[i as int]);
        if q.len() == 0 || seq_eq(q, &dot) || seq_eq(q, &dotdot) {
            assert(!(ps[i as int].len() > 0 && ps[i as int] != "."@ && ps[i as int] != ".."@));
            return false;
        }
        i = i + 1;
    }
    true
}

/// The parent of a canonical path.
pub fn parent_of(p: &str) -> (r: Option<String>)
    requires
        is_canonical(p@),
    ensures
        match (r, parent_path(p@)) {
            (Some(a), Some(b)) => a@ == b,
            (None, None) => true,
            _ => false,
        },
{
    let v = chars_of(p);
    if v.len() == 1 {
        assert(v@ =~= seq!['/']);
        return None;
    }
    assert(v@ != seq!['/']);
    let n = v.len();
    let mut j = n;
    assert(v@.take(n as int) =~= v@);
    while j > 0 && v[j - 1] != '/'
        invariant
            1 <= j <= n == v@.len(),
            v@[0] == '/',
            last_index_of(v@, '/') == last_index_of(v@.take(j as int), '/'),
        decreases j,
    {
        assert(v@.take(j as int).drop_last() =~= v@.take(j - 1));
        j = j - 1;
    }
    assert(j > 0);
    assert(v@.take(j as int).last() == '/');
    if j == 1 {
        let r = owned("/");
        proof {
            reveal_strlit("/");
        }
        assert(r@ =~= seq!['/']);
        return Some(r);
    }
    let r = string_of_range(&v, 0, j - 1);
    assert(v@.subrange(0, j - 1) =~= v@.take(j - 1));
    Some(r)
}

// ---------------------------------------------------------------------------
// Replies
// ---------------------------------------------------------------------------

/// The reply when the asked path cannot be resolved.
pub open spec fn invalid_path_html() -> Seq<char> {
    "<div style=\"color:#d9534f;font-family:monospace;padding:8px;\">Chemin invalide ou inaccessible.</div>"@
}

/// The reply when the resolved path lies outside the root.
pub open spec fn outside_root_html(root: Seq<char>) -> Seq<char> {
    "<div style=\"color:#d9534f;font-family:monospace;padding:8px;\">Accès refusé : hors de "@ + root + ".</div>"@
}

/// The reply when the folder cannot be read.
pub open spec fn unreadable_html() -> Seq<char> {
    "<div style=\"color:#d9534f;font-family:monospace;padding:8px;\">Permission refusée.</div>"@
}

/// Why the browser refuses to list a path: it could not be resolved
/// (`canonical` is `None`), or it lies outside the root; `None` when it may be
/// listed.
pub fn browse_refusal(root: &str, canonical: Option<&str>) -> (r: Option<Reply>)
    ensures
        match canonical {
            None => r matches Some(e) && is_html(e, invalid_path_html()),
            Some(c) => if path_starts_with_spec(c@, root@) {
                r is None
            } else {
                r matches Some(e) && is_html(e, outside_root_html(root@))
            },
        },
{
    match canonical {
        None => Some(Reply::Html { body: owned("<div style=\"color:#d9534f;font-family:monospace;padding:8px;\">Chemin invalide ou inaccessible.</div>") }),
        Some(c) => if path_starts_with(c, root) {
            None
        } else {
            let mut body = owned("<div style=\"color:#d9534f;font-family:monospace;padding:8px;\">Accès refusé : hors de ");
            push_str(&mut body, root);
            push_str(&mut body, ".</div>");
            Some(Reply::Html { body })
        },
    }
}

/// The sub-folders worth listing: directories whose name does not start with
/// `.`.
pub open spec fn visible_dirs(entries: Seq<DirEntryInfo>) -> Seq<Seq<char>> {
    entries.filter(|e: DirEntryInfo| e.is_dir && !(e.name@.len() > 0 && e.name@[0] == '.')).map_values(
        |e: DirEntryInfo| e.name@,
    )
}

/// The sub-folders to list, sorted by name.
pub fn visible_subdirs(entries: &Vec<DirEntryInfo>) -> (r: Vec<String>)
    ensures
        sorted_lex(views(r@)),
        views(r@).to_multiset() == visible_dirs(entries@).to_multiset(),
{
    let mut names: Vec<String> = Vec::new();
    let mut i: usize = 0;
    while i < entries.len()
        invariant
            i <= entries@.len(),
            views(names@) == entries@.take(i as int).filter(
                |e: DirEntryInfo| e.is_dir && !(e.name@.len() > 0 && e.name@[0] == '.'),
            ).map_values(|e: DirEntryInfo| e.name@),
        decreases entries@.len() - i,
    {
        let e = &entries[i];
        let v = chars_of(e.name.as_str());
        proof {
            reveal(Seq::filter);
            assert(entries@.take(i + 1).drop_last() =~= entries@.take(i as int));
            assert(entries@.take(i + 1).last() == entries@[i as int]);
        }
        if e.is_dir && !(v.len() > 0 && v[0] == '.') {
            let ghost old_names = names@;
            names.push(e.name.clone());
            assert(views(names@) =~= views(old_names).push(e.name@));
            assert(entries@.take(i + 1).filter(
                |e: DirEntryInfo| e.is_dir && !(e.name@.len() > 0 && e.name@[0] == '.'),
            ).map_values(|e: DirEntryInfo| e.name@) =~= entries@.take(i as int).filter(
                |e: DirEntryInfo| e.is_dir && !(e.name@.len() > 0 && e.name@[0] == '.'),
            ).map_values(|e: DirEntryInfo| e.name@).push(e.name@));
        }
        i = i + 1;
    }
    assert(entries@.take(i as int) =~= entries@);
    sort_strings(names)
}

/// The line of one sub-folder of `path`.
pub open spec fn item_html(path: Seq<char>, dir: Seq<char>) -> Seq<char> {
    "<div class=\"fb-item\" hx-get=\"/browse?path="@ + escape_html(trim_end_slashes(path) + "/"@ + dir, true) + "\" hx-target=\"#browser-content\" hx-swap=\"innerHTML\" style=\""@ + "padding:7px 10px;cursor:pointer;border-radius:4px;font-family:monospace;font-size:0.88em;display:flex;align-items:center;gap:8px;border-bottom:1px solid #1e1e1e;"@ + "\">&#128193;&nbsp;"@
        + escape_html(dir, true) + "</div>"@
}

/// The lines of the sub-folders, in order.
pub open spec fn items_html(path: Seq<char>, dirs: Seq<Seq<char>>) -> Seq<char>
    decreases dirs.len(),
{
    if dirs.len() == 0 {
        Seq::empty()
    } else {
        items_html(path, dirs.drop_last()) + item_html(path, dirs.last())
    }
}

/// The listing of `path` (canonical, inside `root`) with sub-folders `dirs`:
/// a marker holding the path, a link to the parent unless the path is the
/// root itself, a note when there is no sub-folder, and one link per
/// sub-folder.
pub open spec fn listing_html(root: Seq<char>, path: Seq<char>, dirs: Seq<Seq<char>>) -> Seq<char> {
    let parent = match parent_path(path) {
        Some(p) => p,
        None => root,
    };
    "<div data-current-path=\""@ + escape_html(path, true) + "\" style=\"display:none;\"></div>"@ + (if path != root {
        "<div class=\"fb-item\" hx-get=\"/browse?path="@ + escape_html(parent, true) + "\" hx-target=\"#browser-content\" hx-swap=\"innerHTML\" style=\""@ + "padding:7px 10px;cursor:pointer;border-radius:4px;font-family:monospace;font-size:0.88em;display:flex;align-items:center;gap:8px;border-bottom:1px solid #1e1e1e;"@ + "\">&uarr;&nbsp;..</div>"@
    } else {
        Seq::empty()
    }) + (if dirs.len() == 0 {
        "<div style=\"color:#666;font-family:monospace;font-size:0.85em;padding:10px;\">Aucun sous-dossier</div>"@
    } else {
        Seq::empty()
    }) + items_html(path, dirs)
}

/// The `..` link of a listing goes to the parent folder: for a canonical path
/// `q/last` other than the root, the listing opens with the marker of the
/// path and then a link to `q` (to `/` when `q` is empty), e.g. from
/// `/a/b/c` to `/a/b`.
pub proof fn law_listing_links_to_parent(
    root: Seq<char>,
    q: Seq<char>,
    last: Seq<char>,
    dirs: Seq<Seq<char>>,
)
    requires
        last.len() > 0,
        forall|i: int| 0 <= i < last.len() ==> last[i] != '/',
        is_canonical(q + "/"@ + last),
        q + "/"@ + last != root,
    ensures
        ({
            let path = q + "/"@ + last;
            let target = if q.len() == 0 {
                seq!['/']
            } else {
                q
            };
            starts_with_seq(
                listing_html(root, path, dirs),
                "<div data-current-path=\""@ + escape_html(path, true)
                    + "\" style=\"display:none;\"></div>"@
                    + "<div class=\"fb-item\" hx-get=\"/browse?path="@ + escape_html(target, true)
                    + "\" hx-target=\"#browser-content\" hx-swap=\"innerHTML\" style=\""@,
            )
        }),
{
    reveal_strlit("/");
    let path = q + "/"@ + last;
    assert(path =~= q.push('/') + last);
    crate::text::lemma_last_index_skip(q.push('/'), last, '/');
    assert(q.push('/').last() == '/');
    assert(last_index_of(q.push('/'), '/') == q.len());
    assert(path != seq!['/']);
    if q.len() > 0 {
        assert(path.take(q.len() as int) =~= q);
    }
    let target = if q.len() == 0 {
        seq!['/']
    } else {
        q
    };
    assert(parent_path(path) == Some(target));
    let a = "<div data-current-path=\""@ + escape_html(path, true) + "\" style=\"display:none;\"></div>"@;
    let l1 = "<div class=\"fb-item\" hx-get=\"/browse?path="@;
    let l2 = "\" hx-target=\"#browser-content\" hx-swap=\"innerHTML\" style=\""@;
    let pre = a + l1 + escape_html(target, true) + l2;
    let rest = "padding:7px 10px;cursor:pointer;border-radius:4px;font-family:monospace;font-size:0.88em;display:flex;align-items:center;gap:8px;border-bottom:1px solid #1e1e1e;"@
        + "\">&uarr;&nbsp;..</div>"@ + (if dirs.len() == 0 {
        "<div style=\"color:#666;font-family:monospace;font-size:0.85em;padding:10px;\">Aucun sous-dossier</div>"@
    } else {
        Seq::empty()
    }) + items_html(path, dirs);
    let all = listing_html(root, path, dirs);
    assert(all =~= pre + rest);
    assert(all.subrange(0, pre.len() as int) =~= pre);
}

/// The listing reply for the canonical `path`, given its sub-folders, or
/// `None` when the folder could not be read.
#[verifier::rlimit(40)]
pub fn render_listing(root: &str, path: &str, dirs: Option<&Vec<String>>) -> (r: Reply)
    requires
        is_canonical(path@),
    ensures
        match dirs {
            None => is_html(r, unreadable_html()),
            Some(d) => is_html(r, listing_html(root@, path@, views(d@))),
        },
{
    let dirs = match dirs {
        None => return Reply::Html { body: owned("<div style=\"color:#d9534f;font-family:monospace;padding:8px;\">Permission refusée.</div>") },
        Some(d) => d,
    };
    let mut html = owned("<div data-current-path=\"");
    push_escaped(&mut html, path, true);
    push_str(&mut html, "\" style=\"display:none;\"></div>");
    let ghost after_head = html@;
    if !str_eq(path, root) {
        let parent = match parent_of(path) {
            Some(p) => p,
            None => owned(root),
        };
        push_str(&mut html, "<div class=\"fb-item\" hx-get=\"/browse?path=");
        push_escaped(&mut html, parent.as_str(), true);
        push_str(&mut html, "\" hx-target=\"#browser-content\" hx-swap=\"innerHTML\" style=\"");
        push_str(&mut html, "padding:7px 10px;cursor:pointer;border-radius:4px;font-family:monospace;font-size:0.88em;display:flex;align-items:center;gap:8px;border-bottom:1px solid #1e1e1e;");
        push_str(&mut html, "\">&uarr;&nbsp;..</div>");
    }
    if dirs.len() == 0 {
        push_str(&mut html, "<div style=\"color:#666;font-family:monospace;font-size:0.85em;padding:10px;\">Aucun sous-dossier</div>");
    }
    let ghost before_items = html@;
    let base = trim_end_slashes_of(path);
    let mut k: usize = 0;
    while k < dirs.len()
        invariant
            k <= dirs@.len(),
            base@ == trim_end_slashes(path@),
            html@ == before_items + items_html(path@, views(dirs@).take(k as int)),
        decreases dirs@.len() - k,
    {
        let dir = &dirs[k];
        let mut full = base.clone();
        push_str(&mut full, "/");
        push_str(&mut full, dir.as_str());
        push_str(&mut html, "<div class=\"fb-item\" hx-get=\"/browse?path=");
        push_escaped(&mut html, full.as_str(), true);
        push_str(&mut html, "\" hx-target=\"#browser-content\" hx-swap=\"innerHTML\" style=\"");
        push_str(&mut html, "padding:7px 10px;cursor:pointer;border-radius:4px;font-family:monospace;font-size:0.88em;display:flex;align-items:center;gap:8px;border-bottom:1px solid #1e1e1e;");
        push_str(&mut html, "\">&#128193;&nbsp;");
        push_escaped(&mut html, dir.as_str(), true);
        push_str(&mut html, "</div>");
        proof {
            assert(views(dirs@).take(k + 1).drop_last() =~= views(dirs@).take(k as int));
            assert(views(dirs@).take(k + 1).last() == dir@);
        }
        k = k + 1;
        assert(html@ =~= before_items + items_html(path@, views(dirs@).take(k as int)));
    }
    assert(views(dirs@).take(k as int) =~= views(dirs@));
    assert(html@ =~= listing_html(root@, path@, views(dirs@)));
    Reply::Html { body: html }
}

} // verus!
