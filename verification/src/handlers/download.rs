//! Starting, following and stopping downloads.
use vstd::prelude::*;
use crate::handlers::{
    is_command, is_html, is_text, is_unauthorized, strings, text_reply, unauthorized,
    CommandSpec, Reply,
};
use crate::state::{
    ids_well_formed, logs_after, running_tasks, finished_tasks, task_position, DownloadState,
    DownloadTask, StopTarget,
};
use crate::text::{
    chars_of, contains, contains_seq, dec, escape_html, escaped, is_ws, last_index_of, lead_ws, trail_ws, owned, push_dec,
    push_str, str_eq, trim, trim_spec, views,
};

verus! {

/// The download form: one or more URLs, a category and an optional folder.
pub struct DownloadRequest {
    pub url: Vec<String>,
    pub category: String,
    pub custom_path: Option<String>,
}

/// The stop form.
pub struct StopRequest {
    pub task_id: u32,
}

/// A download to run: the task it reports to and the downloader command.
pub struct DownloadJob {
    pub task_id: u32,
    pub command: CommandSpec,
}

/// The configured value, or the default when unset.
pub open spec fn or_default(v: Option<Seq<char>>, d: Seq<char>) -> Seq<char> {
    match v {
        Some(x) => x,
        None => d,
    }
}

/// The spec view of an optional string slice.
pub open spec fn opt_view(o: Option<&str>) -> Option<Seq<char>> {
    match o {
        Some(s) => Some(s@),
        None => None,
    }
}

/// Where a download goes: `film` → the movie folder (`MOVIE_PATH`, by
/// default `/stockage/videos/films`), `video` → the video folder
/// (`VIDEO_PATH`, `/stockage/videos`), `custom` → the custom folder trimmed,
/// if it is not blank, and otherwise (as for any other category) the download
/// folder (`DOWNLOAD_PATH`, `/stockage/telechargements`).
pub open spec fn target_dir_for(
    category: Seq<char>,
    custom_path: Option<Seq<char>>,
    movie: Option<Seq<char>>,
    video: Option<Seq<char>>,
    download: Option<Seq<char>>,
) -> Seq<char> {
    let download_dir = or_default(download, "/stockage/telechargements"@);
    if category == "film"@ {
        or_default(movie, "/stockage/videos/films"@)
    } else if category == "video"@ {
        or_default(video, "/stockage/videos"@)
    } else if category == "custom"@ {
        match custom_path {
            Some(p) => if trim_spec(p).len() > 0 {
                trim_spec(p)
            } else {
                download_dir
            },
            None => download_dir,
        }
    } else {
        download_dir
    }
}

/// Where downloads go, by category: `film` and `video` go to the configured
/// movie and video folders when they are set; every other category but
/// `custom` goes to the configured download folder when it is set, and to
/// `/stockage/telechargements` only when it is not (and no other setting
/// matters); a `custom` request without a folder, or with a blank one, goes
/// where any other category goes, and one with a folder goes to that folder
/// with its surrounding whitespace cut off: a part of it that starts and ends
/// with a character that is not whitespace, with only whitespace around it.
pub proof fn law_download_folders(
    category: Seq<char>,
    custom: Option<Seq<char>>,
    movie: Option<Seq<char>>,
    video: Option<Seq<char>>,
    download: Option<Seq<char>>,
    other_custom: Option<Seq<char>>,
    other_movie: Option<Seq<char>>,
    other_video: Option<Seq<char>>,
    d: Seq<char>,
)
    ensures
        movie matches Some(m) ==> target_dir_for("film"@, custom, movie, video, download) == m,
        video matches Some(v) ==> target_dir_for("video"@, custom, movie, video, download) == v,
        category != "film"@ && category != "video"@ && category != "custom"@ ==> {
            &&& target_dir_for(category, custom, movie, video, Some(d)) == d
            &&& target_dir_for(category, custom, movie, video, None) == "/stockage/telechargements"@
            &&& target_dir_for(category, other_custom, other_movie, other_video, download)
                == target_dir_for(category, custom, movie, video, download)
        },
        (custom matches Some(p) ==> forall|i: int| 0 <= i < p.len() ==> is_ws(#[trigger] p[i]))
            ==> target_dir_for(
            "custom"@,
            custom,
            movie,
            video,
            download,
        ) == target_dir_for("other"@, custom, movie, video, download),
        (custom matches Some(p) && exists|i: int| 0 <= i < p.len() && !is_ws(#[trigger] p[i]))
            ==> exists|a: int, b: int|
            {
                &&& 0 <= a < b <= custom->Some_0.len()
                &&& target_dir_for("custom"@, custom, movie, video, download)
                    == #[trigger] custom->Some_0.subrange(a, b)
                &&& forall|i: int| 0 <= i < a ==> is_ws(#[trigger] custom->Some_0[i])
                &&& forall|i: int| b <= i < custom->Some_0.len() ==> is_ws(#[trigger] custom->Some_0[i])
                &&& !is_ws(custom->Some_0[a])
                &&& !is_ws(custom->Some_0[b - 1])
            },
{
    reveal_strlit("film");
    reveal_strlit("video");
    reveal_strlit("custom");
    reveal_strlit("other");
    assert("film"@.len() == 4 && "video"@.len() == 5 && "custom"@.len() == 6 && "other"@.len() == 5);
    assert("other"@ != "video"@) by {
        assert("other"@[0] != "video"@[0]);
    }
    assert("custom"@ != "film"@ && "custom"@ != "video"@ && "video"@ != "film"@);
    if let Some(p) = custom {
        if forall|i: int| 0 <= i < p.len() ==> is_ws(#[trigger] p[i]) {
            crate::text::lemma_blank_trims_to_nothing(p);
        } else {
            let k = choose|i: int| 0 <= i < p.len() && !is_ws(#[trigger] p[i]);
            crate::text::lemma_lead_ws_shape(p);
            let t = p.skip(lead_ws(p) as int);
            crate::text::lemma_trail_ws_shape(t);
            assert(lead_ws(p) <= k);
            assert(t[k - lead_ws(p)] == p[k]);
            assert(trail_ws(t) < t.len() - (k - lead_ws(p)));
            assert(trim_spec(p).len() > 0);
            crate::text::lemma_trim_shape(p);
        }
    }
}

/// The URLs of a request, trimmed, without the blank ones.
pub open spec fn cleaned_urls(urls: Seq<Seq<char>>) -> Seq<Seq<char>> {
    urls.map_values(|u: Seq<char>| trim_spec(u)).filter(|u: Seq<char>| u.len() > 0)
}

/// Streams and video sites go to `yt-dlp`, everything else to `wget`.
pub open spec fn uses_ytdlp(url: Seq<char>) -> bool {
    contains_seq(url, "youtube.com"@) || contains_seq(url, "youtu.be"@) || contains_seq(
        url,
        ".m3u8"@,
    ) || contains_seq(url, "m3u8"@)
}

/// The downloader command for `url` into `dir`.
pub open spec fn is_download_command(c: CommandSpec, url: Seq<char>, dir: Seq<char>) -> bool {
    if uses_ytdlp(url) {
        is_command(
            c,
            "yt-dlp"@,
            seq![
                "--newline"@,
                "--no-colors"@,
                "--merge-output-format"@,
                "mp4"@,
                "-o"@,
                dir + "/%(title)s.%(ext)s"@,
                url,
            ],
        )
    } else {
        is_command(c, "wget"@, seq!["-P"@, dir, url])
    }
}

/// The first log line of a download.
pub open spec fn starting_line(url: Seq<char>) -> Seq<char> {
    "Download starting : "@ + url
}

/// `n` steps after `start`, counting modulo 2^32.
pub open spec fn id_after(start: u32, n: nat) -> u32 {
    ((start as nat + n) % 0x1_0000_0000) as u32
}

fn or_default_str(v: Option<&str>, d: &str) -> (r: String)
    ensures
        r@ == or_default(opt_view(v), d@),
{
    match v {
        Some(x) => owned(x),
        None => owned(d),
    }
}

/// The folder a download of this category goes to.
pub fn resolve_target_dir(
    category: &str,
    custom_path: Option<&str>,
    movie_path: Option<&str>,
    video_path: Option<&str>,
    download_path: Option<&str>,
) -> (r: String)
    ensures
        r@ == target_dir_for(
            category@,
            opt_view(custom_path),
            opt_view(movie_path),
            opt_view(video_path),
            opt_view(download_path),
        ),
{
    if str_eq(category, "film") {
        or_default_str(movie_path, "/stockage/videos/films")
    } else if str_eq(category, "video") {
        or_default_str(video_path, "/stockage/videos")
    } else if str_eq(category, "custom") {
        match custom_path {
            Some(p) => {
                let t = trim(p);
                if !t.as_str().is_empty() {
                    t
                } else {
                    or_default_str(download_path, "/stockage/telechargements")
                }
            },
            None => or_default_str(download_path, "/stockage/telechargements"),
        }
    } else {
        or_default_str(download_path, "/stockage/telechargements")
    }
}

/// The trimmed, non-blank URLs of a request, in order.
pub fn clean_urls(urls: &Vec<String>) -> (r: Vec<String>)
    ensures
        views(r@) == cleaned_urls(views(urls@)),
{
    let ghost trimmed = views(urls@).map_values(|u: Seq<char>| trim_spec(u));
    let mut r: Vec<String> = Vec::new();
    let mut i: usize = 0;
    while i < urls.len()
        invariant
            i <= urls@.len(),
            trimmed == views(urls@).map_values(|u: Seq<char>| trim_spec(u)),
            views(r@) == trimmed.take(i as int).filter(|u: Seq<char>| u.len() > 0),
        decreases urls@.len() - i,
    {
        let t = trim(urls[i].as_str());
        proof {
            reveal(Seq::filter);
            assert(trimmed.take(i + 1).drop_last() =~= trimmed.take(i as int));
            assert(trimmed.take(i + 1).last() == t@);
        }
        if !t.as_str().is_empty() {
            let ghost old_r = r@;
            r.push(t);
            assert(views(r@) =~= views(old_r).push(r@.last()@));
        }
        i = i + 1;
    }
    assert(trimmed.take(i as int) =~= trimmed);
    r
}

/// Whether `url` is downloaded with `yt-dlp`.
pub fn uses_ytdlp_exec(url: &str) -> (b: bool)
    ensures
        b == uses_ytdlp(url@),
{
    contains(url, "youtube.com") || contains(url, "youtu.be") || contains(url, ".m3u8")
        || contains(url, "m3u8")
}

/// The downloader command for `url` into `target_dir`.
pub fn download_command(url: &str, target_dir: &str) -> (c: CommandSpec)
    ensures
        is_download_command(c, url@, target_dir@),
{
    if uses_ytdlp_exec(url) {
        let mut template = owned(target_dir);
        push_str(&mut template, "/%(title)s.%(ext)s");
        let mut args = strings(&["--newline", "--no-colors", "--merge-output-format", "mp4", "-o"]);
        args.push(template);
        args.push(owned(url));
        let c = CommandSpec { program: owned("yt-dlp"), args, current_dir: None };
        assert(views(c.args@) =~= seq![
            "--newline"@,
            "--no-colors"@,
            "--merge-output-format"@,
            "mp4"@,
            "-o"@,
            target_dir@ + "/%(title)s.%(ext)s"@,
            url@,
        ]);
        c
    } else {
        let mut args = strings(&["-P"]);
        args.push(owned(target_dir));
        args.push(owned(url));
        let c = CommandSpec { program: owned("wget"), args, current_dir: None };
        assert(views(c.args@) =~= seq!["-P"@, target_dir@, url@]);
        c
    }
}

proof fn lemma_id_after_step(start: u32, n: nat)
    ensures
        vstd::wrapping::u32_specs::wrapping_add(id_after(start, n), 1) == id_after(start, n + 1),
{
    let a = (start as nat + n) % 0x1_0000_0000;
    assert(((start as nat + n + 1) % 0x1_0000_0000) == if a + 1 == 0x1_0000_0000 {
        0
    } else {
        a + 1
    });
}

/// `download_handler`: unauthenticated requests get `401`; a request with no
/// usable URL gets an error message; otherwise one running task per URL is
/// registered (ids in sequence from `next_id`, logging `Download starting :
/// <url>`) and the downloads to run are returned in URL order. `movie_path`,
/// `video_path` and `download_path` are `MOVIE_PATH`, `VIDEO_PATH` and
/// `DOWNLOAD_PATH` (`None` when unset).
pub fn download_handler(
    authenticated: bool,
    request: &DownloadRequest,
    movie_path: Option<&str>,
    video_path: Option<&str>,
    download_path: Option<&str>,
    state: &mut DownloadState,
) -> (r: Result<Vec<DownloadJob>, Reply>)
    ensures
        ({
            let urls = cleaned_urls(views(request.url@));
            let dir = target_dir_for(
                request.category@,
                match request.custom_path {
                    Some(p) => Some(p@),
                    None => None,
                },
                opt_view(movie_path),
                opt_view(video_path),
                opt_view(download_path),
            );
            let before = old(state).tasks@;
            let n = urls.len();
            if !authenticated {
                &&& r matches Err(e) && is_unauthorized(e)
                &&& final(state).tasks@ == before
                &&& final(state).next_id == old(state).next_id
            } else if n == 0 {
                &&& r matches Err(e) && is_html(
                    e,
                    "<div style='color:red;'>Aucune URL fournie.</div>"@,
                )
                &&& final(state).tasks@ == before
                &&& final(state).next_id == old(state).next_id
            } else {
                &&& r matches Ok(jobs) && jobs@.len() == n && forall|k: int|
                    0 <= k < n ==> {
                        let t = #[trigger] final(state).tasks@[before.len() + k];
                        &&& t.id == jobs@[k].task_id
                        &&& t.id == id_after(old(state).next_id, k as nat)
                        &&& t.url@ == urls[k]
                        &&& t.is_running
                        &&& views(t.logs@) == seq![starting_line(urls[k])]
                        &&& t.child_pid is None
                        &&& t.target_dir matches Some(d) && d@ == dir
                        &&& is_download_command(jobs@[k].command, urls[k], dir)
                    }
                &&& final(state).tasks@.len() == before.len() + n
                &&& final(state).tasks@.take(before.len() as int) == before
                &&& final(state).next_id == id_after(old(state).next_id, n)
                &&& ids_well_formed(before, old(state).next_id) && old(state).next_id + n
                    <= u32::MAX ==> ids_well_formed(final(state).tasks@, final(state).next_id)
            }
        }),
{
    if !authenticated {
        return Err(unauthorized());
    }
    let custom = match &request.custom_path {
        Some(p) => Some(p.as_str()),
        None => None,
    };
    let target_dir = resolve_target_dir(
        request.category.as_str(),
        custom,
        movie_path,
        video_path,
        download_path,
    );
    let urls = clean_urls(&request.url);
    if urls.len() == 0 {
        return Err(
            Reply::Html { body: owned("<div style='color:red;'>Aucune URL fournie.</div>") },
        );
    }
    let ghost before = state.tasks@;
    let ghost start = state.next_id;
    let ghost dir = target_dir@;
    let mut jobs: Vec<DownloadJob> = Vec::new();
    let mut k: usize = 0;
    while k < urls.len()
        invariant
            k <= urls@.len(),
            dir == target_dir@,
            jobs@.len() == k,
            state.tasks@.len() == before.len() + k,
            state.tasks@.take(before.len() as int) == before,
            state.next_id == id_after(start, k as nat),
            forall|m: int|
                0 <= m < k ==> {
                    let t = #[trigger] state.tasks@[before.len() + m];
                    &&& t.id == jobs@[m].task_id
                    &&& t.id == id_after(start, m as nat)
                    &&& t.url@ == views(urls@)[m]
                    &&& t.is_running
                    &&& views(t.logs@) == seq![starting_line(views(urls@)[m])]
                    &&& t.child_pid is None
                    &&& t.target_dir matches Some(d) && d@ == dir
                    &&& is_download_command(jobs@[m].command, views(urls@)[m], dir)
                },
            ids_well_formed(before, start) && start + urls@.len() <= u32::MAX ==> ids_well_formed(
                state.tasks@,
                state.next_id,
            ),
            start + urls@.len() <= u32::MAX ==> state.next_id == start + k,
        decreases urls@.len() - k,
    {
        let url = &urls[k];
        let ghost old_tasks = state.tasks@;
        let ghost old_next = state.next_id;
        proof {
            lemma_id_after_step(start, k as nat);
        }
        let id = state.add_task(url.clone(), target_dir.clone());
        let last = state.tasks.len() - 1;
        let mut line = owned("Download starting : ");
        push_str(&mut line, url.as_str());
        state.tasks[last].logs.push(line);
        proof {
            assert(views(state.tasks@[last as int].logs@) =~= seq![starting_line(url@)]);
            assert(state.tasks@.take(before.len() as int) =~= before) by {
                assert forall|m: int| 0 <= m < before.len() implies state.tasks@[m] == before[m] by {
                    assert(old_tasks.take(before.len() as int)[m] == before[m]);
                }
            }
            assert forall|m: int| 0 <= m < k + 1 implies {
                let t = #[trigger] state.tasks@[before.len() + m];
                &&& t.id == id_after(start, m as nat)
                &&& t.url@ == views(urls@)[m]
                &&& t.is_running
                &&& views(t.logs@) == seq![starting_line(views(urls@)[m])]
                &&& t.child_pid is None
                &&& t.target_dir matches Some(d) && d@ == dir
            } by {
                if m < k {
                    assert(state.tasks@[before.len() + m] == old_tasks[before.len() + m]);
                }
            }
            if start + urls@.len() <= u32::MAX {
                assert(old_next < u32::MAX);
            }
        }
        let command = download_command(url.as_str(), target_dir.as_str());
        let ghost old_jobs = jobs@;
        jobs.push(DownloadJob { task_id: id, command });
        proof {
            assert forall|m: int| 0 <= m < k + 1 implies {
                let t = #[trigger] state.tasks@[before.len() + m];
                &&& t.id == jobs@[m].task_id
                &&& is_download_command(jobs@[m].command, views(urls@)[m], dir)
            } by {
                if m < k {
                    assert(jobs@[m] == old_jobs[m]);
                    assert(state.tasks@[before.len() + m] == old_tasks[before.len() + m]);
                }
            }
        }
        k = k + 1;
    }
    Ok(jobs)
}

// ---------------------------------------------------------------------------
// The task cards shown after a download starts
// ---------------------------------------------------------------------------

/// The URL of task `id`, or nothing when there is no such task.
pub open spec fn task_url(tasks: Seq<DownloadTask>, id: u32) -> Seq<char> {
    let p = task_position(tasks, id);
    if p >= 0 {
        tasks[p].url@
    } else {
        Seq::empty()
    }
}

/// The number of bytes of `c` in UTF-8.
pub open spec fn utf8_width(c: char) -> nat {
    let u = c as u32;
    if u < 0x80 {
        1
    } else if u < 0x800 {
        2
    } else if u < 0x10000 {
        3
    } else {
        4
    }
}

/// The number of bytes of `s` in UTF-8 (`str::len`).
pub open spec fn utf8_len(s: Seq<char>) -> nat
    decreases s.len(),
{
    if s.len() == 0 {
        0
    } else {
        utf8_len(s.drop_last()) + utf8_width(s.last())
    }
}

/// The number of characters that make up the first 80 bytes of `s`, when a
/// character ends exactly there.
pub open spec fn chars_in_80_bytes(s: Seq<char>) -> int {
    choose|k: int| 0 <= k <= s.len() && utf8_len(s.take(k)) == 80
}

/// Some character of `s` ends exactly at byte 80.
pub open spec fn has_boundary_at_80(s: Seq<char>) -> bool {
    exists|k: int| 0 <= k <= s.len() && utf8_len(s.take(k)) == 80
}

/// The URL as a card shows it: escaped, and when longer than 80 bytes of
/// UTF-8, its first 80 bytes followed by `...` (`&escaped[..80]`).
pub open spec fn display_url(url: Seq<char>) -> Seq<char> {
    let e = escape_html(url, false);
    if utf8_len(e) > 80 {
        e.take(chars_in_80_bytes(e)) + "..."@
    } else {
        e
    }
}

/// Cutting the escaped URL after 80 bytes does not split a character (the
/// byte slice `[..80]` would panic otherwise).
pub open spec fn card_renderable(url: Seq<char>) -> bool {
    let e = escape_html(url, false);
    utf8_len(e) <= 80 || has_boundary_at_80(e)
}

proof fn lemma_utf8_len_prefix_increases(s: Seq<char>, j: int, k: int)
    requires
        0 <= j < k <= s.len(),
    ensures
        utf8_len(s.take(j)) < utf8_len(s.take(k)),
    decreases k - j,
{
    assert(s.take(k).drop_last() =~= s.take(k - 1));
    if j < k - 1 {
        lemma_utf8_len_prefix_increases(s, j, k - 1);
    }
}

fn utf8_width_of(c: char) -> (w: u64)
    ensures
        w == utf8_width(c),
{
    let u = c as u32;
    if u < 0x80 {
        1
    } else if u < 0x800 {
        2
    } else if u < 0x10000 {
        3
    } else {
        4
    }
}

/// Walks `v` until its first 80 bytes are covered: the number of characters
/// walked and their UTF-8 length, which exceeds 80 only by the last character.
fn scan_80_bytes(v: &Vec<char>) -> (r: (usize, u64))
    ensures
        r.0 <= v@.len(),
        r.1 == utf8_len(v@.take(r.0 as int)),
        r.1 < 80 ==> r.0 == v@.len(),
        r.1 > 80 ==> r.0 > 0 && utf8_len(v@.take(r.0 - 1)) < 80,
{
    let mut i: usize = 0;
    let mut acc: u64 = 0;
    assert(v@.take(0) =~= Seq::<char>::empty());
    while i < v.len() && acc < 80
        invariant
            i <= v@.len(),
            acc == utf8_len(v@.take(i as int)),
            acc <= 83,
            acc > 80 ==> i > 0 && utf8_len(v@.take(i - 1)) < 80,
        decreases v@.len() - i,
    {
        assert(v@.take(i + 1).drop_last() =~= v@.take(i as int));
        acc = acc + utf8_width_of(v[i]);
        i = i + 1;
    }
    (i, acc)
}

fn display_of(url: &str) -> (r: String)
    requires
        card_renderable(url@),
    ensures
        r@ == display_url(url@),
{
    let e = escaped(url, false);
    let v = chars_of(e.as_str());
    let (i, acc) = scan_80_bytes(&v);
    if acc < 80 || (acc == 80 && i == v.len()) {
        assert(v@.take(i as int) =~= v@);
        return e;
    }
    proof {
        if acc > 80 {
            if i == v@.len() {
                assert(v@.take(i as int) =~= v@);
            } else {
                lemma_utf8_len_prefix_increases(v@, i as int, v@.len() as int);
                assert(v@.take(v@.len() as int) =~= v@);
            }
            assert(has_boundary_at_80(v@));
            let k = choose|k: int| 0 <= k <= v@.len() && utf8_len(v@.take(k)) == 80;
            if k < i {
                if k < i - 1 {
                    lemma_utf8_len_prefix_increases(v@, k, i - 1);
                }
            } else if k > i {
                lemma_utf8_len_prefix_increases(v@, i as int, k);
            }
        }
        assert(acc == 80);
        assert(i < v@.len());
        lemma_utf8_len_prefix_increases(v@, i as int, v@.len() as int);
        assert(v@.take(v@.len() as int) =~= v@);
        let k = chars_in_80_bytes(v@);
        if k < i {
            lemma_utf8_len_prefix_increases(v@, k, i as int);
        } else if k > i {
            lemma_utf8_len_prefix_increases(v@, i as int, k);
        }
    }
    let mut d = crate::text::string_of_range(&v, 0, i);
    push_str(&mut d, "...");
    assert(v@.subrange(0, i as int) =~= v@.take(i as int));
    d
}

/// The card of one task.
pub open spec fn card_html(id: u32, escaped_url: Seq<char>, display: Seq<char>) -> Seq<char> {
    "<div class=\"task-card\" id=\"task-card-"@
        + dec(id as nat)
        + "\" style=\"margin-bottom:1rem;border:1px solid #333;border-radius:4px;padding:8px;\">\n            <div style=\"display:flex;justify-content:space-between;align-items:center;margin-bottom:6px;gap:8px;\">\n                <span id=\"task-badge-"@
        + dec(id as nat)
        + "\" style=\"color:#4CAF50;font-family:monospace;font-size:0.8em;flex-shrink:0;\">[EN COURS]</span>\n                <span style=\"font-family:monospace;font-size:0.8em;overflow:hidden;text-overflow:ellipsis;white-space:nowrap;flex:1;\" title=\""@
        + escaped_url
        + "\">"@
        + display
        + "</span>\n                <button id=\"task-stop-"@
        + dec(id as nat)
        + "\" hx-post=\"/download/stop\" hx-vals='{\"task_id\":"@
        + dec(id as nat)
        + "}' hx-swap=\"none\" class=\"btn-shutdown\" style=\"flex-shrink:0;font-size:0.8em;padding:3px 10px;background:#d9534f;\">Stop</button>\n            </div>\n            <div id=\"task-log-"@
        + dec(id as nat)
        + "\" style=\"background:#1a1a1a;color:#ccc;padding:8px;border-radius:4px;height:200px;overflow-y:auto;font-family:monospace;font-size:0.82em;white-space:pre-wrap;\"></div>\n        </div>\n        <script>initTaskSSE("@
        + dec(id as nat)
        + ");</script>"@
}

/// The cards of the tasks `ids`, in order.
pub open spec fn cards_html(tasks: Seq<DownloadTask>, ids: Seq<u32>) -> Seq<char>
    decreases ids.len(),
{
    if ids.len() == 0 {
        Seq::empty()
    } else {
        let u = task_url(tasks, ids.last());
        cards_html(tasks, ids.drop_last()) + card_html(
            ids.last(),
            escape_html(u, false),
            display_url(u),
        )
    }
}

fn push_card(out: &mut String, id: u32, escaped_url: &str, display: &str)
    ensures
        final(out)@ == old(out)@ + card_html(id, escaped_url@, display@),
{
    let ghost start = out@;
    push_str(out, "<div class=\"task-card\" id=\"task-card-");
    push_dec(out, id as u64);
    push_str(out, "\" style=\"margin-bottom:1rem;border:1px solid #333;border-radius:4px;padding:8px;\">\n            <div style=\"display:flex;justify-content:space-between;align-items:center;margin-bottom:6px;gap:8px;\">\n                <span id=\"task-badge-");
    push_dec(out, id as u64);
    push_str(out, "\" style=\"color:#4CAF50;font-family:monospace;font-size:0.8em;flex-shrink:0;\">[EN COURS]</span>\n                <span style=\"font-family:monospace;font-size:0.8em;overflow:hidden;text-overflow:ellipsis;white-space:nowrap;flex:1;\" title=\"");
    push_str(out, escaped_url);
    push_str(out, "\">");
    push_str(out, display);
    push_str(out, "</span>\n                <button id=\"task-stop-");
    push_dec(out, id as u64);
    push_str(out, "\" hx-post=\"/download/stop\" hx-vals='{\"task_id\":");
    push_dec(out, id as u64);
    push_str(out, "}' hx-swap=\"none\" class=\"btn-shutdown\" style=\"flex-shrink:0;font-size:0.8em;padding:3px 10px;background:#d9534f;\">Stop</button>\n            </div>\n            <div id=\"task-log-");
    push_dec(out, id as u64);
    push_str(out, "\" style=\"background:#1a1a1a;color:#ccc;padding:8px;border-radius:4px;height:200px;overflow-y:auto;font-family:monospace;font-size:0.82em;white-space:pre-wrap;\"></div>\n        </div>\n        <script>initTaskSSE(");
    push_dec(out, id as u64);
    push_str(out, ");</script>");
    assert(out@ =~= start + card_html(id, escaped_url@, display@));
}

fn url_of(state: &DownloadState, id: u32) -> (r: String)
    ensures
        r@ == task_url(state.tasks@, id),
{
    match state.find_task(id) {
        Some(i) => state.tasks[i].url.clone(),
        None => String::new(),
    }
}


/// Whether every card of `ids` can be rendered (see `card_renderable`).
pub fn task_cards_renderable(state: &DownloadState, ids: &Vec<u32>) -> (b: bool)
    ensures
        b == forall|k: int| 0 <= k < ids@.len() ==> card_renderable(task_url(state.tasks@, #[trigger] ids@[k])),
{
    let mut k: usize = 0;
    while k < ids.len()
        invariant
            k <= ids@.len(),
            forall|m: int| 0 <= m < k ==> card_renderable(task_url(state.tasks@, #[trigger] ids@[m])),
        decreases ids@.len() - k,
    {
        let url = url_of(state, ids[k]);
        let e = escaped(url.as_str(), false);
        let v = chars_of(e.as_str());
        let (i, acc) = scan_80_bytes(&v);
        proof {
            if i == v@.len() {
                assert(v@.take(i as int) =~= v@);
            } else if acc >= 80 {
                lemma_utf8_len_prefix_increases(v@, i as int, v@.len() as int);
                assert(v@.take(v@.len() as int) =~= v@);
            }
        }
        if acc > 80 {
            proof {
                assert(v@.take(i as int) =~= v@.take(i as int));
                if has_boundary_at_80(v@) {
                    let j = choose|j: int| 0 <= j <= v@.len() && utf8_len(v@.take(j)) == 80;
                    if j < i {
                        if j < i - 1 {
                            lemma_utf8_len_prefix_increases(v@, j, i - 1);
                        }
                    } else if j > i {
                        lemma_utf8_len_prefix_increases(v@, i as int, j);
                    }
                }
                if i == v@.len() {
                    assert(v@.take(i as int) =~= v@);
                }
            }
            assert(!card_renderable(task_url(state.tasks@, ids@[k as int])));
            return false;
        }
        assert(card_renderable(task_url(state.tasks@, ids@[k as int])));
        k = k + 1;
    }
    true
}

/// The reply of `download_handler`: one card per started task, then the
/// button that clears finished tasks.
pub fn render_task_cards(state: &DownloadState, ids: &Vec<u32>) -> (r: Reply)
    requires
        forall|k: int| 0 <= k < ids@.len() ==> card_renderable(task_url(state.tasks@, #[trigger] ids@[k])),
    ensures
        is_html(r, "<div id=\"download-tasks-container\">"@ + cards_html(state.tasks@, ids@) + "\n        <button onclick=\"clearDoneTasks()\" class=\"btn-primary\" style=\"font-size:0.8em;padding:4px 12px;margin-top:4px;\">Effacer terminés</button>\n    </div>"@),
{
    let mut body = owned("<div id=\"download-tasks-container\">");
    let ghost start = body@;
    let mut k: usize = 0;
    while k < ids.len()
        invariant
            k <= ids@.len(),
            forall|m: int| 0 <= m < ids@.len() ==> card_renderable(task_url(state.tasks@, #[trigger] ids@[m])),
            body@ == start + cards_html(state.tasks@, ids@.take(k as int)),
        decreases ids@.len() - k,
    {
        let id = ids[k];
        let url = url_of(state, id);
        let e = escaped(url.as_str(), false);
        let d = display_of(url.as_str());
        push_card(&mut body, id, e.as_str(), d.as_str());
        proof {
            assert(ids@.take(k + 1).drop_last() =~= ids@.take(k as int));
            assert(ids@.take(k + 1).last() == id);
        }
        k = k + 1;
        assert(body@ =~= start + cards_html(state.tasks@, ids@.take(k as int)));
    }
    assert(ids@.take(k as int) =~= ids@);
    push_str(&mut body, "\n        <button onclick=\"clearDoneTasks()\" class=\"btn-primary\" style=\"font-size:0.8em;padding:4px 12px;margin-top:4px;\">Effacer terminés</button>\n    </div>");
    Reply::Html { body }
}

// ---------------------------------------------------------------------------
// Following, stopping and clearing downloads
// ---------------------------------------------------------------------------

/// The summary that the legacy log endpoint shows.
pub fn get_download_logs(state: &DownloadState) -> (r: Reply)
    ensures
        is_html(
            r,
            "<span style=\"font-family:monospace;color:var(--text-muted);\">"@ + dec(
                running_tasks(state.tasks@).len(),
            ) + " actif(s), "@ + dec(finished_tasks(state.tasks@).len()) + " terminé(s)</span>"@,
        ),
{
    let running = state.running_count();
    let finished = state.finished_count();
    let mut body = owned("<span style=\"font-family:monospace;color:var(--text-muted);\">");
    push_dec(&mut body, running as u64);
    push_str(&mut body, " actif(s), ");
    push_dec(&mut body, finished as u64);
    push_str(&mut body, " terminé(s)</span>");
    Reply::Html { body }
}

/// `clear_completed_handler`: unauthenticated requests get `401` and change
/// nothing; otherwise finished downloads are forgotten and the reply is empty.
pub fn clear_completed_handler(authenticated: bool, state: &mut DownloadState) -> (r: Reply)
    ensures
        !authenticated ==> is_unauthorized(r) && final(state).tasks@ == old(state).tasks@,
        authenticated ==> is_text(r, 200, Seq::<char>::empty()) && final(state).tasks@
            == running_tasks(old(state).tasks@),
        final(state).next_id == old(state).next_id,
{
    if !authenticated {
        return unauthorized();
    }
    state.clear_completed();
    proof {
        reveal_strlit("");
        assert(""@ =~= Seq::<char>::empty());
    }
    text_reply(200, "")
}

/// `stop_download_handler`: unauthenticated requests get `401`; otherwise the
/// process and folder of the task to stop, if it has a running process (the
/// reply is then empty).
pub fn stop_download_handler(authenticated: bool, state: &DownloadState, task_id: u32) -> (r: Result<
    Option<StopTarget>,
    Reply,
>)
    ensures
        !authenticated ==> (r matches Err(e) && is_unauthorized(e)),
        authenticated ==> (r matches Ok(t) && ({
            let p = task_position(state.tasks@, task_id);
            match t {
                Some(s) => p >= 0 && state.tasks@[p].child_pid == Some(s.pid)
                    && s.target_dir == state.tasks@[p].target_dir,
                None => p < 0 || state.tasks@[p].child_pid is None,
            }
        })),
{
    if !authenticated {
        return Err(unauthorized());
    }
    Ok(state.stop_target(task_id))
}

/// The command that stops a download process: `kill <pid>`.
pub fn kill_command(pid: u32) -> (c: CommandSpec)
    ensures
        is_command(c, "kill"@, seq![dec(pid as nat)]),
{
    let mut arg = String::new();
    push_dec(&mut arg, pid as u64);
    let mut args: Vec<String> = Vec::new();
    args.push(arg);
    let c = CommandSpec { program: owned("kill"), args, current_dir: None };
    assert(views(c.args@) =~= seq![dec(pid as nat)]);
    c
}

/// The reply to an authenticated stop request, once it was carried out: an
/// empty text with status 200.
pub fn stopped_reply() -> (r: Reply)
    ensures
        is_text(r, 200, Seq::<char>::empty()),
{
    proof {
        reveal_strlit("");
        assert(""@ =~= Seq::<char>::empty());
    }
    text_reply(200, "")
}

/// The extension of a file name, as `Path::extension` finds it: what follows
/// the last `.`, unless there is none, the name starts with its only dot, or
/// the name is `..`.
pub open spec fn file_extension(name: Seq<char>) -> Option<Seq<char>> {
    if name == ".."@ {
        None
    } else {
        let i = last_index_of(name, '.');
        if i <= 0 {
            None
        } else {
            Some(name.skip(i + 1))
        }
    }
}

/// A partial file that a stopped downloader leaves behind (`.part`, `.ytdl`).
pub open spec fn is_residual_file(name: Seq<char>) -> bool {
    match file_extension(name) {
        Some(e) => e == "part"@ || e == "ytdl"@,
        None => false,
    }
}

/// Whether the file `name` is a leftover partial download.
pub fn is_residual_download_file(name: &str) -> (b: bool)
    ensures
        b == is_residual_file(name@),
{
    if str_eq(name, "..") {
        return false;
    }
    let v = chars_of(name);
    let n = v.len();
    let mut j = n;
    assert(v@.take(n as int) =~= v@);
    while j > 0 && v[j - 1] != '.'
        invariant
            j <= n == v@.len(),
            last_index_of(v@, '.') == last_index_of(v@.take(j as int), '.'),
        decreases j,
    {
        assert(v@.take(j as int).drop_last() =~= v@.take(j - 1));
        j = j - 1;
    }
    if j <= 1 {
        if j == 1 {
            assert(v@.take(1).last() == '.');
        } else {
            assert(last_index_of(v@.take(0), '.') == -1);
        }
        return false;
    }
    assert(v@.take(j as int).last() == '.');
    let ext = crate::text::string_of_range(&v, j, n);
    assert(ext@ =~= v@.skip(j as int));
    str_eq(ext.as_str(), "part") || str_eq(ext.as_str(), "ytdl")
}

/// Polling the live log stream of a task whose log only grows delivers every
/// line once and in order: the lines after offset 0 at one time, followed by
/// the lines after the offset that the first poll returned (the log length
/// then) at a later time, are the whole log at that later time.
pub proof fn law_log_stream_delivers_each_line_once(
    before: Seq<DownloadTask>,
    after: Seq<DownloadTask>,
    id: u32,
)
    requires
        task_position(before, id) >= 0,
        task_position(after, id) == task_position(before, id),
        ({
            let p = task_position(before, id);
            views(before[p].logs@) == views(after[p].logs@).take(
                before[p].logs@.len() as int,
            ) && before[p].logs@.len() <= after[p].logs@.len()
        }),
    ensures
        ({
            let p = task_position(before, id);
            logs_after(before, id, 0) + logs_after(after, id, before[p].logs@.len())
                == views(after[p].logs@)
        }),
{
    let p = task_position(before, id);
    let lb = views(before[p].logs@);
    let la = views(after[p].logs@);
    assert(lb.skip(0) =~= lb);
    assert(lb + la.skip(lb.len() as int) =~= la);
}

} // verus!
