use dashboard_server::handlers::download::{
    clean_urls, clear_completed_handler, download_command, download_handler, get_download_logs,
    is_residual_download_file, kill_command, render_task_cards, resolve_target_dir, stop_download_handler,
    stopped_reply, task_cards_renderable, uses_ytdlp_exec, DownloadRequest, StopRequest,
};
use dashboard_server::handlers::Reply;
use dashboard_server::state::{DownloadState, WaitOutcome};

fn html(r: &Reply) -> String {
    match r {
        Reply::Html { body } => body.clone(),
        _ => panic!("not html"),
    }
}

#[test]
fn add_task_assigns_consecutive_ids() {
    let mut s = DownloadState::new();
    let a = s.add_task("http://a".to_string(), "/d".to_string());
    let b = s.add_task("http://b".to_string(), "/d".to_string());
    assert_eq!((a, b), (0, 1));
    assert_eq!(s.next_id, 2);
    assert_eq!(s.tasks.len(), 2);
    let t = &s.tasks[1];
    assert_eq!(t.url, "http://b");
    assert!(t.is_running);
    assert!(t.logs.is_empty());
    assert_eq!(t.child_pid, None);
    assert_eq!(t.target_dir.as_deref(), Some("/d"));
    assert_eq!(s.find_task(1), Some(1));
    assert_eq!(s.find_task(7), None);
}

#[test]
fn add_task_wraps_next_id() {
    let mut s = DownloadState { tasks: Vec::new(), next_id: u32::MAX };
    let id = s.add_task("u".to_string(), "d".to_string());
    assert_eq!(id, u32::MAX);
    assert_eq!(s.next_id, 0);
}

#[test]
fn task_lifecycle_logs() {
    let mut s = DownloadState::new();
    let id = s.add_task("http://x".to_string(), "/t".to_string());
    s.record_spawned(id, 4242);
    s.append_log(id, "50%".to_string());
    s.record_finished(id, WaitOutcome::Exited("exit status: 0".to_string()));
    let t = &s.tasks[0];
    assert_eq!(t.logs, vec!["Processus lancé (PID: 4242)", "50%", "Terminé avec le code : exit status: 0"]);
    assert!(!t.is_running);
    assert_eq!(t.child_pid, None);
    let id2 = s.add_task("http://y".to_string(), "/t".to_string());
    s.record_launch_failure(id2, "No such file");
    assert_eq!(s.tasks[1].logs, vec!["Erreur au lancement : No such file"]);
    assert!(!s.tasks[1].is_running);
    let id3 = s.add_task("http://z".to_string(), "/t".to_string());
    s.record_finished(id3, WaitOutcome::Failed("boom".to_string()));
    assert_eq!(s.tasks[2].logs, vec!["Erreur : boom"]);
    // unknown ids change nothing
    s.append_log(99, "lost".to_string());
    assert_eq!(s.tasks[0].logs.len(), 3);
}

#[test]
fn log_polling_delivers_each_line_once() {
    let mut s = DownloadState::new();
    let id = s.add_task("u".to_string(), "d".to_string());
    s.append_log(id, "a".to_string());
    s.append_log(id, "b".to_string());
    let b1 = s.poll_logs(id, 0);
    assert_eq!(b1.lines, vec!["a", "b"]);
    assert_eq!(b1.offset, 2);
    assert!(!b1.done);
    s.append_log(id, "c".to_string());
    let b2 = s.poll_logs(id, b1.offset);
    assert_eq!(b2.lines, vec!["c"]);
    assert_eq!(b2.offset, 3);
    let b3 = s.poll_logs(id, b2.offset);
    assert!(b3.lines.is_empty());
    s.record_finished(id, WaitOutcome::Exited("exit status: 0".to_string()));
    let b4 = s.poll_logs(id, b3.offset);
    assert!(b4.done);
    assert_eq!(b4.lines, vec!["Terminé avec le code : exit status: 0"]);
    assert_eq!(s.last_log(id), "Terminé avec le code : exit status: 0");
    assert_eq!(s.logs_from(id, 100), Vec::<String>::new());
    let unknown = s.poll_logs(42, 5);
    assert!(unknown.done && unknown.lines.is_empty() && unknown.offset == 5);
    assert_eq!(s.last_log(42), "");
}

#[test]
fn clearing_keeps_running_tasks_in_order() {
    let mut s = DownloadState::new();
    for u in ["a", "b", "c", "d"] {
        s.add_task(u.to_string(), "/x".to_string());
    }
    s.record_finished(1, WaitOutcome::Exited("0".to_string()));
    s.record_launch_failure(3, "e");
    assert_eq!(s.running_count(), 2);
    assert_eq!(s.finished_count(), 2);
    assert_eq!(html(&get_download_logs(&s)), "<span style=\"font-family:monospace;color:var(--text-muted);\">2 actif(s), 2 terminé(s)</span>");
    let r = clear_completed_handler(false, &mut s);
    assert!(matches!(r, Reply::Text { status: 401, .. }));
    assert_eq!(s.tasks.len(), 4);
    let r = clear_completed_handler(true, &mut s);
    assert!(matches!(&r, Reply::Text { status: 200, body } if body.is_empty()));
    let urls: Vec<&str> = s.tasks.iter().map(|t| t.url.as_str()).collect();
    assert_eq!(urls, vec!["a", "c"]);
    assert_eq!(s.finished_count(), 0);
    s.clear_completed();
    assert_eq!(s.tasks.len(), 2);
    assert_eq!(s.next_id, 4);
}

#[test]
fn target_dirs_by_category() {
    assert_eq!(resolve_target_dir("film", None, None, None, None), "/stockage/videos/films");
    assert_eq!(resolve_target_dir("video", None, None, None, None), "/stockage/videos");
    assert_eq!(resolve_target_dir("other", None, None, None, None), "/stockage/telechargements");
    assert_eq!(resolve_target_dir("film", None, Some("/m"), Some("/v"), Some("/d")), "/m");
    assert_eq!(resolve_target_dir("custom", Some("  /mnt/x  "), None, None, Some("/d")), "/mnt/x");
    assert_eq!(resolve_target_dir("custom", Some("   "), None, None, Some("/d")), "/d");
    assert_eq!(resolve_target_dir("custom", None, None, None, None), "/stockage/telechargements");
}

#[test]
fn urls_are_trimmed_and_tools_chosen() {
    let urls = vec![" https://youtu.be/x ".to_string(), "   ".to_string(), "http://f/file.zip".to_string()];
    assert_eq!(clean_urls(&urls), vec!["https://youtu.be/x", "http://f/file.zip"]);
    assert!(uses_ytdlp_exec("https://www.youtube.com/watch?v=1"));
    assert!(uses_ytdlp_exec("http://cdn/x/index.m3u8"));
    assert!(!uses_ytdlp_exec("http://f/file.zip"));
    let c = download_command("https://youtu.be/x", "/v");
    assert_eq!(c.program, "yt-dlp");
    assert_eq!(c.args, vec!["--newline", "--no-colors", "--merge-output-format", "mp4", "-o", "/v/%(title)s.%(ext)s", "https://youtu.be/x"]);
    let c = download_command("http://f/file.zip", "/d");
    assert_eq!(c.program, "wget");
    assert_eq!(c.args, vec!["-P", "/d", "http://f/file.zip"]);
}

#[test]
fn download_handler_registers_tasks() {
    let mut s = DownloadState::new();
    let req = DownloadRequest {
        url: vec!["http://a/1 ".to_string(), "".to_string(), "https://youtube.com/watch?v=2".to_string()],
        category: "video".to_string(),
        custom_path: None,
    };
    match download_handler(false, &req, None, None, None, &mut s) {
        Err(Reply::Text { status, body }) => assert_eq!((status, body.as_str()), (401, "Unauthorized")),
        _ => panic!(),
    }
    assert!(s.tasks.is_empty());
    let jobs = match download_handler(true, &req, None, Some("/vids"), None, &mut s) {
        Ok(j) => j,
        Err(_) => panic!(),
    };
    assert_eq!(jobs.len(), 2);
    assert_eq!(jobs[0].task_id, 0);
    assert_eq!(jobs[1].task_id, 1);
    assert_eq!(jobs[0].command.program, "wget");
    assert_eq!(jobs[1].command.program, "yt-dlp");
    assert_eq!(s.tasks[0].logs, vec!["Download starting : http://a/1"]);
    assert_eq!(s.tasks[1].target_dir.as_deref(), Some("/vids"));
    let empty = DownloadRequest { url: vec!["  ".to_string()], category: "film".to_string(), custom_path: None };
    match download_handler(true, &empty, None, None, None, &mut s) {
        Err(Reply::Html { body }) => assert_eq!(body, "<div style='color:red;'>Aucune URL fournie.</div>"),
        _ => panic!(),
    }
    assert_eq!(s.tasks.len(), 2);
}

#[test]
fn task_cards_show_escaped_urls() {
    let mut s = DownloadState::new();
    let id = s.add_task("http://a/?x=1&y=<2>".to_string(), "/d".to_string());
    let ids = vec![id];
    assert!(task_cards_renderable(&s, &ids));
    let body = html(&render_task_cards(&s, &ids));
    assert!(body.starts_with("<div id=\"download-tasks-container\"><div class=\"task-card\" id=\"task-card-0\""));
    assert!(body.contains("title=\"http://a/?x=1&amp;y=&lt;2&gt;\">http://a/?x=1&amp;y=&lt;2&gt;</span>"));
    assert!(body.contains("hx-vals='{\"task_id\":0}'"));
    assert!(body.contains("<script>initTaskSSE(0);</script>"));
    assert!(body.ends_with("Effacer terminés</button>\n    </div>"));
    // a long URL is cut after 80 bytes
    let long = "h".repeat(100);
    let id2 = s.add_task(long.clone(), "/d".to_string());
    let body = html(&render_task_cards(&s, &vec![id2]));
    assert!(body.contains(&format!(">{}...</span>", "h".repeat(80))));
    // a multi-byte character across byte 80 cannot be cut there
    let tricky = format!("{}é{}", "a".repeat(79), "b".repeat(10));
    let id3 = s.add_task(tricky, "/d".to_string());
    assert!(!task_cards_renderable(&s, &vec![id2, id3]));
    // an unknown id shows an empty URL
    let body = html(&render_task_cards(&s, &vec![77]));
    assert!(body.contains("title=\"\"></span>"));
}

#[test]
fn stop_requests_and_residual_files() {
    let mut s = DownloadState::new();
    let id = s.add_task("u".to_string(), "/dl".to_string());
    let req = StopRequest { task_id: id };
    assert!(matches!(stop_download_handler(false, &s, req.task_id), Err(Reply::Text { status: 401, .. })));
    assert!(matches!(stop_download_handler(true, &s, req.task_id), Ok(None)));
    s.record_spawned(id, 99);
    match stop_download_handler(true, &s, id) {
        Ok(Some(t)) => {
            assert_eq!(t.pid, 99);
            assert_eq!(t.target_dir.as_deref(), Some("/dl"));
        }
        _ => panic!(),
    }
    s.record_removed_file(id, "\"movie.mp4.part\"");
    assert_eq!(s.tasks[0].logs.last().unwrap(), "Fichier résiduel supprimé : \"movie.mp4.part\"");
    for (name, want) in [("movie.mp4.part", true), ("a.ytdl", true), (".part", false), ("part", false), ("..", false), ("x.partial", false), ("..part", true), ("a.b.ytdl", true), ("a.", false)] {
        assert_eq!(is_residual_download_file(name), want, "{}", name);
        let ext = std::path::Path::new(name).extension().map(|e| e == "part" || e == "ytdl").unwrap_or(false);
        assert_eq!(ext, want, "std agrees on {}", name);
    }
}

#[test]
fn stop_runs_kill_with_the_pid_and_replies_empty() {
    let c = kill_command(4242);
    assert_eq!(c.program, "kill");
    assert_eq!(c.args, vec!["4242".to_string()]);
    assert!(c.current_dir.is_none());
    assert_eq!(kill_command(0).args, vec!["0".to_string()]);
    assert_eq!(kill_command(u32::MAX).args, vec![u32::MAX.to_string()]);
    match stopped_reply() {
        Reply::Text { status, body } => {
            assert_eq!(status, 200);
            assert_eq!(body, "");
        }
        _ => panic!("not text"),
    }
}
