use dashboard_server::handlers::browse::{
    browse_handler, browse_refusal, esc, is_canonical_path, parent_of, path_starts_with,
    render_listing, visible_subdirs, BrowseQuery, DirEntryInfo,
};
use dashboard_server::handlers::system::{group_disks, DiskSample};
use dashboard_server::handlers::Reply;
use dashboard_server::templates::containers_for_display;
use dashboard_server::state::CachedContainerInfo;
use std::path::Path;

fn html(r: &Reply) -> String {
    match r {
        Reply::Html { body } => body.clone(),
        _ => panic!("not html"),
    }
}

#[test]
fn esc_escapes_markup() {
    assert_eq!(esc("a&b\"c<d>e'"), "a&amp;b&quot;c&lt;d&gt;e'");
    let s = "x<\"&>y";
    assert_eq!(esc(s), s.replace('&', "&amp;").replace('"', "&quot;").replace('<', "&lt;").replace('>', "&gt;"));
    assert_eq!(esc(""), "");
}

#[test]
fn browse_handler_resolves_root_and_path() {
    assert!(matches!(browse_handler(false, None, None), Err(Reply::Text { status: 401, .. })));
    let q = BrowseQuery { path: None };
    let t = browse_handler(true, Some("/data///"), q.path.as_deref()).ok().unwrap();
    assert_eq!(t.root, "/data");
    assert_eq!(t.raw_path, "/data");
    let t = browse_handler(true, None, Some("/stockage/films")).ok().unwrap();
    assert_eq!(t.root, "/stockage");
    assert_eq!(t.raw_path, "/stockage/films");
    let t = browse_handler(true, Some("/"), None).ok().unwrap();
    assert_eq!(t.root, "");
}

#[test]
fn path_prefix_follows_components() {
    let cases = [
        ("/stockage/films", "/stockage"),
        ("/stockagefoo", "/stockage"),
        ("/stockage", "/stockage"),
        ("/", ""),
        ("/a/b", "/a/./b"),
        ("/a/b", "/a//b/"),
        ("/a/b", "a"),
        ("/a/b", "/a/.."),
        ("/x", "/"),
        ("/etc", "/stockage"),
    ];
    for (p, base) in cases {
        assert_eq!(path_starts_with(p, base), Path::new(p).starts_with(base), "{} vs {}", p, base);
    }
}

#[test]
fn canonical_paths_and_parents() {
    for p in ["/", "/a", "/a/b", "/stockage/videos/films"] {
        assert!(is_canonical_path(p), "{}", p);
        assert_eq!(parent_of(p).as_deref(), Path::new(p).parent().map(|q| q.to_str().unwrap()), "{}", p);
    }
    for p in ["", "a", "/a/", "//a", "/a/./b", "/a/../b", "/a//b"] {
        assert!(!is_canonical_path(p), "{}", p);
    }
}

#[test]
fn refusals() {
    assert_eq!(html(&browse_refusal("/stockage", None).unwrap()), "<div style=\"color:#d9534f;font-family:monospace;padding:8px;\">Chemin invalide ou inaccessible.</div>");
    assert_eq!(html(&browse_refusal("/stockage", Some("/etc")).unwrap()), "<div style=\"color:#d9534f;font-family:monospace;padding:8px;\">Accès refusé : hors de /stockage.</div>");
    assert!(browse_refusal("/stockage", Some("/stockage/x")).is_none());
    assert!(browse_refusal("", Some("/etc")).is_none());
}

#[test]
fn listing_of_sub_folders() {
    let entries = vec![
        DirEntryInfo { name: "zeta".to_string(), is_dir: true },
        DirEntryInfo { name: ".hidden".to_string(), is_dir: true },
        DirEntryInfo { name: "file.txt".to_string(), is_dir: false },
        DirEntryInfo { name: "Alpha".to_string(), is_dir: true },
        DirEntryInfo { name: "a<b".to_string(), is_dir: true },
    ];
    let dirs = visible_subdirs(&entries);
    assert_eq!(dirs, vec!["Alpha", "a<b", "zeta"]);
    let body = html(&render_listing("/stockage", "/stockage/films", Some(&dirs)));
    let style = "padding:7px 10px;cursor:pointer;border-radius:4px;font-family:monospace;font-size:0.88em;display:flex;align-items:center;gap:8px;border-bottom:1px solid #1e1e1e;";
    let mut want = String::from("<div data-current-path=\"/stockage/films\" style=\"display:none;\"></div>");
    want.push_str(&format!("<div class=\"fb-item\" hx-get=\"/browse?path=/stockage\" hx-target=\"#browser-content\" hx-swap=\"innerHTML\" style=\"{}\">&uarr;&nbsp;..</div>", style));
    for d in ["Alpha", "a&lt;b", "zeta"] {
        want.push_str(&format!("<div class=\"fb-item\" hx-get=\"/browse?path=/stockage/films/{}\" hx-target=\"#browser-content\" hx-swap=\"innerHTML\" style=\"{}\">&#128193;&nbsp;{}</div>", d, style, d));
    }
    assert_eq!(body, want);
    let root_body = html(&render_listing("/stockage", "/stockage", Some(&Vec::new())));
    assert_eq!(root_body, "<div data-current-path=\"/stockage\" style=\"display:none;\"></div><div style=\"color:#666;font-family:monospace;font-size:0.85em;padding:10px;\">Aucun sous-dossier</div>");
    let slash = html(&render_listing("", "/", Some(&vec!["srv".to_string()])));
    assert!(slash.contains("hx-get=\"/browse?path=\" "));
    assert!(slash.contains("hx-get=\"/browse?path=/srv\""));
    assert_eq!(html(&render_listing("/stockage", "/stockage", None)), "<div style=\"color:#d9534f;font-family:monospace;padding:8px;\">Permission refusée.</div>");
}

fn disk(name: &str, fs: &str, total: u64, avail: u64) -> DiskSample {
    DiskSample { name: name.to_string(), file_system: fs.to_string(), total_space: total, available_space: avail }
}

#[test]
fn disks_are_grouped_by_device_and_pool() {
    let disks = vec![
        disk("sdb2", "ext4", 100, 40),
        disk("sdb1", "ext4", 50, 10),
        disk("sdb1", "ext4", 50, 10),
        disk("nvme0n1p1", "vfat", 1, 1),
        disk("nvme0n1p2", "ext4", 200, 100),
        disk("loop0", "squashfs", 5, 0),
        disk("tmp", "tmpfs", 9, 9),
        disk("tank/media", "zfs", 1000, 600),
        disk("tank", "zfs", 1200, 600),
        disk("tank/backup", "zfs", 300, 600),
        disk("mmcblk0p", "ext4", 8, 4),
        disk("123", "ext4", 7, 3),
        disk("sr0", "iso9660", 3, 0),
    ];
    let g = group_disks(&disks);
    let got: Vec<(String, u64, u64)> = g.iter().map(|d| (d.name.clone(), d.total, d.used)).collect();
    assert_eq!(got, vec![
        ("123".to_string(), 7, 4),
        ("mmcblk0".to_string(), 8, 4),
        ("nvme0n1".to_string(), 201, 100),
        ("sdb".to_string(), 150, 100),
        ("tank".to_string(), 1200, 1000),
    ]);
}

#[test]
fn skipped_disk_records_change_nothing() {
    let base = || {
        vec![
            disk("sda1", "ext4", 100, 40),
            disk("tank/media", "zfs", 1000, 600),
            disk("sda2", "ext4", 50, 10),
        ]
    };
    let groups = |v: &Vec<DiskSample>| -> Vec<(String, u64, u64)> {
        group_disks(v).iter().map(|d| (d.name.clone(), d.total, d.used)).collect()
    };
    let want = groups(&base());
    assert_eq!(want, vec![("sda".to_string(), 150, 100), ("tank".to_string(), 1000, 400)]);
    for (i, extra) in [
        (1, disk("sda1", "ext4", 999, 1)),
        (3, disk("tank/media", "zfs", 5000, 0)),
        (0, disk("loop3", "ext4", 7, 1)),
        (2, disk("ram0", "ext4", 7, 1)),
        (3, disk("sr1", "udf", 7, 1)),
        (0, disk("sdz1", "overlay", 7, 1)),
        (1, disk("shm", "tmpfs", 7, 1)),
        (2, disk("dev", "devtmpfs", 7, 1)),
        (3, disk("snap", "squashfs", 7, 1)),
    ] {
        let mut with = base();
        with.insert(i, extra);
        assert_eq!(groups(&with), want);
    }
}

#[test]
fn container_cache_is_copied_for_display() {
    let cache = vec![CachedContainerInfo { name: "web".to_string(), is_running: true, cpu: "1%".to_string(), memory: "2".to_string(), net_io: "3".to_string() }];
    let c = containers_for_display(&cache);
    assert_eq!(c.len(), 1);
    assert_eq!((c[0].name.as_str(), c[0].is_running, c[0].cpu.as_str(), c[0].memory.as_str(), c[0].net_io.as_str()), ("web", true, "1%", "2", "3"));
}
