use dashboard_server::power::{energy_delta, parse_energy_reading};
use dashboard_server::text::{lines, trim};
use dashboard_server::utils::{human_readable_bytes, is_docker_container_running};

fn reference_human(bytes: u64) -> String {
    const KB: f64 = 1024.0;
    const MB: f64 = KB * 1024.0;
    const GB: f64 = MB * 1024.0;
    let b = bytes as f64;
    if b >= GB {
        format!("{:.2} GiB", b / GB)
    } else if b >= MB {
        format!("{:.2} MiB", b / MB)
    } else if b >= KB {
        format!("{:.2} KiB", b / KB)
    } else {
        format!("{} B", bytes)
    }
}

#[test]
fn human_readable_bytes_exact_values() {
    assert_eq!(human_readable_bytes(0), "0 B");
    assert_eq!(human_readable_bytes(1023), "1023 B");
    assert_eq!(human_readable_bytes(1024), "1.00 KiB");
    assert_eq!(human_readable_bytes(1536), "1.50 KiB");
    assert_eq!(human_readable_bytes(1048576), "1.00 MiB");
    assert_eq!(human_readable_bytes(3 * 1073741824), "3.00 GiB");
    assert_eq!(human_readable_bytes(u64::MAX), "17179869184.00 GiB");
}

#[test]
fn human_readable_bytes_ties_round_to_even() {
    // 1152 / 1024 = 1.125 exactly: a tie, rounded to the even neighbour
    assert_eq!(human_readable_bytes(1152), reference_human(1152));
    assert_eq!(human_readable_bytes(1152), "1.12 KiB");
    // 1.375 KiB
    assert_eq!(human_readable_bytes(1408), reference_human(1408));
}

#[test]
fn human_readable_bytes_matches_float_formatting() {
    let mut samples: Vec<u64> = Vec::new();
    for i in 0..5000u64 {
        samples.push(i);
        samples.push(i * 1021 + 7);
        samples.push(i * 1_048_573 + 13);
        samples.push(i * 1_073_741_789 + 512);
    }
    let mut x: u64 = 0x9E37_79B9_7F4A_7C15;
    for _ in 0..20000 {
        x ^= x << 13;
        x ^= x >> 7;
        x ^= x << 17;
        samples.push(x);
        samples.push(x >> 11);
        samples.push(x >> 30);
    }
    for k in 0..64 {
        let p = 1u64 << k;
        samples.push(p);
        samples.push(p - 1);
        samples.push(p.wrapping_add(1));
    }
    samples.push(u64::MAX - 1);
    samples.push((1u64 << 53) + 1);
    samples.push((1u64 << 54) + 2);
    samples.push((1u64 << 54) + 6);
    for s in samples {
        assert_eq!(human_readable_bytes(s), reference_human(s), "bytes = {}", s);
    }
}

#[test]
fn trim_matches_str_trim() {
    let cases = [
        "", " ", "  abc  ", "\t\nx y\r\n", "\u{00A0}a\u{2009}", "\u{3000}b\u{0085}", "\u{200B}c",
        "\u{1680}d\u{205F}", "\u{000B}\u{000C}e\u{2028}\u{2029}\u{202F}", "é ü",
    ];
    for c in cases {
        assert_eq!(trim(c), c.trim(), "case {:?}", c);
    }
}

#[test]
fn lines_match_str_lines() {
    let cases = ["", "a", "a\n", "a\nb", "a\r\nb\r\n", "\n", "\n\n", "a\r", "x\ry\nz", "\r\n"];
    for c in cases {
        let v: Vec<char> = c.chars().collect();
        let got: Vec<String> = lines(&v).into_iter().map(|l| l.into_iter().collect()).collect();
        let want: Vec<String> = c.lines().map(|l| l.to_string()).collect();
        assert_eq!(got, want, "case {:?}", c);
    }
}

#[test]
fn docker_container_running_checks_each_line() {
    let out = "web\ndeclin-discord-1\r\ndb\n";
    assert!(is_docker_container_running(Some(out), "declin-discord"));
    assert!(is_docker_container_running(Some(out), "db"));
    assert!(!is_docker_container_running(Some(out), "cache"));
    assert!(!is_docker_container_running(None, "web"));
    // a filter spanning two lines matches neither
    assert!(!is_docker_container_running(Some(out), "web\ndeclin"));
}

#[test]
fn energy_reading_is_trimmed_and_parsed() {
    assert_eq!(parse_energy_reading("123456\n"), Some(123456));
    assert_eq!(parse_energy_reading("  +42 "), Some(42));
    assert_eq!(parse_energy_reading("18446744073709551615"), Some(u64::MAX));
    assert_eq!(parse_energy_reading("18446744073709551616"), None);
    assert_eq!(parse_energy_reading(""), None);
    assert_eq!(parse_energy_reading("+"), None);
    assert_eq!(parse_energy_reading("-1"), None);
    assert_eq!(parse_energy_reading("12a"), None);
    for s in ["0", "007", "+0", " 99 ", "1 2", "99999999999999999999"] {
        assert_eq!(parse_energy_reading(s), s.trim().parse::<u64>().ok(), "case {:?}", s);
    }
}

#[test]
fn energy_delta_handles_wrap_around() {
    assert_eq!(energy_delta(100, 250), 150);
    assert_eq!(energy_delta(7, 7), 0);
    assert_eq!(energy_delta(u64::MAX - 10, 5), 15);
}
