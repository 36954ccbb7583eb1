use dashboard_server::auth::{check_auth, LoginRequest};
use dashboard_server::handlers::authentification::{login_handler, logout_handler};
use dashboard_server::handlers::system::{
    check_declin_web_status, check_trading_status, format_uptime, get_network_info,
    is_cpu_sensor, is_cpu_sensor_label, poll_docker_containers, poll_service_status,
    power_outcome, reboot_handler, service_handler, service_outcome, shutdown_handler,
    top_memory_order, PowerAction, ServiceKind, Step,
};
use dashboard_server::handlers::{CommandOutcome, Reply};

fn text(r: &Reply) -> (u16, String) {
    match r {
        Reply::Text { status, body } => (*status, body.clone()),
        _ => panic!("not a text reply"),
    }
}

#[test]
fn check_auth_reads_the_session_cookie() {
    assert!(check_auth(Some(b"auth_session=true")));
    assert!(check_auth(Some(b"theme=dark; auth_session=true; lang=fr")));
    assert!(!check_auth(Some(b"auth_session=false")));
    assert!(!check_auth(Some(b"auth_session=")));
    assert!(!check_auth(None));
    // a byte that is not visible ASCII makes the header unreadable
    assert!(!check_auth(Some(b"auth_session=true; x=\xff")));
    assert!(!check_auth(Some(b"auth_session=true\x01")));
    // tabs are accepted
    assert!(check_auth(Some(b"\tauth_session=true")));
}

#[test]
fn login_sets_cookie_only_for_the_configured_password() {
    let req = LoginRequest { password: "s3cret".to_string() };
    match login_handler(Some("s3cret"), &req.password) {
        Reply::Redirect { location, set_cookie } => {
            assert_eq!(location, "/");
            assert_eq!(set_cookie.as_deref(), Some("auth_session=true; Path=/; HttpOnly; SameSite=Lax"));
        }
        _ => panic!("expected a redirect"),
    }
    for (admin, pw) in [(Some("s3cret"), "wrong"), (None, ""), (Some(""), ""), (None, "x")] {
        match login_handler(admin, pw) {
            Reply::Redirect { location, set_cookie } => {
                assert_eq!(location, "/");
                assert_eq!(set_cookie, None);
            }
            _ => panic!("expected a redirect"),
        }
    }
}

#[test]
fn logout_clears_cookie_and_login_cookie_authenticates() {
    match logout_handler() {
        Reply::Redirect { location, set_cookie } => {
            assert_eq!(location, "/");
            let c = set_cookie.unwrap();
            assert_eq!(c, "auth_session=; Path=/; Max-Age=0");
            let pair = c.split(';').next().unwrap();
            assert!(!check_auth(Some(pair.as_bytes())));
        }
        _ => panic!("expected a redirect"),
    }
    if let Reply::Redirect { set_cookie: Some(c), .. } = login_handler(Some("pw"), "pw") {
        let pair = c.split(';').next().unwrap();
        assert!(check_auth(Some(pair.as_bytes())));
    } else {
        panic!("login should set the cookie");
    }
}

#[test]
fn power_actions_require_authentication() {
    match shutdown_handler(false) {
        Step::Reply(r) => assert_eq!(text(&r), (401, "Unauthorized".to_string())),
        _ => panic!(),
    }
    match shutdown_handler(true) {
        Step::Run { command, kind } => {
            assert!(matches!(kind, PowerAction::Shutdown));
            assert_eq!(command.program, "sudo");
            assert_eq!(command.args, vec!["shutdown", "-h", "now"]);
            assert_eq!(command.current_dir, None);
        }
        _ => panic!(),
    }
    match reboot_handler(true) {
        Step::Run { command, kind } => {
            assert!(matches!(kind, PowerAction::Reboot));
            assert_eq!(command.program, "sudo");
            assert_eq!(command.args, vec!["reboot"]);
        }
        _ => panic!(),
    }
    match reboot_handler(false) {
        Step::Reply(r) => assert_eq!(text(&r).0, 401),
        _ => panic!(),
    }
    assert_eq!(text(&power_outcome(PowerAction::Shutdown, true)), (200, "Server is shutting down...".to_string()));
    assert_eq!(text(&power_outcome(PowerAction::Shutdown, false)), (500, "Failed to execute shutdown command".to_string()));
    assert_eq!(text(&power_outcome(PowerAction::Reboot, true)), (200, "Server is rebooting...".to_string()));
    assert_eq!(text(&power_outcome(PowerAction::Reboot, false)), (500, "Failed to execute reboot command".to_string()));
}

fn run_of(s: Step<ServiceKind>) -> (String, Vec<String>, Option<String>, ServiceKind) {
    match s {
        Step::Run { command, kind } => (command.program, command.args, command.current_dir, kind),
        Step::Reply(_) => panic!("expected a command"),
    }
}

fn reply_of(s: Step<ServiceKind>) -> (u16, String) {
    match s {
        Step::Reply(r) => text(&r),
        Step::Run { .. } => panic!("expected a reply"),
    }
}

#[test]
fn service_handler_plans_commands() {
    assert_eq!(reply_of(service_handler(false, "samba", "start", None, None, None)), (401, "Unauthorized".to_string()));
    let (p, a, d, k) = run_of(service_handler(true, "declin-discord", "trading-enable", Some("/home/lucas"), None, None));
    assert_eq!(p, "docker");
    assert_eq!(a, vec!["compose", "-f", "docker-compose.yml", "-f", "docker-compose.trading.yml", "up", "-d", "--force-recreate"]);
    assert_eq!(d.as_deref(), Some("/home/lucas/izeria/declin-discord"));
    assert!(matches!(k, ServiceKind::DeclinDiscord));
    let (_, a, d, _) = run_of(service_handler(true, "declin-discord", "stop", None, Some("/srv/bot"), None));
    assert_eq!(a, vec!["compose", "-f", "docker-compose.yml", "down"]);
    assert_eq!(d.as_deref(), Some("/srv/bot"));
    let (_, a, d, k) = run_of(service_handler(true, "declin-web", "start", None, None, None));
    assert_eq!(a, vec!["compose", "--profile", "mt5", "up", "-d", "--build"]);
    assert_eq!(d.as_deref(), Some("/root/izeria/declin-web"));
    assert!(matches!(k, ServiceKind::DeclinWeb));
    let (p, a, d, k) = run_of(service_handler(true, "samba", "stop", None, None, None));
    assert_eq!(p, "sudo");
    assert_eq!(a, vec!["systemctl", "stop", "smbd"]);
    assert_eq!(d, None);
    assert!(matches!(k, ServiceKind::Systemd));
    let (_, a, _, _) = run_of(service_handler(true, "minidlna", "start", None, None, None));
    assert_eq!(a, vec!["systemctl", "start", "minidlna"]);
    assert_eq!(reply_of(service_handler(true, "declin-web", "trading-enable", None, None, None)), (400, "Invalid action".to_string()));
    assert_eq!(reply_of(service_handler(true, "declin-discord", "restart", None, None, None)), (400, "Invalid action".to_string()));
    assert_eq!(reply_of(service_handler(true, "nginx", "start", None, None, None)), (400, "Unknown service".to_string()));
    assert_eq!(reply_of(service_handler(true, "samba", "restart", None, None, None)), (400, "Invalid action".to_string()));
}

#[test]
fn service_outcomes() {
    assert!(matches!(service_outcome(ServiceKind::Systemd, CommandOutcome::Succeeded), Reply::Status { status: 200 }));
    assert_eq!(text(&service_outcome(ServiceKind::DeclinDiscord, CommandOutcome::Exited("exit status: 1".to_string()))), (500, "docker exited with exit status: 1".to_string()));
    assert_eq!(text(&service_outcome(ServiceKind::DeclinDiscord, CommandOutcome::SpawnFailed("not found".to_string()))), (500, "Failed to run docker: not found".to_string()));
    assert_eq!(text(&service_outcome(ServiceKind::DeclinWeb, CommandOutcome::Exited("exit status: 2".to_string()))), (500, "Command failed".to_string()));
    assert_eq!(text(&service_outcome(ServiceKind::Systemd, CommandOutcome::SpawnFailed("x".to_string()))), (500, "Command failed".to_string()));
}

#[test]
fn uptime_formatting() {
    assert_eq!(format_uptime(0), "0m");
    assert_eq!(format_uptime(59), "0m");
    assert_eq!(format_uptime(3600 * 5 + 60 * 7 + 3), "5h 7m");
    assert_eq!(format_uptime(86400 * 2 + 3600 * 3 + 60 * 4), "2j 3h 4m");
    assert_eq!(format_uptime(86400), "1j 0h 0m");
}

#[test]
fn network_rates_and_second_sample_reports_nothing() {
    let mut last = (0u64, 0u64);
    let samples = vec![(1000u64, 10u64), (24u64, 2038u64)];
    let n = get_network_info(&samples, &mut last);
    assert_eq!(last, (1024, 2048));
    assert_eq!(n.rx_val, 1024);
    assert_eq!(n.tx_val, 2048);
    assert_eq!(n.rx_speed, "1.00 KiB/s");
    assert_eq!(n.tx_speed, "2.00 KiB/s");
    let n2 = get_network_info(&samples, &mut last);
    assert_eq!(n2.rx_val, 0);
    assert_eq!(n2.tx_val, 0);
    assert_eq!(n2.rx_speed, "0 B/s");
    // counters that went down report 0
    let mut last = (5000u64, 5000u64);
    let n3 = get_network_info(&vec![(10u64, 6000u64)], &mut last);
    assert_eq!((n3.rx_val, n3.tx_val), (0, 1000));
    assert_eq!(last, (10, 6000));
}

#[test]
fn service_checks_read_command_output() {
    assert!(check_declin_web_status(Some(b"true\n")));
    assert!(!check_declin_web_status(Some(b"false\n")));
    assert!(!check_declin_web_status(Some(b"tru")));
    assert!(!check_declin_web_status(None));
    assert!(check_trading_status(Some("PATH=/bin\nENABLE_TRADING=true\n")));
    assert!(check_trading_status(Some("ENABLE_TRADING=true\r\n")));
    assert!(!check_trading_status(Some("ENABLE_TRADING=true2\n")));
    assert!(!check_trading_status(Some(" ENABLE_TRADING=true")));
    assert!(!check_trading_status(None));
    let s = poll_service_status(true, false, true, false, true);
    assert!(s.declin_web && !s.declin_discord && s.trading && !s.samba && s.minidlna);
}

#[test]
fn docker_containers_are_parsed() {
    let stats = "web|0.50%|10MiB / 1GiB|1kB / 2kB\nbroken|line\nweb|1.50%|11MiB / 1GiB|3kB / 4kB\ndb|2.00%|20MiB / 1GiB|5kB / 6kB\n";
    let ps = "web|running\n\ndb|exited\nlonely\n";
    let c = poll_docker_containers(Some(stats), Some(ps));
    assert_eq!(c.len(), 3);
    assert_eq!(c[0].name, "web");
    assert!(c[0].is_running);
    assert_eq!(c[0].cpu, "1.50%");
    assert_eq!(c[0].memory, "11MiB / 1GiB");
    assert_eq!(c[0].net_io, "3kB / 4kB");
    assert_eq!(c[1].name, "db");
    assert!(!c[1].is_running);
    assert_eq!(c[1].cpu, "2.00%");
    assert_eq!(c[2].name, "lonely");
    assert!(!c[2].is_running);
    assert_eq!(c[2].cpu, "--");
    assert_eq!(c[2].memory, "-- / --");
    assert_eq!(c[2].net_io, "-- / --");
    let none = poll_docker_containers(None, Some("web|running"));
    assert_eq!(none[0].cpu, "--");
    assert!(poll_docker_containers(Some(stats), None).is_empty());
}

#[test]
fn top_memory_order_ranks_like_stable_sort_reversed() {
    let mem = vec![5u64, 9, 5, 1, 9, 7];
    assert_eq!(top_memory_order(&mem, 5), vec![4, 1, 5, 2, 0]);
    assert_eq!(top_memory_order(&mem, 10), vec![4, 1, 5, 2, 0, 3]);
    assert_eq!(top_memory_order(&mem, 0), Vec::<usize>::new());
    // compare with the sort the dashboard used
    let mut idx: Vec<usize> = (0..mem.len()).collect();
    idx.sort_by_key(|&i| mem[i]);
    idx.reverse();
    idx.truncate(5);
    assert_eq!(top_memory_order(&mem, 5), idx);
}

#[test]
fn cpu_sensor_labels() {
    assert!(is_cpu_sensor("CPU Package"));
    assert!(is_cpu_sensor("coretemp Core 0"));
    assert!(is_cpu_sensor("k10temp Tctl"));
    assert!(is_cpu_sensor("PACKAGE id 0"));
    assert!(!is_cpu_sensor("nvme Composite"));
    assert!(!is_cpu_sensor("acpitz"));
    assert!(is_cpu_sensor_label("cpu"));
    assert!(!is_cpu_sensor_label("CPU"));
}
