//! Power actions, service control and the dashboard figures.
use vstd::prelude::*;
use crate::handlers::{
    is_command, is_text, is_unauthorized, strings, text_reply, unauthorized, CommandOutcome,
    CommandSpec, Reply,
};
use crate::state::{CachedContainerInfo, CachedServiceStatus};
use crate::templates::NetworkInfo;
use crate::text::{
    chars_of, contains, contains_seq, dec, last_index_of, lex_less, lines, lines_spec, matches_at, owned, push_dec, push_str, seq_eq,
    sort_strings, sorted_lex, split_chars, split_on, starts_with_seq, str_eq, string_of, views,
};
use crate::utils::{human_bytes, human_readable_bytes};

verus! {

/// What a handler that runs a command does next: reply at once, or run the
/// command and reply from its outcome.
pub enum Step<K> {
    Reply(Reply),
    Run { command: CommandSpec, kind: K },
}

/// The power actions of the dashboard.
pub enum PowerAction {
    Shutdown,
    Reboot,
}

/// The services that `service_handler` controls, by how they are run.
pub enum ServiceKind {
    /// The `declin-discord` compose project.
    DeclinDiscord,
    /// The `declin-web` compose project.
    DeclinWeb,
    /// A systemd unit (`smbd`, `minidlna`).
    Systemd,
}

/// `shutdown_handler`: unauthenticated requests get `401`; otherwise
/// `sudo shutdown -h now` is started.
pub fn shutdown_handler(authenticated: bool) -> (s: Step<PowerAction>)
    ensures
        !authenticated ==> (s matches Step::Reply(r) && is_unauthorized(r)),
        authenticated ==> (s matches Step::Run { command, kind } && kind is Shutdown
            && is_command(command, "sudo"@, seq!["shutdown"@, "-h"@, "now"@])),
{
    if !authenticated {
        return Step::Reply(unauthorized());
    }
    let args = strings(&["shutdown", "-h", "now"]);
    let command = CommandSpec { program: owned("sudo"), args, current_dir: None };
    assert(views(command.args@) =~= seq!["shutdown"@, "-h"@, "now"@]);
    Step::Run { command, kind: PowerAction::Shutdown }
}

/// `reboot_handler`: unauthenticated requests get `401`; otherwise
/// `sudo reboot` is started.
pub fn reboot_handler(authenticated: bool) -> (s: Step<PowerAction>)
    ensures
        !authenticated ==> (s matches Step::Reply(r) && is_unauthorized(r)),
        authenticated ==> (s matches Step::Run { command, kind } && kind is Reboot
            && is_command(command, "sudo"@, seq!["reboot"@])),
{
    if !authenticated {
        return Step::Reply(unauthorized());
    }
    let args = strings(&["reboot"]);
    let command = CommandSpec { program: owned("sudo"), args, current_dir: None };
    assert(views(command.args@) =~= seq!["reboot"@]);
    Step::Run { command, kind: PowerAction::Reboot }
}

/// The reply once the power command was started (`spawned`) or not.
pub fn power_outcome(action: PowerAction, spawned: bool) -> (r: Reply)
    ensures
        (action is Shutdown && spawned) ==> is_text(r, 200, "Server is shutting down..."@),
        (action is Shutdown && !spawned) ==> is_text(
            r,
            500,
            "Failed to execute shutdown command"@,
        ),
        (action is Reboot && spawned) ==> is_text(r, 200, "Server is rebooting..."@),
        (action is Reboot && !spawned) ==> is_text(r, 500, "Failed to execute reboot command"@),
{
    match action {
        PowerAction::Shutdown => if spawned {
            text_reply(200, "Server is shutting down...")
        } else {
            text_reply(500, "Failed to execute shutdown command")
        },
        PowerAction::Reboot => if spawned {
            text_reply(200, "Server is rebooting...")
        } else {
            text_reply(500, "Failed to execute reboot command")
        },
    }
}

/// The compose directory of `project`: the configured path, or
/// `<home>/izeria/<project>` with `home` from `HOME` (`/root` when unset).
pub open spec fn compose_dir(
    configured: Option<Seq<char>>,
    home: Option<Seq<char>>,
    project: Seq<char>,
) -> Seq<char> {
    match configured {
        Some(p) => p,
        None => match home {
            Some(h) => h + "/izeria/"@ + project,
            None => "/root"@ + "/izeria/"@ + project,
        },
    }
}

/// The `docker` arguments for an action on the `declin-discord` project.
pub open spec fn discord_args(action: Seq<char>) -> Option<Seq<Seq<char>>> {
    if action == "start"@ {
        Some(seq!["compose"@, "-f"@, "docker-compose.yml"@, "up"@, "-d"@, "--build"@])
    } else if action == "stop"@ {
        Some(seq!["compose"@, "-f"@, "docker-compose.yml"@, "down"@])
    } else if action == "trading-enable"@ {
        Some(
            seq![
                "compose"@,
                "-f"@,
                "docker-compose.yml"@,
                "-f"@,
                "docker-compose.trading.yml"@,
                "up"@,
                "-d"@,
                "--force-recreate"@,
            ],
        )
    } else if action == "trading-disable"@ {
        Some(
            seq!["compose"@, "-f"@, "docker-compose.yml"@, "up"@, "-d"@, "--force-recreate"@],
        )
    } else {
        None
    }
}

/// Every action on the `declin-discord` project runs `docker compose -f
/// docker-compose.yml ...`; the trading compose file is named exactly by
/// `trading-enable`; only `stop` takes the project down; and
/// `trading-disable` recreates the project as `trading-enable` does, without
/// the trading file.
pub proof fn law_discord_actions(action: Seq<char>)
    ensures
        discord_args(action) matches Some(a) ==> {
            &&& a.len() >= 4
            &&& a.take(3) == seq!["compose"@, "-f"@, "docker-compose.yml"@]
            &&& (a.contains("docker-compose.trading.yml"@) <==> action == "trading-enable"@)
            &&& (a.last() == "down"@ <==> action == "stop"@)
        },
        discord_args("trading-enable"@) matches Some(e) && discord_args("trading-disable"@) matches Some(
            d,
        ) && d == e.take(3) + e.skip(5),
{
    reveal_strlit("start");
    reveal_strlit("stop");
    reveal_strlit("trading-enable");
    reveal_strlit("trading-disable");
    reveal_strlit("compose");
    reveal_strlit("-f");
    reveal_strlit("docker-compose.yml");
    reveal_strlit("docker-compose.trading.yml");
    reveal_strlit("up");
    reveal_strlit("-d");
    reveal_strlit("--build");
    reveal_strlit("--force-recreate");
    reveal_strlit("down");
    let t = "docker-compose.trading.yml"@;
    assert(t.len() == 26);
    assert("docker-compose.yml"@.len() == 18);
    match discord_args(action) {
        Some(a) => {
            assert(a.take(3) =~= seq!["compose"@, "-f"@, "docker-compose.yml"@]);
            assert("trading-enable"@.len() == 14 && "trading-disable"@.len() == 15);
            assert("start"@.len() == 5 && "stop"@.len() == 4 && "down"@.len() == 4);
            assert("--build"@.len() == 7 && "--force-recreate"@.len() == 16);
            assert("trading-enable"@ != "start"@);
            assert("trading-enable"@ != "stop"@);
            assert("trading-disable"@ != "start"@);
            assert("trading-disable"@ != "stop"@);
            assert("trading-disable"@ != "trading-enable"@);
            assert("down"@ != "--build"@);
            assert("down"@ != "--force-recreate"@);
            if action == "trading-enable"@ {
                assert(a[4] == t);
            } else {
                assert forall|i: int| 0 <= i < a.len() implies a[i] != t by {
                    assert(a[i].len() != t.len() || a[i] != t);
                }
            }
        },
        None => {},
    }
    let e = seq![
        "compose"@,
        "-f"@,
        "docker-compose.yml"@,
        "-f"@,
        "docker-compose.trading.yml"@,
        "up"@,
        "-d"@,
        "--force-recreate"@,
    ];
    assert(e.take(3) + e.skip(5) =~= seq!["compose"@, "-f"@, "docker-compose.yml"@, "up"@, "-d"@, "--force-recreate"@]);
}

/// The `docker` arguments for an action on the `declin-web` project.
pub open spec fn web_args(action: Seq<char>) -> Option<Seq<Seq<char>>> {
    if action == "start"@ {
        Some(seq!["compose"@, "--profile"@, "mt5"@, "up"@, "-d"@, "--build"@])
    } else if action == "stop"@ {
        Some(seq!["compose"@, "--profile"@, "mt5"@, "down"@])
    } else {
        None
    }
}

/// The systemd unit behind a service name.
pub open spec fn systemd_unit(service: Seq<char>) -> Option<Seq<char>> {
    if service == "samba"@ {
        Some("smbd"@)
    } else if service == "minidlna"@ {
        Some("minidlna"@)
    } else {
        None
    }
}

/// The step runs `program args` in `dir` for a service of kind `kind`.
pub open spec fn runs(
    s: Step<ServiceKind>,
    program: Seq<char>,
    args: Seq<Seq<char>>,
    dir: Option<Seq<char>>,
    kind: ServiceKind,
) -> bool {
    match s {
        Step::Run { command, kind: k } => {
            &&& k == kind
            &&& command.program@ == program
            &&& views(command.args@) == args
            &&& match (command.current_dir, dir) {
                (Some(c), Some(d)) => c@ == d,
                (None, None) => true,
                _ => false,
            }
        },
        _ => false,
    }
}

/// The step replies with this status and text.
pub open spec fn replies(s: Step<ServiceKind>, status: u16, body: Seq<char>) -> bool {
    s matches Step::Reply(r) && is_text(r, status, body)
}

/// The spec view of an optional string slice.
pub open spec fn opt_view(o: Option<&str>) -> Option<Seq<char>> {
    match o {
        Some(s) => Some(s@),
        None => None,
    }
}

fn compose_dir_of(configured: Option<&str>, home: Option<&str>, project: &str) -> (r: String)
    ensures
        r@ == compose_dir(opt_view(configured), opt_view(home), project@),
{
    match configured {
        Some(p) => owned(p),
        None => {
            let mut d = match home {
                Some(h) => owned(h),
                None => owned("/root"),
            };
            push_str(&mut d, "/izeria/");
            push_str(&mut d, project);
            d
        },
    }
}

/// `service_handler` for `service` and `action`, given `HOME`,
/// `DECLIN_DISCORD_PATH` and `DECLIN_WEB_PATH` (`None` when unset).
pub fn service_handler(
    authenticated: bool,
    service: &str,
    action: &str,
    home: Option<&str>,
    declin_discord_path: Option<&str>,
    declin_web_path: Option<&str>,
) -> (s: Step<ServiceKind>)
    ensures
        !authenticated ==> (s matches Step::Reply(r) && is_unauthorized(r)),
        authenticated && service@ == "declin-discord"@ ==> match discord_args(action@) {
            Some(a) => runs(
                s,
                "docker"@,
                a,
                Some(compose_dir(opt_view(declin_discord_path), opt_view(home), "declin-discord"@)),
                ServiceKind::DeclinDiscord,
            ),
            None => replies(s, 400, "Invalid action"@),
        },
        authenticated && service@ == "declin-web"@ ==> match web_args(action@) {
            Some(a) => runs(
                s,
                "docker"@,
                a,
                Some(compose_dir(opt_view(declin_web_path), opt_view(home), "declin-web"@)),
                ServiceKind::DeclinWeb,
            ),
            None => replies(s, 400, "Invalid action"@),
        },
        authenticated && service@ != "declin-discord"@ && service@ != "declin-web"@ ==> match systemd_unit(service@) {
            Some(u) => if action@ == "start"@ || action@ == "stop"@ {
                runs(s, "sudo"@, seq!["systemctl"@, action@, u], None, ServiceKind::Systemd)
            } else {
                replies(s, 400, "Invalid action"@)
            },
            None => replies(s, 400, "Unknown service"@),
        },
{
    if !authenticated {
        return Step::Reply(unauthorized());
    }
    proof {
        reveal_strlit("declin-discord");
        reveal_strlit("declin-web");
    }
    if str_eq(service, "declin-discord") {
        let args = if str_eq(action, "start") {
            strings(&["compose", "-f", "docker-compose.yml", "up", "-d", "--build"])
        } else if str_eq(action, "stop") {
            strings(&["compose", "-f", "docker-compose.yml", "down"])
        } else if str_eq(action, "trading-enable") {
            strings(
                &[
                    "compose",
                    "-f",
                    "docker-compose.yml",
                    "-f",
                    "docker-compose.trading.yml",
                    "up",
                    "-d",
                    "--force-recreate",
                ],
            )
        } else if str_eq(action, "trading-disable") {
            strings(&["compose", "-f", "docker-compose.yml", "up", "-d", "--force-recreate"])
        } else {
            return Step::Reply(text_reply(400, "Invalid action"));
        };
        assert(views(args@) =~= discord_args(action@).unwrap());
        let dir = compose_dir_of(declin_discord_path, home, "declin-discord");
        return Step::Run {
            command: CommandSpec { program: owned("docker"), args, current_dir: Some(dir) },
            kind: ServiceKind::DeclinDiscord,
        };
    }
    if str_eq(service, "declin-web") {
        let args = if str_eq(action, "start") {
            strings(&["compose", "--profile", "mt5", "up", "-d", "--build"])
        } else if str_eq(action, "stop") {
            strings(&["compose", "--profile", "mt5", "down"])
        } else {
            return Step::Reply(text_reply(400, "Invalid action"));
        };
        assert(views(args@) =~= web_args(action@).unwrap());
        let dir = compose_dir_of(declin_web_path, home, "declin-web");
        return Step::Run {
            command: CommandSpec { program: owned("docker"), args, current_dir: Some(dir) },
            kind: ServiceKind::DeclinWeb,
        };
    }
    let unit = if str_eq(service, "samba") {
        "smbd"
    } else if str_eq(service, "minidlna") {
        "minidlna"
    } else {
        return Step::Reply(text_reply(400, "Unknown service"));
    };
    let verb = if str_eq(action, "start") {
        "start"
    } else if str_eq(action, "stop") {
        "stop"
    } else {
        return Step::Reply(text_reply(400, "Invalid action"));
    };
    let args = strings(&["systemctl", verb, unit]);
    assert(views(args@) =~= seq!["systemctl"@, action@, systemd_unit(service@).unwrap()]);
    Step::Run {
        command: CommandSpec { program: owned("sudo"), args, current_dir: None },
        kind: ServiceKind::Systemd,
    }
}

/// The reply of `service_handler` once its command ran.
pub fn service_outcome(kind: ServiceKind, outcome: CommandOutcome) -> (r: Reply)
    ensures
        outcome is Succeeded ==> (r matches Reply::Status { status } && status == 200),
        kind is DeclinDiscord ==> match outcome {
            CommandOutcome::Exited(st) => is_text(r, 500, "docker exited with "@ + st@),
            CommandOutcome::SpawnFailed(e) => is_text(r, 500, "Failed to run docker: "@ + e@),
            CommandOutcome::Succeeded => true,
        },
        !(kind is DeclinDiscord) && !(outcome is Succeeded) ==> is_text(
            r,
            500,
            "Command failed"@,
        ),
{
    match outcome {
        CommandOutcome::Succeeded => Reply::Status { status: 200 },
        CommandOutcome::Exited(st) => match kind {
            ServiceKind::DeclinDiscord => {
                let mut body = owned("docker exited with ");
                push_str(&mut body, st.as_str());
                Reply::Text { status: 500, body }
            },
            _ => text_reply(500, "Command failed"),
        },
        CommandOutcome::SpawnFailed(e) => match kind {
            ServiceKind::DeclinDiscord => {
                let mut body = owned("Failed to run docker: ");
                push_str(&mut body, e.as_str());
                Reply::Text { status: 500, body }
            },
            _ => text_reply(500, "Command failed"),
        },
    }
}

/// How long the machine has been up, as the dashboard words it: days, hours
/// and minutes (`"2j 3h 4m"`), dropping leading zero units down to minutes.
pub open spec fn uptime_text(secs: nat) -> Seq<char> {
    let days = secs / 86400;
    let hours = (secs % 86400) / 3600;
    let mins = (secs % 3600) / 60;
    if days > 0 {
        dec(days) + "j "@ + dec(hours) + "h "@ + dec(mins) + "m"@
    } else if hours > 0 {
        dec(hours) + "h "@ + dec(mins) + "m"@
    } else {
        dec(mins) + "m"@
    }
}

/// Renders an uptime given in seconds.
pub fn format_uptime(secs: u64) -> (r: String)
    ensures
        r@ == uptime_text(secs as nat),
{
    let days = secs / 86400;
    let hours = (secs % 86400) / 3600;
    let mins = (secs % 3600) / 60;
    let mut s = String::new();
    if days > 0 {
        push_dec(&mut s, days);
        push_str(&mut s, "j ");
        push_dec(&mut s, hours);
        push_str(&mut s, "h ");
        push_dec(&mut s, mins);
        push_str(&mut s, "m");
    } else if hours > 0 {
        push_dec(&mut s, hours);
        push_str(&mut s, "h ");
        push_dec(&mut s, mins);
        push_str(&mut s, "m");
    } else {
        push_dec(&mut s, mins);
        push_str(&mut s, "m");
    }
    assert(s@ =~= uptime_text(secs as nat));
    s
}

/// Sum of counters, wrapping at `u64::MAX` as the release build does.
pub open spec fn wrapping_total(s: Seq<u64>) -> u64
    decreases s.len(),
{
    if s.len() == 0 {
        0
    } else {
        vstd::wrapping::u64_specs::wrapping_add(wrapping_total(s.drop_last()), s.last())
    }
}

/// The received counters of the network samples.
pub open spec fn received(samples: Seq<(u64, u64)>) -> Seq<u64> {
    samples.map_values(|p: (u64, u64)| p.0)
}

/// The transmitted counters of the network samples.
pub open spec fn transmitted(samples: Seq<(u64, u64)>) -> Seq<u64> {
    samples.map_values(|p: (u64, u64)| p.1)
}

/// Growth of a counter since its previous value; 0 when it went down.
pub open spec fn counter_delta(current: u64, previous: u64) -> u64 {
    if current >= previous {
        (current - previous) as u64
    } else {
        0
    }
}

/// Network throughput from the per-interface `(received, transmitted)`
/// counters of this sample and the totals of the previous one, which `last`
/// holds and which are replaced by this sample's totals.
pub fn get_network_info(samples: &Vec<(u64, u64)>, last: &mut (u64, u64)) -> (n: NetworkInfo)
    ensures
        ({
            let rx = wrapping_total(received(samples@));
            let tx = wrapping_total(transmitted(samples@));
            &&& *final(last) == (rx, tx)
            &&& n.rx_val == counter_delta(rx, old(last).0)
            &&& n.tx_val == counter_delta(tx, old(last).1)
            &&& n.rx_speed@ == human_bytes(n.rx_val as nat) + "/s"@
            &&& n.tx_speed@ == human_bytes(n.tx_val as nat) + "/s"@
        }),
{
    let mut current_rx: u64 = 0;
    let mut current_tx: u64 = 0;
    let mut i: usize = 0;
    while i < samples.len()
        invariant
            i <= samples@.len(),
            current_rx == wrapping_total(received(samples@.take(i as int))),
            current_tx == wrapping_total(transmitted(samples@.take(i as int))),
        decreases samples@.len() - i,
    {
        assert(received(samples@.take(i + 1)).drop_last() =~= received(samples@.take(i as int)));
        assert(transmitted(samples@.take(i + 1)).drop_last() =~= transmitted(
            samples@.take(i as int),
        ));
        current_rx = current_rx.wrapping_add(samples[i].0);
        current_tx = current_tx.wrapping_add(samples[i].1);
        i = i + 1;
    }
    assert(samples@.take(i as int) =~= samples@);
    let rx_speed = if current_rx >= last.0 {
        current_rx - last.0
    } else {
        0
    };
    let tx_speed = if current_tx >= last.1 {
        current_tx - last.1
    } else {
        0
    };
    *last = (current_rx, current_tx);
    let mut rx_text = human_readable_bytes(rx_speed);
    push_str(&mut rx_text, "/s");
    let mut tx_text = human_readable_bytes(tx_speed);
    push_str(&mut tx_text, "/s");
    NetworkInfo { rx_speed: rx_text, tx_speed: tx_text, rx_val: rx_speed, tx_val: tx_speed }
}

/// Sampling the same counters twice reports no traffic the second time:
/// after one sample the stored totals are those of the counters, so the
/// growth measured against them is zero.
pub proof fn law_unchanged_counters_report_no_traffic(samples: Seq<(u64, u64)>)
    ensures
        ({
            let rx = wrapping_total(received(samples));
            let tx = wrapping_total(transmitted(samples));
            counter_delta(rx, rx) == 0 && counter_delta(tx, tx) == 0
        }),
{
}

/// The service sample from the individual checks.
pub fn poll_service_status(
    declin_web: bool,
    declin_discord: bool,
    trading: bool,
    samba: bool,
    minidlna: bool,
) -> (s: CachedServiceStatus)
    ensures
        s.declin_web == declin_web,
        s.declin_discord == declin_discord,
        s.trading == trading,
        s.samba == samba,
        s.minidlna == minidlna,
{
    CachedServiceStatus { declin_web, declin_discord, trading, samba, minidlna }
}

/// Whether `docker inspect --format={{.State.Running}}` reported a running
/// container: its output (when the command could run) starts with `true`.
pub fn check_declin_web_status(stdout: Option<&[u8]>) -> (b: bool)
    ensures
        b == match stdout {
            Some(o) => o@.len() >= 4 && o@.take(4) == seq![116u8, 114u8, 117u8, 101u8],
            None => false,
        },
{
    match stdout {
        Some(o) => {
            let r = o.len() >= 4 && o[0] == 116u8 && o[1] == 114u8 && o[2] == 117u8 && o[3]
                == 101u8;
            assert(r ==> o@.take(4) =~= seq![116u8, 114u8, 117u8, 101u8]);
            assert(o@.len() >= 4 && o@.take(4) == seq![116u8, 114u8, 117u8, 101u8] ==> o@[0]
                == 116u8 && o@[1] == 114u8 && o@[2] == 117u8 && o@[3] == 101u8) by {
                if o@.len() >= 4 && o@.take(4) == seq![116u8, 114u8, 117u8, 101u8] {
                    assert(o@.take(4)[0] == o@[0]);
                    assert(o@.take(4)[1] == o@[1]);
                    assert(o@.take(4)[2] == o@[2]);
                    assert(o@.take(4)[3] == o@[3]);
                }
            }
            r
        },
        None => false,
    }
}

/// Whether some line of `text` (as `str::lines` splits it) equals `target`.
pub open spec fn has_line(text: Seq<char>, target: Seq<char>) -> bool {
    exists|i: int| 0 <= i < lines_spec(text).len() && #[trigger] lines_spec(text)[i] == target
}

/// Whether some line of `text` equals `target`.
pub fn any_line_equals(text: &str, target: &str) -> (b: bool)
    ensures
        b == has_line(text@, target@),
{
    let chars = chars_of(text);
    let ls = lines(&chars);
    let want = chars_of(target);
    let mut i: usize = 0;
    while i < ls.len()
        invariant
            i <= ls@.len(),
            ls@.map_values(|p: Vec<char>| p@) == lines_spec(text@),
            want@ == target@,
            forall|k: int| 0 <= k < i ==> lines_spec(text@)[k] != target@,
        decreases ls@.len() - i,
    {
        assert(ls@[i as int]@ == lines_spec(text@)[i as int]);
        if crate::text::seq_eq(&ls[i], &want) {
            assert(lines_spec(text@)[i as int] == target@);
            return true;
        }
        i = i + 1;
    }
    false
}

/// Whether the environment listing of the `declin-discord` container (the
/// text output of `docker inspect`, when it could run) has a line that is
/// exactly `ENABLE_TRADING=true`.
pub fn check_trading_status(stdout: Option<&str>) -> (b: bool)
    ensures
        b == match stdout {
            Some(o) => has_line(o@, "ENABLE_TRADING=true"@),
            None => false,
        },
{
    match stdout {
        Some(o) => any_line_equals(o, "ENABLE_TRADING=true"),
        None => false,
    }
}

/// The `docker stats` figures (CPU, memory, network) of container `name`:
/// those of the last line of the form `name|cpu|memory|network`.
pub open spec fn stats_lookup(lines: Seq<Seq<char>>, name: Seq<char>) -> Option<
    (Seq<char>, Seq<char>, Seq<char>),
>
    decreases lines.len(),
{
    if lines.len() == 0 {
        None
    } else {
        let p = split_on(lines.last(), '|');
        if p.len() == 4 && p[0] == name {
            Some((p[1], p[2], p[3]))
        } else {
            stats_lookup(lines.drop_last(), name)
        }
    }
}

/// The non-empty lines of `text`.
pub open spec fn nonempty_lines(text: Seq<char>) -> Seq<Seq<char>> {
    lines_spec(text).filter(|l: Seq<char>| l.len() > 0)
}

/// `c` is what the dashboard caches for the `docker ps` line `line`
/// (`name|state`), given the `docker stats` lines.
pub open spec fn container_from_line(
    c: CachedContainerInfo,
    line: Seq<char>,
    stats: Seq<Seq<char>>,
) -> bool {
    let p = split_on(line, '|');
    &&& c.name@ == p[0]
    &&& c.is_running == (p.len() > 1 && p[1] == "running"@)
    &&& match stats_lookup(stats, p[0]) {
        Some((cpu, mem, net)) => c.cpu@ == cpu && c.memory@ == mem && c.net_io@ == net,
        None => c.cpu@ == "--"@ && c.memory@ == "-- / --"@ && c.net_io@ == "-- / --"@,
    }
}

/// A container cached from a `docker ps` line `name|state` is named by the
/// text before the first `|` (the whole line when there is none), and is
/// running exactly when the state, the text between the first `|` and the
/// next `|` or the end, is `running` (a restarting, paused or created
/// container is not).
pub proof fn law_container_running_iff_state_running(
    c: CachedContainerInfo,
    line: Seq<char>,
    stats: Seq<Seq<char>>,
)
    requires
        container_from_line(c, line, stats),
    ensures
        c.name@.len() <= line.len(),
        c.name@ == line.take(c.name@.len() as int),
        forall|j: int| 0 <= j < c.name@.len() ==> #[trigger] c.name@[j] != '|',
        c.name@.len() == line.len() || line[c.name@.len() as int] == '|',
        c.is_running <==> exists|i: int|
            {
                &&& 0 <= i
                &&& i + 8 <= line.len()
                &&& #[trigger] line[i] == '|'
                &&& forall|j: int| 0 <= j < i ==> line[j] != '|'
                &&& line.subrange(i + 1, i + 8) == "running"@
                &&& (i + 8 == line.len() || line[i + 8] == '|')
            },
{
    reveal_strlit("running");
    let p = split_on(line, '|');
    crate::text::lemma_split_first(line, '|');
    let f = p[0];
    let i = f.len() as int;
    if p.len() > 1 {
        crate::text::lemma_split_rest(line, '|');
        let t = line.skip(i + 1);
        crate::text::lemma_split_first(t, '|');
        let g = split_on(t, '|')[0];
        assert(p[1] == g);
        if c.is_running {
            assert(g == "running"@);
            assert(line.subrange(i + 1, i + 8) =~= t.take(7));
            if i + 8 < line.len() {
                assert(split_on(t, '|').len() > 1);
                assert(line[i + 8] == t[7]);
            }
            assert(line[i] == '|');
            assert forall|j: int| 0 <= j < i implies line[j] != '|' by {
                assert(line[j] == f[j]);
            }
        }
        if exists|k: int|
            {
                &&& 0 <= k
                &&& k + 8 <= line.len()
                &&& #[trigger] line[k] == '|'
                &&& forall|j: int| 0 <= j < k ==> line[j] != '|'
                &&& line.subrange(k + 1, k + 8) == "running"@
                &&& (k + 8 == line.len() || line[k + 8] == '|')
            } {
            let k = choose|k: int|
                {
                    &&& 0 <= k
                    &&& k + 8 <= line.len()
                    &&& #[trigger] line[k] == '|'
                    &&& forall|j: int| 0 <= j < k ==> line[j] != '|'
                    &&& line.subrange(k + 1, k + 8) == "running"@
                    &&& (k + 8 == line.len() || line[k + 8] == '|')
                };
            if k < i {
                assert(line[k] == f[k]);
            }
            assert(k == i);
            assert(t.take(7) =~= line.subrange(i + 1, i + 8));
            if g.len() < 7 {
                if split_on(t, '|').len() == 1 {
                    assert(false);
                } else {
                    assert(t[g.len() as int] == "running"@[g.len() as int]);
                }
            }
            if g.len() > 7 {
                assert(g[7] == t[7]);
                assert(line[i + 8] == t[7]);
            }
            assert(g =~= "running"@);
        }
    } else {
        if c.is_running {
            assert(false);
        }
        if exists|k: int|
            {
                &&& 0 <= k
                &&& k + 8 <= line.len()
                &&& #[trigger] line[k] == '|'
                &&& forall|j: int| 0 <= j < k ==> line[j] != '|'
                &&& line.subrange(k + 1, k + 8) == "running"@
                &&& (k + 8 == line.len() || line[k + 8] == '|')
            } {
            let k = choose|k: int|
                {
                    &&& 0 <= k
                    &&& k + 8 <= line.len()
                    &&& #[trigger] line[k] == '|'
                    &&& forall|j: int| 0 <= j < k ==> line[j] != '|'
                    &&& line.subrange(k + 1, k + 8) == "running"@
                    &&& (k + 8 == line.len() || line[k + 8] == '|')
                };
            assert(line[k] == f[k]);
        }
    }
}

fn lookup_stats(stat_lines: &Vec<Vec<char>>, name: &Vec<char>) -> (r: Option<(String, String, String)>)
    ensures
        ({
            let ls = stat_lines@.map_values(|p: Vec<char>| p@);
            match (r, stats_lookup(ls, name@)) {
                (Some((a, b, c)), Some((x, y, z))) => a@ == x && b@ == y && c@ == z,
                (None, None) => true,
                _ => false,
            }
        }),
{
    let ghost ls = stat_lines@.map_values(|p: Vec<char>| p@);
    let mut j = stat_lines.len();
    assert(ls.take(j as int) =~= ls);
    while j > 0
        invariant
            j <= stat_lines@.len(),
            ls == stat_lines@.map_values(|p: Vec<char>| p@),
            stats_lookup(ls, name@) == stats_lookup(ls.take(j as int), name@),
        decreases j,
    {
        let line = &stat_lines[j - 1];
        let parts = split_chars(line, '|');
        let ghost p = split_on(line@, '|');
        assert(parts@.map_values(|q: Vec<char>| q@) == p);
        assert(ls.take(j as int).drop_last() =~= ls.take(j - 1));
        assert(ls.take(j as int).last() == line@);
        if parts.len() == 4 {
            assert(parts@[0]@ == p[0]);
            if seq_eq(&parts[0], name) {
                assert(parts@[1]@ == p[1]);
                assert(parts@[2]@ == p[2]);
                assert(parts@[3]@ == p[3]);
                return Some((string_of(&parts[1]), string_of(&parts[2]), string_of(&parts[3])));
            }
        }
        j = j - 1;
    }
    None
}

/// The container list from the outputs of
/// `docker stats --no-stream --format {{.Name}}|{{.CPUPerc}}|{{.MemUsage}}|{{.NetIO}}`
/// and `docker ps -a --format {{.Names}}|{{.State}}` (each `None` when the
/// command could not run): one entry per non-empty `docker ps` line, with the
/// figures of its `docker stats` line or `--` placeholders.
pub fn poll_docker_containers(stats_stdout: Option<&str>, ps_stdout: Option<&str>) -> (r: Vec<
    CachedContainerInfo,
>)
    ensures
        ({
            let stats = match stats_stdout {
                Some(o) => lines_spec(o@),
                None => Seq::<Seq<char>>::empty(),
            };
            match ps_stdout {
                Some(o) => {
                    &&& r@.len() == nonempty_lines(o@).len()
                    &&& forall|i: int|
                        0 <= i < r@.len() ==> container_from_line(
                            #[trigger] r@[i],
                            nonempty_lines(o@)[i],
                            stats,
                        )
                },
                None => r@.len() == 0,
            }
        }),
{
    let stat_lines: Vec<Vec<char>> = match stats_stdout {
        Some(o) => {
            let t = chars_of(o);
            lines(&t)
        },
        None => Vec::new(),
    };
    let ghost stats = match stats_stdout {
        Some(o) => lines_spec(o@),
        None => Seq::<Seq<char>>::empty(),
    };
    assert(stat_lines@.map_values(|p: Vec<char>| p@) =~= stats);
    match ps_stdout {
        None => Vec::new(),
        Some(o) => {
            let t = chars_of(o);
            let ls = lines(&t);
            let ghost all = lines_spec(o@);
            let mut out: Vec<CachedContainerInfo> = Vec::new();
            let mut i: usize = 0;
            while i < ls.len()
                invariant
                    i <= ls@.len(),
                    ls@.map_values(|p: Vec<char>| p@) == all,
                    all == lines_spec(o@),
                    stat_lines@.map_values(|p: Vec<char>| p@) == stats,
                    out@.len() == all.take(i as int).filter(|l: Seq<char>| l.len() > 0).len(),
                    forall|k: int|
                        0 <= k < out@.len() ==> container_from_line(
                            #[trigger] out@[k],
                            all.take(i as int).filter(|l: Seq<char>| l.len() > 0)[k],
                            stats,
                        ),
                decreases ls@.len() - i,
            {
                let line = &ls[i];
                assert(line@ == all[i as int]);
                proof {
                    reveal(Seq::filter);
                    assert(all.take(i + 1).drop_last() =~= all.take(i as int));
                    assert(all.take(i + 1).last() == all[i as int]);
                }
                if line.len() > 0 {
                    let parts = split_chars(line, '|');
                    let ghost p = split_on(line@, '|');
                    assert(parts@.map_values(|q: Vec<char>| q@) == p);
                    proof {
                        crate::text::lemma_split_on_nonempty(line@, '|');
                    }
                    let name = string_of(&parts[0]);
                    let is_running = parts.len() > 1 && crate::text::str_eq(
                        string_of(&parts[1]).as_str(),
                        "running",
                    );
                    let (cpu, memory, net_io) = match lookup_stats(&stat_lines, &parts[0]) {
                        Some(found) => found,
                        None => (owned("--"), owned("-- / --"), owned("-- / --")),
                    };
                    let c = CachedContainerInfo { name, is_running, cpu, memory, net_io };
                    assert(container_from_line(c, line@, stats));
                    out.push(c);
                }
                i = i + 1;
            }
            assert(all.take(i as int) =~= all);
            out
        },
    }
}

/// One mounted disk as `sysinfo` lists it (name and file system read as
/// text).
pub struct DiskSample {
    pub name: String,
    pub file_system: String,
    pub total_space: u64,
    pub available_space: u64,
}

/// The space of one physical disk or ZFS pool, summed over its partitions
/// or datasets.
pub struct DiskUsage {
    pub name: String,
    pub total: u64,
    pub used: u64,
}

/// Loop devices, RAM disks and optical drives, which are not counted.
pub open spec fn is_virtual_device(name: Seq<char>) -> bool {
    starts_with_seq(name, "loop"@) || starts_with_seq(name, "ram"@) || starts_with_seq(name, "sr"@)
}

/// File systems that hold no disk space of their own.
pub open spec fn is_virtual_fs(fs: Seq<char>) -> bool {
    fs == "squashfs"@ || fs == "tmpfs"@ || fs == "overlay"@ || fs == "devtmpfs"@
}

/// An ASCII digit.
pub open spec fn is_ascii_digit(c: char) -> bool {
    48 <= (c as u32) <= 57
}

/// Number of ASCII digits at the end of `s`.
pub open spec fn trailing_digits(s: Seq<char>) -> nat
    decreases s.len(),
{
    if s.len() > 0 && is_ascii_digit(s.last()) {
        1 + trailing_digits(s.drop_last())
    } else {
        0
    }
}

/// The physical disk of a partition: `nvme0n1p1` → `nvme0n1`, `mmcblk0p2` →
/// `mmcblk0` (cut at the last `p` when only digits follow it), `sda1` →
/// `sda` (trailing digits dropped unless nothing would remain).
pub open spec fn base_disk_name(name: Seq<char>) -> Seq<char> {
    if starts_with_seq(name, "nvme"@) || starts_with_seq(name, "mmcblk"@) {
        let i = last_index_of(name, 'p');
        if i >= 0 && (forall|k: int| i < k < name.len() ==> is_ascii_digit(#[trigger] name[k])) {
            name.take(i)
        } else {
            name
        }
    } else {
        let t = name.take(name.len() - trailing_digits(name));
        if t.len() > 0 {
            t
        } else {
            name
        }
    }
}

/// The partitions seen so far and the `(total, used)` space per disk or pool.
pub type DiskTally = (Set<Seq<char>>, Map<Seq<char>, (u64, u64)>);

/// The tally after one more disk: a partition already seen, a virtual device
/// or a virtual file system changes nothing; a ZFS dataset counts towards its
/// pool (the largest total reported, the sum of the used space); any other
/// partition adds its total and used space to its physical disk. Sums wrap at
/// `u64::MAX`, as the release build does.
pub open spec fn tally_step(st: DiskTally, d: DiskSample) -> DiskTally {
    let name = d.name@;
    let fs = d.file_system@;
    if st.0.contains(name) || is_virtual_device(name) || is_virtual_fs(fs) {
        st
    } else {
        let seen = st.0.insert(name);
        let total = d.total_space;
        let avail = d.available_space;
        if fs == "zfs"@ {
            let pool = split_on(name, '/')[0];
            let used: u64 = if total >= avail {
                (total - avail) as u64
            } else {
                0
            };
            let prev = if st.1.contains_key(pool) {
                st.1[pool]
            } else {
                (0u64, 0u64)
            };
            let new_total = if prev.0 >= total {
                prev.0
            } else {
                total
            };
            (seen, st.1.insert(pool, (new_total, vstd::wrapping::u64_specs::wrapping_add(prev.1, used))))
        } else {
            let base = base_disk_name(name);
            let used = vstd::wrapping::u64_specs::wrapping_sub(total, avail);
            let prev = if st.1.contains_key(base) {
                st.1[base]
            } else {
                (0u64, 0u64)
            };
            (
                seen,
                st.1.insert(
                    base,
                    (
                        vstd::wrapping::u64_specs::wrapping_add(prev.0, total),
                        vstd::wrapping::u64_specs::wrapping_add(prev.1, used),
                    ),
                ),
            )
        }
    }
}

/// The tally over all disks, in order.
pub open spec fn disk_tally(disks: Seq<DiskSample>) -> DiskTally
    decreases disks.len(),
{
    if disks.len() == 0 {
        (Set::empty(), Map::empty())
    } else {
        tally_step(disk_tally(disks.drop_last()), disks.last())
    }
}

fn starts_with_lit(v: &Vec<char>, p: &str) -> (b: bool)
    ensures
        b == starts_with_seq(v@, p@),
{
    let pv = chars_of(p);
    matches_at(v, &pv, 0)
}

fn is_ascii_digit_char(c: char) -> (b: bool)
    ensures
        b == is_ascii_digit(c),
{
    let u = c as u32;
    48 <= u && u <= 57
}

/// The physical disk of a partition name.
pub fn base_disk_name_of(name: &Vec<char>) -> (r: Vec<char>)
    ensures
        r@ == base_disk_name(name@),
{
    let n = name.len();
    if starts_with_lit(name, "nvme") || starts_with_lit(name, "mmcblk") {
        let mut j = n;
        assert(name@.take(n as int) =~= name@);
        while j > 0 && name[j - 1] != 'p'
            invariant
                j <= n == name@.len(),
                last_index_of(name@, 'p') == last_index_of(name@.take(j as int), 'p'),
                forall|k: int| j <= k < n ==> name@[k] != 'p',
            decreases j,
        {
            assert(name@.take(j as int).drop_last() =~= name@.take(j - 1));
            j = j - 1;
        }
        if j == 0 {
            assert(last_index_of(name@.take(0), 'p') == -1);
            return name.clone();
        }
        assert(name@.take(j as int).last() == 'p');
        let i = j - 1;
        assert(last_index_of(name@, 'p') == i);
        let mut k = i + 1;
        while k < n
            invariant
                i < k <= n == name@.len(),
                last_index_of(name@, 'p') == i,
                starts_with_seq(name@, "nvme"@) || starts_with_seq(name@, "mmcblk"@),
                forall|m: int| i < m < k ==> is_ascii_digit(#[trigger] name@[m]),
            decreases n - k,
        {
            if !is_ascii_digit_char(name[k]) {
                assert(!is_ascii_digit(name@[k as int]));
                return name.clone();
            }
            k = k + 1;
        }
        let mut r: Vec<char> = Vec::new();
        let mut m: usize = 0;
        while m < i
            invariant
                m <= i < n == name@.len(),
                r@ == name@.take(m as int),
            decreases i - m,
        {
            r.push(name[m]);
            m = m + 1;
            assert(r@ =~= name@.take(m as int));
        }
        r
    } else {
        let mut j = n;
        assert(name@.take(n as int) =~= name@);
        while j > 0 && is_ascii_digit_char(name[j - 1])
            invariant
                j <= n == name@.len(),
                trailing_digits(name@) == (n - j) + trailing_digits(name@.take(j as int)),
            decreases j,
        {
            assert(name@.take(j as int).drop_last() =~= name@.take(j - 1));
            j = j - 1;
        }
        assert(trailing_digits(name@.take(j as int)) == 0);
        if j == 0 {
            return name.clone();
        }
        let mut r: Vec<char> = Vec::new();
        let mut m: usize = 0;
        while m < j
            invariant
                m <= j <= n == name@.len(),
                r@ == name@.take(m as int),
            decreases j - m,
        {
            r.push(name[m]);
            m = m + 1;
            assert(r@ =~= name@.take(m as int));
        }
        r
    }
}

fn contains_name(seen: &Vec<Vec<char>>, name: &Vec<char>) -> (b: bool)
    ensures
        b == exists|k: int| 0 <= k < seen@.len() && (#[trigger] seen@[k])@ == name@,
{
    let mut k: usize = 0;
    while k < seen.len()
        invariant
            k <= seen@.len(),
            forall|m: int| 0 <= m < k ==> (#[trigger] seen@[m])@ != name@,
        decreases seen@.len() - k,
    {
        if seq_eq(&seen[k], name) {
            return true;
        }
        k = k + 1;
    }
    false
}

fn group_index(groups: &Vec<DiskUsage>, name: &Vec<char>) -> (r: Option<usize>)
    ensures
        match r {
            Some(k) => k < groups@.len() && groups@[k as int].name@ == name@,
            None => forall|k: int| 0 <= k < groups@.len() ==> (#[trigger] groups@[k]).name@ != name@,
        },
{
    let mut k: usize = 0;
    while k < groups.len()
        invariant
            k <= groups@.len(),
            forall|m: int| 0 <= m < k ==> (#[trigger] groups@[m]).name@ != name@,
        decreases groups@.len() - k,
    {
        let g = chars_of(groups[k].name.as_str());
        if seq_eq(&g, name) {
            return Some(k);
        }
        k = k + 1;
    }
    None
}

fn is_virtual_fs_of(fs: &Vec<char>) -> (b: bool)
    ensures
        b == is_virtual_fs(fs@),
{
    seq_eq(fs, &chars_of("squashfs")) || seq_eq(fs, &chars_of("tmpfs")) || seq_eq(
        fs,
        &chars_of("overlay"),
    ) || seq_eq(fs, &chars_of("devtmpfs"))
}

/// `groups` holds exactly the entries of `m`, each name once.
pub open spec fn groups_match(groups: Seq<DiskUsage>, m: Map<Seq<char>, (u64, u64)>) -> bool {
    &&& forall|k: int|
        0 <= k < groups.len() ==> m.contains_key((#[trigger] groups[k]).name@) && m[groups[k].name@]
            == (groups[k].total, groups[k].used)
    &&& forall|key: Seq<char>|
        #[trigger] m.contains_key(key) ==> exists|k: int|
            0 <= k < groups.len() && (#[trigger] groups[k]).name@ == key
    &&& forall|a: int, b: int| 0 <= a < b < groups.len() ==> groups[a].name@ != groups[b].name@
}

/// Adds `(total, used)` into the group `key` with `combine`.
fn add_to_group(groups: &mut Vec<DiskUsage>, key: &Vec<char>, total: u64, used: u64, zfs: bool)
    ensures
        ({
            let prev = |m: Map<Seq<char>, (u64, u64)>|
                if m.contains_key(key@) {
                    m[key@]
                } else {
                    (0u64, 0u64)
                };
            forall|m: Map<Seq<char>, (u64, u64)>|
                groups_match(old(groups)@, m) ==> groups_match(
                    final(groups)@,
                    m.insert(
                        key@,
                        if zfs {
                            (
                                if prev(m).0 >= total {
                                    prev(m).0
                                } else {
                                    total
                                },
                                vstd::wrapping::u64_specs::wrapping_add(prev(m).1, used),
                            )
                        } else {
                            (
                                vstd::wrapping::u64_specs::wrapping_add(prev(m).0, total),
                                vstd::wrapping::u64_specs::wrapping_add(prev(m).1, used),
                            )
                        },
                    ),
                )
        }),
{
    match group_index(groups, key) {
        Some(k) => {
            let g_total = groups[k].total;
            let g_used = groups[k].used;
            let new_total = if zfs {
                if g_total >= total {
                    g_total
                } else {
                    total
                }
            } else {
                g_total.wrapping_add(total)
            };
            let ghost old_groups = groups@;
            groups[k].total = new_total;
            groups[k].used = g_used.wrapping_add(used);
            assert forall|m: Map<Seq<char>, (u64, u64)>| groups_match(old_groups, m) implies #[trigger] groups_match(groups@, m.insert(key@, (new_total, vstd::wrapping::u64_specs::wrapping_add(g_used, used)))) by {
                let m2 = m.insert(key@, (new_total, vstd::wrapping::u64_specs::wrapping_add(g_used, used)));
                assert forall|key2: Seq<char>| #[trigger] m2.contains_key(key2) implies exists|j: int|
                    0 <= j < groups@.len() && (#[trigger] groups@[j]).name@ == key2 by {
                    if key2 == key@ {
                        assert(groups@[k as int].name@ == key2);
                    } else {
                        assert(m.contains_key(key2));
                        let j = choose|j: int| 0 <= j < old_groups.len() && (#[trigger] old_groups[j]).name@ == key2;
                        assert(groups@[j].name@ == key2);
                    }
                }
                assert forall|j: int| 0 <= j < groups@.len() implies m2.contains_key((#[trigger] groups@[j]).name@) && m2[groups@[j].name@] == (groups@[j].total, groups@[j].used) by {
                    if j != k {
                        assert(old_groups[j].name@ != old_groups[k as int].name@);
                        assert(groups@[j] == old_groups[j]);
                    }
                }
            }
        },
        None => {
            let ghost old_groups = groups@;
            let t = if zfs {
                total
            } else {
                0u64.wrapping_add(total)
            };
            groups.push(DiskUsage { name: string_of(key), total: t, used: 0u64.wrapping_add(used) });
            assert forall|m: Map<Seq<char>, (u64, u64)>| groups_match(old_groups, m) implies #[trigger] groups_match(groups@, m.insert(key@, (t, vstd::wrapping::u64_specs::wrapping_add(0u64, used)))) by {
                let m2 = m.insert(key@, (t, vstd::wrapping::u64_specs::wrapping_add(0u64, used)));
                assert(!m.contains_key(key@)) by {
                    if m.contains_key(key@) {
                        let j = choose|j: int| 0 <= j < old_groups.len() && (#[trigger] old_groups[j]).name@ == key@;
                    }
                }
                assert forall|key2: Seq<char>| #[trigger] m2.contains_key(key2) implies exists|j: int|
                    0 <= j < groups@.len() && (#[trigger] groups@[j]).name@ == key2 by {
                    if key2 == key@ {
                        assert(groups@[old_groups.len() as int].name@ == key2);
                    } else {
                        let j = choose|j: int| 0 <= j < old_groups.len() && (#[trigger] old_groups[j]).name@ == key2;
                        assert(groups@[j].name@ == key2);
                    }
                }
                assert forall|j: int| 0 <= j < groups@.len() implies m2.contains_key((#[trigger] groups@[j]).name@) && m2[groups@[j].name@] == (groups@[j].total, groups@[j].used) by {
                    if j < old_groups.len() {
                        assert(groups@[j] == old_groups[j]);
                        assert(old_groups[j].name@ != key@);
                    }
                }
                assert forall|a: int, b: int| 0 <= a < b < groups@.len() implies groups@[a].name@ != groups@[b].name@ by {
                    if b == old_groups.len() {
                        assert(groups@[a] == old_groups[a]);
                    } else {
                        assert(groups@[a] == old_groups[a]);
                        assert(groups@[b] == old_groups[b]);
                    }
                }
            }
        },
    }
}

/// The disks grouped by physical disk or ZFS pool (see `tally_step`), sorted
/// by name.
pub fn group_disks(disks: &Vec<DiskSample>) -> (r: Vec<DiskUsage>)
    ensures
        forall|i: int, j: int| 0 <= i < j < r@.len() ==> lex_less(r@[i].name@, r@[j].name@),
        groups_match(r@, disk_tally(disks@).1),
{
    let mut seen: Vec<Vec<char>> = Vec::new();
    let mut groups: Vec<DiskUsage> = Vec::new();
    let mut i: usize = 0;
    while i < disks.len()
        invariant
            i <= disks@.len(),
            forall|x: Seq<char>|
                #![trigger disk_tally(disks@.take(i as int)).0.contains(x)]
                disk_tally(disks@.take(i as int)).0.contains(x) <==> exists|k: int|
                    0 <= k < seen@.len() && (#[trigger] seen@[k])@ == x,
            groups_match(groups@, disk_tally(disks@.take(i as int)).1),
        decreases disks@.len() - i,
    {
        let ghost st = disk_tally(disks@.take(i as int));
        assert(disks@.take(i + 1).drop_last() =~= disks@.take(i as int));
        assert(disks@.take(i + 1).last() == disks@[i as int]);
        let d = &disks[i];
        let name = chars_of(d.name.as_str());
        let fs = chars_of(d.file_system.as_str());
        let skip = contains_name(&seen, &name) || starts_with_lit(&name, "loop")
            || starts_with_lit(&name, "ram") || starts_with_lit(&name, "sr") || is_virtual_fs_of(
            &fs,
        );
        if !skip {
            let ghost old_seen = seen@;
            seen.push(name.clone());
            assert forall|x: Seq<char>|
                #![trigger st.0.insert(name@).contains(x)]
                st.0.insert(name@).contains(x) <==> exists|k: int|
                    0 <= k < seen@.len() && (#[trigger] seen@[k])@ == x by {
                if x == name@ {
                    assert(seen@[old_seen.len() as int]@ == x);
                }
                if exists|k: int| 0 <= k < seen@.len() && (#[trigger] seen@[k])@ == x {
                    let k = choose|k: int| 0 <= k < seen@.len() && (#[trigger] seen@[k])@ == x;
                    if k < old_seen.len() {
                        assert(old_seen[k] == seen@[k]);
                        assert(st.0.contains(x));
                    }
                }
                if st.0.contains(x) {
                    let k = choose|k: int| 0 <= k < old_seen.len() && (#[trigger] old_seen[k])@ == x;
                    assert(seen@[k] == old_seen[k]);
                }
            }
            let total = d.total_space;
            let avail = d.available_space;
            if seq_eq(&fs, &chars_of("zfs")) {
                let parts = split_chars(&name, '/');
                proof {
                    crate::text::lemma_split_on_nonempty(name@, '/');
                    assert(parts@.map_values(|q: Vec<char>| q@) == split_on(name@, '/'));
                    assert(parts@[0]@ == split_on(name@, '/')[0]);
                }
                let used = total.saturating_sub(avail);
                add_to_group(&mut groups, &parts[0], total, used, true);
            } else {
                let base = base_disk_name_of(&name);
                let used = total.wrapping_sub(avail);
                add_to_group(&mut groups, &base, total, used, false);
            }
        }
        i = i + 1;
    }
    assert(disks@.take(i as int) =~= disks@);
    let ghost tally = disk_tally(disks@).1;
    // sort the group names, then emit the groups in that order
    let mut names: Vec<String> = Vec::new();
    let mut k: usize = 0;
    while k < groups.len()
        invariant
            k <= groups@.len(),
            views(names@) == groups@.take(k as int).map_values(|g: DiskUsage| g.name@),
        decreases groups@.len() - k,
    {
        let ghost old_names = names@;
        names.push(groups[k].name.clone());
        assert(views(names@) =~= views(old_names).push(groups@[k as int].name@));
        assert(groups@.take(k + 1).map_values(|g: DiskUsage| g.name@) =~= groups@.take(
            k as int,
        ).map_values(|g: DiskUsage| g.name@).push(groups@[k as int].name@));
        k = k + 1;
    }
    assert(groups@.take(k as int) =~= groups@);
    let ghost name_views = views(names@);
    assert(name_views.no_duplicates());
    let sorted = sort_strings(names);
    let ghost sorted_views = views(sorted@);
    proof {
        name_views.lemma_multiset_has_no_duplicates();
        assert forall|x: Seq<char>| sorted_views.to_multiset().contains(x) implies sorted_views.to_multiset().count(x) == 1 by {}
        sorted_views.lemma_multiset_has_no_duplicates_conv();
        assert forall|m: int| 0 <= m < sorted_views.len() implies name_views.contains(#[trigger] sorted_views[m]) by {
            vstd::seq_lib::to_multiset_contains(sorted_views, sorted_views[m]);
            vstd::seq_lib::to_multiset_contains(name_views, sorted_views[m]);
        }
    }
    let mut out: Vec<DiskUsage> = Vec::new();
    let mut m: usize = 0;
    while m < sorted.len()
        invariant
            m <= sorted@.len(),
            sorted_views == views(sorted@),
            name_views == groups@.map_values(|g: DiskUsage| g.name@),
            groups_match(groups@, tally),
            forall|j: int| 0 <= j < sorted_views.len() ==> name_views.contains(#[trigger] sorted_views[j]),
            out@.len() == m,
            forall|j: int| 0 <= j < m ==> (#[trigger] out@[j]).name@ == sorted_views[j] && tally.contains_key(out@[j].name@) && tally[out@[j].name@] == (out@[j].total, out@[j].used),
        decreases sorted@.len() - m,
    {
        let key = chars_of(sorted[m].as_str());
        assert(name_views.contains(sorted_views[m as int]));
        match group_index(&groups, &key) {
            Some(g) => {
                out.push(DiskUsage { name: sorted[m].clone(), total: groups[g].total, used: groups[g].used });
            },
            None => {
                proof {
                    let j = choose|j: int| 0 <= j < name_views.len() && name_views[j] == sorted_views[m as int];
                    assert(groups@[j].name@ == key@);
                }
                out.push(DiskUsage { name: sorted[m].clone(), total: 0, used: 0 });
            },
        }
        m = m + 1;
    }
    proof {
        assert forall|i: int, j: int| 0 <= i < j < out@.len() implies lex_less(out@[i].name@, out@[j].name@) by {
            assert(!lex_less(sorted_views[j], sorted_views[i]));
            crate::text::lemma_lex_total(sorted_views[i], sorted_views[j]);
        }
        assert forall|key: Seq<char>| #[trigger] tally.contains_key(key) implies exists|j: int|
            0 <= j < out@.len() && (#[trigger] out@[j]).name@ == key by {
            let g = choose|g: int| 0 <= g < groups@.len() && (#[trigger] groups@[g]).name@ == key;
            assert(name_views[g] == key);
            vstd::seq_lib::to_multiset_contains(name_views, key);
            vstd::seq_lib::to_multiset_contains(sorted_views, key);
            let j = choose|j: int| 0 <= j < sorted_views.len() && sorted_views[j] == key;
            assert(out@[j].name@ == key);
        }
        assert forall|a: int, b: int| 0 <= a < b < out@.len() implies out@[a].name@ != out@[b].name@ by {
            crate::text::lemma_lex_irreflexive(out@[a].name@);
        }
    }
    out
}

/// A record of a kind that the grouping counts: neither a virtual device nor
/// a virtual file system.
pub open spec fn counted_kind(d: DiskSample) -> bool {
    !is_virtual_device(d.name@) && !is_virtual_fs(d.file_system@)
}

/// The partitions that the tally has seen are the names of the records of a
/// counted kind.
proof fn lemma_seen_names(disks: Seq<DiskSample>, x: Seq<char>)
    ensures
        disk_tally(disks).0.contains(x) <==> exists|j: int|
            0 <= j < disks.len() && (#[trigger] disks[j]).name@ == x && counted_kind(disks[j]),
    decreases disks.len(),
{
    if disks.len() > 0 {
        let s = disks.drop_last();
        let d = disks.last();
        lemma_seen_names(s, x);
        if disk_tally(disks).0.contains(x) {
            if disk_tally(s).0.contains(x) {
                let j = choose|j: int| 0 <= j < s.len() && (#[trigger] s[j]).name@ == x && counted_kind(s[j]);
                assert(disks[j] == s[j]);
            } else {
                assert(disks[disks.len() - 1] == d);
            }
        } else {
            assert forall|j: int| 0 <= j < disks.len() && (#[trigger] disks[j]).name@ == x implies !counted_kind(disks[j]) by {
                if j < s.len() {
                    assert(disks[j] == s[j]);
                }
            }
        }
    }
}

/// A record that the tally skips, inserted at position `i`, leaves every
/// later tally as it was without it.
proof fn lemma_tally_insert_skipped(disks: Seq<DiskSample>, i: int, d: DiskSample, n: int)
    requires
        0 <= i <= n <= disks.len(),
        !counted_kind(d) || disk_tally(disks.take(i)).0.contains(d.name@),
    ensures
        disk_tally(disks.insert(i, d).take(n + 1)) == disk_tally(disks.take(n)),
    decreases n - i,
{
    let t = disks.insert(i, d);
    if n == i {
        assert(t.take(i + 1).drop_last() =~= disks.take(i));
        assert(t.take(i + 1).last() == d);
    } else {
        lemma_tally_insert_skipped(disks, i, d, n - 1);
        assert(t.take(n + 1).drop_last() =~= t.take(n));
        assert(t.take(n + 1).last() == disks[n - 1]);
        assert(disks.take(n).drop_last() =~= disks.take(n - 1));
        assert(disks.take(n).last() == disks[n - 1]);
    }
}

/// Groups sorted strictly by name are fixed by the space per name that they
/// hold.
proof fn lemma_sorted_groups_unique(a: Seq<DiskUsage>, b: Seq<DiskUsage>, m: Map<Seq<char>, (u64, u64)>)
    requires
        forall|i: int, j: int| 0 <= i < j < a.len() ==> lex_less(a[i].name@, a[j].name@),
        forall|i: int, j: int| 0 <= i < j < b.len() ==> lex_less(b[i].name@, b[j].name@),
        groups_match(a, m),
        groups_match(b, m),
    ensures
        a.len() == b.len(),
        forall|k: int|
            0 <= k < a.len() ==> a[k].name@ == b[k].name@ && a[k].total == b[k].total && a[k].used
                == b[k].used,
    decreases a.len(),
{
    if a.len() == 0 {
        if b.len() > 0 {
            assert(m.contains_key(b[0].name@));
        }
    } else if b.len() == 0 {
        assert(m.contains_key(a[0].name@));
    } else {
        let x = a[0].name@;
        let y = b[0].name@;
        assert(m.contains_key(x));
        assert(m.contains_key(y));
        if x != y {
            let j = choose|j: int| 0 <= j < b.len() && (#[trigger] b[j]).name@ == x;
            let k = choose|k: int| 0 <= k < a.len() && (#[trigger] a[k]).name@ == y;
            assert(lex_less(y, x));
            assert(lex_less(x, y));
            crate::text::lemma_lex_asymmetric(x, y);
        }
        let m2 = m.remove(x);
        let a2 = a.drop_first();
        let b2 = b.drop_first();
        assert forall|k: int| 0 <= k < a2.len() implies m2.contains_key((#[trigger] a2[k]).name@)
            && m2[a2[k].name@] == (a2[k].total, a2[k].used) by {
            assert(a2[k] == a[k + 1]);
        }
        assert forall|key: Seq<char>| #[trigger] m2.contains_key(key) implies exists|k: int|
            0 <= k < a2.len() && (#[trigger] a2[k]).name@ == key by {
            let k = choose|k: int| 0 <= k < a.len() && (#[trigger] a[k]).name@ == key;
            assert(a2[k - 1] == a[k]);
        }
        assert forall|k: int| 0 <= k < b2.len() implies m2.contains_key((#[trigger] b2[k]).name@)
            && m2[b2[k].name@] == (b2[k].total, b2[k].used) by {
            assert(b2[k] == b[k + 1]);
        }
        assert forall|key: Seq<char>| #[trigger] m2.contains_key(key) implies exists|k: int|
            0 <= k < b2.len() && (#[trigger] b2[k]).name@ == key by {
            let k = choose|k: int| 0 <= k < b.len() && (#[trigger] b[k]).name@ == key;
            assert(b2[k - 1] == b[k]);
        }
        lemma_sorted_groups_unique(a2, b2, m2);
        assert forall|k: int| 0 <= k < a.len() implies a[k].name@ == b[k].name@ && a[k].total
            == b[k].total && a[k].used == b[k].used by {
            if k > 0 {
                assert(a[k] == a2[k - 1]);
                assert(b[k] == b2[k - 1]);
            }
        }
    }
}

/// A name that the tally has grouped stays grouped after more records.
proof fn lemma_group_keys_persist(disks: Seq<DiskSample>, n: int, key: Seq<char>)
    requires
        0 <= n <= disks.len(),
        disk_tally(disks.take(n)).1.contains_key(key),
    ensures
        disk_tally(disks).1.contains_key(key),
    decreases disks.len() - n,
{
    if n == disks.len() {
        assert(disks.take(n) =~= disks);
    } else {
        assert(disks.take(n + 1).drop_last() =~= disks.take(n));
        assert(disks.take(n + 1).last() == disks[n]);
        lemma_group_keys_persist(disks, n + 1, key);
    }
}

/// A ZFS dataset counts towards its pool, named by the first `/`-separated
/// component of its name: the first record of a name, of a counted kind and
/// on ZFS, however deeply nested, has a group whose name is a prefix of the
/// record's name, holds no `/`, and is followed in the name by `/` or the end.
/// `groups` is a grouping as `group_disks` returns it.
pub proof fn law_zfs_dataset_counts_towards_its_pool(
    disks: Seq<DiskSample>,
    j: int,
    groups: Seq<DiskUsage>,
)
    requires
        0 <= j < disks.len(),
        disks[j].file_system@ == "zfs"@,
        counted_kind(disks[j]),
        forall|i: int|
            0 <= i < j ==> !((#[trigger] disks[i]).name@ == disks[j].name@ && counted_kind(disks[i])),
        groups_match(groups, disk_tally(disks).1),
    ensures
        exists|k: int|
            0 <= k < groups.len() && {
                let g = (#[trigger] groups[k]).name@;
                let name = disks[j].name@;
                &&& g.len() <= name.len()
                &&& g == name.take(g.len() as int)
                &&& forall|m: int| 0 <= m < g.len() ==> g[m] != '/'
                &&& (g.len() == name.len() || name[g.len() as int] == '/')
            },
{
    let d = disks[j];
    let name = d.name@;
    let pre = disks.take(j);
    lemma_seen_names(pre, name);
    assert forall|i: int| 0 <= i < pre.len() && (#[trigger] pre[i]).name@ == name implies !counted_kind(pre[i]) by {
        assert(pre[i] == disks[i]);
    }
    assert(!disk_tally(pre).0.contains(name));
    reveal_strlit("zfs");
    reveal_strlit("squashfs");
    reveal_strlit("tmpfs");
    reveal_strlit("overlay");
    reveal_strlit("devtmpfs");
    assert(disks.take(j + 1).drop_last() =~= pre);
    assert(disks.take(j + 1).last() == d);
    crate::text::lemma_split_first(name, '/');
    let pool = split_on(name, '/')[0];
    assert(disk_tally(disks.take(j + 1)).1.contains_key(pool));
    lemma_group_keys_persist(disks, j + 1, pool);
    let k = choose|k: int| 0 <= k < groups.len() && (#[trigger] groups[k]).name@ == pool;
    assert forall|m: int| 0 <= m < pool.len() implies pool[m] != '/' by {
        assert(split_on(name, '/')[0][m] != '/');
    }
}

/// Grouping the disks with one more record that the grouping skips gives the
/// same groups as without it: a loop device, RAM disk or optical drive, a
/// virtual file system, or a partition whose name an earlier counted record
/// already had (one partition mounted at several places is counted once).
/// `with_d` and `without_d` are groupings as `group_disks` returns them.
pub proof fn law_skipped_disk_changes_nothing(
    disks: Seq<DiskSample>,
    i: int,
    d: DiskSample,
    with_d: Seq<DiskUsage>,
    without_d: Seq<DiskUsage>,
)
    requires
        0 <= i <= disks.len(),
        !counted_kind(d) || exists|j: int|
            0 <= j < i && (#[trigger] disks[j]).name@ == d.name@ && counted_kind(disks[j]),
        forall|a: int, b: int| 0 <= a < b < with_d.len() ==> lex_less(with_d[a].name@, with_d[b].name@),
        groups_match(with_d, disk_tally(disks.insert(i, d)).1),
        forall|a: int, b: int|
            0 <= a < b < without_d.len() ==> lex_less(without_d[a].name@, without_d[b].name@),
        groups_match(without_d, disk_tally(disks).1),
    ensures
        disk_tally(disks.insert(i, d)) == disk_tally(disks),
        with_d.len() == without_d.len(),
        forall|k: int|
            0 <= k < with_d.len() ==> with_d[k].name@ == without_d[k].name@ && with_d[k].total
                == without_d[k].total && with_d[k].used == without_d[k].used,
{
    if counted_kind(d) {
        let j = choose|j: int| 0 <= j < i && (#[trigger] disks[j]).name@ == d.name@ && counted_kind(disks[j]);
        assert(disks.take(i)[j] == disks[j]);
        lemma_seen_names(disks.take(i), d.name@);
    }
    lemma_tally_insert_skipped(disks, i, d, disks.len() as int);
    assert(disks.insert(i, d).take(disks.len() as int + 1) =~= disks.insert(i, d));
    assert(disks.take(disks.len() as int) =~= disks);
    lemma_sorted_groups_unique(with_d, without_d, disk_tally(disks).1);
}

/// Process `i` comes before process `j` in the memory ranking: it uses more
/// memory, or as much and comes later in the list (the order of a stable sort
/// by memory, reversed).
pub open spec fn ranks_before(memory: Seq<u64>, i: int, j: int) -> bool {
    memory[i] > memory[j] || (memory[i] == memory[j] && i > j)
}

/// Number of `true` in `s`.
pub open spec fn count_true(s: Seq<bool>) -> nat
    decreases s.len(),
{
    if s.len() == 0 {
        0
    } else {
        count_true(s.drop_last()) + if s.last() {
            1nat
        } else {
            0nat
        }
    }
}

proof fn lemma_count_true_set(s: Seq<bool>, i: int)
    requires
        0 <= i < s.len(),
        !s[i],
    ensures
        count_true(s.update(i, true)) == count_true(s) + 1,
    decreases s.len(),
{
    let u = s.update(i, true);
    if i == s.len() - 1 {
        assert(u.drop_last() =~= s.drop_last());
    } else {
        assert(u.drop_last() =~= s.drop_last().update(i, true));
        lemma_count_true_set(s.drop_last(), i);
    }
}

proof fn lemma_count_true_all(s: Seq<bool>)
    requires
        forall|i: int| 0 <= i < s.len() ==> s[i],
    ensures
        count_true(s) == s.len(),
    decreases s.len(),
{
    if s.len() > 0 {
        lemma_count_true_all(s.drop_last());
    }
}

proof fn lemma_count_true_none(s: Seq<bool>)
    requires
        forall|i: int| 0 <= i < s.len() ==> !s[i],
    ensures
        count_true(s) == 0,
    decreases s.len(),
{
    if s.len() > 0 {
        lemma_count_true_none(s.drop_last());
    }
}

/// Positions of the `count` processes that use the most memory, in ranking
/// order (`sort_by_key` on memory, `reverse`, `take(count)`).
pub fn top_memory_order(memory: &Vec<u64>, count: usize) -> (r: Vec<usize>)
    ensures
        r@.len() == if count < memory@.len() {
            count as nat
        } else {
            memory@.len()
        },
        forall|a: int| 0 <= a < r@.len() ==> #[trigger] r@[a] < memory@.len(),
        forall|a: int, b: int|
            0 <= a < b < r@.len() ==> ranks_before(memory@, r@[a] as int, r@[b] as int),
        forall|x: int, a: int|
            0 <= x < memory@.len() && !r@.contains(x as usize) && 0 <= a < r@.len()
                ==> #[trigger] ranks_before(memory@, r@[a] as int, x),
{
    let n = memory.len();
    let want = if count < n {
        count
    } else {
        n
    };
    let mut chosen: Vec<bool> = Vec::new();
    let mut z: usize = 0;
    while z < n
        invariant
            z <= n == memory@.len(),
            chosen@.len() == z,
            forall|x: int| 0 <= x < z ==> !chosen@[x],
        decreases n - z,
    {
        chosen.push(false);
        z = z + 1;
    }
    proof {
        lemma_count_true_none(chosen@);
    }
    let mut r: Vec<usize> = Vec::new();
    while r.len() < want
        invariant
            want <= n == memory@.len(),
            chosen@.len() == n,
            r@.len() <= want,
            count_true(chosen@) == r@.len(),
            forall|a: int| 0 <= a < r@.len() ==> #[trigger] r@[a] < n,
            forall|x: int| 0 <= x < n ==> (chosen@[x] <==> r@.contains(x as usize)),
            forall|a: int, b: int|
                0 <= a < b < r@.len() ==> ranks_before(memory@, r@[a] as int, r@[b] as int),
            forall|x: int, a: int|
                0 <= x < n && !chosen@[x] && 0 <= a < r@.len() ==> #[trigger] ranks_before(
                    memory@,
                    r@[a] as int,
                    x,
                ),
        decreases want - r@.len(),
    {
        let mut best: usize = n;
        let mut x: usize = 0;
        while x < n
            invariant
                n == memory@.len() == chosen@.len(),
                x <= n,
                best == n || (best < x && !chosen@[best as int]),
                best == n ==> forall|y: int| 0 <= y < x ==> chosen@[y],
                best < n ==> forall|y: int|
                    0 <= y < x && !chosen@[y] && y != best ==> #[trigger] ranks_before(
                        memory@,
                        best as int,
                        y,
                    ),
            decreases n - x,
        {
            if !chosen[x] {
                if best == n || memory[x] > memory[best] || (memory[x] == memory[best] && x
                    > best) {
                    let ghost old_best = best;
                    best = x;
                    assert forall|y: int|
                        0 <= y < x + 1 && !chosen@[y] && y != best implies #[trigger] ranks_before(
                        memory@,
                        best as int,
                        y,
                    ) by {
                        if old_best < n && y != old_best {
                            assert(ranks_before(memory@, old_best as int, y));
                        }
                    }
                }
            }
            x = x + 1;
        }
        proof {
            if best == n {
                lemma_count_true_all(chosen@);
            }
        }
        let ghost old_r = r@;
        let ghost old_chosen = chosen@;
        r.push(best);
        chosen.set(best, true);
        proof {
            lemma_count_true_set(old_chosen, best as int);
            assert forall|y: int| 0 <= y < n implies (chosen@[y] <==> r@.contains(y as usize)) by {
                if y == best {
                    assert(r@[old_r.len() as int] == best);
                } else {
                    if r@.contains(y as usize) {
                        let a = choose|a: int| 0 <= a < r@.len() && r@[a] == y as usize;
                        assert(a < old_r.len());
                        assert(old_r.contains(y as usize));
                    }
                    if old_r.contains(y as usize) {
                        let a = choose|a: int| 0 <= a < old_r.len() && old_r[a] == y as usize;
                        assert(r@[a] == y as usize);
                    }
                }
            }
            assert forall|a: int, b: int|
                0 <= a < b < r@.len() implies ranks_before(memory@, r@[a] as int, r@[b] as int) by {
                if b == old_r.len() {
                    assert(!old_chosen[best as int]);
                    assert(ranks_before(memory@, old_r[a] as int, best as int));
                }
            }
            assert forall|y: int, a: int|
                0 <= y < n && !chosen@[y] && 0 <= a < r@.len() implies #[trigger] ranks_before(
                memory@,
                r@[a] as int,
                y,
            ) by {
                if a == old_r.len() {
                    assert(ranks_before(memory@, best as int, y));
                } else {
                    assert(ranks_before(memory@, old_r[a] as int, y));
                }
            }
        }
    }
    r
}

/// What `str::to_lowercase` returns for a string (the Unicode `Lowercase`
/// mapping of each character).
pub uninterp spec fn lowercase(s: Seq<char>) -> Seq<char>;

/// `str::to_lowercase`. Trusted: the result is `lowercase` of the argument,
/// a fixed function of the text; what that mapping is character by character
/// is not stated here.
#[verifier::external_body]
fn to_lowercase(s: &str) -> (r: String)
    ensures
        r@ == lowercase(s@),
{
    s.to_lowercase()
}

/// A lower-cased sensor label names a CPU sensor: it mentions `cpu`, `core`,
/// `package` or `tctl`.
pub open spec fn cpu_sensor_label(lower: Seq<char>) -> bool {
    contains_seq(lower, "cpu"@) || contains_seq(lower, "core"@) || contains_seq(lower, "package"@)
        || contains_seq(lower, "tctl"@)
}

/// Whether a lower-cased sensor label names a CPU sensor.
pub fn is_cpu_sensor_label(lower: &str) -> (b: bool)
    ensures
        b == cpu_sensor_label(lower@),
{
    contains(lower, "cpu") || contains(lower, "core") || contains(lower, "package") || contains(
        lower,
        "tctl",
    )
}

/// Whether a sensor, by its label, is one whose temperature counts as the
/// CPU temperature.
pub fn is_cpu_sensor(label: &str) -> (b: bool)
    ensures
        b == cpu_sensor_label(lowercase(label@)),
{
    let lower = to_lowercase(label);
    is_cpu_sensor_label(lower.as_str())
}

} // verus!
