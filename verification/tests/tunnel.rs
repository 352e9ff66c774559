use std::time::Duration;

use ssh2socks::models::{Tunnel, TunnelKind, TunnelState};
use ssh2socks::progress::Progress;
use ssh2socks::tunnel::{
    after_attempt, backoff, conflict, exit_line, exit_progress, on_stderr_line, on_wait_tick, ssh_args,
    NextStep, Outcome, Registry, WaitTick, CONNECT_DEADLINE_MS, MAX_LOG_LINES,
};

#[test]
fn backoff_grows_and_caps() {
    assert_eq!(backoff(0), Duration::from_secs(1));
    assert_eq!(backoff(3), Duration::from_secs(8));
    assert_eq!(backoff(10), Duration::from_secs(30));
    assert_eq!(backoff(100), Duration::from_secs(30));
}

#[test]
fn args_end_with_forward_and_host() {
    let t = Tunnel {
        name: "n".into(),
        host: "myhost".into(),
        kind: TunnelKind::Socks,
        remote_port: 0,
        target_host: "127.0.0.1".into(),
        port: 1081,
        probe_url: String::new(),
        auto_reconnect: true,
        id: "x".into(),
    };
    let args = ssh_args(&t);
    assert_eq!(&args[args.len() - 3..], ["-D", "127.0.0.1:1081", "myhost"]);
    assert!(args.contains(&"BatchMode=yes".to_string()));
    assert!(args.contains(&"StrictHostKeyChecking=accept-new".to_string()));

    let local = Tunnel {
        kind: TunnelKind::Local,
        remote_port: 80,
        target_host: "192.168.1.10".into(),
        ..t.clone()
    };
    let args = ssh_args(&local);
    assert_eq!(
        &args[args.len() - 3..],
        ["-L", "127.0.0.1:1081:192.168.1.10:80", "myhost"]
    );

    let remote = Tunnel {
        kind: TunnelKind::Remote,
        port: 3000,
        remote_port: 8080,
        ..t
    };
    let args = ssh_args(&remote);
    assert_eq!(
        &args[args.len() - 3..],
        ["-R", "0.0.0.0:8080:127.0.0.1:3000", "myhost"]
    );
    assert!(args.contains(&"-v".to_string()));
}

#[test]
fn port_conflicts_depend_on_kind() {
    let base = Tunnel {
        name: "a".into(),
        host: "h".into(),
        kind: TunnelKind::Socks,
        port: 45_001,
        remote_port: 0,
        target_host: "127.0.0.1".into(),
        probe_url: String::new(),
        auto_reconnect: true,
        id: "a".into(),
    };
    let existing = [base.clone()];

    // A local forward on the same local port conflicts…
    let clash = Tunnel {
        kind: TunnelKind::Local,
        id: "b".into(),
        ..base.clone()
    };
    assert!(conflict(&existing, &clash, false).unwrap().contains("本地端口"));
    // …a remote forward only uses the local port as a target.
    let remote = Tunnel {
        kind: TunnelKind::Remote,
        remote_port: 8080,
        id: "c".into(),
        ..base.clone()
    };
    assert!(conflict(&existing, &remote, false).is_none());
    // Two remote forwards to the same server port conflict.
    let existing = [remote.clone()];
    let again = Tunnel {
        id: "d".into(),
        port: 4000,
        ..remote
    };
    assert!(conflict(&existing, &again, false).unwrap().contains("服务器端口"));
}

fn socks(id: &str, port: u16) -> Tunnel {
    Tunnel {
        name: id.into(),
        host: "h".into(),
        kind: TunnelKind::Socks,
        port,
        remote_port: 0,
        target_host: "127.0.0.1".into(),
        probe_url: String::new(),
        auto_reconnect: true,
        id: id.into(),
    }
}

#[test]
fn registry_tracks_states_and_edits() {
    let mut reg: Registry<u32> = Registry::new(vec![socks("a", 1080), socks("b", 1081)]);
    assert_eq!(reg.connected_summary(), (0, 2));
    assert!(reg.can_start("a"));
    assert!(!reg.can_start("zzz"));

    assert!(reg.set_state("a", TunnelState::Connected));
    assert!(!reg.set_state("a", TunnelState::Connected));
    assert_eq!(reg.connected_summary(), (1, 2));
    assert!(!reg.can_start("a"));

    // A running tunnel cannot be edited; a stopped one can.
    let edited = Tunnel { name: "renamed".into(), ..socks("a", 1080) };
    assert_eq!(reg.upsert(edited.clone(), true), Err("Stop the tunnel before editing it.".to_string()));
    assert_eq!(reg.upsert(edited.clone(), false), Err("编辑前请先停止该隧道。".to_string()));
    assert!(reg.set_state("a", TunnelState::Stopped));
    assert_eq!(reg.upsert(edited, true), Ok(()));
    assert_eq!(reg.tunnel("a").unwrap().name, "renamed");

    // A new tunnel on a port in use is refused, on a free one added.
    assert!(reg.upsert(socks("c", 1081), false).unwrap_err().contains("本地端口"));
    assert_eq!(reg.upsert(socks("c", 1082), false), Ok(()));
    assert_eq!(reg.ids(), vec!["a".to_string(), "b".to_string(), "c".to_string()]);

    // Removing one tunnel leaves the others' state alone.
    reg.set_state("c", TunnelState::Connecting);
    reg.log("c", "kept".to_string());
    assert!(reg.remove("b"));
    assert!(!reg.remove("b"));
    assert_eq!(reg.ids(), vec!["a".to_string(), "c".to_string()]);
    assert_eq!(reg.connected_summary(), (0, 2));
    let c = reg.runtime("c").unwrap();
    assert_eq!(c.state, TunnelState::Connecting);
    assert_eq!(c.logs, vec!["kept".to_string()]);

    // Removing a tunnel just added gives back the list as it was.
    assert_eq!(reg.upsert(socks("d", 1090), true), Ok(()));
    assert!(reg.remove("d"));
    assert_eq!(reg.ids(), vec!["a".to_string(), "c".to_string()]);
}

#[test]
fn logs_keep_the_latest_lines() {
    let mut reg: Registry<u32> = Registry::new(vec![socks("a", 1080)]);
    for i in 0..(MAX_LOG_LINES + 20) {
        reg.log("a", format!("line {i}"));
    }
    reg.note("a", "last".to_string(), "shown".to_string());
    let rt = reg.runtime("a").unwrap();
    assert_eq!(rt.logs.len(), MAX_LOG_LINES);
    assert_eq!(rt.logs[0], "line 21");
    assert_eq!(rt.logs.back().unwrap(), "last");
    assert_eq!(rt.detail.as_deref(), Some("shown"));
    // Reaching Connected clears the message.
    reg.set_state("a", TunnelState::Connected);
    assert!(reg.runtime("a").unwrap().detail.is_none());
}

#[test]
fn suggested_ports_skip_claimed_ones() {
    let remote = Tunnel { kind: TunnelKind::Remote, remote_port: 9000, ..socks("r", 2000) };
    let reg: Registry<u32> = Registry::new(vec![socks("a", 1080), socks("b", 1081), remote]);
    assert!(reg.port_in_use(1080));
    assert!(!reg.port_in_use(2000));
    assert_eq!(reg.next_unclaimed_port(1080), 1082);
    assert_eq!(reg.next_unclaimed_port(1079), 1079);
    assert_eq!(reg.next_unclaimed_port(2000), 2000);
    assert_eq!(reg.next_unclaimed_port(0), 1);
    let top: Registry<u32> = Registry::new(vec![socks("t", 65535)]);
    assert_eq!(top.next_unclaimed_port(65535), 65535);
}

#[test]
fn retries_follow_the_backoff() {
    match after_attempt(Outcome::Failed, true, 2, false) {
        NextStep::Retry { delay_ms, attempts, line } => {
            assert_eq!(delay_ms, 4_000);
            assert_eq!(attempts, 3);
            assert_eq!(line, "4s 后自动重连…");
        }
        other => panic!("{other:?}"),
    }
    match after_attempt(Outcome::Failed, true, 9, true) {
        NextStep::Retry { delay_ms, line, .. } => {
            assert_eq!(delay_ms, 30_000);
            assert_eq!(line, "Reconnecting in 30s…");
        }
        other => panic!("{other:?}"),
    }
    assert!(matches!(after_attempt(Outcome::Failed, false, 0, true), NextStep::Finish(TunnelState::Error)));
    assert!(matches!(after_attempt(Outcome::Fatal, true, 0, true), NextStep::Finish(TunnelState::Error)));
    assert!(matches!(after_attempt(Outcome::Stopped, true, 0, true), NextStep::Finish(TunnelState::Stopped)));
}

#[test]
fn attempts_start_connecting_and_fail_on_a_busy_port() {
    let s = ssh2socks::tunnel::begin_attempt(true, false, 1080, true);
    assert_eq!(s.state, TunnelState::Connecting);
    let (line, outcome) = s.busy.unwrap();
    assert_eq!(outcome, Outcome::Failed);
    assert!(line.starts_with("Local port 1080 is already in use"), "{line}");
    let s = ssh2socks::tunnel::begin_attempt(false, false, 1080, true);
    assert_eq!(s.state, TunnelState::Connecting);
    assert!(s.busy.is_none());
    assert_eq!(ssh2socks::tunnel::wait_delay_ms(0), 10_000);
    assert_eq!(ssh2socks::tunnel::wait_delay_ms(40_000), 5_000);
    assert_eq!(ssh2socks::tunnel::wait_delay_ms(45_000), 0);
}

#[test]
fn a_ready_tunnel_resets_the_attempts() {
    let t = socks("t", 1080);
    let up = ssh2socks::tunnel::on_ready(&t, false);
    assert_eq!(up.state, TunnelState::Connected);
    assert_eq!(up.attempts, 0);
    assert!(up.line.starts_with("已就绪："), "{}", up.line);
}

#[test]
fn waiting_gives_up_after_the_deadline() {
    let p = Progress::new("example.com");
    match on_wait_tick(10_004, &p, true) {
        WaitTick::Waiting { line: m, next_ms } => {
            assert!(m.starts_with("Still waiting for ssh to connect… (10s so far) now: "), "{m}");
            assert_eq!(next_ms, 9_996);
        }
        other => panic!("{other:?}"),
    }
    match on_wait_tick(40_010, &p, true) {
        WaitTick::Waiting { next_ms, .. } => assert_eq!(next_ms, 4_990),
        other => panic!("{other:?}"),
    }
    assert!(matches!(on_wait_tick(44_999, &p, true), WaitTick::Waiting { .. }));
    match on_wait_tick(CONNECT_DEADLINE_MS, &p, false) {
        WaitTick::GiveUp { note, last, outcome, .. } => {
            assert_eq!(outcome, Outcome::Failed);
            assert!(note.starts_with("等待 45s 仍未连上，卡在："), "{note}");
            assert!(note.ends_with("。结束本次尝试"), "{note}");
            assert!(last.is_none());
        }
        other => panic!("{other:?}"),
    }
}

/// The transcript of a connection that dies during key exchange with the
/// jump host: what is logged, and how far it got.
#[test]
fn reports_progress_of_a_dropped_connection() {
    let transcript = "\
OpenSSH_for_Windows_9.5p1, LibreSSL 3.8.2
debug1: Executing proxy command: exec ssh -v -W '[10.76.0.73]:22' gate
debug1: Connecting to 121.43.96.239 [121.43.96.239] port 22.
debug1: Connection established.
debug1: Authenticating to 121.43.96.239:22 as 'root'
debug1: expecting SSH2_MSG_KEX_ECDH_REPLY
client_loop: send disconnect: Connection reset
";
    let mut progress = Progress::new("10.76.0.73");
    let mut log: Vec<String> = Vec::new();
    for line in transcript.lines() {
        let effect = on_stderr_line(&mut progress, &format!("{line}\r\n"), false);
        assert!(!effect.forwarded);
        if let Some(v) = effect.version {
            log.push(v);
        }
        if let Some(n) = effect.note {
            log.push(n);
        }
        if let Some(h) = effect.hint {
            log.push(h);
        }
    }
    let (line, hint) = exit_progress(&progress, false);
    log.push(line);
    if let Some(h) = hint {
        log.push(h);
    }
    log.push(exit_line("255", false));
    let logs = log.join("\n");
    assert!(logs.contains("断开前的进度：已向跳板机 121.43.96.239:22 发出密钥交换请求"), "{logs}");
    assert!(logs.contains("OpenSSH_for_Windows_9.5p1"), "{logs}");
    assert!(logs.contains("Connection reset"), "{logs}");
    assert!(logs.contains("MTU"), "{logs}");
    assert!(!logs.contains("debug1"), "{logs}");
    assert!(logs.ends_with("ssh 进程退出 (code=255)"), "{logs}");
}

#[test]
fn remote_forward_lines() {
    let mut progress = Progress::new("server");
    let ok = on_stderr_line(
        &mut progress,
        "debug1: remote forward success for: listen 0.0.0.0:18080, connect 127.0.0.1:3000\n",
        true,
    );
    assert!(ok.forwarded && ok.note.is_none());
    let bad = on_stderr_line(&mut progress, "debug1: remote forward failure for: listen 18080\n", true);
    assert!(!bad.forwarded);
    assert_eq!(bad.note.as_deref(), Some("remote forward failure for: listen 18080"));
    let quiet = on_stderr_line(&mut progress, "debug1: Connection established.", true);
    assert!(quiet.note.is_none() && quiet.hint.is_none());
}
