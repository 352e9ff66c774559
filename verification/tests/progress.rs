use ssh2socks::progress::{bare_host, is_chatter, Progress, Step};

fn run(target: &str, transcript: &str) -> Progress {
    let mut p = Progress::new(target);
    for line in transcript.lines() {
        p.feed(line);
    }
    p
}

// Trimmed from real OpenSSH 8.9 `-v` output.
const JUMP: &str = "\
OpenSSH_8.9p1 Ubuntu-3ubuntu0.13, OpenSSL 3.0.2 15 Mar 2022
debug1: Setting implicit ProxyCommand from ProxyJump: ssh -v -W '[%h]:%p' gate
debug1: Executing proxy command: exec ssh -v -W '[10.76.0.73]:22' gate
debug1: Local version string SSH-2.0-OpenSSH_8.9p1 Ubuntu-3ubuntu0.13
OpenSSH_8.9p1 Ubuntu-3ubuntu0.13, OpenSSL 3.0.2 15 Mar 2022
debug1: Connecting to 121.43.96.239 [121.43.96.239] port 22.
debug1: Connection established.
debug1: Remote protocol version 2.0, remote software version OpenSSH_8.9p1
debug1: Authenticating to 121.43.96.239:22 as 'root'
debug1: SSH2_MSG_KEXINIT sent
debug1: SSH2_MSG_KEXINIT received
debug1: expecting SSH2_MSG_KEX_ECDH_REPLY
debug1: SSH2_MSG_NEWKEYS received
debug1: Authentications that can continue: publickey
Authenticated to 121.43.96.239 ([121.43.96.239]:22) using \"publickey\".
debug1: channel_connect_stdio_fwd: 10.76.0.73:22
debug1: Requesting no-more-sessions@openssh.com
debug1: Remote protocol version 2.0, remote software version OpenSSH_9.6
debug1: Authenticating to 10.76.0.73:22 as 'root'
debug1: SSH2_MSG_KEXINIT sent
debug1: SSH2_MSG_KEXINIT received
debug1: expecting SSH2_MSG_KEX_ECDH_REPLY
debug1: SSH2_MSG_NEWKEYS received
Authenticated to 10.76.0.73 (via proxy) using \"publickey\".
debug1: Local connections to 127.0.0.1:18086 forwarded to remote address socks:0
debug1: Local forwarding listening on 127.0.0.1 port 18086.
";

/// Progress after the first `n` lines of `JUMP`.
fn jump_after(n: usize) -> Progress {
    run(
        "10.76.0.73",
        &JUMP.lines().take(n).collect::<Vec<_>>().join("\n"),
    )
}

#[test]
fn follows_a_jump_host_connection() {
    let at = |n: usize, want: Step| assert_eq!(jump_after(n).step(), &want);
    let gate = "121.43.96.239:22".to_string();
    let target = "10.76.0.73:22".to_string();
    at(1, Step::Start);
    at(4, Step::Proxy);
    at(6, Step::Tcp(gate.clone()));
    at(8, Step::Banner(gate.clone()));
    at(11, Step::Kex(gate.clone()));
    at(12, Step::KexReply(gate.clone()));
    at(14, Step::Auth(gate.clone()));
    // The helper's no-more-sessions is not the target's forward.
    at(17, Step::LoggedIn(gate.clone()));
    at(22, Step::KexReply(target.clone()));
    at(24, Step::LoggedIn(target));
    at(26, Step::Forwarding);
}

#[test]
fn names_jump_host_and_target() {
    let p = jump_after(12);
    assert_eq!(
        p.describe(false),
        "已向跳板机 121.43.96.239:22 发出密钥交换请求，一直没有收到回应"
    );
    assert!(p.hint(false).unwrap().contains("MTU"));
    assert_eq!(p.last_debug(), "expecting SSH2_MSG_KEX_ECDH_REPLY");
    let p = jump_after(17);
    assert!(p.describe(false).contains("正在通过它连接目标服务器"));
    assert!(p.hint(false).unwrap().contains("跳板机连不到目标"));
    let p = jump_after(22);
    assert!(
        p.describe(false).contains("服务器 10.76.0.73:22"),
        "{}",
        p.describe(false)
    );
}

#[test]
fn direct_connection_has_no_jump_host() {
    let p = run(
        "10.0.0.5",
        "debug1: Connecting to 10.0.0.5 [10.0.0.5] port 2222.\n\
         debug1: Connection established.\n",
    );
    assert_eq!(p.step(), &Step::Banner("10.0.0.5:2222".into()));
    assert!(!p.is_jump("10.0.0.5:2222"));
    // Without a proxy nothing is a jump host, even under another name.
    assert!(!p.is_jump("other:22"));
}

#[test]
fn logs_the_version_once() {
    let mut p = Progress::new("h");
    assert!(p
        .feed("OpenSSH_for_Windows_9.5p1, LibreSSL 3.8.2")
        .is_some());
    assert!(p
        .feed("OpenSSH_for_Windows_9.5p1, LibreSSL 3.8.2")
        .is_none());
    assert!(is_chatter("OpenSSH_for_Windows_9.5p1, LibreSSL 3.8.2"));
    assert!(is_chatter(
        "Transferred: sent 2176, received 2264 bytes, in 2.9 seconds"
    ));
    assert!(is_chatter("Killed by signal 1."));
    assert!(!is_chatter(
        "ssh: connect to host 10.255.255.1 port 22: Connection timed out"
    ));
}

#[test]
fn bare_hosts() {
    assert_eq!(bare_host("Host.Example:22"), "host.example");
    assert_eq!(bare_host("[::1]:22"), "::1");
    assert_eq!(bare_host("fe80::1"), "fe80::1");
    assert_eq!(bare_host("10.0.0.1"), "10.0.0.1");
}
