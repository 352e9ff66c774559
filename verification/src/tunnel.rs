//! Tunnel lifecycle: the decisions of the supervisor that runs each tunnel.
//!
//! The supervisor spawns `ssh -N -T` with `-D`, `-L` or `-R`, waits until
//! the forward is up, probes it while connected, and reconnects with
//! exponential backoff when ssh exits. This module holds what it decides:
//! the ssh command line, messages, the backoff, port conflicts between
//! tunnels, the per-tunnel runtime record and the registry of tunnels.

use std::collections::VecDeque;
use vstd::prelude::*;

use crate::models::{Tunnel, TunnelKind, TunnelState};
use crate::probe::{host_for_url, host_for_url_spec};
use crate::progress::{
    describe_spec, hint_spec, is_chatter, is_chatter_spec, opt_view, Progress, ProgressV,
    feed_spec,
};
use crate::text::{
    cat, chars_of, contains_seq, dec, dec_string, lines, lines_of, lit, push_chars, starts_with,
    starts_lit, str_contains, string_of, string_of_range, tr, tr1, trim, trim_bounds, blank,
    is_blank, prefix, sub_vec,
};

verus! {

pub const BACKOFF_BASE_MS: u64 = 1_000;

pub const BACKOFF_MAX_MS: u64 = 30_000;

pub const MAX_LOG_LINES: usize = 500;

/// Milliseconds after which a connection that is still not up is given up.
pub const CONNECT_DEADLINE_MS: u64 = 45_000;

/// While ssh has not come up, the log says so this often (milliseconds).
pub const WAIT_NOTICE_MS: u64 = 10_000;

// ---- the ssh command line --------------------------------------------------------

/// The options every tunnel's ssh gets.
pub open spec fn base_args() -> Seq<Seq<char>> {
    seq![
        "-N"@,
        "-T"@,
        "-v"@,
        "-o"@,
        "ExitOnForwardFailure=yes"@,
        "-o"@,
        "ServerAliveInterval=15"@,
        "-o"@,
        "ServerAliveCountMax=3"@,
        "-o"@,
        "ConnectTimeout=10"@,
        "-o"@,
        "BatchMode=yes"@,
        "-o"@,
        "StrictHostKeyChecking=accept-new"@,
    ]
}

/// The forward option and its value.
pub open spec fn forward_args(t: Tunnel) -> Seq<Seq<char>> {
    match t.kind {
        TunnelKind::Socks => seq!["-D"@, "127.0.0.1:"@ + dec(t.port as nat)],
        TunnelKind::Local => seq![
            "-L"@,
            "127.0.0.1:"@ + dec(t.port as nat) + seq![':'] + host_for_url_spec(t.target_host@)
                + seq![':'] + dec(t.remote_port as nat),
        ],
        TunnelKind::Remote => seq![
            "-R"@,
            "0.0.0.0:"@ + dec(t.remote_port as nat) + ":127.0.0.1:"@ + dec(t.port as nat),
        ],
    }
}

/// The full argument list: options, the forward, the host alias.
pub open spec fn ssh_args_spec(t: Tunnel) -> Seq<Seq<char>> {
    base_args() + forward_args(t) + seq![t.host@]
}

/// ssh runs no remote command and gets no terminal (`-N -T` come first),
/// prints its progress (`-v`), gives up when a forward fails, keeps the
/// connection alive, never prompts (accepting a new host key, refusing a
/// changed one), and is given exactly one forward by the tunnel's kind:
/// `-D 127.0.0.1:port`, `-L 127.0.0.1:port:target:remote_port` or
/// `-R 0.0.0.0:remote_port:127.0.0.1:port`, just before the host alias,
/// which comes last.
pub proof fn lemma_ssh_args_law(t: Tunnel)
    ensures
        ({
            let a = ssh_args_spec(t);
            &&& a.len() == 18
            &&& a[0] == "-N"@
            &&& a[1] == "-T"@
            &&& a[2] == "-v"@
            &&& forall|i: int| 1 <= i <= 6 ==> #[trigger] a[1 + 2 * i] == "-o"@
            &&& a[4] == "ExitOnForwardFailure=yes"@
            &&& a[6] == "ServerAliveInterval=15"@
            &&& a[8] == "ServerAliveCountMax=3"@
            &&& a[10] == "ConnectTimeout=10"@
            &&& a[12] == "BatchMode=yes"@
            &&& a[14] == "StrictHostKeyChecking=accept-new"@
            &&& a[15] == (match t.kind {
                TunnelKind::Socks => "-D"@,
                TunnelKind::Local => "-L"@,
                TunnelKind::Remote => "-R"@,
            })
            &&& a[16] == (match t.kind {
                TunnelKind::Socks => "127.0.0.1:"@ + dec(t.port as nat),
                TunnelKind::Local => "127.0.0.1:"@ + dec(t.port as nat) + seq![':'] + host_for_url_spec(
                    t.target_host@,
                ) + seq![':'] + dec(t.remote_port as nat),
                TunnelKind::Remote => "0.0.0.0:"@ + dec(t.remote_port as nat) + ":127.0.0.1:"@ + dec(
                    t.port as nat,
                ),
            })
            &&& a[17] == t.host@
        }),
{
    let a = ssh_args_spec(t);
    let b = base_args();
    assert forall|i: int| 0 <= i < 15 implies #[trigger] a[i] == b[i] by {}
    assert(a[15] == forward_args(t)[0]);
    assert(a[16] == forward_args(t)[1]);
}

fn push_arg(args: &mut Vec<String>, a: &str)
    ensures
        final(args).deep_view() == old(args).deep_view().push(a@),
{
    let ghost before = args.deep_view();
    args.push(a.to_owned());
    assert(args.deep_view() =~= before.push(a@));
}

/// The arguments for `ssh` that run tunnel `t`.
pub fn ssh_args(t: &Tunnel) -> (args: Vec<String>)
    ensures
        args.deep_view() == ssh_args_spec(*t),
{
    let mut args: Vec<String> = Vec::new();
    push_arg(&mut args, "-N");
    push_arg(&mut args, "-T");
    // Verbose output tells how far a connection got (see `progress`); it
    // is parsed, not logged.
    push_arg(&mut args, "-v");
    push_arg(&mut args, "-o");
    push_arg(&mut args, "ExitOnForwardFailure=yes");
    push_arg(&mut args, "-o");
    push_arg(&mut args, "ServerAliveInterval=15");
    push_arg(&mut args, "-o");
    push_arg(&mut args, "ServerAliveCountMax=3");
    push_arg(&mut args, "-o");
    push_arg(&mut args, "ConnectTimeout=10");
    push_arg(&mut args, "-o");
    push_arg(&mut args, "BatchMode=yes");
    // Trust a server on first contact (instead of the interactive yes/no
    // prompt that BatchMode turns into a failure); a *changed* key is still
    // rejected.
    push_arg(&mut args, "-o");
    push_arg(&mut args, "StrictHostKeyChecking=accept-new");
    assert(args.deep_view() =~= base_args());
    let port = dec_string(t.port as u64);
    let remote = dec_string(t.remote_port as u64);
    match t.kind {
        TunnelKind::Socks => {
            push_arg(&mut args, "-D");
            let a = cat("127.0.0.1:", port.as_str());
            push_arg(&mut args, a.as_str());
        },
        TunnelKind::Local => {
            push_arg(&mut args, "-L");
            let target = host_for_url(t.target_host.as_str());
            let mut a = cat("127.0.0.1:", port.as_str());
            a.append(":");
            a.append(target.as_str());
            a.append(":");
            a.append(remote.as_str());
            assert(":"@ == seq![':']) by {
                reveal_strlit(":");
            }
            push_arg(&mut args, a.as_str());
        },
        TunnelKind::Remote => {
            push_arg(&mut args, "-R");
            let mut a = cat("0.0.0.0:", remote.as_str());
            a.append(":127.0.0.1:");
            a.append(port.as_str());
            push_arg(&mut args, a.as_str());
        },
    }
    assert(args.deep_view() =~= base_args() + forward_args(*t));
    push_arg(&mut args, t.host.as_str());
    assert(args.deep_view() =~= ssh_args_spec(*t));
    args
}

/// Human-readable forward description, also used in logs.
pub open spec fn describe_tunnel_spec(t: Tunnel, en: bool) -> Seq<char> {
    match t.kind {
        TunnelKind::Socks => if en {
            "SOCKS5 proxy 127.0.0.1:"@ + dec(t.port as nat)
        } else {
            "SOCKS5 代理 127.0.0.1:"@ + dec(t.port as nat)
        },
        TunnelKind::Local => if en {
            "127.0.0.1:"@ + dec(t.port as nat) + " → "@ + host_for_url_spec(t.target_host@) + ":"@
                + dec(t.remote_port as nat) + " on the server"@
        } else {
            "127.0.0.1:"@ + dec(t.port as nat) + " → 服务器上的 "@ + host_for_url_spec(
                t.target_host@,
            ) + ":"@ + dec(t.remote_port as nat)
        },
        TunnelKind::Remote => if en {
            "server 0.0.0.0:"@ + dec(t.remote_port as nat) + " → local 127.0.0.1:"@ + dec(
                t.port as nat,
            )
        } else {
            "服务器 0.0.0.0:"@ + dec(t.remote_port as nat) + " → 本机 127.0.0.1:"@ + dec(
                t.port as nat,
            )
        },
    }
}

/// Human-readable forward description, also used in logs.
pub fn describe(t: &Tunnel, en: bool) -> (r: String)
    ensures
        r@ == describe_tunnel_spec(*t, en),
{
    let port = dec_string(t.port as u64);
    let remote = dec_string(t.remote_port as u64);
    match t.kind {
        TunnelKind::Socks => if en {
            cat("SOCKS5 proxy 127.0.0.1:", port.as_str())
        } else {
            cat("SOCKS5 代理 127.0.0.1:", port.as_str())
        },
        TunnelKind::Local => {
            let target = host_for_url(t.target_host.as_str());
            let mut r = cat("127.0.0.1:", port.as_str());
            if en {
                r.append(" → ");
                r.append(target.as_str());
                r.append(":");
                r.append(remote.as_str());
                r.append(" on the server");
            } else {
                r.append(" → 服务器上的 ");
                r.append(target.as_str());
                r.append(":");
                r.append(remote.as_str());
            }
            r
        },
        TunnelKind::Remote => {
            let mut r = if en {
                cat("server 0.0.0.0:", remote.as_str())
            } else {
                cat("服务器 0.0.0.0:", remote.as_str())
            };
            if en {
                r.append(" → local 127.0.0.1:");
            } else {
                r.append(" → 本机 127.0.0.1:");
            }
            r.append(port.as_str());
            r
        },
    }
}

// ---- messages about ssh's own errors ------------------------------------------------

/// Extra advice for well-known ssh failures.
pub open spec fn hint_for_spec(line: Seq<char>, en: bool) -> Option<Seq<char>> {
    if contains_seq(line, "REMOTE HOST IDENTIFICATION HAS CHANGED"@) {
        Some(
            if en {
                "Hint: the server's host key does not match the one in known_hosts (the server was reinstalled, or someone is intercepting). Once you are sure it is safe, run ssh-keygen -R <host> to remove the old entry and try again."@
            } else {
                "提示：服务器主机密钥与 known_hosts 中的记录不一致（服务器重装过，或存在中间人攻击）。确认安全后执行 ssh-keygen -R <主机地址> 删除旧记录再重试。"@
            },
        )
    } else if contains_seq(line, "Permission denied (publickey"@) {
        Some(
            if en {
                "Hint: set up key-based login (for example with ssh-copy-id); this app can't enter passwords."@
            } else {
                "提示：需要配置密钥免密登录（例如 ssh-copy-id），本程序无法输入密码。"@
            },
        )
    } else if contains_seq(line, "remote port forwarding failed"@) {
        Some(
            if en {
                "Hint: the port is already in use on the server, or sshd does not allow port forwarding (AllowTcpForwarding)."@
            } else {
                "提示：服务器上该端口已被占用，或 sshd 不允许端口转发（AllowTcpForwarding）。"@
            },
        )
    } else {
        None
    }
}

/// Extra advice for well-known ssh failures.
pub fn hint_for(line: &str, en: bool) -> (r: Option<String>)
    ensures
        opt_view(r) == hint_for_spec(line@, en),
{
    if str_contains(line, "REMOTE HOST IDENTIFICATION HAS CHANGED") {
        Some(
            tr(
                en,
                "提示：服务器主机密钥与 known_hosts 中的记录不一致（服务器重装过，或存在中间人攻击）。确认安全后执行 ssh-keygen -R <主机地址> 删除旧记录再重试。",
                "Hint: the server's host key does not match the one in known_hosts (the server was reinstalled, or someone is intercepting). Once you are sure it is safe, run ssh-keygen -R <host> to remove the old entry and try again.",
            ),
        )
    } else if str_contains(line, "Permission denied (publickey") {
        Some(
            tr(
                en,
                "提示：需要配置密钥免密登录（例如 ssh-copy-id），本程序无法输入密码。",
                "Hint: set up key-based login (for example with ssh-copy-id); this app can't enter passwords.",
            ),
        )
    } else if str_contains(line, "remote port forwarding failed") {
        Some(
            tr(
                en,
                "提示：服务器上该端口已被占用，或 sshd 不允许端口转发（AllowTcpForwarding）。",
                "Hint: the port is already in use on the server, or sshd does not allow port forwarding (AllowTcpForwarding).",
            ),
        )
    } else {
        None
    }
}

// ---- reconnect backoff -----------------------------------------------------------------

pub open spec fn two_pow(n: nat) -> nat
    decreases n,
{
    if n == 0 {
        1
    } else {
        2 * two_pow((n - 1) as nat)
    }
}

/// Delay before reconnect attempt number `attempts` (0-based): one second,
/// doubling each time, at most 30 seconds.
pub open spec fn backoff_ms_spec(attempts: u32) -> nat {
    let e: nat = if attempts < 16 {
        attempts as nat
    } else {
        16
    };
    let ms: nat = (BACKOFF_BASE_MS as nat) * two_pow(e);
    if ms < BACKOFF_MAX_MS {
        ms
    } else {
        BACKOFF_MAX_MS as nat
    }
}

proof fn lemma_two_pow_mono(a: nat, b: nat)
    requires
        a <= b,
    ensures
        1 <= two_pow(a) <= two_pow(b),
    decreases b,
{
    if b > 0 {
        if a < b {
            lemma_two_pow_mono(a, (b - 1) as nat);
        } else {
            lemma_two_pow_mono((a - 1) as nat, (b - 1) as nat);
        }
    }
}

proof fn lemma_two_pow_16()
    ensures
        two_pow(16) == 65536,
{
    reveal_with_fuel(two_pow, 17);
}

/// The backoff delay in milliseconds.
pub fn backoff_ms(attempts: u32) -> (ms: u64)
    ensures
        ms == backoff_ms_spec(attempts),
{
    let e: u32 = if attempts < 16 {
        attempts
    } else {
        16
    };
    let mut p: u64 = 1;
    let mut k: u32 = 0;
    while k < e
        invariant
            k <= e <= 16,
            p == two_pow(k as nat),
            p <= 65536,
        decreases e - k,
    {
        proof {
            lemma_two_pow_mono((k + 1) as nat, 16);
            lemma_two_pow_16();
        }
        p = p * 2;
        k += 1;
    }
    let ms = BACKOFF_BASE_MS * p;
    if ms < BACKOFF_MAX_MS {
        ms
    } else {
        BACKOFF_MAX_MS
    }
}

/// `Duration::from_millis`: a duration of the given number of milliseconds.
pub uninterp spec fn duration_of_millis(ms: u64) -> std::time::Duration;

/// `std::time::Duration::from_millis`, which makes a duration of exactly
/// `ms` milliseconds.
#[verifier::external_body]
fn duration_from_millis(ms: u64) -> (d: std::time::Duration)
    ensures
        d == duration_of_millis(ms),
{
    std::time::Duration::from_millis(ms)
}

/// Delay before reconnect attempt number `attempts`.
pub fn backoff(attempts: u32) -> (d: std::time::Duration)
    ensures
        d == duration_of_millis(backoff_ms_spec(attempts) as u64),
{
    duration_from_millis(backoff_ms(attempts))
}

/// The backoff never shrinks from one attempt to the next and never
/// exceeds thirty seconds.
pub proof fn lemma_backoff_grows_and_caps(a: u32, b: u32)
    requires
        a <= b,
    ensures
        backoff_ms_spec(a) <= backoff_ms_spec(b),
        BACKOFF_BASE_MS <= backoff_ms_spec(a) <= BACKOFF_MAX_MS,
{
    let ea: nat = if a < 16 { a as nat } else { 16 };
    let eb: nat = if b < 16 { b as nat } else { 16 };
    lemma_two_pow_mono(ea, eb);
    lemma_two_pow_mono(0, ea);
}

/// The delay starts at one second and doubles from one attempt to the
/// next until it reaches thirty seconds.
pub proof fn lemma_backoff_doubles(a: u32)
    requires
        a < u32::MAX,
    ensures
        backoff_ms_spec(0) == BACKOFF_BASE_MS,
        backoff_ms_spec((a + 1) as u32) == (if 2 * backoff_ms_spec(a) < BACKOFF_MAX_MS {
            2 * backoff_ms_spec(a)
        } else {
            BACKOFF_MAX_MS as nat
        }),
{
    lemma_two_pow_16();
    if a < 15 {
        assert(two_pow((a + 1) as nat) == 2 * two_pow(a as nat));
    } else {
        lemma_two_pow_mono(15, if a < 16 { a as nat } else { 16 });
        reveal_with_fuel(two_pow, 16);
        assert(two_pow(15) == 32768);
    }
}

// ---- conflicts between tunnels ----------------------------------------------------------

/// Whether `other` already uses the port that `t` needs: the local port
/// when `t` listens locally, the server port of a remote forward otherwise.
pub open spec fn clashes(other: Tunnel, t: Tunnel) -> bool {
    &&& other.id@ != t.id@
    &&& if t.kind.listens_locally_spec() {
        other.kind.listens_locally_spec() && other.port == t.port
    } else {
        other.kind == TunnelKind::Remote && other.host@ == t.host@ && other.remote_port
            == t.remote_port
    }
}

/// The first tunnel from index `i` on that clashes with `t`.
pub open spec fn first_clash(tunnels: Seq<Tunnel>, t: Tunnel, i: int) -> Option<int>
    decreases tunnels.len() - i,
{
    if i < 0 || i >= tunnels.len() {
        None
    } else if clashes(tunnels[i], t) {
        Some(i)
    } else {
        first_clash(tunnels, t, i + 1)
    }
}

pub proof fn lemma_first_clash(tunnels: Seq<Tunnel>, t: Tunnel, i: int)
    requires
        0 <= i,
    ensures
        first_clash(tunnels, t, i) matches Some(k) ==> i <= k < tunnels.len() && clashes(
            tunnels[k],
            t,
        ) && forall|j: int| i <= j < k ==> !clashes(#[trigger] tunnels[j], t),
        first_clash(tunnels, t, i) is None ==> forall|j: int|
            i <= j < tunnels.len() ==> !clashes(#[trigger] tunnels[j], t),
    decreases tunnels.len() - i,
{
    if i < tunnels.len() && !clashes(tunnels[i], t) {
        lemma_first_clash(tunnels, t, i + 1);
    }
}

/// A tunnel is refused exactly when another tunnel (another id) already
/// uses the port it needs: for a SOCKS proxy or a local forward, another
/// SOCKS proxy or local forward on the same local port; for a remote
/// forward, another remote forward to the same host with the same server
/// port. Remote forwards to different hosts never clash, and a remote
/// forward never clashes with a local port.
pub proof fn lemma_conflict_law(tunnels: Seq<Tunnel>, t: Tunnel, en: bool)
    ensures
        conflict_spec(tunnels, t, en) is Some <==> exists|i: int|
            0 <= i < tunnels.len() && (#[trigger] tunnels[i]).id@ != t.id@ && (if t.kind == TunnelKind::Remote {
                tunnels[i].kind == TunnelKind::Remote && tunnels[i].host@ == t.host@ && tunnels[i].remote_port
                    == t.remote_port
            } else {
                tunnels[i].kind != TunnelKind::Remote && tunnels[i].port == t.port
            }),
{
    lemma_first_clash(tunnels, t, 0);
    match first_clash(tunnels, t, 0) {
        Some(k) => {
            assert(clashes(tunnels[k], t));
        },
        None => {
            assert forall|i: int| 0 <= i < tunnels.len() implies !((#[trigger] tunnels[i]).id@ != t.id@ && (
            if t.kind == TunnelKind::Remote {
                tunnels[i].kind == TunnelKind::Remote && tunnels[i].host@ == t.host@ && tunnels[i].remote_port
                    == t.remote_port
            } else {
                tunnels[i].kind != TunnelKind::Remote && tunnels[i].port == t.port
            })) by {
                assert(!clashes(tunnels[i], t));
            }
        },
    }
}

pub open spec fn conflict_message(o: Tunnel, t: Tunnel, en: bool) -> Seq<char> {
    if t.kind.listens_locally_spec() {
        if en {
            "Local port "@ + dec(t.port as nat) + " is already used by tunnel \""@ + o.name@
                + "\""@
        } else {
            "本地端口 "@ + dec(t.port as nat) + " 已被隧道「"@ + o.name@ + "」使用"@
        }
    } else {
        if en {
            "Server port "@ + dec(t.remote_port as nat) + " is already used by tunnel \""@
                + o.name@ + "\""@
        } else {
            "服务器端口 "@ + dec(t.remote_port as nat) + " 已被隧道「"@ + o.name@ + "」使用"@
        }
    }
}

/// What `conflict` answers: nothing, or a message naming the first other
/// tunnel that already uses the port `t` needs.
pub open spec fn conflict_spec(tunnels: Seq<Tunnel>, t: Tunnel, en: bool) -> Option<Seq<char>> {
    match first_clash(tunnels, t, 0) {
        Some(k) => Some(conflict_message(tunnels[k], t, en)),
        None => None,
    }
}

fn tunnel_clashes(other: &Tunnel, t: &Tunnel) -> (r: bool)
    ensures
        r == clashes(*other, *t),
{
    if crate::text::str_eq(other.id.as_str(), t.id.as_str()) {
        return false;
    }
    if t.kind.listens_locally() {
        other.kind.listens_locally() && other.port == t.port
    } else {
        other.kind == TunnelKind::Remote && crate::text::str_eq(other.host.as_str(), t.host.as_str())
            && other.remote_port == t.remote_port
    }
}

/// Another tunnel already using the port this one needs.
pub fn conflict(tunnels: &[Tunnel], tunnel: &Tunnel, en: bool) -> (r: Option<String>)
    ensures
        opt_view(r) == conflict_spec(tunnels@, *tunnel, en),
{
    let mut i: usize = 0;
    while i < tunnels.len()
        invariant
            i <= tunnels@.len(),
            first_clash(tunnels@, *tunnel, 0) == first_clash(tunnels@, *tunnel, i as int),
        decreases tunnels.len() - i,
    {
        if tunnel_clashes(&tunnels[i], tunnel) {
            let o = &tunnels[i];
            let r = if tunnel.kind.listens_locally() {
                let port = dec_string(tunnel.port as u64);
                let mut m = if en {
                    cat("Local port ", port.as_str())
                } else {
                    cat("本地端口 ", port.as_str())
                };
                if en {
                    m.append(" is already used by tunnel \"");
                    m.append(o.name.as_str());
                    m.append("\"");
                } else {
                    m.append(" 已被隧道「");
                    m.append(o.name.as_str());
                    m.append("」使用");
                }
                m
            } else {
                let port = dec_string(tunnel.remote_port as u64);
                let mut m = if en {
                    cat("Server port ", port.as_str())
                } else {
                    cat("服务器端口 ", port.as_str())
                };
                if en {
                    m.append(" is already used by tunnel \"");
                    m.append(o.name.as_str());
                    m.append("\"");
                } else {
                    m.append(" 已被隧道「");
                    m.append(o.name.as_str());
                    m.append("」使用");
                }
                m
            };
            return Some(r);
        }
        i += 1;
    }
    None
}

// ---- the server address, from `ssh -G` ------------------------------------------------

/// The value of the first `hostname ` line of `ssh -G` output, if it is not
/// blank.
pub open spec fn hostname_in(lines: Seq<Seq<char>>, i: int) -> Option<Seq<char>>
    decreases lines.len() - i,
{
    if i < 0 || i >= lines.len() {
        None
    } else if starts_with(lines[i], "hostname "@) {
        let v = trim(lines[i].skip("hostname "@.len() as int));
        if v.len() == 0 {
            None
        } else {
            Some(v)
        }
    } else {
        hostname_in(lines, i + 1)
    }
}

/// The server address `ssh -G <alias>` printed, or the alias itself.
pub open spec fn resolved_host_spec(output: Seq<char>, alias: Seq<char>) -> Seq<char> {
    match hostname_in(lines_of(output), 0) {
        Some(h) => h,
        None => alias,
    }
}

/// Effective server address for an ssh_config alias from what `ssh -G`
/// printed, falling back to the alias itself.
pub fn hostname_from_ssh_g(output: &str, alias: &str) -> (r: String)
    ensures
        r@ == resolved_host_spec(output@, alias@),
{
    let text = chars_of(output);
    let ls = lines(&text);
    let key = lit("hostname ");
    let mut i: usize = 0;
    while i < ls.len()
        invariant
            i <= ls@.len(),
            ls.deep_view() == lines_of(output@),
            key@ == "hostname "@,
            hostname_in(lines_of(output@), 0) == hostname_in(lines_of(output@), i as int),
        decreases ls.len() - i,
    {
        let line = chars_of(ls[i].as_str());
        assert(line@ == ls.deep_view()[i as int]);
        if prefix(&line, &key) {
            let (a, b) = trim_bounds(&line, key.len(), line.len());
            assert(line@.skip(key@.len() as int) == line@.subrange(key@.len() as int, line@.len() as int));
            if a == b {
                return alias.to_owned();
            }
            return string_of_range(&line, a, b);
        }
        i += 1;
    }
    alias.to_owned()
}

/// Browser address for a port forward; `public_host` is the server address
/// as this machine reaches it (needed for remote forwards).
pub open spec fn browser_url_spec(t: Tunnel, public_host: Seq<char>, en: bool) -> Result<Seq<char>, Seq<char>> {
    match t.kind {
        TunnelKind::Socks => Err(
            if en {
                "A SOCKS proxy has no web address to open"@
            } else {
                "SOCKS 代理没有可打开的网页地址"@
            },
        ),
        TunnelKind::Local => Ok("http://127.0.0.1:"@ + dec(t.port as nat) + "/"@),
        TunnelKind::Remote => Ok(
            "http://"@ + host_for_url_spec(public_host) + ":"@ + dec(t.remote_port as nat) + "/"@,
        ),
    }
}

pub open spec fn result_view(r: Result<String, String>) -> Result<Seq<char>, Seq<char>> {
    match r {
        Ok(s) => Ok(s@),
        Err(e) => Err(e@),
    }
}

/// Browser address for a port forward.
pub fn browser_url(t: &Tunnel, public_host: &str, en: bool) -> (r: Result<String, String>)
    ensures
        result_view(r) == browser_url_spec(*t, public_host@, en),
{
    match t.kind {
        TunnelKind::Socks => Err(
            tr(en, "SOCKS 代理没有可打开的网页地址", "A SOCKS proxy has no web address to open"),
        ),
        TunnelKind::Local => {
            let port = dec_string(t.port as u64);
            let mut r = cat("http://127.0.0.1:", port.as_str());
            r.append("/");
            Ok(r)
        },
        TunnelKind::Remote => {
            let host = host_for_url(public_host);
            let port = dec_string(t.remote_port as u64);
            let mut r = cat("http://", host.as_str());
            r.append(":");
            r.append(port.as_str());
            r.append("/");
            Ok(r)
        },
    }
}

// ---- the live state of one tunnel -------------------------------------------------------

/// Keep the last `n` entries of `s`.
pub open spec fn keep_last<T>(s: Seq<T>, n: nat) -> Seq<T> {
    if s.len() > n {
        s.skip(s.len() - n)
    } else {
        s
    }
}

/// What the app knows about a tunnel while it runs. `P` is the probe
/// result the caller keeps (its latency is measured outside).
pub struct Runtime<P> {
    pub state: TunnelState,
    pub probe: Option<P>,
    /// Whether the last probe succeeded, alongside `probe`.
    pub probe_ok: Option<bool>,
    /// The latest log lines, oldest first, at most `MAX_LOG_LINES`.
    pub logs: VecDeque<String>,
    /// Remote forwards: the server address as this machine reaches it.
    pub public_host: Option<String>,
    /// Latest error / progress message, shown in the list.
    pub detail: Option<String>,
}

/// `b` is `a` moved to `state`: nothing changes when it is already
/// there; else leaving Connected forgets the probe result, and reaching
/// Connected or Stopped clears the detail message.
pub open spec fn state_set<P>(a: Runtime<P>, b: Runtime<P>, state: TunnelState) -> bool {
    if a.state == state {
        b == a
    } else {
        &&& b.state == state
        &&& b.probe == (if state == TunnelState::Connected { a.probe } else { None })
        &&& b.probe_ok == (if state == TunnelState::Connected { a.probe_ok } else { None })
        &&& b.detail == (if state == TunnelState::Connected || state == TunnelState::Stopped {
            None
        } else {
            a.detail
        })
        &&& b.logs == a.logs
        &&& b.public_host == a.public_host
    }
}

/// A runtime as a tunnel that has not run yet has it: stopped, with no
/// probe result, log, server address or message.
pub open spec fn fresh<P>(rt: Runtime<P>) -> bool {
    &&& rt.state == TunnelState::Stopped
    &&& rt.probe is None
    &&& rt.probe_ok is None
    &&& rt.logs@.len() == 0
    &&& rt.public_host is None
    &&& rt.detail is None
}

impl<P> Runtime<P> {
    pub open spec fn wf(&self) -> bool {
        &&& self.logs@.len() <= MAX_LOG_LINES
        &&& (self.probe is Some) == (self.probe_ok is Some)
    }

    /// A tunnel that has not run yet.
    pub fn new() -> (r: Self)
        ensures
            r.wf(),
            r.state == TunnelState::Stopped,
            r.probe is None,
            r.probe_ok is None,
            r.logs@.len() == 0,
            r.public_host is None,
            r.detail is None,
    {
        Runtime {
            state: TunnelState::Stopped,
            probe: None,
            probe_ok: None,
            logs: VecDeque::new(),
            public_host: None,
            detail: None,
        }
    }

    /// Move to `state`. Leaving Connected forgets the probe result;
    /// reaching Connected or Stopped clears the detail message. Returns
    /// whether anything changed.
    pub fn set_state(&mut self, state: TunnelState) -> (changed: bool)
        requires
            old(self).wf(),
        ensures
            final(self).wf(),
            changed == (old(self).state != state),
            state_set(*old(self), *final(self), state),
    {
        if self.state == state {
            return false;
        }
        self.state = state;
        if state != TunnelState::Connected {
            self.probe = None;
            self.probe_ok = None;
        }
        if state == TunnelState::Connected || state == TunnelState::Stopped {
            self.detail = None;
        }
        true
    }

    /// Append a line to the log, dropping the oldest lines beyond
    /// `MAX_LOG_LINES`.
    pub fn log(&mut self, line: String)
        requires
            old(self).wf(),
        ensures
            final(self).wf(),
            final(self).logs@ == keep_last(old(self).logs@.push(line), MAX_LOG_LINES as nat),
            final(self).state == old(self).state,
            final(self).probe == old(self).probe,
            final(self).probe_ok == old(self).probe_ok,
            final(self).detail == old(self).detail,
            final(self).public_host == old(self).public_host,
    {
        let ghost full = self.logs@.push(line);
        self.logs.push_back(line);
        if self.logs.len() > MAX_LOG_LINES {
            self.logs.pop_front();
            assert(self.logs@ =~= full.skip(full.len() - MAX_LOG_LINES));
        }
    }

    /// Log a line and show `shown` (the line without its time stamp) next
    /// to the tunnel in the list.
    pub fn note(&mut self, line: String, shown: String)
        requires
            old(self).wf(),
        ensures
            final(self).wf(),
            final(self).logs@ == keep_last(old(self).logs@.push(line), MAX_LOG_LINES as nat),
            final(self).detail == Some(shown),
            final(self).state == old(self).state,
            final(self).probe == old(self).probe,
            final(self).probe_ok == old(self).probe_ok,
            final(self).public_host == old(self).public_host,
    {
        self.log(line);
        self.detail = Some(shown);
    }

    /// ssh exited: the exit line becomes the detail unless a more specific
    /// message is already there.
    pub fn exited(&mut self, line: String)
        requires
            old(self).wf(),
        ensures
            final(self).wf(),
            final(self).detail == (match old(self).detail {
                Some(d) => Some(d),
                None => Some(line),
            }),
            final(self).state == old(self).state,
            final(self).logs == old(self).logs,
            final(self).probe == old(self).probe,
            final(self).probe_ok == old(self).probe_ok,
            final(self).public_host == old(self).public_host,
    {
        if self.detail.is_none() {
            self.detail = Some(line);
        }
    }

    /// Store a probe result; only a connected tunnel takes one. Returns
    /// `None` when it was ignored, else whether the up/down status changed.
    pub fn record_probe(&mut self, result: P, ok: bool) -> (r: Option<bool>)
        requires
            old(self).wf(),
        ensures
            final(self).wf(),
            old(self).state != TunnelState::Connected ==> r is None && *final(self) == *old(self),
            old(self).state == TunnelState::Connected ==> r == Some(old(self).probe_ok != Some(ok))
                && final(self).probe == Some(result) && final(self).probe_ok == Some(ok),
            final(self).state == old(self).state,
            final(self).logs == old(self).logs,
            final(self).detail == old(self).detail,
            final(self).public_host == old(self).public_host,
    {
        if self.state != TunnelState::Connected {
            return None;
        }
        let changed = match self.probe_ok {
            Some(prev) => prev != ok,
            None => true,
        };
        self.probe = Some(result);
        self.probe_ok = Some(ok);
        Some(changed)
    }
}

/// A log line with its time of day in front: `[HH:MM:SS] line`.
pub fn stamp(time: &str, line: &str) -> (r: String)
    ensures
        r@ == "["@ + time@ + "] "@ + line@,
{
    let mut r = cat("[", time);
    r.append("] ");
    r.append(line);
    r
}

// ---- all tunnels ------------------------------------------------------------------------

/// The index of the first tunnel with identifier `id`.
pub open spec fn index_of(tunnels: Seq<Tunnel>, id: Seq<char>, i: int) -> Option<int>
    decreases tunnels.len() - i,
{
    if i < 0 || i >= tunnels.len() {
        None
    } else if tunnels[i].id@ == id {
        Some(i)
    } else {
        index_of(tunnels, id, i + 1)
    }
}

/// `index_of` finds the first tunnel from `i` on with identifier `id`.
pub proof fn lemma_index_of(tunnels: Seq<Tunnel>, id: Seq<char>, i: int)
    requires
        0 <= i,
    ensures
        index_of(tunnels, id, i) matches Some(k) ==> i <= k < tunnels.len() && tunnels[k].id@
            == id,
        index_of(tunnels, id, i) is None ==> forall|j: int|
            i <= j < tunnels.len() ==> #[trigger] tunnels[j].id@ != id,
    decreases tunnels.len() - i,
{
    if i < tunnels.len() && tunnels[i].id@ != id {
        lemma_index_of(tunnels, id, i + 1);
    }
}

/// `tunnels` without those with identifier `id`, in order.
pub open spec fn without_id(tunnels: Seq<Tunnel>, id: Seq<char>) -> Seq<Tunnel> {
    tunnels.filter(|t: Tunnel| t.id@ != id)
}

proof fn lemma_filter_keeps_all(tunnels: Seq<Tunnel>, id: Seq<char>)
    requires
        forall|j: int| 0 <= j < tunnels.len() ==> #[trigger] tunnels[j].id@ != id,
    ensures
        without_id(tunnels, id) == tunnels,
    decreases tunnels.len(),
{
    reveal_with_fuel(Seq::<_>::filter, 1);
    if tunnels.len() > 0 {
        lemma_filter_keeps_all(tunnels.drop_last(), id);
        assert(tunnels.drop_last().push(tunnels.last()) =~= tunnels);
    }
}

/// Removing the identifier of a tunnel just added under a new identifier
/// gives back the tunnels as they were.
pub proof fn lemma_remove_undoes_add(tunnels: Seq<Tunnel>, t: Tunnel, id: Seq<char>)
    requires
        t.id@ == id,
        index_of(tunnels, id, 0) is None,
    ensures
        without_id(tunnels.push(t), id) == tunnels,
{
    reveal_with_fuel(Seq::<_>::filter, 1);
    lemma_index_of(tunnels, id, 0);
    lemma_filter_keeps_all(tunnels, id);
    assert(tunnels.push(t).drop_last() =~= tunnels);
}

/// The runtime in `rs` of the first tunnel of `tunnels` with identifier `x`.
pub open spec fn lookup<P>(tunnels: Seq<Tunnel>, rs: Seq<Runtime<P>>, x: Seq<char>) -> Option<Runtime<P>> {
    match index_of(tunnels, x, 0) {
        Some(i) => Some(rs[i]),
        None => None,
    }
}

proof fn lemma_index_of_push(tunnels: Seq<Tunnel>, t: Tunnel, x: Seq<char>, i: int)
    requires
        0 <= i <= tunnels.len(),
    ensures
        index_of(tunnels.push(t), x, i) == match index_of(tunnels, x, i) {
            Some(k) => Some(k),
            None => if t.id@ == x {
                Some(tunnels.len() as int)
            } else {
                None
            },
        },
    decreases tunnels.len() - i,
{
    if i < tunnels.len() {
        assert(tunnels.push(t)[i] == tunnels[i]);
        lemma_index_of_push(tunnels, t, x, i + 1);
    } else {
        assert(tunnels.push(t)[i] == t);
        assert(index_of(tunnels.push(t), x, i + 1) is None);
    }
}

proof fn lemma_lookup_push<P>(tunnels: Seq<Tunnel>, rs: Seq<Runtime<P>>, t: Tunnel, rt: Runtime<P>, x: Seq<char>)
    requires
        tunnels.len() == rs.len(),
    ensures
        lookup(tunnels.push(t), rs.push(rt), x) == match lookup(tunnels, rs, x) {
            Some(r) => Some(r),
            None => if t.id@ == x {
                Some(rt)
            } else {
                None
            },
        },
{
    lemma_index_of_push(tunnels, t, x, 0);
    lemma_index_of(tunnels, x, 0);
}

/// How many of `rs` are connected.
pub open spec fn connected_count<P>(rs: Seq<Runtime<P>>) -> nat
    decreases rs.len(),
{
    if rs.len() == 0 {
        0
    } else {
        connected_count(rs.drop_last()) + if rs.last().state == TunnelState::Connected {
            1nat
        } else {
            0nat
        }
    }
}

/// Whether a tunnel of `tunnels` that listens locally uses `port`.
pub open spec fn claims_port(tunnels: Seq<Tunnel>, port: u16) -> bool {
    exists|i: int|
        0 <= i < tunnels.len() && (#[trigger] tunnels[i]).kind.listens_locally_spec() && tunnels[i].port
            == port
}

/// Every saved tunnel with its live state; `runtimes[i]` belongs to the
/// first tunnel with the identifier of `tunnels[i]`.
pub struct Registry<P> {
    tunnels: Vec<Tunnel>,
    runtimes: Vec<Runtime<P>>,
}

impl<P> Registry<P> {
    pub closed spec fn tunnels_spec(&self) -> Seq<Tunnel> {
        self.tunnels@
    }

    pub closed spec fn runtimes_spec(&self) -> Seq<Runtime<P>> {
        self.runtimes@
    }

    /// The runtime of the tunnel with identifier `id`, if there is one.
    pub open spec fn runtime_of(&self, id: Seq<char>) -> Option<Runtime<P>> {
        lookup(self.tunnels_spec(), self.runtimes_spec(), id)
    }

    /// The runtimes match the tunnels one for one, each well formed.
    #[verifier::type_invariant]
    closed spec fn wf(self) -> bool {
        &&& self.tunnels@.len() == self.runtimes@.len()
        &&& forall|i: int| 0 <= i < self.runtimes@.len() ==> (#[trigger] self.runtimes@[i]).wf()
    }

    /// The lists of `self`, leaving it empty.
    fn take_parts(&mut self) -> (r: (Vec<Tunnel>, Vec<Runtime<P>>))
        ensures
            r.0@ == old(self).tunnels_spec(),
            r.1@ == old(self).runtimes_spec(),
            r.0@.len() == r.1@.len(),
            forall|i: int| 0 <= i < r.1@.len() ==> (#[trigger] r.1@[i]).wf(),
    {
        proof {
            use_type_invariant(&*self);
        }
        let mut taken = Registry { tunnels: Vec::new(), runtimes: Vec::new() };
        std::mem::swap(self, &mut taken);
        let Registry { tunnels, runtimes } = taken;
        (tunnels, runtimes)
    }

    /// A registry of `tunnels`, none of them running.
    pub fn new(tunnels: Vec<Tunnel>) -> (r: Self)
        ensures
            r.tunnels_spec() == tunnels@,
            r.runtimes_spec().len() == tunnels@.len(),
            forall|i: int|
                0 <= i < tunnels@.len() ==> fresh(#[trigger] r.runtimes_spec()[i]),
    {
        let mut runtimes: Vec<Runtime<P>> = Vec::new();
        let mut i: usize = 0;
        while i < tunnels.len()
            invariant
                i <= tunnels@.len(),
                runtimes@.len() == i,
                forall|k: int| 0 <= k < i ==> (#[trigger] runtimes@[k]).wf() && fresh(runtimes@[k]),
            decreases tunnels.len() - i,
        {
            runtimes.push(Runtime::new());
            i += 1;
        }
        Registry { tunnels, runtimes }
    }

    /// The saved tunnels, in order.
    pub fn tunnels(&self) -> (t: &Vec<Tunnel>)
        ensures
            t@ == self.tunnels_spec(),
    {
        &self.tunnels
    }

    /// Index of the first tunnel with identifier `id`.
    pub fn find(&self, id: &str) -> (r: Option<usize>)
        ensures
            r matches Some(i) ==> index_of(self.tunnels_spec(), id@, 0) == Some(i as int) && (i as int)
                < self.tunnels_spec().len(),
            r is None ==> index_of(self.tunnels_spec(), id@, 0) is None,
    {
        let mut i: usize = 0;
        while i < self.tunnels.len()
            invariant
                i <= self.tunnels@.len(),
                index_of(self.tunnels@, id@, 0) == index_of(self.tunnels@, id@, i as int),
            decreases self.tunnels.len() - i,
        {
            if crate::text::str_eq(self.tunnels[i].id.as_str(), id) {
                return Some(i);
            }
            i += 1;
        }
        None
    }

    /// The runtime of the tunnel with identifier `id`.
    pub fn runtime(&self, id: &str) -> (r: Option<&Runtime<P>>)
        ensures
            match self.runtime_of(id@) {
                Some(rt) => r matches Some(x) && *x == rt,
                None => r is None,
            },
    {
        proof {
            use_type_invariant(self);
        }
        match self.find(id) {
            Some(i) => Some(&self.runtimes[i]),
            None => None,
        }
    }

    /// A copy of the tunnel with identifier `id`.
    pub fn tunnel(&self, id: &str) -> (r: Option<Tunnel>)
        ensures
            match index_of(self.tunnels_spec(), id@, 0) {
                Some(k) => r == Some(self.tunnels_spec()[k]),
                None => r is None,
            },
    {
        match self.find(id) {
            Some(i) => Some(self.tunnels[i].clone()),
            None => None,
        }
    }

    /// The identifiers of all tunnels, in order.
    pub fn ids(&self) -> (r: Vec<String>)
        ensures
            r.deep_view() == self.tunnels_spec().map_values(|t: Tunnel| t.id@),
    {
        let mut r: Vec<String> = Vec::new();
        let mut i: usize = 0;
        while i < self.tunnels.len()
            invariant
                i <= self.tunnels@.len(),
                r.deep_view() == self.tunnels@.take(i as int).map_values(|t: Tunnel| t.id@),
            decreases self.tunnels.len() - i,
        {
            let ghost before = r.deep_view();
            r.push(self.tunnels[i].id.clone());
            assert(r.deep_view() =~= before.push(self.tunnels@[i as int].id@));
            assert(self.tunnels@.take(i + 1).map_values(|t: Tunnel| t.id@) =~= self.tunnels@.take(
                i as int,
            ).map_values(|t: Tunnel| t.id@).push(self.tunnels@[i as int].id@));
            i += 1;
        }
        assert(self.tunnels@.take(self.tunnels@.len() as int) == self.tunnels@);
        r
    }

    /// How many tunnels are connected, and how many there are.
    pub fn connected_summary(&self) -> (r: (usize, usize))
        ensures
            r.0 == connected_count(self.runtimes_spec()),
            r.1 == self.tunnels_spec().len(),
            r.0 <= r.1,
    {
        proof {
            use_type_invariant(self);
        }
        let mut n: usize = 0;
        let mut i: usize = 0;
        while i < self.runtimes.len()
            invariant
                i <= self.runtimes@.len(),
                n == connected_count(self.runtimes@.take(i as int)),
                n <= i,
            decreases self.runtimes.len() - i,
        {
            assert(self.runtimes@.take(i + 1).drop_last() =~= self.runtimes@.take(i as int));
            if self.runtimes[i].state == TunnelState::Connected {
                n += 1;
            }
            i += 1;
        }
        assert(self.runtimes@.take(self.runtimes@.len() as int) =~= self.runtimes@);
        (n, self.tunnels.len())
    }

    /// Whether a tunnel that listens locally already uses `port`.
    pub fn port_in_use(&self, port: u16) -> (r: bool)
        ensures
            r == claims_port(self.tunnels_spec(), port),
    {
        let mut i: usize = 0;
        while i < self.tunnels.len()
            invariant
                i <= self.tunnels@.len(),
                forall|k: int|
                    0 <= k < i ==> !((#[trigger] self.tunnels@[k]).kind.listens_locally_spec()
                        && self.tunnels@[k].port == port),
            decreases self.tunnels.len() - i,
        {
            if self.tunnels[i].kind.listens_locally() && self.tunnels[i].port == port {
                return true;
            }
            i += 1;
        }
        false
    }

    /// The first port from `from` on (and from 1 on) that no tunnel
    /// listening locally uses, or `u16::MAX` when every one up to it is
    /// taken. Whether the port is free on this machine is not asked here.
    /// The port search after `port` turned out to be taken by another
    /// program: the next port from `port + 1` that no tunnel claims, or
    /// `None` when `port` is the last one.
    pub fn next_port_after_busy(&self, port: u16) -> (r: Option<u16>)
        ensures
            port == u16::MAX ==> r is None,
            port < u16::MAX ==> (r matches Some(p) && port < p && (p == u16::MAX || !claims_port(
                self.tunnels_spec(),
                p,
            )) && forall|q: u16| port < q < p ==> claims_port(self.tunnels_spec(), q)),
    {
        if port == u16::MAX {
            None
        } else {
            Some(self.next_unclaimed_port(port + 1))
        }
    }

    pub fn next_unclaimed_port(&self, from: u16) -> (r: u16)
        ensures
            (if from == 0 { 1 } else { from }) <= r,
            r == u16::MAX || !claims_port(self.tunnels_spec(), r),
            forall|p: u16|
                (if from == 0 { 1 } else { from }) <= p < r ==> claims_port(self.tunnels_spec(), p),
    {
        let mut port: u16 = if from == 0 { 1 } else { from };
        let ghost start = port;
        while port < u16::MAX && self.port_in_use(port)
            invariant
                start <= port,
                start == (if from == 0 { 1u16 } else { from }),
                forall|p: u16| start <= p < port ==> claims_port(self.tunnels_spec(), p),
            decreases u16::MAX - port,
        {
            port += 1;
        }
        port
    }

    /// Apply `set_state` to the runtime at index `i`.
    fn update_at(&mut self, i: usize, state: TunnelState) -> (changed: bool)
        requires
            i < old(self).runtimes_spec().len(),
        ensures
            final(self).tunnels_spec() == old(self).tunnels_spec(),
            final(self).runtimes_spec().len() == old(self).runtimes_spec().len(),
            forall|k: int|
                0 <= k < old(self).runtimes_spec().len() && k != i ==> final(self).runtimes_spec()[k]
                    == old(self).runtimes_spec()[k],
            changed == (old(self).runtimes_spec()[i as int].state != state),
            state_set(old(self).runtimes_spec()[i as int], final(self).runtimes_spec()[i as int], state),
    {
        let (tunnels, mut runtimes) = self.take_parts();
        let mut rt = runtimes.remove(i);
        let changed = rt.set_state(state);
        runtimes.insert(i, rt);
        *self = Registry { tunnels, runtimes };
        changed
    }

    /// Add a tunnel, or replace the one with the same identifier. Refused
    /// when another tunnel uses the port this one needs, or when the tunnel
    /// being replaced is running.
    pub fn upsert(&mut self, tunnel: Tunnel, en: bool) -> (r: Result<(), String>)
        ensures
            match conflict_spec(old(self).tunnels_spec(), tunnel, en) {
                Some(m) => r matches Err(e) && e@ == m && *final(self) == *old(self),
                None => match index_of(old(self).tunnels_spec(), tunnel.id@, 0) {
                    Some(k) => if old(self).runtimes_spec()[k].state.active_spec() {
                        r matches Err(e) && e@ == (if en {
                            "Stop the tunnel before editing it."@
                        } else {
                            "编辑前请先停止该隧道。"@
                        }) && *final(self) == *old(self)
                    } else {
                        r is Ok && final(self).tunnels_spec() == old(self).tunnels_spec().update(
                            k,
                            tunnel,
                        ) && final(self).runtimes_spec() == old(self).runtimes_spec()
                    },
                    None => r is Ok && final(self).tunnels_spec() == old(self).tunnels_spec().push(
                        tunnel,
                    ) && final(self).runtimes_spec().len() == old(self).runtimes_spec().len() + 1
                        && final(self).runtimes_spec().take(old(self).runtimes_spec().len() as int)
                        == old(self).runtimes_spec() && fresh(final(self).runtimes_spec().last()),
                },
            },
    {
        proof {
            use_type_invariant(&*self);
        }
        if let Some(err) = conflict(self.tunnels.as_slice(), &tunnel, en) {
            return Err(err);
        }
        match self.find(tunnel.id.as_str()) {
            Some(i) => {
                if self.runtimes[i].state.active() {
                    return Err(tr(en, "编辑前请先停止该隧道。", "Stop the tunnel before editing it."));
                }
                let (mut tunnels, runtimes) = self.take_parts();
                tunnels.set(i, tunnel);
                *self = Registry { tunnels, runtimes };
                Ok(())
            },
            None => {
                let (mut tunnels, mut runtimes) = self.take_parts();
                runtimes.push(Runtime::new());
                tunnels.push(tunnel);
                assert(runtimes@.take(runtimes@.len() - 1) =~= old(self).runtimes@);
                *self = Registry { tunnels, runtimes };
                Ok(())
            },
        }
    }

    /// Remove every tunnel with identifier `id`. Returns whether one was
    /// there.
    pub fn remove(&mut self, id: &str) -> (removed: bool)
        ensures
            removed == (index_of(old(self).tunnels_spec(), id@, 0) is Some),
            final(self).tunnels_spec() == without_id(old(self).tunnels_spec(), id@),
            forall|x: Seq<char>| x != id@ ==> #[trigger] final(self).runtime_of(x) == old(self).runtime_of(x),
    {
        let ghost orig = self.tunnels@;
        let ghost orig_rts = self.runtimes@;
        let removed = self.find(id).is_some();
        let mut tunnels: Vec<Tunnel> = Vec::new();
        let mut runtimes: Vec<Runtime<P>> = Vec::new();
        let (old_tunnels, mut old_runtimes) = self.take_parts();
        let mut i: usize = 0;
        let n = old_tunnels.len();
        while i < n
            invariant
                n == old_tunnels@.len() == orig.len(),
                old_tunnels@ == orig,
                old_runtimes@.len() == n - i,
                i <= n,
                tunnels@.len() == runtimes@.len(),
                tunnels@ == without_id(orig.take(i as int), id@),
                orig_rts.len() == n,
                old_runtimes@ == orig_rts.skip(i as int),
                forall|k: int| 0 <= k < runtimes@.len() ==> (#[trigger] runtimes@[k]).wf(),
                forall|k: int| 0 <= k < orig_rts.len() ==> (#[trigger] orig_rts[k]).wf(),
                forall|x: Seq<char>|
                    x != id@ ==> #[trigger] lookup(tunnels@, runtimes@, x) == lookup(
                        orig.take(i as int),
                        orig_rts.take(i as int),
                        x,
                    ),
            decreases n - i,
        {
            let rt = old_runtimes.remove(0);
            let ghost (ts0, rs0) = (tunnels@, runtimes@);
            assert(rt == orig_rts[i as int]);
            assert(old_runtimes@ =~= orig_rts.skip(i + 1));
            assert(orig.take(i + 1) =~= orig.take(i as int).push(orig[i as int]));
            assert(orig_rts.take(i + 1) =~= orig_rts.take(i as int).push(orig_rts[i as int]));
            assert(orig.take(i + 1).drop_last() == orig.take(i as int));
            assert(orig.take(i + 1).last() == orig[i as int]);
            reveal_with_fuel(Seq::<_>::filter, 1);
            if !crate::text::str_eq(old_tunnels[i].id.as_str(), id) {
                tunnels.push(old_tunnels[i].clone());
                runtimes.push(rt);
                assert forall|x: Seq<char>| x != id@ implies #[trigger] lookup(tunnels@, runtimes@, x)
                    == lookup(orig.take(i + 1), orig_rts.take(i + 1), x) by {
                    lemma_lookup_push(ts0, rs0, orig[i as int], rt, x);
                    lemma_lookup_push(orig.take(i as int), orig_rts.take(i as int), orig[i as int], rt, x);
                }
            } else {
                assert forall|x: Seq<char>| x != id@ implies #[trigger] lookup(tunnels@, runtimes@, x)
                    == lookup(orig.take(i + 1), orig_rts.take(i + 1), x) by {
                    lemma_lookup_push(orig.take(i as int), orig_rts.take(i as int), orig[i as int], rt, x);
                }
            }
            i += 1;
        }
        assert(orig.take(n as int) == orig);
        assert(orig_rts.take(n as int) == orig_rts);
        *self = Registry { tunnels, runtimes };
        removed
    }

    /// Whether the tunnel `id` can be started: it exists and is neither
    /// connecting nor connected.
    pub fn can_start(&self, id: &str) -> (r: bool)
        ensures
            r == (match self.runtime_of(id@) {
                Some(rt) => !rt.state.active_spec(),
                None => false,
            }),
    {
        proof {
            use_type_invariant(self);
        }
        match self.find(id) {
            Some(i) => !self.runtimes[i].state.active(),
            None => false,
        }
    }

    /// Move tunnel `id` to `state` (see `Runtime::set_state`). Returns
    /// whether it changed.
    pub fn set_state(&mut self, id: &str, state: TunnelState) -> (changed: bool)
        ensures
            match index_of(old(self).tunnels_spec(), id@, 0) {
                Some(k) => {
                    &&& changed == (old(self).runtimes_spec()[k].state != state)
                    &&& final(self).same_but(old(self), k)
                    &&& state_set(old(self).runtimes_spec()[k], final(self).runtimes_spec()[k], state)
                },
                None => !changed && *final(self) == *old(self),
            },
    {
        proof {
            use_type_invariant(&*self);
        }
        match self.find(id) {
            Some(i) => self.update_at(i, state),
            None => false,
        }
    }

    /// `self` has the tunnels of `other`, and its runtimes but maybe the one
    /// at `k`.
    pub open spec fn same_but(&self, other: &Self, k: int) -> bool {
        &&& self.tunnels_spec() == other.tunnels_spec()
        &&& self.runtimes_spec().len() == other.runtimes_spec().len()
        &&& forall|j: int|
            0 <= j < self.runtimes_spec().len() && j != k ==> self.runtimes_spec()[j]
                == other.runtimes_spec()[j]
    }

    /// Append a (stamped) line to the log of tunnel `id`.
    pub fn log(&mut self, id: &str, line: String)
        ensures
            match index_of(old(self).tunnels_spec(), id@, 0) {
                Some(k) => {
                    let (a, b) = (old(self).runtimes_spec()[k], final(self).runtimes_spec()[k]);
                    &&& final(self).same_but(old(self), k)
                    &&& b.logs@ == keep_last(a.logs@.push(line), MAX_LOG_LINES as nat)
                    &&& b.state == a.state && b.detail == a.detail && b.probe == a.probe
                    &&& b.probe_ok == a.probe_ok && b.public_host == a.public_host
                },
                None => *final(self) == *old(self),
            },
    {
        proof {
            use_type_invariant(&*self);
        }
        match self.find(id) {
            Some(i) => {
                let (tunnels, mut runtimes) = self.take_parts();
                let mut rt = runtimes.remove(i);
                rt.log(line);
                runtimes.insert(i, rt);
                *self = Registry { tunnels, runtimes };
            },
            None => {},
        }
    }

    /// Log a line for tunnel `id` and show `shown` (the line without its
    /// time stamp) next to the tunnel.
    pub fn note(&mut self, id: &str, line: String, shown: String)
        ensures
            match index_of(old(self).tunnels_spec(), id@, 0) {
                Some(k) => {
                    let (a, b) = (old(self).runtimes_spec()[k], final(self).runtimes_spec()[k]);
                    &&& final(self).same_but(old(self), k)
                    &&& b.logs@ == keep_last(a.logs@.push(line), MAX_LOG_LINES as nat)
                    &&& b.detail == Some(shown)
                    &&& b.state == a.state && b.probe == a.probe && b.probe_ok == a.probe_ok
                    &&& b.public_host == a.public_host
                },
                None => *final(self) == *old(self),
            },
    {
        proof {
            use_type_invariant(&*self);
        }
        match self.find(id) {
            Some(i) => {
                let (tunnels, mut runtimes) = self.take_parts();
                let mut rt = runtimes.remove(i);
                rt.note(line, shown);
                runtimes.insert(i, rt);
                *self = Registry { tunnels, runtimes };
            },
            None => {},
        }
    }

    /// Store a probe result for tunnel `id` (see `Runtime::record_probe`).
    pub fn record_probe(&mut self, id: &str, result: P, ok: bool) -> (r: Option<bool>)
        ensures
            match index_of(old(self).tunnels_spec(), id@, 0) {
                Some(k) => {
                    let (a, b) = (old(self).runtimes_spec()[k], final(self).runtimes_spec()[k]);
                    &&& final(self).same_but(old(self), k)
                    &&& if a.state == TunnelState::Connected {
                        &&& r == Some(a.probe_ok != Some(ok))
                        &&& b.probe == Some(result) && b.probe_ok == Some(ok)
                        &&& b.state == a.state && b.logs == a.logs && b.detail == a.detail
                        &&& b.public_host == a.public_host
                    } else {
                        r is None && b == a
                    }
                },
                None => r is None && *final(self) == *old(self),
            },
    {
        proof {
            use_type_invariant(&*self);
        }
        match self.find(id) {
            Some(i) => {
                let (tunnels, mut runtimes) = self.take_parts();
                let mut rt = runtimes.remove(i);
                let r = rt.record_probe(result, ok);
                runtimes.insert(i, rt);
                *self = Registry { tunnels, runtimes };
                r
            },
            None => None,
        }
    }

    /// ssh exited: record the exit line as the detail of tunnel `id` unless
    /// a more specific message is there.
    pub fn exited(&mut self, id: &str, line: String)
        ensures
            match index_of(old(self).tunnels_spec(), id@, 0) {
                Some(k) => {
                    let (a, b) = (old(self).runtimes_spec()[k], final(self).runtimes_spec()[k]);
                    &&& final(self).same_but(old(self), k)
                    &&& b.detail == (match a.detail {
                        Some(d) => Some(d),
                        None => Some(line),
                    })
                    &&& b.state == a.state && b.logs == a.logs && b.probe == a.probe
                    &&& b.probe_ok == a.probe_ok && b.public_host == a.public_host
                },
                None => *final(self) == *old(self),
            },
    {
        proof {
            use_type_invariant(&*self);
        }
        match self.find(id) {
            Some(i) => {
                let (tunnels, mut runtimes) = self.take_parts();
                let mut rt = runtimes.remove(i);
                rt.exited(line);
                runtimes.insert(i, rt);
                *self = Registry { tunnels, runtimes };
            },
            None => {},
        }
    }

    /// Remember the server address of a remote forward.
    pub fn set_public_host(&mut self, id: &str, host: String)
        ensures
            match index_of(old(self).tunnels_spec(), id@, 0) {
                Some(k) => {
                    let (a, b) = (old(self).runtimes_spec()[k], final(self).runtimes_spec()[k]);
                    &&& final(self).same_but(old(self), k)
                    &&& b.public_host == Some(host)
                    &&& b.state == a.state && b.logs == a.logs && b.probe == a.probe
                    &&& b.probe_ok == a.probe_ok && b.detail == a.detail
                },
                None => *final(self) == *old(self),
            },
    {
        proof {
            use_type_invariant(&*self);
        }
        match self.find(id) {
            Some(i) => {
                let (tunnels, mut runtimes) = self.take_parts();
                let mut rt = runtimes.remove(i);
                rt.public_host = Some(host);
                runtimes.insert(i, rt);
                *self = Registry { tunnels, runtimes };
            },
            None => {},
        }
    }
}

// ---- the supervisor's decisions -----------------------------------------------------------

/// How one attempt to run ssh ended.
#[derive(Clone, Copy, Debug, PartialEq, Eq, Structural)]
pub enum Outcome {
    /// Stopped on request.
    Stopped,
    /// ssh exited or could not bind; retry if auto-reconnect is on.
    Failed,
    /// Cannot work at all (ssh missing); do not retry.
    Fatal,
}

/// What the supervisor does after an attempt.
#[derive(Debug)]
pub enum NextStep {
    /// Stop supervising; the tunnel ends in this state.
    Finish(TunnelState),
    /// Log `line`, wait `delay_ms`, then try again with the new attempt count.
    Retry { delay_ms: u64, attempts: u32, line: String },
}

/// How an attempt starts: the tunnel is shown in `state`; when its local
/// port is taken, `busy` is the line to show and the attempt ends at once
/// with `Outcome::Failed`, without running ssh.
#[derive(Debug)]
pub struct AttemptStart {
    pub state: TunnelState,
    pub busy: Option<(String, Outcome)>,
}

/// The start of every attempt: `Connecting`, and a tunnel that listens
/// locally on a port that is not free fails without running ssh.
pub fn begin_attempt(listens_locally: bool, port_free: bool, port: u16, en: bool) -> (r: AttemptStart)
    ensures
        r.state == TunnelState::Connecting,
        r.busy is Some <==> listens_locally && !port_free,
        r.busy matches Some((line, outcome)) ==> outcome == Outcome::Failed && line@ == (if en {
            "Local port "@ + dec(port as nat) + " is already in use (maybe a leftover ssh process or another program)"@
        } else {
            "本地端口 "@ + dec(port as nat) + " 已被占用（可能是残留的 ssh 进程或其他程序）"@
        }),
{
    let busy = if listens_locally && !port_free {
        Some((port_busy_line(port, en), Outcome::Failed))
    } else {
        None
    };
    AttemptStart { state: TunnelState::Connecting, busy }
}

/// Once the forward is up: the tunnel is `Connected`, the count of failed
/// attempts starts again from 0, and `line` is logged.
#[derive(Debug)]
pub struct ReadyStep {
    pub state: TunnelState,
    pub attempts: u32,
    pub line: String,
}

pub fn on_ready(t: &Tunnel, en: bool) -> (r: ReadyStep)
    ensures
        r.state == TunnelState::Connected,
        r.attempts == 0,
        r.line@ == (if en { "Ready: "@ } else { "已就绪："@ }) + describe_tunnel_spec(*t, en),
{
    ReadyStep { state: TunnelState::Connected, attempts: 0, line: ready_line(t, en) }
}

/// After an attempt: stop on request, give up on a fatal error or when
/// auto-reconnect is off, else retry after the backoff delay (the count of
/// attempts goes up by one, wrapping as a `u32` does).
pub fn after_attempt(outcome: Outcome, auto_reconnect: bool, attempts: u32, en: bool) -> (r: NextStep)
    ensures
        outcome == Outcome::Stopped ==> r == NextStep::Finish(TunnelState::Stopped),
        outcome == Outcome::Fatal ==> r == NextStep::Finish(TunnelState::Error),
        outcome == Outcome::Failed && !auto_reconnect ==> r == NextStep::Finish(TunnelState::Error),
        outcome == Outcome::Failed && auto_reconnect ==> (r matches NextStep::Retry {
            delay_ms,
            attempts: next,
            line,
        } && delay_ms == backoff_ms_spec(attempts) && next == (if attempts == u32::MAX {
            0
        } else {
            attempts + 1
        }) && line@ == (if en {
            "Reconnecting in "@ + dec(backoff_ms_spec(attempts) / 1000) + "s…"@
        } else {
            dec(backoff_ms_spec(attempts) / 1000) + "s 后自动重连…"@
        })),
{
    match outcome {
        Outcome::Stopped => NextStep::Finish(TunnelState::Stopped),
        Outcome::Fatal => NextStep::Finish(TunnelState::Error),
        Outcome::Failed => {
            if !auto_reconnect {
                return NextStep::Finish(TunnelState::Error);
            }
            let delay = backoff_ms(attempts);
            let secs = dec_string(delay / 1000);
            let line = if en {
                let mut l = cat("Reconnecting in ", secs.as_str());
                l.append("s…");
                l
            } else {
                cat(secs.as_str(), "s 后自动重连…")
            };
            NextStep::Retry { delay_ms: delay, attempts: attempts.wrapping_add(1), line }
        },
    }
}

/// What to do while ssh has not come up yet, `waited_ms` after starting.
#[derive(Debug)]
pub enum WaitTick {
    /// Keep waiting; show this message, and ask again after `next_ms`.
    Waiting { line: String, next_ms: u64 },
    /// Give up on this attempt: show `note`, log `hint` and `last`, stop ssh
    /// and its helpers, and end the attempt with `outcome`.
    GiveUp { note: String, hint: Option<String>, last: Option<String>, outcome: Outcome },
}

/// How long to wait, `waited_ms` after ssh started, before asking again:
/// until the next multiple of `WAIT_NOTICE_MS`, but not past the deadline.
pub open spec fn wait_delay_spec(waited_ms: u64) -> u64 {
    if waited_ms >= CONNECT_DEADLINE_MS {
        0
    } else {
        let to_notice = (WAIT_NOTICE_MS - waited_ms % WAIT_NOTICE_MS) as u64;
        let to_deadline = (CONNECT_DEADLINE_MS - waited_ms) as u64;
        if to_notice < to_deadline {
            to_notice
        } else {
            to_deadline
        }
    }
}

/// The wait before asking `on_wait_tick` again (first at `waited_ms == 0`).
/// It never goes past the deadline, so an attempt is given up when 45 s have
/// passed, and not later than the timers allow.
pub fn wait_delay_ms(waited_ms: u64) -> (r: u64)
    ensures
        r == wait_delay_spec(waited_ms),
        waited_ms < CONNECT_DEADLINE_MS ==> 0 < r <= WAIT_NOTICE_MS && waited_ms + r <= CONNECT_DEADLINE_MS,
{
    if waited_ms >= CONNECT_DEADLINE_MS {
        0
    } else {
        let to_notice = WAIT_NOTICE_MS - waited_ms % WAIT_NOTICE_MS;
        let to_deadline = CONNECT_DEADLINE_MS - waited_ms;
        if to_notice < to_deadline {
            to_notice
        } else {
            to_deadline
        }
    }
}

/// The periodic notice while ssh has not connected, and the decision to
/// give up exactly when `CONNECT_DEADLINE_MS` have passed.
pub fn on_wait_tick(waited_ms: u64, progress: &Progress, en: bool) -> (r: WaitTick)
    ensures
        (r is GiveUp) <==> waited_ms >= CONNECT_DEADLINE_MS,
        r matches WaitTick::Waiting { next_ms, .. } ==> next_ms == wait_delay_spec(waited_ms),
        waited_ms >= CONNECT_DEADLINE_MS ==> (r matches WaitTick::GiveUp { note, hint, last, outcome }
            && outcome == Outcome::Failed
            && note@ == (if en {
            "Still not connected after "@ + dec((waited_ms / 1000) as nat) + "s, stuck at: "@
                + describe_spec(progress@, en) + ". Giving up on this attempt"@
        } else {
            "等待 "@ + dec((waited_ms / 1000) as nat) + "s 仍未连上，卡在："@ + describe_spec(progress@, en)
                + "。结束本次尝试"@
        }) && opt_view(hint) == hint_spec(progress@, en) && (if progress@.last_debug.len() == 0 {
            last is None
        } else {
            last matches Some(l) && l@ == (if en {
                "Last ssh output: "@ + progress@.last_debug
            } else {
                "ssh 最后的输出："@ + progress@.last_debug
            })
        })),
        waited_ms < CONNECT_DEADLINE_MS ==> (r matches WaitTick::Waiting { line: m, .. } && m@ == (if en {
            "Still waiting for ssh to connect… ("@ + dec((waited_ms / 1000) as nat) + "s so far) now: "@
                + describe_spec(progress@, en)
        } else {
            "仍在等待 ssh 建立连接…（已 "@ + dec((waited_ms / 1000) as nat) + "s）当前："@ + describe_spec(
                progress@,
                en,
            )
        })),
{
    let step = progress.describe(en);
    let secs = dec_string(waited_ms / 1000);
    if waited_ms >= CONNECT_DEADLINE_MS {
        let mut note = if en {
            cat("Still not connected after ", secs.as_str())
        } else {
            cat("等待 ", secs.as_str())
        };
        if en {
            note.append("s, stuck at: ");
            note.append(step.as_str());
            note.append(". Giving up on this attempt");
        } else {
            note.append("s 仍未连上，卡在：");
            note.append(step.as_str());
            note.append("。结束本次尝试");
        }
        let last_debug = progress.last_debug();
        let last = if last_debug.is_empty() {
            None
        } else {
            Some(
                if en {
                    cat("Last ssh output: ", last_debug)
                } else {
                    cat("ssh 最后的输出：", last_debug)
                },
            )
        };
        WaitTick::GiveUp { note, hint: progress.hint(en), last, outcome: Outcome::Failed }
    } else {
        let mut m = if en {
            cat("Still waiting for ssh to connect… (", secs.as_str())
        } else {
            cat("仍在等待 ssh 建立连接…（已 ", secs.as_str())
        };
        if en {
            m.append("s so far) now: ");
        } else {
            m.append("s）当前：");
        }
        m.append(step.as_str());
        WaitTick::Waiting { line: m, next_ms: wait_delay_ms(waited_ms) }
    }
}

/// `s` without the leading repetitions of `p` (`str::trim_start_matches`).
pub open spec fn trim_start_lit(s: Seq<char>, p: Seq<char>) -> Seq<char>
    decreases s.len(),
{
    if p.len() > 0 && starts_with(s, p) {
        trim_start_lit(s.skip(p.len() as int), p)
    } else {
        s
    }
}

fn trim_start_matches(s: &Vec<char>, p: &Vec<char>) -> (r: Vec<char>)
    ensures
        r@ == trim_start_lit(s@, p@),
{
    let mut i: usize = 0;
    assert(s@.skip(0) == s@);
    while p.len() > 0 && crate::text::has_at(s, i, p)
        invariant
            i <= s@.len(),
            trim_start_lit(s@, p@) == trim_start_lit(s@.skip(i as int), p@),
        decreases s@.len() - i,
    {
        assert(s@.skip(i as int).skip(p@.len() as int) =~= s@.skip(i + p@.len()));
        assert(i + p@.len() <= s@.len());
        let n = s.len();
        i += p.len();
    }
    sub_vec(s, i, s.len())
}

/// What one line of ssh's stderr leads to.
#[derive(Debug)]
pub struct LineEffect {
    /// The ssh version, the first time it is printed: log it.
    pub version: Option<String>,
    /// The remote forward is up.
    pub forwarded: bool,
    /// Show this next to the tunnel (and log it).
    pub note: Option<String>,
    /// Log this advice after the note.
    pub hint: Option<String>,
}

/// What a line of ssh's stderr (`raw`, trailing whitespace included) means:
/// progress is tracked; `debug` lines only report a remote forward's
/// success or failure; other non-blank lines that are not just progress
/// chatter are shown, with advice when it is a well-known failure.
pub open spec fn line_effect_spec(p: ProgressV, line: Seq<char>, en: bool) -> (
    Option<Seq<char>>,
    bool,
    Option<Seq<char>>,
    Option<Seq<char>>,
) {
    let version = feed_spec(p, line).1;
    if starts_with(line, "debug"@) {
        if contains_seq(line, "remote forward success"@) {
            (version, true, None, None)
        } else if contains_seq(line, "remote forward failure"@) {
            (version, false, Some(trim_start_lit(line, "debug1: "@)), None)
        } else {
            (version, false, None, None)
        }
    } else if !is_blank(line) && !is_chatter_spec(line) {
        (version, false, Some(line), hint_for_spec(line, en))
    } else {
        (version, false, None, None)
    }
}

/// Take one line of ssh's stderr: feed the progress tracker and say what
/// to log or show.
pub fn on_stderr_line(progress: &mut Progress, raw: &str, en: bool) -> (r: LineEffect)
    ensures
        final(progress)@ == feed_spec(old(progress)@, crate::text::trim_end(raw@)).0,
        (opt_view(r.version), r.forwarded, opt_view(r.note), opt_view(r.hint))
            == line_effect_spec(old(progress)@, crate::text::trim_end(raw@), en),
{
    let v = chars_of(raw);
    let end = crate::text::trim_end_at(&v, 0, v.len());
    assert(v@.subrange(0, v@.len() as int) == v@);
    let line = string_of_range(&v, 0, end);
    let l = sub_vec(&v, 0, end);
    let version = progress.feed(line.as_str());
    if starts_lit(&l, "debug") {
        if str_contains(line.as_str(), "remote forward success") {
            LineEffect { version, forwarded: true, note: None, hint: None }
        } else if str_contains(line.as_str(), "remote forward failure") {
            let p = lit("debug1: ");
            let t = trim_start_matches(&l, &p);
            LineEffect { version, forwarded: false, note: Some(string_of(&t)), hint: None }
        } else {
            LineEffect { version, forwarded: false, note: None, hint: None }
        }
    } else if !blank(&l) && !is_chatter(line.as_str()) {
        let hint = hint_for(line.as_str(), en);
        LineEffect { version, forwarded: false, note: Some(line), hint }
    } else {
        LineEffect { version, forwarded: false, note: None, hint: None }
    }
}

/// The log lines after ssh exited before the forward came up: how far it
/// got, and advice for that step.
pub fn exit_progress(progress: &Progress, en: bool) -> (r: (String, Option<String>))
    ensures
        r.0@ == (if en {
            "Progress before it ended: "@ + describe_spec(progress@, en)
        } else {
            "断开前的进度："@ + describe_spec(progress@, en)
        }),
        opt_view(r.1) == hint_spec(progress@, en),
{
    let step = progress.describe(en);
    let line = if en {
        cat("Progress before it ended: ", step.as_str())
    } else {
        cat("断开前的进度：", step.as_str())
    };
    (line, progress.hint(en))
}

/// "ssh exited (code=…)".
pub fn exit_line(code: &str, en: bool) -> (r: String)
    ensures
        r@ == (if en {
            "ssh exited (code="@ + code@ + ")"@
        } else {
            "ssh 进程退出 (code="@ + code@ + ")"@
        }),
{
    tr1(en, "ssh 进程退出 (code=", ")", "ssh exited (code=", ")", code)
}

/// The tunnel's local port is taken by something else.
pub fn port_busy_line(port: u16, en: bool) -> (r: String)
    ensures
        r@ == (if en {
            "Local port "@ + dec(port as nat) + " is already in use (maybe a leftover ssh process or another program)"@
        } else {
            "本地端口 "@ + dec(port as nat) + " 已被占用（可能是残留的 ssh 进程或其他程序）"@
        }),
{
    let p = dec_string(port as u64);
    tr1(
        en,
        "本地端口 ",
        " 已被占用（可能是残留的 ssh 进程或其他程序）",
        "Local port ",
        " is already in use (maybe a leftover ssh process or another program)",
        p.as_str(),
    )
}

/// A remote forward whose local service is not running yet.
pub fn no_local_service_line(port: u16, en: bool) -> (r: String)
    ensures
        r@ == (if en {
            "Note: nothing is listening on local 127.0.0.1:"@ + dec(port as nat) + " right now"@
        } else {
            "注意：本机 127.0.0.1:"@ + dec(port as nat) + " 目前没有服务在监听"@
        }),
{
    let p = dec_string(port as u64);
    tr1(
        en,
        "注意：本机 127.0.0.1:",
        " 目前没有服务在监听",
        "Note: nothing is listening on local 127.0.0.1:",
        " right now",
        p.as_str(),
    )
}

/// ssh could not be started; `error` is the system's reason.
pub fn spawn_failed_line(error: &str, en: bool) -> (r: String)
    ensures
        r@ == (if en {
            "Could not start ssh. Make sure the OpenSSH client is installed ("@ + error@ + ")"@
        } else {
            "无法启动 ssh：请确认系统已安装 OpenSSH 客户端（"@ + error@ + "）"@
        }),
{
    tr1(
        en,
        "无法启动 ssh：请确认系统已安装 OpenSSH 客户端（",
        "）",
        "Could not start ssh. Make sure the OpenSSH client is installed (",
        ")",
        error,
    )
}

/// The forward is up.
pub fn ready_line(t: &Tunnel, en: bool) -> (r: String)
    ensures
        r@ == (if en { "Ready: "@ } else { "已就绪："@ }) + describe_tunnel_spec(*t, en),
{
    let d = describe(t, en);
    cat(if en { "Ready: " } else { "已就绪：" }, d.as_str())
}

/// Words joined by single spaces.
pub open spec fn join_spaces(words: Seq<Seq<char>>) -> Seq<char>
    decreases words.len(),
{
    if words.len() == 0 {
        seq![]
    } else if words.len() == 1 {
        words[0]
    } else {
        join_spaces(words.drop_last()) + seq![' '] + words.last()
    }
}

/// The command line as logged: `$ ssh arg arg …`.
pub fn command_line(args: &Vec<String>) -> (r: String)
    ensures
        r@ == "$ ssh "@ + join_spaces(args.deep_view()),
{
    let mut r = "$ ssh ".to_owned();
    let mut i: usize = 0;
    while i < args.len()
        invariant
            i <= args@.len(),
            r@ == "$ ssh "@ + join_spaces(args.deep_view().take(i as int)),
        decreases args.len() - i,
    {
        let ghost before = args.deep_view().take(i as int);
        if i > 0 {
            crate::text::push_char(&mut r, ' ');
        }
        r.append(args[i].as_str());
        proof {
            let after = args.deep_view().take(i + 1);
            assert(after.drop_last() == before);
            assert(after.last() == args@[i as int]@);
            if i == 0 {
                assert(before.len() == 0);
                assert(join_spaces(after) == after[0]);
            }
        }
        i += 1;
    }
    assert(args.deep_view().take(args@.len() as int) == args.deep_view());
    r
}

/// Which probe a connected tunnel gets.
#[derive(Debug)]
pub enum ProbePlan {
    /// Through the SOCKS proxy on `port` to `url`.
    Socks { port: u16, url: String },
    /// Check that connections to the local `port` stay open; `target` names
    /// what the server forwards to.
    Local { port: u16, target: String },
    /// Check the local service on `local_port`, then `host:remote_port`.
    Remote { local_port: u16, host: String, remote_port: u16 },
}

/// The probe for tunnel `t`; `public_host` is the resolved server address
/// of a remote forward, if known (else the host alias is used).
pub fn probe_plan(t: &Tunnel, public_host: Option<&str>) -> (r: ProbePlan)
    ensures
        t.kind == TunnelKind::Socks ==> (r matches ProbePlan::Socks { port, url } && port == t.port
            && url@ == t.probe_url@),
        t.kind == TunnelKind::Local ==> (r matches ProbePlan::Local { port, target } && port
            == t.port && target@ == host_for_url_spec(t.target_host@) + ":"@ + dec(
            t.remote_port as nat,
        )),
        t.kind == TunnelKind::Remote ==> (r matches ProbePlan::Remote {
            local_port,
            host,
            remote_port,
        } && local_port == t.port && remote_port == t.remote_port && host@ == (match public_host {
            Some(h) => h@,
            None => t.host@,
        })),
{
    match t.kind {
        TunnelKind::Socks => ProbePlan::Socks { port: t.port, url: t.probe_url.clone() },
        TunnelKind::Local => {
            let h = host_for_url(t.target_host.as_str());
            let p = dec_string(t.remote_port as u64);
            let mut target = cat(h.as_str(), ":");
            target.append(p.as_str());
            ProbePlan::Local { port: t.port, target }
        },
        TunnelKind::Remote => {
            let host = match public_host {
                Some(h) => h.to_owned(),
                None => t.host.clone(),
            };
            ProbePlan::Remote { local_port: t.port, host, remote_port: t.remote_port }
        },
    }
}

/// The log line for a probe whose up/down status changed; `latency` is
/// the round trip already written in whole milliseconds.
pub fn probe_line(ok: bool, latency: Option<&str>, message: &str, en: bool) -> (r: String)
    ensures
        ok && latency is Some ==> r@ == (if en {
            "Probe: up ("@ + latency.unwrap()@ + "ms)"@
        } else {
            "探测：通（"@ + latency.unwrap()@ + "ms）"@
        }),
        ok && latency is None ==> r@ == (if en { "Probe: up"@ } else { "探测：通"@ }),
        !ok ==> r@ == (if en { "Probe failed: "@ + message@ } else { "探测失败："@ + message@ }),
{
    if ok {
        match latency {
            Some(ms) => tr1(en, "探测：通（", "ms）", "Probe: up (", "ms)", ms),
            None => tr(en, "探测：通", "Probe: up"),
        }
    } else if en {
        cat("Probe failed: ", message)
    } else {
        cat("探测失败：", message)
    }
}

} // verus!
