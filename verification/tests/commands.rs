use ssh2socks::commands::{
    key_base_name, language_choice, leftovers_line, login_test_args, test_result, theme_of,
    tray_labels, tray_tooltip, tunnel_from_input, LoginRun, Theme, TunnelInput,
};
use ssh2socks::keygen::{comment_of, short_hostname};
use ssh2socks::models::{Prefs, TunnelKind, DEFAULT_PROBE_URL};

fn form() -> TunnelInput {
    TunnelInput {
        id: None,
        name: "  web  ".into(),
        host: " myhost ".into(),
        kind: TunnelKind::Local,
        port: 8080,
        remote_port: 80,
        target_host: " [::1] ".into(),
        probe_url: "  ".into(),
        auto_reconnect: true,
    }
}

#[test]
fn the_form_becomes_a_tunnel() {
    let t = tunnel_from_input(form(), false).unwrap();
    assert_eq!(t.name, "web");
    assert_eq!(t.host, "myhost");
    assert_eq!(t.target_host, "::1");
    assert_eq!(t.probe_url, DEFAULT_PROBE_URL);
    assert_eq!((t.port, t.remote_port, t.kind), (8080, 80, TunnelKind::Local));
    assert_eq!(t.id.len(), 32);
    assert_eq!(t.id.as_bytes()[12], b'4');

    let edit = TunnelInput { id: Some("abc".into()), target_host: String::new(), ..form() };
    let t = tunnel_from_input(edit, false).unwrap();
    assert_eq!(t.id, "abc");
    assert_eq!(t.target_host, "127.0.0.1");
}

#[test]
fn the_form_is_checked_in_order() {
    let no_host = TunnelInput { host: " ".into(), name: String::new(), ..form() };
    assert_eq!(tunnel_from_input(no_host, false).unwrap_err(), "请从列表中选择一个 ssh 连接。");
    let no_name = TunnelInput { name: "\t".into(), ..form() };
    assert_eq!(tunnel_from_input(no_name, true).unwrap_err(), "Enter a tunnel name.");
    let no_port = TunnelInput { remote_port: 0, ..form() };
    assert_eq!(tunnel_from_input(no_port, false).unwrap_err(), "端口必须在 1–65535 之间。");
    let socks = TunnelInput { kind: TunnelKind::Socks, remote_port: 0, ..form() };
    assert!(tunnel_from_input(socks, false).is_ok());
    let zero = TunnelInput { kind: TunnelKind::Socks, port: 0, ..form() };
    assert_eq!(tunnel_from_input(zero, true).unwrap_err(), "Ports must be between 1 and 65535.");
    let spaced = TunnelInput { target_host: "10.0.0.1 x".into(), ..form() };
    assert_eq!(tunnel_from_input(spaced, true).unwrap_err(), "The target address is not valid.");
}

#[test]
fn login_test_verdicts() {
    assert_eq!(login_test_args("web")[7], "web");
    assert_eq!(login_test_args("web").len(), 9);
    let r = test_result(LoginRun::Finished { success: true, stderr: " \n".into() }, false);
    assert!(r.ok);
    assert_eq!(r.output, "登录成功");
    let r = test_result(
        LoginRun::Finished { success: false, stderr: "Permission denied (publickey).\n".into() },
        true,
    );
    assert!(!r.ok);
    assert_eq!(r.output, "Permission denied (publickey).");
    let r = test_result(LoginRun::NotStarted("No such file".into()), true);
    assert_eq!((r.ok, r.output.as_str()), (false, "Could not start ssh: No such file"));
    let r = test_result(LoginRun::TimedOut, false);
    assert!(!r.ok && r.output.starts_with("30 秒内没有完成登录"));
}

#[test]
fn tray_and_launch_texts() {
    assert_eq!(tray_tooltip(1, 3, true), "ssh2socks — 1/3 connected");
    assert_eq!(tray_tooltip(0, 2, false), "ssh2socks — 0/2 已连接");
    assert_eq!(tray_labels(true), vec!["Show window", "Start all", "Stop all", "Quit"]);
    assert_eq!(tray_labels(false)[3], "退出");
    assert_eq!(leftovers_line(2), "ssh2socks: stopped 2 ssh process(es) left by an earlier run");
}

#[test]
fn preferences_and_defaults() {
    assert_eq!(theme_of("light"), Theme::Light);
    assert_eq!(theme_of("dark"), Theme::Dark);
    assert_eq!(theme_of("system"), Theme::System);
    let p = |lang: &str| Prefs { lang: lang.into(), theme: String::new() };
    assert_eq!(language_choice(&p("")), None);
    assert_eq!(language_choice(&p("en")), Some(true));
    assert_eq!(language_choice(&p("zh")), Some(false));
    assert_eq!(key_base_name("rsa"), "id_rsa");
    assert_eq!(key_base_name("ed25519"), "id_ed25519");
}

#[test]
fn default_key_comment() {
    let mut buf = [0u8; 16];
    buf[..12].copy_from_slice(b"box.lan.home");
    assert_eq!(short_hostname(&buf).as_deref(), Some("box"));
    assert_eq!(short_hostname(&[0u8; 4]), None);
    assert_eq!(short_hostname(b".hidden"), None);
    assert_eq!(comment_of("me", Some("box".into())), "me@box");
    assert_eq!(comment_of("", Some("box".into())), "");
    assert_eq!(comment_of("me", None), "me");
}
