use ssh2socks::probe::{
    after_connect, exchange_error, host_for_url, local_not_listening, no_local_service, parse_url, proxy_unreachable,
    remote_unreachable, server_cannot_reach, up_message, AfterConnect, Target,
};

#[test]
fn parses_urls() {
    let t = parse_url("http://www.gstatic.com/generate_204").unwrap();
    assert_eq!(
        t,
        Target {
            https: false,
            host: "www.gstatic.com".into(),
            port: 80,
            path: "/generate_204".into()
        }
    );
    let t = parse_url("https://example.com:8443?q=1#frag").unwrap();
    assert_eq!((t.https, t.port, t.path.as_str()), (true, 8443, "/?q=1"));
    let t = parse_url("baidu.com").unwrap();
    assert_eq!((t.https, t.host.as_str(), t.port), (false, "baidu.com", 80));
    let t = parse_url("http://[::1]:8080/x").unwrap();
    assert_eq!((t.host.as_str(), t.port), ("::1", 8080));
    assert!(parse_url("ftp://x").is_none());
    assert!(parse_url("http://").is_none());
}

#[test]
fn brackets_ipv6() {
    assert_eq!(host_for_url("::1"), "[::1]");
    assert_eq!(host_for_url("example.com"), "example.com");
}

#[test]
fn probe_messages() {
    assert_eq!(up_message(false), "通");
    assert_eq!(exchange_error(true, "early eof", true), "The proxy closed the connection");
    assert_eq!(exchange_error(false, "reset", true), "reset");
    assert_eq!(proxy_unreachable("refused", false), "无法连接本地代理：refused");
    assert_eq!(local_not_listening(1080, false), "本地端口 1080 未监听");
    assert_eq!(server_cannot_reach("10.0.0.5:80", true), "The server can't reach 10.0.0.5:80");
    assert_eq!(no_local_service(3000, true), "No service is running on local port 3000");
    assert_eq!(
        remote_unreachable("::1", 8080, true),
        "[::1]:8080 is not reachable from this machine (check the server firewall / sshd GatewayPorts)"
    );
    assert_eq!(
        remote_unreachable("example.com", 8080, false),
        "本机访问不到 example.com:8080（检查服务器防火墙 / sshd 的 GatewayPorts）"
    );
}

#[test]
fn https_probes_are_up_once_connected() {
    let https = parse_url("https://example.com/x").unwrap();
    assert!(matches!(after_connect(&https), AfterConnect::Up));
    let http = parse_url("http://example.com/x").unwrap();
    match after_connect(&http) {
        AfterConnect::Send(req) => assert_eq!(
            req,
            "GET /x HTTP/1.1\r\nHost: example.com\r\nUser-Agent: ssh2socks\r\nConnection: close\r\nAccept: */*\r\n\r\n"
        ),
        AfterConnect::Up => panic!("an http probe sends a request"),
    }
}
