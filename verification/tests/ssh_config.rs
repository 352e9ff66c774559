use ssh2socks::ssh_config::{config_lines, hosts_from_entries, wildcard_match};

#[test]
fn wildcard() {
    assert!(wildcard_match("*.conf", "a.conf"));
    assert!(wildcard_match("h?st", "host"));
    assert!(!wildcard_match("*.conf", "a.txt"));
}

/// The same config as the directory test of the app, with the included
/// file's entries spliced in where the `Include` line stood.
#[test]
fn lists_concrete_hosts_once_in_order() {
    let main = "Include config.d/*.conf\n\
                Host *\n  ServerAliveInterval 30\n\
                Host web web-alias\n  HostName=10.0.0.5\n\
                Host bastion !skip\n  User root\n\
                Match host foo\n  HostName ignored\n\
                Host web\n  HostName other\n";
    let included = "Host Alpha\n    Hostname alpha.example.com\n";
    let mut entries: Vec<(String, String)> = Vec::new();
    for (k, v) in config_lines(main) {
        if k == "include" {
            entries.extend(config_lines(included));
        } else {
            entries.push((k, v));
        }
    }
    let hosts = hosts_from_entries(&entries);
    let got: Vec<(&str, &str)> = hosts
        .iter()
        .map(|h| (h.alias.as_str(), h.hostname.as_str()))
        .collect();
    assert_eq!(
        got,
        vec![
            ("Alpha", "alpha.example.com"),
            ("bastion", "bastion"),
            ("web", "10.0.0.5"),
            ("web-alias", "10.0.0.5"),
        ]
    );
}
