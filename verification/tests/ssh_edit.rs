use ssh2socks::ssh_edit::{
    apply, delete_block, doc_items, quote_if_needed, save_block, unquote, validate, Doc, DocItem,
    HostBlock, HostInput,
};

const CONFIG: &str = "# my config\r\n\
Include conf.d/*\r\n\
\r\n\
Host web\r\n\
\x20 # production box\r\n\
\x20 HostName 10.0.0.5\r\n\
\x20 User root\r\n\
\x20 ServerAliveInterval 30\r\n\
\r\n\
Host *\r\n\
\x20 AddKeysToAgent yes\r\n";

fn input(patterns: &str) -> HostInput {
    HostInput {
        patterns: patterns.into(),
        ..Default::default()
    }
}

fn blocks(doc: &Doc) -> Vec<HostBlock> {
    doc_items(doc, "config")
        .into_iter()
        .filter_map(|it| match it {
            DocItem::Block(b) => Some(b),
            DocItem::Include(_) => None,
        })
        .collect()
}

#[test]
fn parse_and_render_keep_the_text() {
    let doc = Doc::parse(CONFIG);
    assert!(doc.crlf);
    assert_eq!(doc.lines.len(), 11);
    assert_eq!(doc.render(), CONFIG);
    let lf = Doc::parse("Host a\n  User b");
    assert!(!lf.crlf);
    assert!(!lf.final_eol);
    assert_eq!(lf.render(), "Host a\n  User b");
    assert_eq!(Doc::parse("").render(), "");
    assert_eq!(Doc::parse("\n").render(), "\n");
    assert_eq!(Doc::parse("\r\n\n").render(), "\r\n\n");
}

#[test]
fn mixed_line_endings_are_kept() {
    let text = "a\nb\r\n";
    let doc = Doc::parse(text);
    assert_eq!(doc.lines, vec!["a".to_string(), "b".to_string()]);
    assert_eq!(doc.ends, vec![false, true]);
    assert!(doc.crlf);
    assert_eq!(doc.render(), text);
    let text = "# top\nHost web\r\n  User root\r\n# tail\nHost *\n  Port 22";
    let mut doc = Doc::parse(text);
    let mut input = input("web");
    input.user = "admin".to_string();
    input.file = Some("config".to_string());
    input.line = Some(1);
    input.original_patterns = Some("web".to_string());
    save_block(&mut doc, "config", &input, &vec![]).unwrap();
    assert_eq!(
        doc.render(),
        "# top\nHost web\r\n  User admin\r\n# tail\nHost *\n  Port 22"
    );
}

#[test]
fn items_come_in_reading_order() {
    let doc = Doc::parse(CONFIG);
    let items = doc_items(&doc, "config");
    assert_eq!(items.len(), 3);
    match &items[0] {
        DocItem::Include(ps) => assert_eq!(ps, &vec!["conf.d/*".to_string()]),
        _ => panic!("include first"),
    }
    let bs = blocks(&doc);
    assert_eq!(bs[0].patterns, "web");
    assert_eq!(bs[0].line, 3);
    assert_eq!(bs[0].hostname, "10.0.0.5");
    assert_eq!(bs[0].user, "root");
    assert_eq!(bs[0].others, ["ServerAliveInterval 30"]);
    assert_eq!(bs[1].patterns, "*");
    assert_eq!(bs[1].others, ["AddKeysToAgent yes"]);
}

#[test]
fn reads_equals_signs_and_first_values() {
    let doc = Doc::parse(
        "Host jump\n  HostName=j.example.com\n  ProxyCommand ssh -W %h:%p gw\n  HostName other\n",
    );
    let bs = blocks(&doc);
    assert_eq!(bs[0].hostname, "j.example.com");
    assert_eq!(bs[0].proxy_command, "ssh -W %h:%p gw");
    assert_eq!(bs[0].others, ["HostName other"]);
}

#[test]
fn edit_touches_only_managed_lines_of_the_text() {
    let mut doc = Doc::parse(CONFIG);
    let edit = HostInput {
        file: Some("config".into()),
        line: Some(3),
        original_patterns: Some("web".into()),
        patterns: "web prod".into(),
        hostname: "10.0.0.5".into(),
        user: String::new(),
        port: "2222".into(),
        identity_file: "~/.ssh/my key".into(),
        proxy_command: "nc -X 5 -x 127.0.0.1:1080 %h %p".into(),
        ..Default::default()
    };
    let saved = save_block(&mut doc, "config", &edit, &vec![]).unwrap();
    assert_eq!(saved.port, "2222");
    assert_eq!(saved.identity_file, "~/.ssh/my key");
    assert_eq!(saved.patterns, "web prod");
    assert_eq!(
        doc.render(),
        "# my config\r\n\
Include conf.d/*\r\n\
\r\n\
Host web prod\r\n\
\x20 # production box\r\n\
\x20 HostName 10.0.0.5\r\n\
\x20 ServerAliveInterval 30\r\n\
\x20 Port 2222\r\n\
\x20 IdentityFile \"~/.ssh/my key\"\r\n\
\x20 ProxyCommand nc -X 5 -x 127.0.0.1:1080 %h %p\r\n\
\r\n\
Host *\r\n\
\x20 AddKeysToAgent yes\r\n"
    );
    // Stale identity is rejected instead of editing the wrong block.
    let before = doc.render();
    assert!(save_block(&mut doc, "config", &edit, &vec![])
        .unwrap_err()
        .contains("刷新"));
    assert_eq!(doc.render(), before);
}

#[test]
fn add_goes_before_catch_all_and_rejects_duplicates() {
    let mut doc = Doc::parse(CONFIG);
    let listed = blocks(&doc);
    let new = HostInput {
        hostname: "192.168.1.9".into(),
        proxy_jump: "web".into(),
        ..input("nas")
    };
    let saved = save_block(&mut doc, "config", &new, &listed).unwrap();
    assert_eq!((saved.line, saved.proxy_jump.as_str()), (9, "web"));
    let text = doc.render();
    assert!(text.contains(
        "  ServerAliveInterval 30\r\n\r\nHost nas\r\n  HostName 192.168.1.9\r\n  ProxyJump web\r\n\r\nHost *\r\n"
    ), "{text}");
    let listed = blocks(&doc);
    assert!(save_block(&mut doc, "config", &input("web"), &listed)
        .unwrap_err()
        .contains("已存在"));
    let both = HostInput {
        proxy_jump: "a".into(),
        proxy_command: "b".into(),
        ..input("x")
    };
    assert!(save_block(&mut doc, "config", &both, &listed).is_err());
}

#[test]
fn add_to_empty_file_and_delete() {
    let mut doc = Doc::parse("");
    save_block(
        &mut doc,
        "config",
        &HostInput {
            hostname: "a.example".into(),
            ..input("a")
        },
        &vec![],
    )
    .unwrap();
    save_block(
        &mut doc,
        "config",
        &HostInput {
            user: "me".into(),
            ..input("b")
        },
        &vec![],
    )
    .unwrap();
    assert_eq!(
        doc.render(),
        "Host a\n    HostName a.example\n\nHost b\n    User me\n"
    );
    delete_block(&mut doc, 0, "a").unwrap();
    assert_eq!(doc.render(), "Host b\n    User me\n");
    assert!(delete_block(&mut doc, 0, "a").is_err());
}

#[test]
fn validation_errors() {
    assert_eq!(validate(&input("  ")).unwrap_err(), "请填写别名（Host）。");
    assert_eq!(
        validate(&HostInput {
            user: "a\nb".into(),
            ..input("x")
        })
        .unwrap_err(),
        "字段中不能包含换行。"
    );
    for port in ["0", "65536", "x", "-1"] {
        assert_eq!(
            validate(&HostInput {
                port: port.into(),
                ..input("x")
            })
            .unwrap_err(),
            "端口必须在 1–65535 之间。"
        );
    }
    assert!(validate(&HostInput {
        port: " 22 ".into(),
        ..input("x")
    })
    .is_ok());
    assert_eq!(
        validate(&HostInput {
            proxy_jump: "j".into(),
            proxy_command: "c".into(),
            ..input("x")
        })
        .unwrap_err(),
        "ProxyJump 和 ProxyCommand 只能选一个。"
    );
}

#[test]
fn quoting() {
    assert_eq!(quote_if_needed("IdentityFile", "~/my key"), "\"~/my key\"");
    assert_eq!(quote_if_needed("IdentityFile", "~/key"), "~/key");
    assert_eq!(quote_if_needed("ProxyCommand", "nc %h %p"), "nc %h %p");
    assert_eq!(unquote(" \"a b\" "), "a b");
    assert_eq!(unquote("\"a"), "\"a");
}

#[test]
fn apply_changes_only_the_first_line_of_each_option() {
    let mut body: Vec<String> = vec![
        "  HostName old.example".into(),
        "  # note".into(),
        "  HostName second.example".into(),
        "  User \"root\"".into(),
        "  Compression yes".into(),
        "  Port 22".into(),
        "  Port 2200".into(),
    ];
    let form = HostInput {
        patterns: "web".into(),
        hostname: "new.example".into(),
        user: " root ".into(),
        port: "".into(),
        identity_file: "~/.ssh/my key".into(),
        ..Default::default()
    };
    apply(&mut body, &form, "  ");
    assert_eq!(
        body,
        vec![
            "  HostName new.example".to_string(),
            "  # note".to_string(),
            "  HostName second.example".to_string(),
            "  User \"root\"".to_string(),
            "  Compression yes".to_string(),
            "  Port 2200".to_string(),
            "  IdentityFile \"~/.ssh/my key\"".to_string(),
        ]
    );
}
