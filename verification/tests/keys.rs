use ssh2socks::keys::{
    key_from_text, key_name, list_keys_from, parse_public_key, sort_keys, KeyFile, KeyInfo,
};

// Key and fingerprint produced by `ssh-keygen -t ed25519` / `ssh-keygen -lf`.
const PUB: &str = "ssh-ed25519 AAAAC3NzaC1lZDI1NTE5AAAAIOnEdk8yg/848TtCuX/KaPSMy7jtL7wG7Ha1qJE5bl9N cobraliu@ssh2socks-x";
const FINGERPRINT: &str = "SHA256:JLUN9fwuse2QiSqFg+D8EZuRbl04QdgoVwG21+dJd+U";

#[test]
fn reads_a_public_key_with_its_fingerprint() {
    let k = parse_public_key(&format!("  {PUB}  ")).unwrap();
    assert_eq!(k.kind, "ssh-ed25519");
    assert_eq!(k.comment, "cobraliu@ssh2socks-x");
    assert_eq!(k.public_key, PUB);
    assert_eq!(k.fingerprint, FINGERPRINT);
    assert!(parse_public_key("not a key").is_none());
    assert!(parse_public_key("ssh-ed25519").is_none());
    let bare = parse_public_key("ssh-ed25519 AAAAC3NzaC1lZDI1NTE5AAAAIOnEdk8yg/848TtCuX/KaPSMy7jtL7wG7Ha1qJE5bl9N").unwrap();
    assert_eq!(bare.comment, "");
}

#[test]
fn key_files_and_identity() {
    assert_eq!(key_name("work.pub"), Some("work".to_string()));
    assert_eq!(key_name("config"), None);
    let work = key_from_text("work", &format!("\n{PUB}\n"), true).unwrap();
    assert_eq!(work.name, "work");
    assert_eq!(work.identity_file.as_deref(), Some("~/.ssh/work"));
    let orphan = key_from_text("orphan", &format!("{PUB}\n"), false).unwrap();
    assert_eq!(orphan.identity_file, None);
    assert!(key_from_text("broken", "not a key", false).is_none());
}

fn named(name: &str) -> KeyInfo {
    KeyInfo {
        name: name.into(),
        identity_file: None,
        kind: String::new(),
        fingerprint: String::new(),
        comment: String::new(),
        public_key: String::new(),
    }
}

#[test]
fn keys_sort_by_lowercased_name() {
    let sorted = sort_keys(vec![named("work"), named("Alpha"), named("orphan"), named("alpha")]);
    let names: Vec<&str> = sorted.iter().map(|k| k.name.as_str()).collect();
    assert_eq!(names, ["Alpha", "alpha", "orphan", "work"]);
}

#[test]
fn lists_the_keys_of_a_directory_sorted() {
    let line = |c: &str| format!("{PUB} {c}\n");
    let files = vec![
        KeyFile { file_name: "work.pub".into(), text: line("w"), private_exists: true },
        KeyFile { file_name: "Alpha.pub".into(), text: line("a"), private_exists: false },
        KeyFile { file_name: "notes.txt".into(), text: line("n"), private_exists: true },
        KeyFile { file_name: "broken.pub".into(), text: "nonsense".into(), private_exists: true },
    ];
    let keys = list_keys_from(&files);
    let names: Vec<&str> = keys.iter().map(|k| k.name.as_str()).collect();
    assert_eq!(names, ["Alpha", "work"]);
    assert_eq!(keys[0].identity_file, None);
    assert_eq!(keys[1].identity_file.as_deref(), Some("~/.ssh/work"));
    assert_eq!(keys[1].fingerprint, FINGERPRINT);
}
