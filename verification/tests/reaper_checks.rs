use ssh2socks::reaper::{
    boot_from, may_signal, owner_running, same_boot, signal_pid, start_micros, track, untrack,
    Proc, Record,
};

fn p(pid: u32, start: u64, name: &str) -> Proc {
    Proc { pid, start, name: name.into() }
}

#[test]
fn track_and_untrack() {
    let mut rec = Record::new("boot".into(), p(10, 1, "app"));
    track(&mut rec, p(20, 5, "ssh"));
    track(&mut rec, p(21, 6, "ssh"));
    track(&mut rec, p(20, 7, "ssh"));
    untrack(&mut rec, 20);
    let pids: Vec<u32> = rec.procs.iter().map(|x| x.pid).collect();
    assert_eq!(pids, [21]);
    untrack(&mut rec, 99);
    assert_eq!(rec.procs.len(), 1);
}

#[test]
fn only_the_recorded_process_is_signalled() {
    let rec_p = p(4242, 100, "ssh");
    assert!(may_signal(&rec_p, &Some(p(4242, 100, "ssh"))));
    assert!(!may_signal(&rec_p, &Some(p(4242, 101, "ssh"))));
    assert!(!may_signal(&rec_p, &Some(p(4242, 100, "bash"))));
    assert!(!may_signal(&rec_p, &None));
    for bad in [0u32, 1, u32::MAX] {
        let q = p(bad, 100, "ssh");
        assert!(!may_signal(&q, &Some(p(bad, 100, "ssh"))));
        assert_eq!(signal_pid(&q), None);
    }
    assert_eq!(signal_pid(&rec_p), Some(4242));
}

#[test]
fn boots_and_owners() {
    let rec = Record::new("b1".into(), p(10, 1, "app"));
    assert!(same_boot(&rec, &Some("b1".into())));
    assert!(!same_boot(&rec, &Some("other-boot".into())));
    assert!(!same_boot(&rec, &None));
    let no_boot = Record { boot: String::new(), owner: None, procs: vec![] };
    assert!(!same_boot(&no_boot, &Some(String::new())));
    assert!(owner_running(&rec, &Some(p(10, 1, "app"))));
    assert!(!owner_running(&rec, &Some(p(10, 2, "app"))));
    assert!(!owner_running(&no_boot, &Some(p(10, 1, "app"))));
    assert_eq!(boot_from(" abc\n"), Some("abc".to_string()));
    assert_eq!(boot_from(" \n"), None);
    assert_eq!(start_micros(2, 5), Some(2_000_005));
    assert_eq!(start_micros(u64::MAX, 0), None);
}
