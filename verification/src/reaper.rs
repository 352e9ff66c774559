//! Deciding which ssh processes left running by an earlier instance of the
//! app may be stopped.
//!
//! Every ssh we start is recorded, with its start time and name, in a
//! record named after this app instance. On the next launch the records of
//! instances that are no longer running are replayed, and an ssh is sent
//! SIGTERM only when a process with the same pid, the same start time and
//! the same name is still running in the same boot, i.e. it is provably the
//! process we started. Anything that fails a check, or that cannot be
//! checked, is left alone: missing a leftover is acceptable, signalling
//! someone else's process is not. This module holds the records and the
//! checks; reading the process table and sending signals is the caller's.

use vstd::prelude::*;

use crate::text::{
    chars_of, find_seq, parse_uint, parse_uint_range, rfind_seq, rsplit_once, split_once,
    split_ws, str_eq, string_of_range, trim, trim_str, words, copy_string, lemma_find_from_bounds,
    lemma_rfind_bounds, rfind, find_from,
};

verus! {

/// What identifies one process: a pid alone can be reused, but not together
/// with the exact moment the process started.
#[derive(Debug)]
pub struct Proc {
    pub pid: u32,
    pub start: u64,
    pub name: String,
}

pub struct ProcV {
    pub pid: u32,
    pub start: u64,
    pub name: Seq<char>,
}

impl View for Proc {
    type V = ProcV;

    open spec fn view(&self) -> ProcV {
        ProcV { pid: self.pid, start: self.start, name: self.name@ }
    }
}

impl Clone for Proc {
    fn clone(&self) -> (r: Self)
        ensures
            r@ == self@,
    {
        Proc { pid: self.pid, start: self.start, name: self.name.clone() }
    }
}

/// Whether two identities are the same process.
pub fn same_proc(a: &Proc, b: &Proc) -> (r: bool)
    ensures
        r == (a@ == b@),
{
    a.pid == b.pid && a.start == b.start && str_eq(a.name.as_str(), b.name.as_str())
}

pub open spec fn opt_str(o: Option<String>) -> Option<Seq<char>> {
    match o {
        Some(s) => Some(s@),
        None => None,
    }
}

pub open spec fn opt_proc(o: Option<Proc>) -> Option<ProcV> {
    match o {
        Some(p) => Some(p@),
        None => None,
    }
}

/// The ssh processes one app instance started.
pub struct Record {
    /// Start times are only comparable within one boot.
    pub boot: String,
    /// The app instance that started `procs`.
    pub owner: Option<Proc>,
    pub procs: Vec<Proc>,
}

impl Record {
    /// The recorded processes.
    pub open spec fn procs_view(&self) -> Seq<ProcV> {
        self.procs@.map_values(|p: Proc| p@)
    }

    /// A record for the instance `owner` in boot `boot`, with no process yet.
    pub fn new(boot: String, owner: Proc) -> (r: Record)
        ensures
            r.boot@ == boot@,
            opt_proc(r.owner) == Some(owner@),
            r.procs_view() == Seq::<ProcV>::empty(),
    {
        let r = Record { boot, owner: Some(owner), procs: Vec::new() };
        assert(r.procs_view() =~= Seq::<ProcV>::empty());
        r
    }
}

/// The record with `p` added after the others.
pub open spec fn track_spec(procs: Seq<ProcV>, p: ProcV) -> Seq<ProcV> {
    procs.push(p)
}

/// The record without any process of pid `pid`, the others in order.
pub open spec fn untrack_spec(procs: Seq<ProcV>, pid: u32) -> Seq<ProcV> {
    procs.filter(|p: ProcV| p.pid != pid)
}

/// Record a freshly started ssh.
pub fn track(rec: &mut Record, p: Proc)
    ensures
        final(rec).procs_view() == track_spec(old(rec).procs_view(), p@),
        final(rec).boot == old(rec).boot,
        final(rec).owner == old(rec).owner,
{
    let ghost before = rec.procs_view();
    let ghost pv = p@;
    rec.procs.push(p);
    assert(rec.procs_view() =~= before.push(pv));
}

/// Forget an ssh we have stopped or seen exit.
pub fn untrack(rec: &mut Record, pid: u32)
    ensures
        final(rec).procs_view() == untrack_spec(old(rec).procs_view(), pid),
        final(rec).boot == old(rec).boot,
        final(rec).owner == old(rec).owner,
{
    let ghost all = rec.procs_view();
    let mut kept: Vec<Proc> = Vec::new();
    let mut i: usize = 0;
    while i < rec.procs.len()
        invariant
            i <= rec.procs@.len(),
            all == rec.procs_view(),
            kept@.map_values(|p: Proc| p@) == untrack_spec(all.take(i as int), pid),
        decreases rec.procs.len() - i,
    {
        let ghost k0 = kept@.map_values(|p: Proc| p@);
        assert(all.take(i + 1).drop_last() =~= all.take(i as int));
        assert(all.take(i + 1).last() == all[i as int]);
        assert(untrack_spec(all.take(i + 1), pid) == if all[i as int].pid != pid {
            untrack_spec(all.take(i as int), pid).push(all[i as int])
        } else {
            untrack_spec(all.take(i as int), pid)
        }) by {
            reveal(Seq::filter);
        }
        if rec.procs[i].pid != pid {
            let c = rec.procs[i].clone();
            let ghost cv = c@;
            kept.push(c);
            assert(kept@.map_values(|p: Proc| p@) =~= k0.push(cv));
        }
        i += 1;
    }
    assert(all.take(rec.procs@.len() as int) == all);
    rec.procs = kept;
}

// ---- what the kernel reports -----------------------------------------------------------

/// The identity a Linux `/proc/<pid>/stat` line gives: the name in
/// parentheses (which may itself hold `)`), and the start time in clock
/// ticks since boot (field 22). A zombie (state `Z` or `X`) counts as gone.
pub open spec fn parse_stat_spec(pid: u32, stat: Seq<char>) -> Option<ProcV> {
    match rsplit_once(stat, seq![')']) {
        None => None,
        Some((head, rest)) => match split_once(head, seq!['(']) {
            None => None,
            Some((_, name)) => {
                let fields = words(rest);
                if fields.len() == 0 || fields[0] == seq!['Z'] || fields[0] == seq!['X'] {
                    None
                } else if fields.len() <= 19 {
                    None
                } else {
                    match parse_uint(fields[19], u64::MAX as nat) {
                        Some(start) => Some(ProcV { pid, start: start as u64, name }),
                        None => None,
                    }
                }
            },
        },
    }
}

/// Identity from a `/proc/<pid>/stat` line.
pub fn parse_stat(pid: u32, stat: &str) -> (r: Option<Proc>)
    ensures
        opt_proc(r) == parse_stat_spec(pid, stat@),
{
    let s = chars_of(stat);
    let close = vec![')'];
    let open = vec!['('];
    assert(close@ =~= seq![')']);
    assert(open@ =~= seq!['(']);
    let j = match rfind_seq(&s, &close) {
        Some(j) => j,
        None => {
            return None;
        },
    };
    proof {
        lemma_rfind_bounds(s@, seq![')'], s@.len() - 1);
        assert(crate::text::occ_at(s@, seq![')'], j as int));
    }
    assert(j < s.len());
    let head = string_of_range(&s, 0, j);
    let rest = string_of_range(&s, j + 1, s.len());
    assert(head@ == s@.take(j as int));
    assert(rest@ == s@.skip(j + 1));
    let h = chars_of(head.as_str());
    let i = match find_seq(&h, &open, 0) {
        Some(i) => i,
        None => {
            return None;
        },
    };
    proof {
        lemma_find_from_bounds(h@, seq!['('], 0);
    }
    let name = string_of_range(&h, i + 1, h.len());
    assert(name@ == h@.skip(i + 1));
    let rc = chars_of(rest.as_str());
    let fields = split_ws(&rc);
    if fields.len() == 0 {
        return None;
    }
    let f0 = chars_of(fields[0].as_str());
    if f0.len() == 1 && (f0[0] == 'Z' || f0[0] == 'X') {
        assert(f0@ =~= seq![f0@[0]]);
        return None;
    }
    assert(fields.deep_view()[0] != seq!['Z']) by {
        if fields.deep_view()[0] == seq!['Z'] {
            assert(f0@[0] == 'Z');
        }
    }
    assert(fields.deep_view()[0] != seq!['X']) by {
        if fields.deep_view()[0] == seq!['X'] {
            assert(f0@[0] == 'X');
        }
    }
    if fields.len() <= 19 {
        return None;
    }
    let f = chars_of(fields[19].as_str());
    assert(f@.subrange(0, f@.len() as int) == f@);
    match parse_uint_range(&f, 0, f.len(), u64::MAX) {
        Some(start) => Some(Proc { pid, start, name }),
        None => None,
    }
}

/// A macOS start time, `sec` seconds and `usec` microseconds after the
/// epoch, in microseconds; `None` where it does not fit.
pub fn start_micros(sec: u64, usec: u64) -> (r: Option<u64>)
    ensures
        r matches Some(v) ==> v == sec * 1_000_000 + usec,
        r is None <==> sec * 1_000_000 + usec > u64::MAX,
{
    match sec.checked_mul(1_000_000) {
        Some(m) => m.checked_add(usec),
        None => {
            assert(sec * 1_000_000 + usec > u64::MAX) by (nonlinear_arith)
                requires
                    sec * 1_000_000 > u64::MAX,
            ;
            None
        },
    }
}

/// The boot id from `/proc/sys/kernel/random/boot_id`: its text trimmed,
/// if anything is left.
pub fn boot_from(id: &str) -> (r: Option<String>)
    ensures
        r matches Some(b) ==> b@ == trim(id@) && b@.len() > 0,
        r is None <==> trim(id@).len() == 0,
{
    let t = trim_str(id);
    if t.as_str().is_empty() {
        None
    } else {
        Some(t)
    }
}

// ---- the checks --------------------------------------------------------------------------

/// Whether the instance that wrote `rec` is still running: its owner is
/// recorded and `now`, what the process table says of the owner's pid, is
/// that very process.
pub fn owner_running(rec: &Record, now: &Option<Proc>) -> (r: bool)
    ensures
        r == (rec.owner is Some && opt_proc(*now) == opt_proc(rec.owner)),
{
    match (&rec.owner, now) {
        (Some(o), Some(n)) => same_proc(o, n),
        _ => false,
    }
}

/// Whether the processes of `rec` may be checked at all: it names a boot,
/// and that is the current one (`boot`, if known).
pub fn same_boot(rec: &Record, boot: &Option<String>) -> (r: bool)
    ensures
        r == (rec.boot@.len() > 0 && opt_str(*boot) == Some(rec.boot@)),
{
    if rec.boot.as_str().is_empty() {
        return false;
    }
    match boot {
        Some(b) => str_eq(b.as_str(), rec.boot.as_str()),
        None => false,
    }
}

/// What to do with a record file found at startup.
#[derive(Debug, PartialEq, Eq, Clone, Copy, Structural)]
pub enum ReapPlan {
    /// Its instance still runs: leave the file alone.
    Keep,
    /// Stale, from another boot (or none recorded): delete the file only.
    Forget,
    /// Stale, from this boot: end its processes that are still the ones
    /// recorded, then delete the file.
    Reap,
}

/// The decision for a record `rec`, given what the process table says of
/// its owner's pid (`owner_now`) and the current boot (`boot`).
pub fn reap_plan(rec: &Record, owner_now: &Option<Proc>, boot: &Option<String>) -> (r: ReapPlan)
    ensures
        r == (if rec.owner is Some && opt_proc(*owner_now) == opt_proc(rec.owner) {
            ReapPlan::Keep
        } else if rec.boot@.len() > 0 && opt_str(*boot) == Some(rec.boot@) {
            ReapPlan::Reap
        } else {
            ReapPlan::Forget
        }),
{
    if owner_running(rec, owner_now) {
        ReapPlan::Keep
    } else if same_boot(rec, boot) {
        ReapPlan::Reap
    } else {
        ReapPlan::Forget
    }
}

/// The pid to signal for `p`: never 0, 1 (init) or one that is no pid.
pub fn signal_pid(p: &Proc) -> (r: Option<i32>)
    ensures
        r matches Some(v) ==> v == p.pid && 1 < p.pid <= i32::MAX,
        r is None <==> !(1 < p.pid <= i32::MAX),
{
    if p.pid > 1 && p.pid <= 0x7fff_ffff {
        Some(p.pid as i32)
    } else {
        None
    }
}

/// Whether `p` may be signalled, `now` being what the process table says
/// of its pid at the moment of the check: only the very process recorded.
pub fn may_signal(p: &Proc, now: &Option<Proc>) -> (r: bool)
    ensures
        r == (1 < p.pid <= i32::MAX && opt_proc(*now) == Some(p@)),
{
    if !(p.pid > 1 && p.pid <= 0x7fff_ffff) {
        return false;
    }
    match now {
        Some(n) => same_proc(p, n),
        None => false,
    }
}


// ---- laws ----------------------------------------------------------------------------------

/// Forgetting a pid after recording a process with it leaves the record as
/// if that process had never been recorded (and forgets the pid there too).
pub proof fn lemma_untrack_undoes_track(procs: Seq<ProcV>, p: ProcV)
    ensures
        untrack_spec(track_spec(procs, p), p.pid) == untrack_spec(procs, p.pid),
{
    reveal_with_fuel(Seq::filter, 1);
    assert(procs.push(p).drop_last() =~= procs);
}

/// Untracking keeps every process of another pid, in order, and none of
/// the pid.
pub proof fn lemma_untrack_keeps_others(procs: Seq<ProcV>, pid: u32)
    ensures
        forall|i: int|
            0 <= i < untrack_spec(procs, pid).len() ==> (#[trigger] untrack_spec(procs, pid)[i]).pid
                != pid,
        forall|q: ProcV| q.pid != pid ==> (procs.contains(q) <==> untrack_spec(procs, pid).contains(q)),
{
    broadcast use vstd::seq_lib::group_filter_ensures;
    let f = |x: ProcV| x.pid != pid;
    assert forall|q: ProcV| q.pid != pid implies (procs.contains(q) <==> untrack_spec(procs, pid).contains(q)) by {
        if procs.contains(q) {
            let i = choose|i: int| 0 <= i < procs.len() && procs[i] == q;
            assert(f(procs[i]));
        }
        if untrack_spec(procs, pid).contains(q) {
            procs.lemma_filter_contains_rev(f, q);
        }
    }
}

} // verus!
