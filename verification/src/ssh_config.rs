//! Minimal `~/.ssh/config` reader.
//!
//! Extracts concrete Host aliases together with their HostName so the UI
//! can offer a searchable picker. `Include` lines are left to the caller,
//! which reads the included files; wildcard and negated patterns such as
//! `Host *` are skipped.

use vstd::prelude::*;

use crate::text::{
    blank, chars_of, has_char, is_blank, is_ws, is_whitespace, lowercase, seq_lt, split_ws,
    starts_with, string_of, string_of_range, sub_vec, to_lowercase, trim, trim_bounds, words,
    chars_lt, lines, lines_of, ascii_lower_seq, lemma_seq_lt_irreflexive, lemma_seq_lt_transitive,
    lemma_seq_le_transitive,
};

verus! {

// ---- `Keyword value` ---------------------------------------------------------------

/// Characters that end a keyword: whitespace and `=`.
pub open spec fn is_kw_end(c: char) -> bool {
    is_ws(c) || c == '='
}

/// Length of the keyword at the start of `s`.
pub open spec fn kw_len(s: Seq<char>) -> nat
    decreases s.len(),
{
    if s.len() == 0 || is_kw_end(s[0]) {
        0
    } else {
        1 + kw_len(s.drop_first())
    }
}

/// `s` without its leading whitespace and `=` characters.
pub open spec fn skip_kw_sep(s: Seq<char>) -> Seq<char>
    decreases s.len(),
{
    if s.len() > 0 && is_kw_end(s[0]) {
        skip_kw_sep(s.drop_first())
    } else {
        s
    }
}

/// `Keyword value`, `Keyword=value` or `Keyword = value`: the keyword
/// lowercased, and the value trimmed.
pub open spec fn split_keyword_spec(line: Seq<char>) -> (Seq<char>, Seq<char>) {
    let e = kw_len(line) as int;
    (lowercase(line.take(e)), trim(skip_kw_sep(line.skip(e))))
}

proof fn lemma_kw_len(s: Seq<char>)
    ensures
        kw_len(s) <= s.len(),
    decreases s.len(),
{
    if s.len() > 0 && !is_kw_end(s[0]) {
        lemma_kw_len(s.drop_first());
    }
}

/// Split `Keyword value`, `Keyword=value` or `Keyword = value`.
pub fn split_keyword(line: &str) -> (r: (String, String))
    ensures
        (r.0@, r.1@) == split_keyword_spec(line@),
        vstd::utf8::is_ascii_chars(line@.take(kw_len(line@) as int)) ==> lowercase(
            line@.take(kw_len(line@) as int),
        ) == ascii_lower_seq(line@.take(kw_len(line@) as int)),
{
    let v = chars_of(line);
    let mut e: usize = 0;
    assert(v@.skip(0) == v@);
    while e < v.len() && !(is_whitespace(v[e]) || v[e] == '=')
        invariant
            e <= v@.len(),
            kw_len(v@) == e + kw_len(v@.skip(e as int)),
        decreases v.len() - e,
    {
        assert(v@.skip(e as int).drop_first() =~= v@.skip(e + 1));
        e += 1;
    }
    let kw = string_of_range(&v, 0, e);
    assert(kw@ == v@.take(e as int));
    let keyword = to_lowercase(kw.as_str());
    let mut j = e;
    while j < v.len() && (is_whitespace(v[j]) || v[j] == '=')
        invariant
            e <= j <= v@.len(),
            skip_kw_sep(v@.skip(e as int)) == skip_kw_sep(v@.skip(j as int)),
        decreases v.len() - j,
    {
        assert(v@.skip(j as int).drop_first() =~= v@.skip(j + 1));
        j += 1;
    }
    assert(skip_kw_sep(v@.skip(j as int)) == v@.skip(j as int));
    assert(v@.skip(j as int) =~= v@.subrange(j as int, v@.len() as int));
    let (a, b) = trim_bounds(&v, j, v.len());
    (keyword, string_of_range(&v, a, b))
}

// ---- wildcards --------------------------------------------------------------------

/// Whether `p[i..]` matches `t[j..]`, `*` matching any run and `?` any one
/// character.
pub open spec fn wm(p: Seq<char>, t: Seq<char>, i: int, j: int) -> bool
    decreases p.len() - i, 0int,
{
    if i < 0 || j < 0 || i > p.len() || j > t.len() {
        false
    } else if i == p.len() {
        j == t.len()
    } else if p[i] == '*' {
        star_from(p, t, i + 1, j)
    } else if p[i] == '?' {
        j < t.len() && wm(p, t, i + 1, j + 1)
    } else {
        j < t.len() && t[j] == p[i] && wm(p, t, i + 1, j + 1)
    }
}

/// Whether `p[i..]` matches `t[k..]` for some `k` from `k0` on.
pub open spec fn star_from(p: Seq<char>, t: Seq<char>, i: int, k: int) -> bool
    decreases p.len() - i, t.len() + 1 - k,
{
    if i < 0 || k < 0 || i > p.len() || k > t.len() {
        false
    } else {
        wm(p, t, i, k) || (k < t.len() && star_from(p, t, i, k + 1))
    }
}

/// Shell-style match of a whole file name: `*` matches any run of
/// characters, `?` exactly one.
pub open spec fn wildcard_spec(pattern: Seq<char>, text: Seq<char>) -> bool {
    wm(pattern, text, 0, 0)
}

/// Shell-style matching read directly: each `*` matches any run of
/// characters, each `?` one character, and every other character itself.
pub open spec fn glob(p: Seq<char>, t: Seq<char>) -> bool
    decreases p.len(),
{
    if p.len() == 0 {
        t.len() == 0
    } else if p[0] == '*' {
        exists|k: int| 0 <= k <= t.len() && glob(p.drop_first(), #[trigger] t.skip(k))
    } else if p[0] == '?' {
        t.len() > 0 && glob(p.drop_first(), t.drop_first())
    } else {
        t.len() > 0 && t[0] == p[0] && glob(p.drop_first(), t.drop_first())
    }
}

proof fn lemma_star_from(p: Seq<char>, t: Seq<char>, i: int, k: int)
    requires
        0 <= i <= p.len(),
        0 <= k <= t.len(),
    ensures
        star_from(p, t, i, k) == exists|m: int| k <= m <= t.len() && #[trigger] wm(p, t, i, m),
    decreases t.len() - k,
{
    assert(star_from(p, t, i, k) == (wm(p, t, i, k) || (k < t.len() && star_from(p, t, i, k + 1))));
    if k < t.len() {
        lemma_star_from(p, t, i, k + 1);
    }
    if star_from(p, t, i, k) {
        if wm(p, t, i, k) {
            assert(k <= k <= t.len() && wm(p, t, i, k));
        } else {
            let m = choose|m: int| k + 1 <= m <= t.len() && #[trigger] wm(p, t, i, m);
            assert(k <= m <= t.len() && wm(p, t, i, m));
        }
    }
    if exists|m: int| k <= m <= t.len() && #[trigger] wm(p, t, i, m) {
        let m = choose|m: int| k <= m <= t.len() && #[trigger] wm(p, t, i, m);
        if m > k {
            assert(k + 1 <= m <= t.len() && wm(p, t, i, m));
        }
    }
}

proof fn lemma_wm_glob(p: Seq<char>, t: Seq<char>, i: int, j: int)
    requires
        0 <= i <= p.len(),
        0 <= j <= t.len(),
    ensures
        wm(p, t, i, j) == glob(p.skip(i), t.skip(j)),
    decreases p.len() - i,
{
    let ps = p.skip(i);
    let ts = t.skip(j);
    if i == p.len() {
        assert(ps.len() == 0);
    } else {
        assert(ps[0] == p[i]);
        assert(ps.drop_first() =~= p.skip(i + 1));
        if p[i] == '*' {
            assert(ps.len() > 0 && ps[0] == '*');
            lemma_star_from(p, t, i + 1, j);
            if wm(p, t, i, j) {
                let m = choose|m: int| j <= m <= t.len() && #[trigger] wm(p, t, i + 1, m);
                lemma_wm_glob(p, t, i + 1, m);
                assert(ts.skip(m - j) =~= t.skip(m));
                assert(0 <= m - j <= ts.len() && glob(ps.drop_first(), ts.skip(m - j)));
            }
            if glob(ps, ts) {
                let k = choose|k: int| 0 <= k <= ts.len() && glob(ps.drop_first(), #[trigger] ts.skip(k));
                assert(ts.skip(k) =~= t.skip(j + k));
                lemma_wm_glob(p, t, i + 1, j + k);
                assert(j <= j + k <= t.len() && wm(p, t, i + 1, j + k));
            }
        } else if j < t.len() {
            lemma_wm_glob(p, t, i + 1, j + 1);
            assert(ts.drop_first() =~= t.skip(j + 1));
            assert(ts[0] == t[j]);
        }
    }
}

/// `wildcard_spec` is shell-style matching: each `*` matches any run of
/// characters, each `?` one character, every other character itself.
pub proof fn lemma_wildcard_glob(pattern: Seq<char>, text: Seq<char>)
    ensures
        wildcard_spec(pattern, text) == glob(pattern, text),
{
    lemma_wm_glob(pattern, text, 0, 0);
    assert(pattern.skip(0) =~= pattern);
    assert(text.skip(0) =~= text);
}

fn wm_exec(p: &Vec<char>, t: &Vec<char>, i: usize, j: usize) -> (r: bool)
    requires
        i <= p@.len(),
        j <= t@.len(),
    ensures
        r == wm(p@, t@, i as int, j as int),
    decreases p@.len() - i, 0int,
{
    if i == p.len() {
        j == t.len()
    } else if p[i] == '*' {
        star_exec(p, t, i + 1, j)
    } else if p[i] == '?' {
        j < t.len() && wm_exec(p, t, i + 1, j + 1)
    } else {
        j < t.len() && t[j] == p[i] && wm_exec(p, t, i + 1, j + 1)
    }
}

fn star_exec(p: &Vec<char>, t: &Vec<char>, i: usize, k: usize) -> (r: bool)
    requires
        i <= p@.len(),
        k <= t@.len(),
    ensures
        r == star_from(p@, t@, i as int, k as int),
    decreases p@.len() - i, t@.len() + 1 - k,
{
    wm_exec(p, t, i, k) || (k < t.len() && star_exec(p, t, i, k + 1))
}

/// Shell-style match of a whole file name, for `Include` patterns.
pub fn wildcard_match(pattern: &str, text: &str) -> (r: bool)
    ensures
        r == wildcard_spec(pattern@, text@),
{
    let p = chars_of(pattern);
    let t = chars_of(text);
    wm_exec(&p, &t, 0, 0)
}

// ---- reading the file --------------------------------------------------------------

/// What one line of a config file contributes: nothing for blank lines and
/// comments, else its keyword and value.
pub open spec fn config_entry(raw: Seq<char>) -> Option<(Seq<char>, Seq<char>)> {
    let line = trim(raw);
    if line.len() == 0 || line[0] == '#' {
        None
    } else {
        Some(split_keyword_spec(line))
    }
}

/// The keyword/value entries of a config text, in order.
pub open spec fn config_entries(ls: Seq<Seq<char>>) -> Seq<(Seq<char>, Seq<char>)>
    decreases ls.len(),
{
    if ls.len() == 0 {
        seq![]
    } else {
        let rest = config_entries(ls.drop_last());
        match config_entry(ls.last()) {
            Some(e) => rest.push(e),
            None => rest,
        }
    }
}

pub open spec fn pairs_view(v: Seq<(String, String)>) -> Seq<(Seq<char>, Seq<char>)> {
    v.map_values(|p: (String, String)| (p.0@, p.1@))
}

/// The `(keyword, value)` entries of a config file's text, in order; the
/// caller expands `include` entries by reading the named files.
pub fn config_lines(text: &str) -> (r: Vec<(String, String)>)
    ensures
        pairs_view(r@) == config_entries(lines_of(text@)),
{
    let v = chars_of(text);
    let ls = lines(&v);
    let mut r: Vec<(String, String)> = Vec::new();
    let mut i: usize = 0;
    while i < ls.len()
        invariant
            i <= ls@.len(),
            ls.deep_view() == lines_of(text@),
            pairs_view(r@) == config_entries(lines_of(text@).take(i as int)),
        decreases ls.len() - i,
    {
        let raw = chars_of(ls[i].as_str());
        let ghost all = lines_of(text@);
        assert(all.take(i + 1).drop_last() == all.take(i as int));
        assert(all.take(i + 1).last() == raw@);
        let (a, b) = trim_bounds(&raw, 0, raw.len());
        assert(raw@.subrange(0, raw@.len() as int) == raw@);
        if a < b && raw[a] != '#' {
            let line = string_of_range(&raw, a, b);
            let entry = split_keyword(line.as_str());
            let ghost before = r@;
            r.push(entry);
            assert(pairs_view(r@) =~= pairs_view(before).push((entry.0@, entry.1@)));
        }
        i += 1;
    }
    assert(lines_of(text@).take(ls@.len() as int) == lines_of(text@));
    r
}

// ---- hosts ----------------------------------------------------------------------------

#[derive(Debug, PartialEq)]
pub struct HostEntry {
    pub alias: String,
    pub hostname: String,
}

impl Clone for HostEntry {
    fn clone(&self) -> (r: Self)
        ensures
            r == *self,
    {
        HostEntry { alias: self.alias.clone(), hostname: self.hostname.clone() }
    }
}

/// A Host block while reading: its patterns, and its first HostName.
pub struct BlockAcc {
    pub patterns: Seq<Seq<char>>,
    pub hostname: Option<Seq<char>>,
}

/// The Host blocks of a sequence of entries, and whether the last entry
/// left us inside a Host block (a Match block ends it).
pub open spec fn blocks_of(entries: Seq<(Seq<char>, Seq<char>)>) -> (Seq<BlockAcc>, bool)
    decreases entries.len(),
{
    if entries.len() == 0 {
        (seq![], false)
    } else {
        let (blocks, in_host) = blocks_of(entries.drop_last());
        let (kw, value) = entries.last();
        if kw == "host"@ {
            (blocks.push(BlockAcc { patterns: words(value), hostname: None }), true)
        } else if kw == "match"@ {
            (blocks, false)
        } else if kw == "hostname"@ && in_host && blocks.len() > 0 && blocks.last().hostname is None {
            (blocks.update(blocks.len() - 1, BlockAcc { hostname: Some(value), ..blocks.last() }), in_host)
        } else {
            (blocks, in_host)
        }
    }
}

/// Every `(alias, hostname)` the blocks name, in order; the hostname
/// defaults to the alias.
pub open spec fn candidates(blocks: Seq<BlockAcc>) -> Seq<(Seq<char>, Seq<char>)>
    decreases blocks.len(),
{
    if blocks.len() == 0 {
        seq![]
    } else {
        let b = blocks.last();
        candidates(blocks.drop_last()) + b.patterns.map_values(
            |a: Seq<char>|
                (
                    a,
                    match b.hostname {
                        Some(h) => h,
                        None => a,
                    },
                ),
        )
    }
}

/// Whether a pattern is a wildcard or a negation rather than a host.
pub open spec fn is_pattern(a: Seq<char>) -> bool {
    a.contains('*') || a.contains('?') || a.contains('!')
}

/// The concrete aliases, each only with its first appearance.
pub open spec fn concrete_first(c: Seq<(Seq<char>, Seq<char>)>) -> Seq<(Seq<char>, Seq<char>)>
    decreases c.len(),
{
    if c.len() == 0 {
        seq![]
    } else {
        let rest = concrete_first(c.drop_last());
        let (a, h) = c.last();
        if is_pattern(a) || c.drop_last().map_values(|p: (Seq<char>, Seq<char>)| p.0).contains(a) {
            rest
        } else {
            rest.push((a, h))
        }
    }
}

/// `s` with `x` inserted after every entry whose key is not greater than
/// `key(x)`: one step of a stable insertion sort.
pub open spec fn insert_sorted(s: Seq<(Seq<char>, Seq<char>)>, x: (Seq<char>, Seq<char>)) -> Seq<
    (Seq<char>, Seq<char>),
>
    decreases s.len(),
{
    if s.len() == 0 {
        seq![x]
    } else if seq_lt(lowercase(x.0), lowercase(s.last().0)) {
        insert_sorted(s.drop_last(), x).push(s.last())
    } else {
        s.push(x)
    }
}

/// `slice::sort_by_key` with the lowercased alias as key: stable.
pub open spec fn sort_by_alias(s: Seq<(Seq<char>, Seq<char>)>) -> Seq<(Seq<char>, Seq<char>)>
    decreases s.len(),
{
    if s.len() == 0 {
        seq![]
    } else {
        insert_sorted(sort_by_alias(s.drop_last()), s.last())
    }
}

/// The hosts a config's entries define: concrete aliases with their
/// HostName, each alias once, sorted case-insensitively.
pub open spec fn hosts_spec(entries: Seq<(Seq<char>, Seq<char>)>) -> Seq<(Seq<char>, Seq<char>)> {
    sort_by_alias(concrete_first(candidates(blocks_of(entries).0)))
}

pub open spec fn entries_view(v: Seq<HostEntry>) -> Seq<(Seq<char>, Seq<char>)> {
    v.map_values(|e: HostEntry| (e.alias@, e.hostname@))
}

/// A Host block while reading, executable form.
struct Block {
    patterns: Vec<String>,
    hostname: Option<String>,
}

spec fn block_view(b: Block) -> BlockAcc {
    BlockAcc {
        patterns: b.patterns.deep_view(),
        hostname: match b.hostname {
            Some(h) => Some(h@),
            None => None,
        },
    }
}

fn str_is(s: &String, lit: &str) -> (r: bool)
    ensures
        r == (s@ == lit@),
{
    crate::text::str_eq(s.as_str(), lit)
}

fn collect_blocks(entries: &Vec<(String, String)>) -> (r: Vec<Block>)
    ensures
        r@.map_values(|b: Block| block_view(b)) == blocks_of(pairs_view(entries@)).0,
{
    let mut blocks: Vec<Block> = Vec::new();
    let mut in_host = false;
    let mut i: usize = 0;
    while i < entries.len()
        invariant
            i <= entries@.len(),
            (blocks@.map_values(|b: Block| block_view(b)), in_host) == blocks_of(
                pairs_view(entries@).take(i as int),
            ),
        decreases entries.len() - i,
    {
        let ghost es = pairs_view(entries@);
        assert(es.take(i + 1).drop_last() == es.take(i as int));
        assert(es.take(i + 1).last() == (entries@[i as int].0@, entries@[i as int].1@));
        let ghost before = blocks@.map_values(|b: Block| block_view(b));
        let (kw, value) = (&entries[i].0, &entries[i].1);
        if str_is(kw, "host") {
            let v = chars_of(value.as_str());
            let pats = split_ws(&v);
            let b = Block { patterns: pats, hostname: None };
            blocks.push(b);
            assert(blocks@.map_values(|b: Block| block_view(b)) =~= before.push(
                BlockAcc { patterns: words(value@), hostname: None },
            ));
            in_host = true;
        } else if str_is(kw, "match") {
            in_host = false;
        } else if str_is(kw, "hostname") && in_host && blocks.len() > 0 {
            let last = blocks.len() - 1;
            if blocks[last].hostname.is_none() {
                let mut b = blocks.remove(last);
                b.hostname = Some(value.clone());
                blocks.push(b);
                assert(blocks@.map_values(|b: Block| block_view(b)) =~= before.update(
                    before.len() - 1,
                    BlockAcc { hostname: Some(value@), ..before.last() },
                ));
            }
        }
        i += 1;
    }
    assert(pairs_view(entries@).take(entries@.len() as int) == pairs_view(entries@));
    blocks
}

fn contains_alias(seen: &Vec<String>, a: &String) -> (r: bool)
    ensures
        r == seen.deep_view().contains(a@),
{
    let mut i: usize = 0;
    while i < seen.len()
        invariant
            i <= seen@.len(),
            forall|k: int| 0 <= k < i ==> seen.deep_view()[k] != a@,
        decreases seen.len() - i,
    {
        if crate::text::str_eq(seen[i].as_str(), a.as_str()) {
            assert(seen.deep_view()[i as int] == a@);
            return true;
        }
        i += 1;
    }
    false
}

fn is_pattern_exec(a: &String) -> (r: bool)
    ensures
        r == is_pattern(a@),
{
    let v = chars_of(a.as_str());
    has_char(&v, '*') || has_char(&v, '?') || has_char(&v, '!')
}

/// Insert `x` into the sorted `v` (see `insert_sorted`).
fn insert_entry(v: &mut Vec<HostEntry>, x: HostEntry)
    ensures
        entries_view(final(v)@) == insert_sorted(entries_view(old(v)@), (x.alias@, x.hostname@)),
{
    let key = to_lowercase(x.alias.as_str());
    let kv = chars_of(key.as_str());
    let mut j = v.len();
    let ghost xv = (x.alias@, x.hostname@);
    let mut stop = false;
    assert(v@.take(v@.len() as int) =~= v@);
    assert(entries_view(v@.skip(v@.len() as int)) =~= Seq::<(Seq<char>, Seq<char>)>::empty());
    while j > 0 && !stop
        invariant
            j <= v@.len(),
            v@ == old(v)@,
            kv@ == lowercase(x.alias@),
            xv == (x.alias@, x.hostname@),
            insert_sorted(entries_view(v@), xv) == insert_sorted(entries_view(v@.take(j as int)), xv)
                + entries_view(v@.skip(j as int)),
            stop ==> j > 0 && !seq_lt(lowercase(x.alias@), lowercase(v@[j - 1].alias@)),
        decreases j, (if stop { 0int } else { 1int }),
    {
        let other = to_lowercase(v[j - 1].alias.as_str());
        let ov = chars_of(other.as_str());
        if !chars_lt(&kv, &ov) {
            stop = true;
        } else {
            let ghost pre = entries_view(v@.take(j as int));
            assert(pre.drop_last() =~= entries_view(v@.take(j - 1)));
            assert(pre.last() == (v@[j - 1].alias@, v@[j - 1].hostname@));
            assert(insert_sorted(pre, xv) == insert_sorted(pre.drop_last(), xv).push(pre.last()));
            assert(entries_view(v@.skip(j - 1)) =~= seq![pre.last()] + entries_view(v@.skip(j as int)));
            assert(insert_sorted(pre.drop_last(), xv).push(pre.last()) + entries_view(v@.skip(j as int))
                =~= insert_sorted(pre.drop_last(), xv) + entries_view(v@.skip(j - 1)));
            j -= 1;
        }
    }
    proof {
        if j > 0 {
            let pre = entries_view(v@.take(j as int));
            assert(pre.last() == (v@[j - 1].alias@, v@[j - 1].hostname@));
            assert(insert_sorted(pre, xv) == pre.push(xv));
        } else {
            assert(entries_view(v@.take(0)) =~= Seq::<(Seq<char>, Seq<char>)>::empty());
        }
    }
    let ghost before = v@;
    v.insert(j, x);
    assert(entries_view(v@) =~= entries_view(before.take(j as int)).push(xv) + entries_view(before.skip(j as int)));
}

/// The concrete hosts of a config's `(keyword, value)` entries, with their
/// HostName (or the alias itself), each alias once, sorted by lowercased
/// alias.
pub fn hosts_from_entries(entries: &Vec<(String, String)>) -> (r: Vec<HostEntry>)
    ensures
        entries_view(r@) == hosts_spec(pairs_view(entries@)),
{
    let blocks = collect_blocks(entries);
    let ghost bv = blocks@.map_values(|b: Block| block_view(b));
    // flatten, keeping each concrete alias once
    let mut firsts: Vec<HostEntry> = Vec::new();
    let mut seen: Vec<String> = Vec::new();
    let ghost mut cands: Seq<(Seq<char>, Seq<char>)> = seq![];
    let mut bi: usize = 0;
    while bi < blocks.len()
        invariant
            bi <= blocks@.len(),
            bv == blocks@.map_values(|b: Block| block_view(b)),
            cands == candidates(bv.take(bi as int)),
            entries_view(firsts@) == concrete_first(cands),
            seen.deep_view() == entries_view(firsts@).map_values(|p: (Seq<char>, Seq<char>)| p.0),
        decreases blocks.len() - bi,
    {
        let b = &blocks[bi];
        assert(bv.take(bi + 1).drop_last() == bv.take(bi as int));
        assert(bv.take(bi + 1).last() == block_view(blocks@[bi as int]));
        let mut k: usize = 0;
        let ghost base = cands;
        while k < b.patterns.len()
            invariant
                k <= b.patterns@.len(),
                *b == blocks@[bi as int],
                cands == base + block_view(*b).patterns.take(k as int).map_values(
                    |a: Seq<char>|
                        (
                            a,
                            match block_view(*b).hostname {
                                Some(h) => h,
                                None => a,
                            },
                        ),
                ),
                entries_view(firsts@) == concrete_first(cands),
                seen.deep_view() == entries_view(firsts@).map_values(|p: (Seq<char>, Seq<char>)| p.0),
            decreases b.patterns.len() - k,
        {
            let alias = &b.patterns[k];
            let host = match &b.hostname {
                Some(h) => h.clone(),
                None => alias.clone(),
            };
            let ghost item = (alias@, host@);
            let ghost prev = cands;
            proof {
                cands = cands.push(item);
                let pv = block_view(*b).patterns;
                assert(pv.take(k + 1) =~= pv.take(k as int).push(alias@));
                assert(prev.push(item).drop_last() == prev);
            }
            let skip = is_pattern_exec(alias) || contains_alias(&seen, alias);
            proof {
                // the aliases seen so far are those of all earlier candidates
                assert(seen.deep_view().contains(alias@) == prev.map_values(
                    |p: (Seq<char>, Seq<char>)| p.0,
                ).contains(alias@) || is_pattern(alias@)) by {
                    lemma_seen_aliases(prev, alias@);
                }
            }
            if !skip {
                let e = HostEntry { alias: alias.clone(), hostname: host };
                let ghost fb = firsts@;
                let ghost sb = seen.deep_view();
                firsts.push(e);
                seen.push(alias.clone());
                assert(entries_view(firsts@) =~= entries_view(fb).push(item));
                assert(seen.deep_view() =~= sb.push(alias@));
            }
            k += 1;
        }
        assert(block_view(*b).patterns.take(b.patterns@.len() as int) == block_view(*b).patterns);
        bi += 1;
    }
    assert(bv.take(blocks@.len() as int) == bv);
    // stable insertion sort by lowercased alias
    let mut sorted: Vec<HostEntry> = Vec::new();
    let mut i: usize = 0;
    let n = firsts.len();
    let ghost fv = entries_view(firsts@);
    while i < n
        invariant
            i <= n == firsts@.len(),
            fv == entries_view(firsts@),
            entries_view(sorted@) == sort_by_alias(fv.take(i as int)),
        decreases n - i,
    {
        assert(fv.take(i + 1).drop_last() == fv.take(i as int));
        assert(fv.take(i + 1).last() == fv[i as int]);
        let e = firsts[i].clone();
        insert_entry(&mut sorted, e);
        i += 1;
    }
    assert(fv.take(n as int) == fv);
    sorted
}

proof fn lemma_push_contains(s: Seq<Seq<char>>, x: Seq<char>, a: Seq<char>)
    ensures
        s.push(x).contains(a) == (s.contains(a) || x == a),
{
    if s.push(x).contains(a) {
        let k = choose|k: int| 0 <= k < s.push(x).len() && s.push(x)[k] == a;
        if k < s.len() {
            assert(s[k] == a);
        }
    }
    if s.contains(a) {
        let k = choose|k: int| 0 <= k < s.len() && s[k] == a;
        assert(s.push(x)[k] == a);
    }
    if x == a {
        assert(s.push(x)[s.len() as int] == a);
    }
}

/// The aliases kept so far are exactly the concrete aliases among the
/// earlier candidates.
proof fn lemma_seen_aliases(prev: Seq<(Seq<char>, Seq<char>)>, a: Seq<char>)
    ensures
        concrete_first(prev).map_values(|p: (Seq<char>, Seq<char>)| p.0).contains(a) || is_pattern(a)
            <==> prev.map_values(|p: (Seq<char>, Seq<char>)| p.0).contains(a) || is_pattern(a),
    decreases prev.len(),
{
    if prev.len() > 0 {
        let rest = prev.drop_last();
        lemma_seen_aliases(rest, a);
        let cf = concrete_first(rest);
        let (x, h) = prev.last();
        let ra = rest.map_values(|p: (Seq<char>, Seq<char>)| p.0);
        assert(prev.map_values(|p: (Seq<char>, Seq<char>)| p.0) =~= ra.push(x));
        lemma_push_contains(ra, x, a);
        let ca = cf.map_values(|p: (Seq<char>, Seq<char>)| p.0);
        if !(is_pattern(x) || ra.contains(x)) {
            assert(concrete_first(prev).map_values(|p: (Seq<char>, Seq<char>)| p.0) =~= ca.push(x));
            lemma_push_contains(ca, x, a);
        }
    }
}


// ---- what the host list promises ----------------------------------------------------------

/// Each alias's lowercased form is not greater than those after it.
pub open spec fn sorted_by_alias(s: Seq<(Seq<char>, Seq<char>)>) -> bool {
    forall|i: int, j: int|
        0 <= i < j < s.len() ==> !seq_lt(lowercase((#[trigger] s[j]).0), lowercase((#[trigger] s[i]).0))
}

/// No alias appears twice.
pub open spec fn distinct_aliases(s: Seq<(Seq<char>, Seq<char>)>) -> bool {
    forall|i: int, j: int| 0 <= i < j < s.len() ==> (#[trigger] s[i]).0 != (#[trigger] s[j]).0
}

/// Whether some entry of `s` has alias `a`.
pub open spec fn has_alias(s: Seq<(Seq<char>, Seq<char>)>, a: Seq<char>) -> bool {
    exists|i: int| 0 <= i < s.len() && (#[trigger] s[i]).0 == a
}

proof fn lemma_insert_sorted(s: Seq<(Seq<char>, Seq<char>)>, x: (Seq<char>, Seq<char>))
    requires
        sorted_by_alias(s),
    ensures
        sorted_by_alias(insert_sorted(s, x)),
        insert_sorted(s, x).to_multiset() == s.to_multiset().insert(x),
        distinct_aliases(s) && !has_alias(s, x.0) ==> distinct_aliases(insert_sorted(s, x)),
    decreases s.len(),
{
    broadcast use vstd::seq_lib::group_to_multiset_ensures;

    if s.len() == 0 {
        assert(seq![x] =~= Seq::<(Seq<char>, Seq<char>)>::empty().push(x));
    } else {
        let last = s.last();
        let dl = s.drop_last();
        assert(dl.push(last) =~= s);
        assert(sorted_by_alias(dl));
        if distinct_aliases(s) && !has_alias(s, x.0) {
            assert(distinct_aliases(dl));
            assert(!has_alias(dl, x.0)) by {
                if has_alias(dl, x.0) {
                    let i = choose|i: int| 0 <= i < dl.len() && (#[trigger] dl[i]).0 == x.0;
                    assert(s[i] == dl[i]);
                }
            }
        }
        if seq_lt(lowercase(x.0), lowercase(last.0)) {
            lemma_insert_sorted(dl, x);
            let ins = insert_sorted(dl, x);
            assert forall|i: int| 0 <= i < ins.len() implies !seq_lt(
                lowercase(last.0),
                lowercase((#[trigger] ins[i]).0),
            ) && (distinct_aliases(s) && !has_alias(s, x.0) ==> ins[i].0 != last.0) by {
                assert(ins.to_multiset().count(ins[i]) > 0);
                if ins[i] != x {
                    assert(dl.contains(ins[i]));
                    let j = choose|j: int| 0 <= j < dl.len() && dl[j] == ins[i];
                    assert(s[j] == dl[j]);
                    assert(s[s.len() - 1] == last);
                } else {
                    lemma_seq_lt_irreflexive(lowercase(last.0));
                    if seq_lt(lowercase(last.0), lowercase(x.0)) {
                        lemma_seq_lt_transitive(lowercase(last.0), lowercase(x.0), lowercase(last.0));
                    }
                    assert(s[s.len() - 1] == last);
                }
            }
            assert(ins.to_multiset().insert(last) =~= dl.to_multiset().insert(last).insert(x));
        } else {
            assert forall|i: int, j: int| 0 <= i < j < s.push(x).len() implies !seq_lt(
                lowercase((#[trigger] s.push(x)[j]).0),
                lowercase((#[trigger] s.push(x)[i]).0),
            ) by {
                if j == s.len() {
                    if i < s.len() - 1 {
                        assert(!seq_lt(lowercase(last.0), lowercase(s[i].0)));
                        lemma_seq_le_transitive(lowercase(s[i].0), lowercase(last.0), lowercase(x.0));
                    }
                } else {
                    assert(s.push(x)[i] == s[i]);
                    assert(s.push(x)[j] == s[j]);
                }
            }
            if distinct_aliases(s) && !has_alias(s, x.0) {
                assert forall|i: int, j: int| 0 <= i < j < s.push(x).len() implies (#[trigger] s.push(
                    x,
                )[i]).0 != (#[trigger] s.push(x)[j]).0 by {
                    if j == s.len() {
                        assert(s.push(x)[i] == s[i]);
                    } else {
                        assert(s.push(x)[i] == s[i]);
                        assert(s.push(x)[j] == s[j]);
                    }
                }
            }
        }
    }
}

proof fn lemma_sort_by_alias(c: Seq<(Seq<char>, Seq<char>)>)
    ensures
        sorted_by_alias(sort_by_alias(c)),
        sort_by_alias(c).to_multiset() == c.to_multiset(),
        distinct_aliases(c) ==> distinct_aliases(sort_by_alias(c)),
    decreases c.len(),
{
    broadcast use vstd::seq_lib::group_to_multiset_ensures;

    if c.len() > 0 {
        let dl = c.drop_last();
        let sd = sort_by_alias(dl);
        lemma_sort_by_alias(dl);
        if distinct_aliases(c) {
            assert(distinct_aliases(dl));
            assert(!has_alias(sd, c.last().0)) by {
                if has_alias(sd, c.last().0) {
                    let i = choose|i: int| 0 <= i < sd.len() && (#[trigger] sd[i]).0 == c.last().0;
                    assert(sd.to_multiset().count(sd[i]) > 0);
                    assert(dl.contains(sd[i]));
                    let j = choose|j: int| 0 <= j < dl.len() && dl[j] == sd[i];
                    assert(c[j] == dl[j]);
                    assert(c[c.len() - 1] == c.last());
                }
            }
        }
        lemma_insert_sorted(sd, c.last());
        assert(dl.push(c.last()) =~= c);
    } else {
        assert(c.to_multiset() =~= vstd::multiset::Multiset::empty());
        assert(sort_by_alias(c).to_multiset() =~= vstd::multiset::Multiset::empty());
    }
}

proof fn lemma_concrete_first(c: Seq<(Seq<char>, Seq<char>)>)
    ensures
        distinct_aliases(concrete_first(c)),
        forall|i: int| 0 <= i < concrete_first(c).len() ==> !is_pattern((#[trigger] concrete_first(c)[i]).0),
        forall|i: int|
            0 <= i < concrete_first(c).len() ==> c.map_values(|p: (Seq<char>, Seq<char>)| p.0).contains(
                (#[trigger] concrete_first(c)[i]).0,
            ),
    decreases c.len(),
{
    if c.len() > 0 {
        let dl = c.drop_last();
        lemma_concrete_first(dl);
        let rest = concrete_first(dl);
        let (a, h) = c.last();
        let names = c.map_values(|p: (Seq<char>, Seq<char>)| p.0);
        let dnames = dl.map_values(|p: (Seq<char>, Seq<char>)| p.0);
        assert forall|i: int| 0 <= i < rest.len() implies names.contains((#[trigger] rest[i]).0) by {
            let j = choose|j: int| 0 <= j < dnames.len() && dnames[j] == rest[i].0;
            assert(names[j] == dnames[j]);
        }
        if !(is_pattern(a) || dnames.contains(a)) {
            let r = rest.push((a, h));
            assert forall|i: int, j: int| 0 <= i < j < r.len() implies (#[trigger] r[i]).0 != (#[trigger] r[j]).0 by {
                if j == rest.len() {
                    assert(r[i] == rest[i]);
                    assert(dnames.contains(rest[i].0));
                } else {
                    assert(r[i] == rest[i] && r[j] == rest[j]);
                }
            }
            assert forall|i: int| 0 <= i < r.len() implies names.contains((#[trigger] r[i]).0) by {
                if i == rest.len() {
                    assert(names[c.len() - 1] == a);
                } else {
                    assert(r[i] == rest[i]);
                }
            }
        }
    }
}

/// Whether `x` is the first pair of `c` with its alias.
pub open spec fn first_of_alias(c: Seq<(Seq<char>, Seq<char>)>, x: (Seq<char>, Seq<char>)) -> bool {
    exists|k: int|
        0 <= k < c.len() && #[trigger] c[k] == x && forall|j: int| 0 <= j < k ==> (#[trigger] c[j]).0 != x.0
}

proof fn lemma_concrete_first_firsts(c: Seq<(Seq<char>, Seq<char>)>)
    ensures
        forall|i: int| 0 <= i < concrete_first(c).len() ==> first_of_alias(c, #[trigger] concrete_first(c)[i]),
    decreases c.len(),
{
    if c.len() > 0 {
        let dl = c.drop_last();
        lemma_concrete_first_firsts(dl);
        let rest = concrete_first(dl);
        let (a, h) = c.last();
        let dnames = dl.map_values(|p: (Seq<char>, Seq<char>)| p.0);
        let cf = concrete_first(c);
        assert forall|i: int| 0 <= i < cf.len() implies first_of_alias(c, #[trigger] cf[i]) by {
            if i < rest.len() {
                assert(cf[i] == rest[i]);
                assert(first_of_alias(dl, rest[i]));
                let k = choose|k: int|
                    0 <= k < dl.len() && #[trigger] dl[k] == rest[i] && forall|j: int|
                        0 <= j < k ==> (#[trigger] dl[j]).0 != rest[i].0;
                assert(c[k] == dl[k]);
                assert forall|j: int| 0 <= j < k implies (#[trigger] c[j]).0 != rest[i].0 by {
                    assert(c[j] == dl[j]);
                }
            } else {
                assert(cf[i] == (a, h));
                assert(!dnames.contains(a));
                let k = c.len() - 1;
                assert(c[k] == c.last());
                assert forall|j: int| 0 <= j < k implies (#[trigger] c[j]).0 != a by {
                    assert(c[j] == dl[j]);
                    assert(dnames[j] == dl[j].0);
                }
            }
        }
    }
}

/// Each listed host is the first `(alias, hostname)` the Host blocks give
/// for its alias: its hostname is the first `HostName` of the first block
/// that lists it (before any `Match`), or the alias itself.
pub proof fn lemma_hosts_hostname(entries: Seq<(Seq<char>, Seq<char>)>)
    ensures
        forall|i: int|
            0 <= i < hosts_spec(entries).len() ==> first_of_alias(
                candidates(blocks_of(entries).0),
                #[trigger] hosts_spec(entries)[i],
            ),
{
    broadcast use vstd::seq_lib::group_to_multiset_ensures;

    let c = candidates(blocks_of(entries).0);
    let cf = concrete_first(c);
    lemma_concrete_first_firsts(c);
    lemma_sort_by_alias(cf);
    let h = hosts_spec(entries);
    assert forall|i: int| 0 <= i < h.len() implies first_of_alias(c, #[trigger] h[i]) by {
        assert(h.to_multiset().count(h[i]) > 0);
        assert(cf.contains(h[i]));
        let m = choose|m: int| 0 <= m < cf.len() && cf[m] == h[i];
        assert(first_of_alias(c, cf[m]));
    }
}

/// The host list holds concrete aliases only, each once, in order of
/// their lowercased form; each is an alias some Host line names.
pub proof fn lemma_hosts_listed(entries: Seq<(Seq<char>, Seq<char>)>)
    ensures
        sorted_by_alias(hosts_spec(entries)),
        distinct_aliases(hosts_spec(entries)),
        forall|i: int| 0 <= i < hosts_spec(entries).len() ==> !is_pattern((#[trigger] hosts_spec(entries)[i]).0),
        forall|i: int|
            0 <= i < hosts_spec(entries).len() ==> candidates(blocks_of(entries).0).map_values(
                |p: (Seq<char>, Seq<char>)| p.0,
            ).contains((#[trigger] hosts_spec(entries)[i]).0),
{
    broadcast use vstd::seq_lib::group_to_multiset_ensures;

    let c = concrete_first(candidates(blocks_of(entries).0));
    lemma_concrete_first(candidates(blocks_of(entries).0));
    lemma_sort_by_alias(c);
    let h = hosts_spec(entries);
    assert forall|i: int| 0 <= i < h.len() implies c.contains(#[trigger] h[i]) by {
        assert(h.to_multiset().count(h[i]) > 0);
    }
}

} // verus!
