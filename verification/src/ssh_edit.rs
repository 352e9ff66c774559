//! Visual editing of `~/.ssh/config` Host blocks.
//!
//! Edits are surgical: only the Host line and the options the form manages
//! (HostName, User, Port, IdentityFile, ProxyJump, ProxyCommand) are
//! touched. Comments, blank lines, other options, `Include`/`Match`
//! sections and line endings are kept. This module works on the text of a
//! config file (`Doc`); reading and writing the file is the caller's.

use vstd::prelude::*;

use crate::ssh_config::{kw_len, split_keyword, split_keyword_spec};
use crate::text::{
    blank, chars_of, chars_eq, contains_seq, has_char, is_blank, is_ws, is_whitespace, lines,
    lowercase, parse_uint, parse_uint_range, push_char, push_chars, skip_ws, split_char, split_on,
    split_ws, starts_with, string_of, string_of_range, strip_last, sub_vec, to_lowercase, trim,
    trim_bounds, trim_start, words, lemma_trim_start, lead_ws, cat, str_eq, trim_str, ascii_lower_seq, copy_string,
    find_from,
};

verus! {

// ---- the managed options -------------------------------------------------------------

/// The options the form manages, in order, with their canonical spelling.
pub open spec fn managed_key_spec(k: int) -> Seq<char> {
    if k == 0 {
        "HostName"@
    } else if k == 1 {
        "User"@
    } else if k == 2 {
        "Port"@
    } else if k == 3 {
        "IdentityFile"@
    } else if k == 4 {
        "ProxyJump"@
    } else {
        "ProxyCommand"@
    }
}

fn managed_key(k: usize) -> (r: &'static str)
    requires
        k < 6,
    ensures
        r@ == managed_key_spec(k as int),
{
    if k == 0 {
        "HostName"
    } else if k == 1 {
        "User"
    } else if k == 2 {
        "Port"
    } else if k == 3 {
        "IdentityFile"
    } else if k == 4 {
        "ProxyJump"
    } else {
        "ProxyCommand"
    }
}

/// A Host block as the form shows it.
#[derive(Debug, Default, PartialEq)]
pub struct HostBlock {
    pub file: String,
    /// 0-based index of the `Host` line; with `patterns` it identifies the
    /// block and detects concurrent edits.
    pub line: usize,
    pub patterns: String,
    pub hostname: String,
    pub user: String,
    pub port: String,
    pub identity_file: String,
    pub proxy_jump: String,
    pub proxy_command: String,
    /// Other option lines of the block, kept as-is.
    pub others: Vec<String>,
}

/// What the form sends to save a Host block.
#[derive(Debug, Default)]
pub struct HostInput {
    /// Set when editing an existing block; absent for a new one.
    pub file: Option<String>,
    pub line: Option<usize>,
    pub original_patterns: Option<String>,
    pub patterns: String,
    pub hostname: String,
    pub user: String,
    pub port: String,
    pub identity_file: String,
    pub proxy_jump: String,
    pub proxy_command: String,
}

impl HostInput {
    /// The managed values, in the order of `managed_key_spec`.
    pub open spec fn values_spec(&self) -> Seq<Seq<char>> {
        seq![
            self.hostname@,
            self.user@,
            self.port@,
            self.identity_file@,
            self.proxy_jump@,
            self.proxy_command@,
        ]
    }

    fn value(&self, k: usize) -> (r: &String)
        requires
            k < 6,
        ensures
            r@ == self.values_spec()[k as int],
    {
        if k == 0 {
            &self.hostname
        } else if k == 1 {
            &self.user
        } else if k == 2 {
            &self.port
        } else if k == 3 {
            &self.identity_file
        } else if k == 4 {
            &self.proxy_jump
        } else {
            &self.proxy_command
        }
    }
}

// ---- the text model --------------------------------------------------------------------

/// A config file as lines, each with its own line ending (`ends[i]`: CRLF
/// rather than LF); `crlf` is the ending of lines the editor writes (CRLF
/// when the file has any), and `final_eol` whether the text ended with a
/// line ending (the last line is written without one otherwise).
pub struct Doc {
    pub lines: Vec<String>,
    pub ends: Vec<bool>,
    pub crlf: bool,
    pub final_eol: bool,
}

impl Doc {
    /// One line ending per line.
    pub open spec fn wf(&self) -> bool {
        self.ends@.len() == self.lines@.len()
    }
}

pub open spec fn eol(crlf: bool) -> Seq<char> {
    if crlf {
        seq!['\r', '\n']
    } else {
        seq!['\n']
    }
}

/// Whether a piece of text ends with a carriage return.
pub open spec fn ends_cr(p: Seq<char>) -> bool {
    p.len() > 0 && p.last() == '\r'
}

/// Whether `text` uses CRLF anywhere.
pub open spec fn has_crlf(text: Seq<char>) -> bool {
    contains_seq(text, seq!['\r', '\n'])
}

/// `text` as lines with their endings, and whether the text ends with a
/// line ending: split at `\n`, each piece before a `\n` a line (its
/// ending CRLF when it ends with `\r`, which is dropped); the piece after
/// the last `\n` is a last line without ending unless it is empty. The
/// ending of such a last line, and of lines the editor writes, is CRLF when
/// the text has any.
pub open spec fn parse_spec(text: Seq<char>) -> (Seq<Seq<char>>, Seq<bool>, bool) {
    let pieces = split_char(text, '\n');
    let ended = pieces.drop_last();
    let last = pieces.last();
    let lines = ended.map_values(|p: Seq<char>| strip_last(p, '\r'));
    let ends = ended.map_values(|p: Seq<char>| ends_cr(p));
    if last.len() == 0 {
        (lines, ends, true)
    } else {
        (lines.push(last), ends.push(has_crlf(text)), false)
    }
}

/// Lines joined by `sep`.
pub open spec fn join_with(ls: Seq<Seq<char>>, sep: Seq<char>) -> Seq<char>
    decreases ls.len(),
{
    if ls.len() == 0 {
        seq![]
    } else if ls.len() == 1 {
        ls[0]
    } else {
        join_with(ls.drop_last(), sep) + sep + ls.last()
    }
}

/// The ending written after line `i`: its own, except after the last line
/// of a text that had none there.
pub open spec fn ending_at(lines: Seq<Seq<char>>, ends: Seq<bool>, final_eol: bool, i: int) -> Seq<char> {
    if i + 1 < lines.len() || final_eol {
        eol(ends[i])
    } else {
        seq![]
    }
}

/// The first `n` lines, each followed by its ending.
pub open spec fn render_upto(lines: Seq<Seq<char>>, ends: Seq<bool>, final_eol: bool, n: int) -> Seq<char>
    decreases n,
{
    if n <= 0 {
        seq![]
    } else {
        render_upto(lines, ends, final_eol, n - 1) + lines[n - 1] + ending_at(lines, ends, final_eol, n - 1)
    }
}

/// The text of a config file: every line followed by its own line ending,
/// the last one only if the text had one there.
pub open spec fn render_spec(lines: Seq<Seq<char>>, ends: Seq<bool>, final_eol: bool) -> Seq<char> {
    render_upto(lines, ends, final_eol, lines.len() as int)
}

/// The lowercased keyword of an option line; empty for blank lines and
/// comments.
pub open spec fn keyword_spec(line: Seq<char>) -> Seq<char> {
    let t = trim(line);
    if t.len() == 0 || t[0] == '#' {
        seq![]
    } else {
        split_keyword_spec(t).0
    }
}

/// The keyword of an option line as written.
pub open spec fn raw_keyword(line: Seq<char>) -> Seq<char> {
    let t = trim(line);
    t.take(kw_len(t) as int)
}

/// What is known of how the keyword of `line` lowercases once it has been
/// read: an ASCII keyword lowercases to its ASCII lowercase.
pub open spec fn keyword_known(line: Seq<char>) -> bool {
    vstd::utf8::is_ascii_chars(raw_keyword(line)) ==> lowercase(raw_keyword(line))
        == ascii_lower_seq(raw_keyword(line))
}

/// Whether a line holds an option (neither blank nor a comment).
pub open spec fn is_content(line: Seq<char>) -> bool {
    let t = trim(line);
    t.len() > 0 && t[0] != '#'
}

/// The blocks closed and the block open after the first `n` lines.
pub open spec fn blocks_state(lines: Seq<Seq<char>>, n: int) -> (Seq<(int, int)>, Option<int>)
    decreases n,
{
    if n <= 0 {
        (seq![], None)
    } else {
        let (out, open) = blocks_state(lines, n - 1);
        let kw = keyword_spec(lines[n - 1]);
        if kw == "host"@ || kw == "match"@ {
            let out2 = match open {
                Some(s) => out.push((s, n - 1)),
                None => out,
            };
            (out2, if kw == "host"@ { Some(n - 1) } else { None })
        } else {
            (out, open)
        }
    }
}

/// `[start, end)` of every Host block: from a `Host` line up to the next
/// `Host` or `Match` line, or the end of the file.
pub open spec fn blocks_spec(lines: Seq<Seq<char>>) -> Seq<(int, int)> {
    let (out, open) = blocks_state(lines, lines.len() as int);
    match open {
        Some(s) => out.push((s, lines.len() as int)),
        None => out,
    }
}

/// The first block that starts at `line`.
pub open spec fn find_block(bs: Seq<(int, int)>, line: int, i: int) -> Option<(int, int)>
    decreases bs.len() - i,
{
    if i < 0 || i >= bs.len() {
        None
    } else if bs[i].0 == line {
        Some(bs[i])
    } else {
        find_block(bs, line, i + 1)
    }
}

pub open spec fn block_at_spec(lines: Seq<Seq<char>>, line: int) -> Option<(int, int)> {
    find_block(blocks_spec(lines), line, 0)
}

/// Leading whitespace of `l`.
pub open spec fn indent_of(l: Seq<char>) -> Seq<char> {
    l.take(lead_ws(l) as int)
}

/// Whether a line has an option with leading whitespace.
pub open spec fn is_indented_option(l: Seq<char>) -> bool {
    let t = trim_start(l);
    t.len() > 0 && t[0] != '#' && t.len() < l.len()
}

/// Indentation of the first indented option line from `i` on, else four
/// spaces.
pub open spec fn option_indent_from(lines: Seq<Seq<char>>, i: int) -> Seq<char>
    decreases lines.len() - i,
{
    if i < 0 || i >= lines.len() {
        "    "@
    } else if is_indented_option(lines[i]) {
        indent_of(lines[i])
    } else {
        option_indent_from(lines, i + 1)
    }
}

/// `v` trimmed, without surrounding double quotes.
pub open spec fn unquote_spec(v: Seq<char>) -> Seq<char> {
    let t = trim(v);
    if t.len() >= 2 && t[0] == '"' && t.last() == '"' {
        t.subrange(1, t.len() - 1)
    } else {
        t
    }
}

/// `v` in double quotes when it holds whitespace (ProxyCommand is passed to
/// a shell verbatim and never quoted).
pub open spec fn quote_spec(key: Seq<char>, v: Seq<char>) -> Seq<char> {
    if key != "ProxyCommand"@ && exists|i: int| 0 <= i < v.len() && is_ws(#[trigger] v[i]) && !(
    v.len() > 0 && v[0] == '"') {
        seq!['"'] + v + seq!['"']
    } else {
        v
    }
}

fn has_ws(v: &[char]) -> (r: bool)
    ensures
        r == exists|i: int| 0 <= i < v@.len() && is_ws(#[trigger] v@[i]),
{
    let mut i: usize = 0;
    while i < v.len()
        invariant
            i <= v@.len(),
            forall|k: int| 0 <= k < i ==> !is_ws(#[trigger] v@[k]),
        decreases v.len() - i,
    {
        if is_whitespace(v[i]) {
            return true;
        }
        i += 1;
    }
    false
}

pub fn unquote(v: &str) -> (r: String)
    ensures
        r@ == unquote_spec(v@),
{
    let c = chars_of(v);
    let (a, b) = trim_bounds(&c, 0, c.len());
    assert(c@.subrange(0, c@.len() as int) == c@);
    if b - a >= 2 && c[a] == '"' && c[b - 1] == '"' {
        string_of_range(&c, a + 1, b - 1)
    } else {
        string_of_range(&c, a, b)
    }
}

pub fn quote_if_needed(key: &str, v: &str) -> (r: String)
    ensures
        r@ == quote_spec(key@, v@),
{
    let c = chars_of(v);
    if !str_eq(key, "ProxyCommand") && has_ws(&c) && !(c.len() > 0 && c[0] == '"') {
        let mut r = String::new();
        push_char(&mut r, '"');
        r.append(v);
        push_char(&mut r, '"');
        r
    } else {
        v.to_owned()
    }
}

pub open spec fn doc_view(d: Doc) -> (Seq<Seq<char>>, Seq<bool>, bool) {
    (d.lines.deep_view(), d.ends@, d.final_eol)
}

impl Doc {
    /// Split a config text into lines, remembering each line's ending.
    pub fn parse(text: &str) -> (d: Doc)
        ensures
            doc_view(d) == parse_spec(text@),
            d.crlf == has_crlf(text@),
            d.wf(),
    {
        let v = chars_of(text);
        let crlf_pat = vec!['\r', '\n'];
        assert(crlf_pat@ == seq!['\r', '\n']);
        let crlf = crate::text::contains_chars(&v, &crlf_pat);
        let pieces = split_on(&v, '\n');
        let ghost pv = pieces.deep_view();
        let ghost ended = pv.drop_last();
        let ghost stripped = ended.map_values(|p: Seq<char>| strip_last(p, '\r'));
        let ghost flags = ended.map_values(|p: Seq<char>| ends_cr(p));
        assert(pv.len() >= 1);
        let n = pieces.len() - 1;
        let mut out: Vec<String> = Vec::new();
        let mut ends: Vec<bool> = Vec::new();
        let mut i: usize = 0;
        while i < n
            invariant
                i <= n,
                n + 1 == pieces@.len(),
                pv == pieces.deep_view(),
                ended == pv.drop_last(),
                stripped == ended.map_values(|p: Seq<char>| strip_last(p, '\r')),
                flags == ended.map_values(|p: Seq<char>| ends_cr(p)),
                out.deep_view() == stripped.take(i as int),
                ends@ == flags.take(i as int),
            decreases n - i,
        {
            let p = chars_of(pieces[i].as_str());
            let cr = p.len() > 0 && p[p.len() - 1] == '\r';
            let end = if cr {
                p.len() - 1
            } else {
                p.len()
            };
            let l = string_of_range(&p, 0, end);
            assert(ended[i as int] == pv[i as int]);
            assert(l@ == strip_last(pv[i as int], '\r'));
            let ghost before = out.deep_view();
            out.push(l);
            ends.push(cr);
            assert(out.deep_view() =~= before.push(strip_last(pv[i as int], '\r')));
            assert(stripped.take(i + 1) =~= stripped.take(i as int).push(stripped[i as int]));
            assert(flags.take(i + 1) =~= flags.take(i as int).push(flags[i as int]));
            i += 1;
        }
        assert(stripped.take(n as int) == stripped);
        assert(flags.take(n as int) == flags);
        let final_eol = pieces[n].as_str().is_empty();
        if !final_eol {
            let ghost before = out.deep_view();
            let last = copy_string(&pieces[n]);
            out.push(last);
            ends.push(crlf);
            assert(out.deep_view() =~= before.push(pv.last()));
        }
        Doc { lines: out, ends, crlf, final_eol }
    }

    /// The file text: each line followed by its own line ending, the last
    /// one only if the parsed text had one there.
    pub fn render(&self) -> (r: String)
        requires
            self.wf(),
        ensures
            r@ == render_spec(self.lines.deep_view(), self.ends@, self.final_eol),
    {
        let mut out = String::new();
        let mut i: usize = 0;
        let ghost ls = self.lines.deep_view();
        let n = self.lines.len();
        while i < n
            invariant
                i <= n,
                n == self.lines@.len(),
                self.ends@.len() == n,
                ls == self.lines.deep_view(),
                out@ == render_upto(ls, self.ends@, self.final_eol, i as int),
            decreases n - i,
        {
            out.append(self.lines[i].as_str());
            if i + 1 < n || self.final_eol {
                push_eol(&mut out, self.ends[i]);
            } else {
                assert(out@ =~= out@ + Seq::<char>::empty());
            }
            i += 1;
        }
        out
    }

    /// The lowercased keyword of line `i` (empty for blank and comment
    /// lines).
    pub fn keyword(&self, i: usize) -> (r: String)
        requires
            i < self.lines@.len(),
        ensures
            r@ == keyword_spec(self.lines.deep_view()[i as int]),
            is_content(self.lines.deep_view()[i as int]) ==> keyword_known(self.lines.deep_view()[i as int]),
    {
        line_keyword(&self.lines[i])
    }

    /// `[start, end)` ranges of every Host block.
    pub fn blocks(&self) -> (r: Vec<(usize, usize)>)
        ensures
            r@.map_values(|p: (usize, usize)| (p.0 as int, p.1 as int)) == blocks_spec(
                self.lines.deep_view(),
            ),
            forall|k: int| 0 <= k < r@.len() ==> (#[trigger] r@[k]).0 < r@[k].1 <= self.lines@.len(),
            forall|j: int|
                0 <= j < self.lines@.len() && is_content(#[trigger] self.lines.deep_view()[j]) ==> keyword_known(
                    self.lines.deep_view()[j],
                ),
    {
        let ghost ls = self.lines.deep_view();
        let mut out: Vec<(usize, usize)> = Vec::new();
        let mut open: Option<usize> = None;
        let mut i: usize = 0;
        while i < self.lines.len()
            invariant
                i <= self.lines@.len(),
                ls == self.lines.deep_view(),
                (out@.map_values(|p: (usize, usize)| (p.0 as int, p.1 as int)), match open {
                    Some(s) => Some(s as int),
                    None => None,
                }) == blocks_state(ls, i as int),
                forall|k: int| 0 <= k < out@.len() ==> (#[trigger] out@[k]).0 < out@[k].1 <= i,
                open matches Some(s) ==> s < i,
                forall|j: int| 0 <= j < i && is_content(#[trigger] ls[j]) ==> keyword_known(ls[j]),
            decreases self.lines.len() - i,
        {
            let kw = self.keyword(i);
            let is_host = str_eq(kw.as_str(), "host");
            let is_match = str_eq(kw.as_str(), "match");
            if is_host || is_match {
                if let Some(start) = open {
                    let ghost before = out@.map_values(|p: (usize, usize)| (p.0 as int, p.1 as int));
                    out.push((start, i));
                    assert(out@.map_values(|p: (usize, usize)| (p.0 as int, p.1 as int)) =~= before.push(
                        (start as int, i as int),
                    ));
                }
                open = if is_host {
                    Some(i)
                } else {
                    None
                };
            }
            i += 1;
        }
        if let Some(start) = open {
            let ghost before = out@.map_values(|p: (usize, usize)| (p.0 as int, p.1 as int));
            out.push((start, self.lines.len()));
            assert(out@.map_values(|p: (usize, usize)| (p.0 as int, p.1 as int)) =~= before.push(
                (start as int, self.lines@.len() as int),
            ));
        }
        out
    }

    /// Indentation used for options in this file, so new blocks match it.
    pub fn option_indent(&self) -> (r: String)
        ensures
            r@ == option_indent_from(self.lines.deep_view(), 0),
    {
        let ghost ls = self.lines.deep_view();
        let mut i: usize = 0;
        while i < self.lines.len()
            invariant
                i <= self.lines@.len(),
                ls == self.lines.deep_view(),
                option_indent_from(ls, 0) == option_indent_from(ls, i as int),
            decreases self.lines.len() - i,
        {
            let l = chars_of(self.lines[i].as_str());
            let a = skip_ws(&l, 0);
            proof {
                assert(l@.skip(0) == l@);
                lemma_trim_start(l@);
            }
            if a < l.len() && l[a] != '#' && a > 0 {
                assert(trim_start(l@).len() < l@.len());
                return string_of_range(&l, 0, a);
            }
            i += 1;
        }
        "    ".to_owned()
    }

    /// The block that starts at `line`, if any.
    pub fn block_at(&self, line: usize) -> (r: Option<(usize, usize)>)
        ensures
            r matches Some(b) ==> block_at_spec(self.lines.deep_view(), line as int) == Some(
                (b.0 as int, b.1 as int),
            ) && b.0 == line && b.0 < b.1 <= self.lines@.len(),
            r is None ==> block_at_spec(self.lines.deep_view(), line as int) is None,
            forall|j: int|
                0 <= j < self.lines@.len() && is_content(#[trigger] self.lines.deep_view()[j]) ==> keyword_known(
                    self.lines.deep_view()[j],
                ),
    {
        let bs = self.blocks();
        let ghost bv = bs@.map_values(|p: (usize, usize)| (p.0 as int, p.1 as int));
        let mut i: usize = 0;
        while i < bs.len()
            invariant
                i <= bs@.len(),
                bv == bs@.map_values(|p: (usize, usize)| (p.0 as int, p.1 as int)),
                bv == blocks_spec(self.lines.deep_view()),
                forall|k: int| 0 <= k < bs@.len() ==> (#[trigger] bs@[k]).0 < bs@[k].1 <= self.lines@.len(),
                find_block(bv, line as int, 0) == find_block(bv, line as int, i as int),
                forall|j: int|
                    0 <= j < self.lines@.len() && is_content(#[trigger] self.lines.deep_view()[j])
                        ==> keyword_known(self.lines.deep_view()[j]),
            decreases bs.len() - i,
        {
            if bs[i].0 == line {
                assert(bv[i as int] == (bs@[i as int].0 as int, bs@[i as int].1 as int));
                return Some(bs[i]);
            }
            i += 1;
        }
        None
    }
}

fn push_eol(s: &mut String, crlf: bool)
    ensures
        final(s)@ == old(s)@ + eol(crlf),
{
    if crlf {
        push_char(s, '\r');
        push_char(s, '\n');
        assert(old(s)@.push('\r').push('\n') =~= old(s)@ + seq!['\r', '\n']);
    } else {
        push_char(s, '\n');
        assert(old(s)@.push('\n') =~= old(s)@ + seq!['\n']);
    }
}

/// The lowercased keyword of a line (empty for blank and comment lines).
fn line_keyword(line: &String) -> (r: String)
    ensures
        r@ == keyword_spec(line@),
        is_content(line@) ==> keyword_known(line@),
{
    let c = chars_of(line.as_str());
    let (a, b) = trim_bounds(&c, 0, c.len());
    assert(c@.subrange(0, c@.len() as int) == c@);
    if a == b || c[a] == '#' {
        return String::new();
    }
    let t = string_of_range(&c, a, b);
    split_keyword(t.as_str()).0
}

/// The value of an option line (after the keyword).
fn line_value(line: &String) -> (r: String)
    ensures
        r@ == split_keyword_spec(trim(line@)).1,
{
    let c = chars_of(line.as_str());
    let (a, b) = trim_bounds(&c, 0, c.len());
    assert(c@.subrange(0, c@.len() as int) == c@);
    let t = string_of_range(&c, a, b);
    split_keyword(t.as_str()).1
}

/// Whether a line holds an option (neither blank nor a comment).
fn content_line(line: &String) -> (r: bool)
    ensures
        r == is_content(line@),
{
    let c = chars_of(line.as_str());
    let (a, b) = trim_bounds(&c, 0, c.len());
    assert(c@.subrange(0, c@.len() as int) == c@);
    a < b && c[a] != '#'
}

/// The trimmed text of a line.
fn trimmed(line: &String) -> (r: String)
    ensures
        r@ == trim(line@),
{
    crate::text::trim_str(line.as_str())
}


// ---- reading a block -------------------------------------------------------------------

/// A Host block, with the managed values in the order of `managed_key_spec`.
pub struct HostBlockV {
    pub file: Seq<char>,
    pub line: int,
    pub patterns: Seq<char>,
    pub values: Seq<Seq<char>>,
    pub others: Seq<Seq<char>>,
}

impl View for HostBlock {
    type V = HostBlockV;

    open spec fn view(&self) -> HostBlockV {
        HostBlockV {
            file: self.file@,
            line: self.line as int,
            patterns: self.patterns@,
            values: seq![
                self.hostname@,
                self.user@,
                self.port@,
                self.identity_file@,
                self.proxy_jump@,
                self.proxy_command@,
            ],
            others: self.others.deep_view(),
        }
    }
}

/// The lowercased keyword of managed option `k`.
pub open spec fn managed_lower_spec(k: int) -> Seq<char> {
    if k == 0 {
        "hostname"@
    } else if k == 1 {
        "user"@
    } else if k == 2 {
        "port"@
    } else if k == 3 {
        "identityfile"@
    } else if k == 4 {
        "proxyjump"@
    } else {
        "proxycommand"@
    }
}

/// The managed option a lowercased keyword names, or -1.
pub open spec fn slot_of(kw: Seq<char>) -> int {
    if kw == "hostname"@ {
        0
    } else if kw == "user"@ {
        1
    } else if kw == "port"@ {
        2
    } else if kw == "identityfile"@ {
        3
    } else if kw == "proxyjump"@ {
        4
    } else if kw == "proxycommand"@ {
        5
    } else {
        -1
    }
}

pub open spec fn no_values() -> Seq<Seq<char>> {
    seq![seq![], seq![], seq![], seq![], seq![], seq![]]
}

/// One body line read into `(values, others)`: a managed option fills its
/// value if still empty (ssh uses the first value; ProxyCommand stays as
/// written, the others lose their quotes); any other option line, and a
/// repeated managed option, goes to `others` trimmed. Blank lines and
/// comments are skipped.
pub open spec fn view_step(st: (Seq<Seq<char>>, Seq<Seq<char>>), line: Seq<char>) -> (
    Seq<Seq<char>>,
    Seq<Seq<char>>,
) {
    let raw = trim(line);
    if raw.len() == 0 || raw[0] == '#' {
        st
    } else {
        let (kw, value) = split_keyword_spec(raw);
        let k = slot_of(kw);
        if k >= 0 && st.0[k].len() == 0 {
            (st.0.update(k, if k == 5 { value } else { unquote_spec(value) }), st.1)
        } else {
            (st.0, st.1.push(raw))
        }
    }
}

/// Lines `lo..n` read in order.
pub open spec fn view_body(lines: Seq<Seq<char>>, lo: int, n: int) -> (
    Seq<Seq<char>>,
    Seq<Seq<char>>,
)
    decreases n - lo,
{
    if n <= lo {
        (no_values(), seq![])
    } else {
        view_step(view_body(lines, lo, n - 1), lines[n - 1])
    }
}

/// The block `[start, end)` of `lines` as the form shows it.
pub open spec fn block_view_spec(lines: Seq<Seq<char>>, file: Seq<char>, start: int, end: int) -> HostBlockV {
    let st = view_body(lines, start + 1, end);
    HostBlockV {
        file: file,
        line: start,
        patterns: split_keyword_spec(trim(lines[start])).1,
        values: st.0,
        others: st.1,
    }
}

/// The managed slot of a lowercased keyword, or 6.
fn slot_index(kw: &str) -> (r: usize)
    ensures
        r == (if slot_of(kw@) < 0 {
            6
        } else {
            slot_of(kw@)
        }),
{
    if str_eq(kw, "hostname") {
        0
    } else if str_eq(kw, "user") {
        1
    } else if str_eq(kw, "port") {
        2
    } else if str_eq(kw, "identityfile") {
        3
    } else if str_eq(kw, "proxyjump") {
        4
    } else if str_eq(kw, "proxycommand") {
        5
    } else {
        6
    }
}

/// The block `[start, end)` of `doc`, read from `file`, as the form shows it.
pub fn block_view(doc: &Doc, file: &str, start: usize, end: usize) -> (b: HostBlock)
    requires
        start < end <= doc.lines@.len(),
    ensures
        b@ == block_view_spec(doc.lines.deep_view(), file@, start as int, end as int),
{
    let ghost ls = doc.lines.deep_view();
    let mut vals: Vec<String> = vec![String::new(), String::new(), String::new(), String::new(), String::new(), String::new()];
    let mut others: Vec<String> = Vec::new();
    assert(vals.deep_view() =~= no_values());
    assert(others.deep_view() =~= Seq::<Seq<char>>::empty());
    let mut i = start + 1;
    while i < end
        invariant
            start < i <= end,
            end <= doc.lines@.len(),
            ls == doc.lines.deep_view(),
            vals@.len() == 6,
            (vals.deep_view(), others.deep_view()) == view_body(ls, start + 1, i as int),
        decreases end - i,
    {
        let raw = trimmed(&doc.lines[i]);
        let ghost before_vals = vals.deep_view();
        let ghost before_others = others.deep_view();
        let rc = chars_of(raw.as_str());
        if rc.len() == 0 || rc[0] == '#' {
        } else {
            let (kw, value) = split_keyword(raw.as_str());
            let k = slot_index(kw.as_str());
            if k < 6 && vals[k].as_str().is_empty() {
                let v = if k == 5 {
                    value
                } else {
                    unquote(value.as_str())
                };
                let ghost vv = v@;
                vals[k] = v;
                assert(vals.deep_view() =~= before_vals.update(k as int, vv));
            } else {
                others.push(raw);
                assert(others.deep_view() =~= before_others.push(trim(ls[i as int])));
            }
        }
        i += 1;
    }
    let patterns = line_value(&doc.lines[start]);
    let others_v = others;
    let proxy_command = vals.pop().unwrap();
    let proxy_jump = vals.pop().unwrap();
    let identity_file = vals.pop().unwrap();
    let port = vals.pop().unwrap();
    let user = vals.pop().unwrap();
    let hostname = vals.pop().unwrap();
    let b = HostBlock {
        file: file.to_owned(),
        line: start,
        patterns,
        hostname,
        user,
        port,
        identity_file,
        proxy_jump,
        proxy_command,
        others: others_v,
    };
    assert(b@.values =~= view_body(ls, start + 1, end as int).0);
    b
}


// ---- checking the form -----------------------------------------------------------------

pub open spec fn has_newline(s: Seq<char>) -> bool {
    s.contains('\n') || s.contains('\r')
}

/// Why the form cannot be saved, if it cannot: no alias; a line break in a
/// field; a port outside 1–65535; both ProxyJump and ProxyCommand.
pub open spec fn validate_spec(patterns: Seq<char>, values: Seq<Seq<char>>) -> Option<Seq<char>> {
    let p = trim(patterns);
    let port = trim(values[2]);
    if p.len() == 0 {
        Some("请填写别名（Host）。"@)
    } else if has_newline(p) || exists|k: int| 0 <= k < 6 && has_newline(#[trigger] values[k]) {
        Some("字段中不能包含换行。"@)
    } else if port.len() > 0 && match parse_uint(port, 65535) {
        Some(n) => n == 0,
        None => true,
    } {
        Some("端口必须在 1–65535 之间。"@)
    } else if trim(values[4]).len() > 0 && trim(values[5]).len() > 0 {
        Some("ProxyJump 和 ProxyCommand 只能选一个。"@)
    } else {
        None
    }
}

fn newline_in(s: &str) -> (r: bool)
    ensures
        r == has_newline(s@),
{
    let c = chars_of(s);
    has_char(&c, '\n') || has_char(&c, '\r')
}

/// Check the form before saving.
pub fn validate(input: &HostInput) -> (r: Result<(), String>)
    ensures
        r is Ok <==> validate_spec(input.patterns@, input.values_spec()) is None,
        r matches Err(e) ==> validate_spec(input.patterns@, input.values_spec()) == Some(e@),
{
    let patterns = trim_str(input.patterns.as_str());
    if patterns.as_str().is_empty() {
        return Err("请填写别名（Host）。".to_owned());
    }
    let mut bad = newline_in(patterns.as_str());
    let mut k: usize = 0;
    while k < 6
        invariant
            k <= 6,
            bad == (has_newline(patterns@) || exists|j: int| 0 <= j < k && has_newline(
                #[trigger] input.values_spec()[j],
            )),
        decreases 6 - k,
    {
        let ghost was = bad;
        let nl = newline_in(input.value(k).as_str());
        bad = bad || nl;
        proof {
            if nl {
                assert(has_newline(input.values_spec()[k as int]));
            }
            if bad && !was && !nl {
                assert(false);
            }
        }
        k += 1;
    }
    if bad {
        return Err("字段中不能包含换行。".to_owned());
    }
    let port = chars_of(input.port.as_str());
    let (a, b) = trim_bounds(&port, 0, port.len());
    assert(port@.subrange(0, port@.len() as int) == port@);
    if a < b {
        let ok = match parse_uint_range(&port, a, b, 65535) {
            Some(n) => n != 0,
            None => false,
        };
        if !ok {
            return Err("端口必须在 1–65535 之间。".to_owned());
        }
    }
    if !is_blank_str(input.proxy_jump.as_str()) && !is_blank_str(input.proxy_command.as_str()) {
        return Err("ProxyJump 和 ProxyCommand 只能选一个。".to_owned());
    }
    Ok(())
}

fn is_blank_str(s: &str) -> (r: bool)
    ensures
        r == (trim(s@).len() == 0),
{
    let c = chars_of(s);
    let (a, b) = trim_bounds(&c, 0, c.len());
    assert(c@.subrange(0, c@.len() as int) == c@);
    a == b
}

// ---- rewriting a block body ------------------------------------------------------------

/// The first line of `body` from `i` on whose keyword is `kw`.
pub open spec fn position_kw(body: Seq<Seq<char>>, kw: Seq<char>, i: int) -> Option<int>
    decreases body.len() - i,
{
    if i < 0 || i >= body.len() {
        None
    } else if keyword_spec(body[i]) == kw {
        Some(i)
    } else {
        position_kw(body, kw, i + 1)
    }
}

/// The last option line among the first `n` lines.
pub open spec fn last_content(body: Seq<Seq<char>>, n: int) -> Option<int>
    decreases n,
{
    if n <= 0 {
        None
    } else if is_content(body[n - 1]) {
        Some(n - 1)
    } else {
        last_content(body, n - 1)
    }
}

/// The option line the form writes for managed option `k` with value `v`.
pub open spec fn rendered_spec(indent: Seq<char>, k: int, v: Seq<char>) -> Seq<char> {
    indent + managed_key_spec(k) + seq![' '] + quote_spec(managed_key_spec(k), v)
}

/// Managed option `k` set to `value` (trimmed) in `body`: the first line
/// with its keyword is removed when the value is empty, rewritten when the
/// value differs from the one it holds (and kept byte for byte when not);
/// with no such line, a new one goes after the last option line.
pub open spec fn apply_one(body: Seq<Seq<char>>, k: int, value: Seq<char>, indent: Seq<char>) -> Seq<
    Seq<char>,
> {
    let v = trim(value);
    let line = rendered_spec(indent, k, v);
    match position_kw(body, managed_lower_spec(k), 0) {
        Some(i) => if v.len() == 0 {
            body.remove(i)
        } else {
            let old = split_keyword_spec(trim(body[i])).1;
            let same = if k == 5 {
                old == v
            } else {
                unquote_spec(old) == v
            };
            if same {
                body
            } else {
                body.update(i, line)
            }
        },
        None => if v.len() == 0 {
            body
        } else {
            let at = match last_content(body, body.len() as int) {
                Some(j) => j + 1,
                None => 0,
            };
            body.insert(at, line)
        },
    }
}

/// Managed option `k` set to `value`: the first line with its keyword is
/// removed when the trimmed value is empty, kept byte for byte when it
/// already holds that value (unquoted, but for ProxyCommand), else
/// replaced by the option written with `indent`; with no such line, a new
/// one goes right after the last option line (or first); every other line
/// keeps its text and order.
pub proof fn lemma_apply_one_law(body: Seq<Seq<char>>, k: int, value: Seq<char>, indent: Seq<char>)
    ensures
        ({
            let v = trim(value);
            let line = rendered_spec(indent, k, v);
            let r = apply_one(body, k, value, indent);
            match position_kw(body, managed_lower_spec(k), 0) {
                Some(i) => {
                    let old = split_keyword_spec(trim(body[i])).1;
                    let same = if k == 5 { old == v } else { unquote_spec(old) == v };
                    &&& v.len() == 0 ==> r == body.remove(i)
                    &&& v.len() != 0 && same ==> r == body
                    &&& v.len() != 0 && !same ==> r == body.update(i, line)
                },
                None => {
                    &&& v.len() == 0 ==> r == body
                    &&& v.len() != 0 ==> r == body.insert(
                        match last_content(body, body.len() as int) {
                            Some(j) => j + 1,
                            None => 0,
                        },
                        line,
                    )
                },
            }
        }),
{
}

/// The first `n` managed options applied in order.
pub open spec fn apply_upto(body: Seq<Seq<char>>, values: Seq<Seq<char>>, indent: Seq<char>, n: int) -> Seq<
    Seq<char>,
>
    decreases n,
{
    if n <= 0 {
        body
    } else {
        apply_one(apply_upto(body, values, indent, n - 1), n - 1, values[n - 1], indent)
    }
}

pub open spec fn apply_spec(body: Seq<Seq<char>>, values: Seq<Seq<char>>, indent: Seq<char>) -> Seq<
    Seq<char>,
> {
    apply_upto(body, values, indent, 6)
}

/// The line endings of a body as managed option `k` is applied: a removed
/// line takes its ending along, a rewritten or kept one keeps it, and an
/// inserted one gets `crlf`.
pub open spec fn apply_one_ends(body: Seq<Seq<char>>, ends: Seq<bool>, k: int, value: Seq<char>, crlf: bool) -> Seq<
    bool,
> {
    let v = trim(value);
    match position_kw(body, managed_lower_spec(k), 0) {
        Some(i) => if v.len() == 0 {
            ends.remove(i)
        } else {
            ends
        },
        None => if v.len() == 0 {
            ends
        } else {
            let at = match last_content(body, body.len() as int) {
                Some(j) => j + 1,
                None => 0,
            };
            ends.insert(at, crlf)
        },
    }
}

/// The line endings after the first `n` managed options are applied.
pub open spec fn apply_ends_upto(
    body: Seq<Seq<char>>,
    ends: Seq<bool>,
    values: Seq<Seq<char>>,
    indent: Seq<char>,
    crlf: bool,
    n: int,
) -> Seq<bool>
    decreases n,
{
    if n <= 0 {
        ends
    } else {
        apply_one_ends(
            apply_upto(body, values, indent, n - 1),
            apply_ends_upto(body, ends, values, indent, crlf, n - 1),
            n - 1,
            values[n - 1],
            crlf,
        )
    }
}

/// The line endings of `apply_spec`'s lines.
pub open spec fn apply_ends_spec(
    body: Seq<Seq<char>>,
    ends: Seq<bool>,
    values: Seq<Seq<char>>,
    indent: Seq<char>,
    crlf: bool,
) -> Seq<bool> {
    apply_ends_upto(body, ends, values, indent, crlf, 6)
}

/// The managed keywords are ASCII, and lowercase to `managed_lower_spec`.
pub open spec fn managed_keywords_lower() -> bool {
    forall|k: int| 0 <= k < 6 ==> lowercase(#[trigger] managed_key_spec(k)) == managed_lower_spec(k)
}

proof fn lemma_managed_ascii(k: int)
    requires
        0 <= k < 6,
    ensures
        vstd::utf8::is_ascii_chars(managed_key_spec(k)),
        ascii_lower_seq(managed_key_spec(k)) == managed_lower_spec(k),
{
    reveal_strlit("HostName");
    reveal_strlit("User");
    reveal_strlit("Port");
    reveal_strlit("IdentityFile");
    reveal_strlit("ProxyJump");
    reveal_strlit("ProxyCommand");
    reveal_strlit("hostname");
    reveal_strlit("user");
    reveal_strlit("port");
    reveal_strlit("identityfile");
    reveal_strlit("proxyjump");
    reveal_strlit("proxycommand");
    assert(ascii_lower_seq(managed_key_spec(k)) =~= managed_lower_spec(k));
}

fn position_kw_exec(body: &Vec<String>, kw: &str) -> (r: Option<usize>)
    ensures
        r matches Some(i) ==> i < body@.len() && position_kw(body.deep_view(), kw@, 0) == Some(
            i as int,
        ),
        r is None ==> position_kw(body.deep_view(), kw@, 0) is None,
        body@.len() > 0 && is_content(body.deep_view()[0]) ==> keyword_known(body.deep_view()[0]),
{
    let ghost bv = body.deep_view();
    let mut i: usize = 0;
    while i < body.len()
        invariant
            i <= body@.len(),
            bv == body.deep_view(),
            position_kw(bv, kw@, 0) == position_kw(bv, kw@, i as int),
            i > 0 && is_content(bv[0]) ==> keyword_known(bv[0]),
        decreases body.len() - i,
    {
        let k = line_keyword(&body[i]);
        if str_eq(k.as_str(), kw) {
            return Some(i);
        }
        i += 1;
    }
    None
}

fn last_content_exec(body: &Vec<String>) -> (r: Option<usize>)
    ensures
        r matches Some(j) ==> j < body@.len() && last_content(
            body.deep_view(),
            body@.len() as int,
        ) == Some(j as int),
        r is None ==> last_content(body.deep_view(), body@.len() as int) is None,
{
    let ghost bv = body.deep_view();
    let mut n: usize = body.len();
    while n > 0
        invariant
            n <= body@.len(),
            bv == body.deep_view(),
            last_content(bv, body@.len() as int) == last_content(bv, n as int),
        decreases n,
    {
        if content_line(&body[n - 1]) {
            return Some(n - 1);
        }
        n -= 1;
    }
    None
}

fn render_option(indent: &str, k: usize, value: &str) -> (r: String)
    requires
        k < 6,
    ensures
        r@ == rendered_spec(indent@, k as int, value@),
{
    let key = managed_key(k);
    let mut r = indent.to_owned();
    r.append(key);
    push_char(&mut r, ' ');
    let q = quote_if_needed(key, value);
    r.append(q.as_str());
    r
}

/// What rewriting a body with the form promises: every line that sets no
/// managed option is kept, in order; and every managed value that reads
/// back (see `reads_back`) is what the new body shows.
pub open spec fn written_as_asked(old: Seq<Seq<char>>, new: Seq<Seq<char>>, values: Seq<Seq<char>>) -> bool {
    &&& unmanaged(new) == unmanaged(old)
    &&& forall|k: int| 0 <= k < 6 && reads_back(k, values[k]) ==> (#[trigger] read_values(new)[k])
        == trim(values[k])
}

/// Rewrite the managed options of one block body in place, moving the
/// line endings `ends` (one per line) along with the lines.
fn apply_marked(body: &mut Vec<String>, ends: &mut Vec<bool>, input: &HostInput, indent: &str, crlf: bool)
    requires
        old(ends)@.len() == old(body)@.len(),
    ensures
        final(body).deep_view() == apply_spec(old(body).deep_view(), input.values_spec(), indent@),
        final(ends)@ == apply_ends_spec(old(body).deep_view(), old(ends)@, input.values_spec(), indent@, crlf),
        final(ends)@.len() == final(body)@.len(),
        managed_keywords_lower(),
        old(body)@.len() > 0 && is_content(old(body).deep_view()[0]) ==> keyword_known(
            old(body).deep_view()[0],
        ),
{
    let ghost b0 = body.deep_view();
    let ghost e0 = ends@;
    let ghost values = input.values_spec();
    let mut k: usize = 0;
    while k < 6
        invariant
            k <= 6,
            values == input.values_spec(),
            body.deep_view() == apply_upto(b0, values, indent@, k as int),
            ends@ == apply_ends_upto(b0, e0, values, indent@, crlf, k as int),
            ends@.len() == body@.len(),
            forall|j: int| 0 <= j < k ==> lowercase(#[trigger] managed_key_spec(j)) == managed_lower_spec(j),
            k > 0 && b0.len() > 0 && is_content(b0[0]) ==> keyword_known(b0[0]),
        decreases 6 - k,
    {
        let ghost bv = body.deep_view();
        let ghost ev = ends@;
        let key = managed_key(k);
        let value = trim_str(input.value(k).as_str());
        let lower = to_lowercase(key);
        proof {
            lemma_managed_ascii(k as int);
        }
        let hit = position_kw_exec(body, lower.as_str());
        let rendered = render_option(indent, k, value.as_str());
        let empty = value.as_str().is_empty();
        match hit {
            Some(i) => {
                if empty {
                    body.remove(i);
                    ends.remove(i);
                    assert(body.deep_view() =~= bv.remove(i as int));
                } else {
                    let old = line_value(&body[i]);
                    let same = if k == 5 {
                        str_eq(old.as_str(), value.as_str())
                    } else {
                        let u = unquote(old.as_str());
                        str_eq(u.as_str(), value.as_str())
                    };
                    if !same {
                        let ghost rv = rendered@;
                        body[i] = rendered;
                        assert(body.deep_view() =~= bv.update(i as int, rv));
                    }
                }
            },
            None => {
                if !empty {
                    let blen = body.len();
                    let at = match last_content_exec(body) {
                        Some(j) => j + 1,
                        None => 0,
                    };
                    let ghost rv = rendered@;
                    body.insert(at, rendered);
                    ends.insert(at, crlf);
                    assert(body.deep_view() =~= bv.insert(at as int, rv));
                }
            },
        }
        k += 1;
    }
}

/// Rewrite the managed options of one block body in place.
pub fn apply(body: &mut Vec<String>, input: &HostInput, indent: &str)
    ensures
        final(body).deep_view() == apply_spec(old(body).deep_view(), input.values_spec(), indent@),
        managed_keywords_lower(),
        old(body)@.len() > 0 && is_content(old(body).deep_view()[0]) ==> keyword_known(
            old(body).deep_view()[0],
        ),
        all_ws(indent@) ==> written_as_asked(
            old(body).deep_view(),
            final(body).deep_view(),
            input.values_spec(),
        ),
{
    let ghost b0 = body.deep_view();
    let ghost values = input.values_spec();
    let mut ends: Vec<bool> = Vec::new();
    let mut i: usize = 0;
    while i < body.len()
        invariant
            i <= body@.len(),
            ends@.len() == i,
        decreases body.len() - i,
    {
        ends.push(false);
        i += 1;
    }
    apply_marked(body, &mut ends, input, indent, false);
    proof {
        if all_ws(indent@) {
            lemma_apply_unmanaged(b0, values, indent@, 6);
            assert forall|k: int| 0 <= k < 6 && reads_back(k, values[k]) implies read_values(
                body.deep_view(),
            )[k] == trim(values[k]) by {
                lemma_apply_read_values(b0, values, indent@, k);
            }
        }
    }
}


// ---- saving a block --------------------------------------------------------------------

pub open spec fn stale_msg() -> Seq<char> {
    "配置文件已在别处被修改，请刷新后重试。"@
}

pub open spec fn opt_str(o: Option<String>) -> Option<Seq<char>> {
    match o {
        Some(s) => Some(s@),
        None => None,
    }
}

/// The first option line from `i` on.
pub open spec fn first_content(body: Seq<Seq<char>>, i: int) -> Option<int>
    decreases body.len() - i,
{
    if i < 0 || i >= body.len() {
        None
    } else if is_content(body[i]) {
        Some(i)
    } else {
        first_content(body, i + 1)
    }
}

/// The patterns of a Host line.
pub open spec fn patterns_of(line: Seq<char>) -> Seq<char> {
    split_keyword_spec(trim(line)).1
}

/// The lines after the block at `line` is saved with `pats` and `values`,
/// when that block is still there with the patterns `original`: the Host
/// line is rewritten (keeping its indentation) only if its patterns
/// changed, and the managed options of the body are applied with the
/// indentation of its first option line (else that of the Host line and
/// four spaces).
pub open spec fn edit_spec(
    lines: Seq<Seq<char>>,
    line: int,
    original: Option<Seq<char>>,
    pats: Seq<char>,
    values: Seq<Seq<char>>,
) -> Option<Seq<Seq<char>>> {
    match block_at_spec(lines, line) {
        Some((s, e)) => if original == Some(patterns_of(lines[s])) {
            let host = lines[s];
            let lead = indent_of(host);
            let new_host = if patterns_of(host) != pats {
                lead + "Host "@ + pats
            } else {
                host
            };
            let body = lines.subrange(s + 1, e);
            Some(lines.take(s).push(new_host) + apply_spec(body, values, edit_indent(lines, s, e)) + lines.skip(e))
        } else {
            None
        },
        None => None,
    }
}

/// The indentation options of the block `[s, e)` are written with: that of
/// its first option line, else that of the Host line and four spaces.
pub open spec fn edit_indent(lines: Seq<Seq<char>>, s: int, e: int) -> Seq<char> {
    let body = lines.subrange(s + 1, e);
    match first_content(body, 0) {
        Some(j) => indent_of(body[j]),
        None => indent_of(lines[s]) + "    "@,
    }
}

/// The line endings after `edit_spec`: the Host line and every line
/// outside the block keep theirs, and the body's move with its lines.
pub open spec fn edit_ends_spec(
    lines: Seq<Seq<char>>,
    ends: Seq<bool>,
    line: int,
    values: Seq<Seq<char>>,
    crlf: bool,
) -> Seq<bool> {
    match block_at_spec(lines, line) {
        Some((s, e)) => ends.take(s + 1) + apply_ends_spec(
            lines.subrange(s + 1, e),
            ends.subrange(s + 1, e),
            values,
            edit_indent(lines, s, e),
            crlf,
        ) + ends.skip(e),
        None => ends,
    }
}

/// Whether an alias names one host (no `*`, `?` or `!`).
pub open spec fn is_concrete(a: Seq<char>) -> bool {
    !a.contains('*') && !a.contains('?') && !a.contains('!')
}

/// Whether one of the listed patterns has the word `a`.
pub open spec fn listed_has(listed: Seq<Seq<char>>, a: Seq<char>) -> bool {
    exists|j: int| 0 <= j < listed.len() && words(#[trigger] listed[j]).contains(a)
}

/// The first concrete alias of `ws` (from `i` on) that a listed block has.
pub open spec fn first_dup(ws: Seq<Seq<char>>, listed: Seq<Seq<char>>, i: int) -> Option<Seq<char>>
    decreases ws.len() - i,
{
    if i < 0 || i >= ws.len() {
        None
    } else if is_concrete(ws[i]) && listed_has(listed, ws[i]) {
        Some(ws[i])
    } else {
        first_dup(ws, listed, i + 1)
    }
}

/// A `Match` line, or a `Host` line with a wildcard pattern: sections that
/// catch hosts a new block must come before (ssh takes the first value).
pub open spec fn is_catch_all(line: Seq<char>) -> bool {
    let kw = keyword_spec(line);
    ||| kw == "match"@
    ||| kw == "host"@ && exists|j: int|
        0 <= j < words(patterns_of(line)).len() && ((#[trigger] words(patterns_of(line))[j]).contains(
            '*',
        ) || words(patterns_of(line))[j].contains('?'))
}

/// The first catch-all line from `i` on, else the end.
pub open spec fn first_catch_all(lines: Seq<Seq<char>>, i: int) -> int
    decreases lines.len() - i,
{
    if i < 0 || i >= lines.len() {
        lines.len() as int
    } else if is_catch_all(lines[i]) {
        i
    } else {
        first_catch_all(lines, i + 1)
    }
}

/// A new block for `pats` and `values`, with the option indentation of
/// the file `lines`.
pub open spec fn new_block_spec(lines: Seq<Seq<char>>, pats: Seq<char>, values: Seq<Seq<char>>) -> Seq<
    Seq<char>,
> {
    apply_spec(seq!["Host "@ + pats], values, option_indent_from(lines, 0))
}

/// What saving an edit promises: the lines before and after the block are
/// as they were, and its body is written as asked.
pub open spec fn edit_written(old: Seq<Seq<char>>, new: Seq<Seq<char>>, line: int, values: Seq<Seq<char>>) -> bool {
    match block_at_spec(old, line) {
        Some((s, e)) => {
            let tail = old.len() - e;
            &&& new.len() >= s + 1 + tail
            &&& new.take(s) == old.take(s)
            &&& new.skip(new.len() - tail) == old.skip(e)
            &&& written_as_asked(old.subrange(s + 1, e), new.subrange(s + 1, new.len() - tail), values)
        },
        None => false,
    }
}

/// The lines after a new block for `pats` and `values` is added: before
/// the first catch-all section, set off by blank lines from its
/// neighbours, with the option indentation of the file; and the index of
/// its Host line.
pub open spec fn add_spec(lines: Seq<Seq<char>>, pats: Seq<char>, values: Seq<Seq<char>>) -> (Seq<Seq<char>>, int) {
    let block = new_block_spec(lines, pats, values);
    let at = first_catch_all(lines, 0);
    let gap = at > 0 && !is_blank(lines[at - 1]);
    let before: Seq<Seq<char>> = if gap { seq![seq![]] } else { seq![] };
    let after: Seq<Seq<char>> = if at < lines.len() { seq![seq![]] } else { seq![] };
    (lines.take(at) + before + block + after + lines.skip(at), if gap { at + 1 } else { at })
}

/// The line endings after `add_spec`: the lines around the new block keep
/// theirs; the new lines get `crlf`.
pub open spec fn add_ends_spec(
    lines: Seq<Seq<char>>,
    ends: Seq<bool>,
    pats: Seq<char>,
    values: Seq<Seq<char>>,
    crlf: bool,
) -> Seq<bool> {
    let at = first_catch_all(lines, 0);
    let gap = at > 0 && !is_blank(lines[at - 1]);
    let before: Seq<bool> = if gap { seq![crlf] } else { seq![] };
    let after: Seq<bool> = if at < lines.len() { seq![crlf] } else { seq![] };
    let block = apply_ends_spec(seq!["Host "@ + pats], seq![crlf], values, option_indent_from(lines, 0), crlf);
    ends.take(at) + before + block + after + ends.skip(at)
}

/// The patterns as the file will hold them: words joined by one space.
pub open spec fn normalized(patterns: Seq<char>) -> Seq<char> {
    join_with(words(patterns), seq![' '])
}

/// The block at `host` of `lines`, or the Host line alone.
pub open spec fn range_at(lines: Seq<Seq<char>>, host: int) -> (int, int) {
    match block_at_spec(lines, host) {
        Some(r) => r,
        None => (host, host + 1),
    }
}

/// Saving the form into a file of `lines`: its error, or the new lines and
/// the range of the saved block. An edit (file and line given) rewrites the
/// block it names; otherwise a new block is added, unless one of its
/// concrete aliases is already used by a `listed` block.
pub open spec fn save_spec(lines: Seq<Seq<char>>, input: HostInput, listed: Seq<Seq<char>>) -> Result<
    (Seq<Seq<char>>, (int, int)),
    Seq<char>,
> {
    let pats = normalized(input.patterns@);
    let values = input.values_spec();
    match validate_spec(input.patterns@, values) {
        Some(e) => Err(e),
        None => if input.file is Some && input.line is Some {
            let line = input.line->0 as int;
            match edit_spec(lines, line, opt_str(input.original_patterns), pats, values) {
                Some(nl) => Ok((nl, range_at(nl, line))),
                None => Err(stale_msg()),
            }
        } else {
            match first_dup(words(pats), listed, 0) {
                Some(dup) => Err("主机「"@ + dup + "」已存在。"@),
                None => {
                    let (nl, host) = add_spec(lines, pats, values);
                    Ok((nl, range_at(nl, host)))
                },
            }
        },
    }
}

fn stale() -> (r: String)
    ensures
        r@ == stale_msg(),
{
    "配置文件已在别处被修改，请刷新后重试。".to_owned()
}

/// Copies of `v[lo..hi]`.
fn clone_range(v: &Vec<String>, lo: usize, hi: usize) -> (r: Vec<String>)
    requires
        lo <= hi <= v@.len(),
    ensures
        r.deep_view() == v.deep_view().subrange(lo as int, hi as int),
{
    let mut r: Vec<String> = Vec::new();
    let mut i = lo;
    while i < hi
        invariant
            lo <= i <= hi <= v@.len(),
            r.deep_view() == v.deep_view().subrange(lo as int, i as int),
        decreases hi - i,
    {
        let ghost before = r.deep_view();
        let c = copy_string(&v[i]);
        assert(c@ == v.deep_view()[i as int]);
        let ghost cv = c@;
        r.push(c);
        assert(r.deep_view() =~= before.push(cv));
        assert(r.deep_view() =~= v.deep_view().subrange(lo as int, i + 1));
        i += 1;
    }
    r
}

/// `v[lo..hi]`.
fn flags_range(v: &Vec<bool>, lo: usize, hi: usize) -> (r: Vec<bool>)
    requires
        lo <= hi <= v@.len(),
    ensures
        r@ == v@.subrange(lo as int, hi as int),
{
    let mut r: Vec<bool> = Vec::new();
    let mut i = lo;
    while i < hi
        invariant
            lo <= i <= hi <= v@.len(),
            r@ == v@.subrange(lo as int, i as int),
        decreases hi - i,
    {
        r.push(v[i]);
        assert(r@ =~= v@.subrange(lo as int, i + 1));
        i += 1;
    }
    r
}

/// `src` added to the end of `dst`.
fn append_flags(dst: &mut Vec<bool>, src: &Vec<bool>)
    ensures
        final(dst)@ == old(dst)@ + src@,
{
    let mut i: usize = 0;
    while i < src.len()
        invariant
            i <= src@.len(),
            dst@ == old(dst)@ + src@.take(i as int),
        decreases src.len() - i,
    {
        dst.push(src[i]);
        assert(src@.take(i + 1) =~= src@.take(i as int).push(src@[i as int]));
        i += 1;
    }
    assert(src@.take(src@.len() as int) =~= src@);
}

/// Move all of `src` onto the end of `dst`.
fn append_lines(dst: &mut Vec<String>, src: Vec<String>)
    ensures
        final(dst).deep_view() == old(dst).deep_view() + src.deep_view(),
{
    let ghost d0 = dst.deep_view();
    let ghost sv = src.deep_view();
    let mut src = src;
    let mut rest: Vec<String> = Vec::new();
    // reverse into `rest`, then pop back in order
    while src.len() > 0
        invariant
            dst.deep_view() == d0,
            sv == src.deep_view() + rest.deep_view().reverse(),
        decreases src.len(),
    {
        let ghost s0 = src.deep_view();
        let ghost r0 = rest.deep_view();
        let x = src.pop().unwrap();
        rest.push(x);
        assert(s0 == src.deep_view().push(x@));
        assert(rest.deep_view().reverse() =~= seq![x@] + r0.reverse());
        assert(sv =~= src.deep_view() + rest.deep_view().reverse());
    }
    assert(sv =~= rest.deep_view().reverse());
    while rest.len() > 0
        invariant
            dst.deep_view() + rest.deep_view().reverse() == d0 + sv,
        decreases rest.len(),
    {
        let ghost r0 = rest.deep_view();
        let ghost dd = dst.deep_view();
        let x = rest.pop().unwrap();
        assert(r0 == rest.deep_view().push(x@));
        assert(r0.reverse() =~= seq![x@] + rest.deep_view().reverse());
        dst.push(x);
        assert(dst.deep_view() + rest.deep_view().reverse() =~= dd + r0.reverse());
    }
    assert(rest.deep_view().reverse() =~= Seq::<Seq<char>>::empty());
    assert(dst.deep_view() =~= d0 + sv);
}

/// `words` joined by single spaces.
fn join_words(ws: &Vec<String>) -> (r: String)
    ensures
        r@ == join_with(ws.deep_view(), seq![' ']),
{
    let ghost wv = ws.deep_view();
    let mut r = String::new();
    let mut i: usize = 0;
    while i < ws.len()
        invariant
            i <= ws@.len(),
            wv == ws.deep_view(),
            r@ == join_with(wv.take(i as int), seq![' ']),
        decreases ws.len() - i,
    {
        assert(wv.take(i + 1).drop_last() == wv.take(i as int));
        assert(wv.take(i + 1).last() == wv[i as int]);
        if i > 0 {
            push_char(&mut r, ' ');
        }
        r.append(ws[i].as_str());
        proof {
            if i == 0 {
                assert(wv.take(0).len() == 0);
            }
        }
        i += 1;
    }
    assert(wv.take(ws@.len() as int) == wv);
    r
}

/// The leading whitespace of a line.
fn indent_str(l: &String) -> (r: String)
    ensures
        r@ == indent_of(l@),
{
    let c = chars_of(l.as_str());
    let a = skip_ws(&c, 0);
    proof {
        lemma_trim_start(c@);
        assert(c@.skip(0) == c@);
        assert(c@.skip(a as int).len() == c@.skip(lead_ws(c@) as int).len());
    }
    string_of_range(&c, 0, a)
}

fn first_content_exec(body: &Vec<String>) -> (r: Option<usize>)
    ensures
        r matches Some(j) ==> j < body@.len() && first_content(body.deep_view(), 0) == Some(
            j as int,
        ),
        r is None ==> first_content(body.deep_view(), 0) is None,
{
    let ghost bv = body.deep_view();
    let mut i: usize = 0;
    while i < body.len()
        invariant
            i <= body@.len(),
            bv == body.deep_view(),
            first_content(bv, 0) == first_content(bv, i as int),
        decreases body.len() - i,
    {
        if content_line(&body[i]) {
            return Some(i);
        }
        i += 1;
    }
    None
}

/// Save an existing block (the edit case of `save_block`).
fn edit_in(doc: &mut Doc, file: &str, input: &HostInput, line: usize, pats: &String) -> (r: Result<
    HostBlock,
    String,
>)
    requires
        old(doc).wf(),
    ensures
        final(doc).crlf == old(doc).crlf,
        final(doc).final_eol == old(doc).final_eol,
        final(doc).wf(),
        r is Ok ==> final(doc).ends@ == edit_ends_spec(
            old(doc).lines.deep_view(),
            old(doc).ends@,
            line as int,
            input.values_spec(),
            old(doc).crlf,
        ),
        r is Err ==> final(doc).ends@ == old(doc).ends@,
        r is Ok <==> edit_spec(
            old(doc).lines.deep_view(),
            line as int,
            opt_str(input.original_patterns),
            pats@,
            input.values_spec(),
        ) is Some,
        r matches Ok(b) ==> Some(final(doc).lines.deep_view()) == edit_spec(
            old(doc).lines.deep_view(),
            line as int,
            opt_str(input.original_patterns),
            pats@,
            input.values_spec(),
        ) && b@ == block_view_spec(
            final(doc).lines.deep_view(),
            file@,
            range_at(final(doc).lines.deep_view(), line as int).0,
            range_at(final(doc).lines.deep_view(), line as int).1,
        ),
        r matches Err(e) ==> e@ == stale_msg() && final(doc).lines.deep_view() == old(
            doc,
        ).lines.deep_view(),
        r is Ok ==> edit_written(
            old(doc).lines.deep_view(),
            final(doc).lines.deep_view(),
            line as int,
            input.values_spec(),
        ),
        r matches Ok(b) ==> forall|k: int|
            0 <= k < 6 && reads_back(k, input.values_spec()[k]) ==> (#[trigger] b@.values[k]) == trim(
                input.values_spec()[k],
            ),
{
    let ghost ls = doc.lines.deep_view();
    let (start, end) = match doc.block_at(line) {
        Some(b) => b,
        None => {
            return Err(stale());
        },
    };
    let cur = line_value(&doc.lines[start]);
    let same_original = match &input.original_patterns {
        Some(o) => str_eq(cur.as_str(), o.as_str()),
        None => false,
    };
    if !same_original {
        return Err(stale());
    }
    let lead = indent_str(&doc.lines[start]);
    let new_host = if !str_eq(cur.as_str(), pats.as_str()) {
        let mut h = lead.clone();
        h.append("Host ");
        h.append(pats.as_str());
        h
    } else {
        copy_string(&doc.lines[start])
    };
    let mut body = clone_range(&doc.lines, start + 1, end);
    let indent = match first_content_exec(&body) {
        Some(j) => indent_str(&body[j]),
        None => {
            let mut d = lead.clone();
            d.append("    ");
            d
        },
    };
    proof {
        lemma_indent_ws(ls[start as int]);
        lemma_four_spaces();
        lemma_ws_cat(indent_of(ls[start as int]), "    "@);
        if body@.len() > 0 {
            let bv = body.deep_view();
            if first_content(bv, 0) is Some {
                lemma_indent_ws(bv[first_content(bv, 0)->0]);
            }
        }
    }
    let ghost body0 = body.deep_view();
    let ghost es = doc.ends@;
    let mut body_ends = flags_range(&doc.ends, start + 1, end);
    apply_marked(&mut body, &mut body_ends, input, indent.as_str(), doc.crlf);
    proof {
        if all_ws(indent@) {
            lemma_apply_unmanaged(body0, input.values_spec(), indent@, 6);
            assert forall|k: int| 0 <= k < 6 && reads_back(k, input.values_spec()[k]) implies read_values(
                body.deep_view(),
            )[k] == trim(input.values_spec()[k]) by {
                lemma_apply_read_values(body0, input.values_spec(), indent@, k);
            }
        }
    }
    let ghost body1 = body.deep_view();
    let ghost nh = new_host@;
    let mut out_ends = flags_range(&doc.ends, 0, start + 1);
    append_flags(&mut out_ends, &body_ends);
    let tail_ends = flags_range(&doc.ends, end, doc.ends.len());
    append_flags(&mut out_ends, &tail_ends);
    let mut out = clone_range(&doc.lines, 0, start);
    out.push(new_host);
    append_lines(&mut out, body);
    let tail = clone_range(&doc.lines, end, doc.lines.len());
    append_lines(&mut out, tail);
    proof {
        assert(ls.subrange(0, start as int) == ls.take(start as int));
        assert(ls.subrange(end as int, ls.len() as int) == ls.skip(end as int));
        let nl = out.deep_view();
        let t = ls.len() - end;
        assert(body0 == ls.subrange(start + 1, end as int));
        assert(nl.take(start as int) =~= ls.take(start as int));
        assert(nl.skip(nl.len() - t) =~= ls.skip(end as int));
        assert(nl.subrange(start + 1, nl.len() - t) =~= body1);
    }
    doc.lines = out;
    doc.ends = out_ends;
    proof {
        assert(es.subrange(0, start + 1) == es.take(start + 1));
        assert(es.subrange(end as int, es.len() as int) == es.skip(end as int));
        assert(indent@ == edit_indent(ls, start as int, end as int));
        assert(doc.ends@ =~= edit_ends_spec(ls, es, line as int, input.values_spec(), doc.crlf)) by {
            lemma_block_at(ls, line as int);
        }
    }
    let (s, e) = match doc.block_at(start) {
        Some(b) => b,
        None => (start, start + 1),
    };
    proof {
        let nl = doc.lines.deep_view();
        assert(nl =~= ls.take(start as int).push(nh) + body1 + ls.skip(end as int));
        assert(Some(nl) == edit_spec(
            ls,
            line as int,
            opt_str(input.original_patterns),
            pats@,
            input.values_spec(),
        ));
        assert(nl[start as int] == nh);
        lemma_block_at(ls, line as int);
        if nh != ls[start as int] {
            let lead_v = indent_of(ls[start as int]);
            let hv = "Host "@ + pats@;
            assert(nh == lead_v + hv);
            lemma_new_host_line(pats@);
            lemma_trim_ws_prefix(lead_v, hv);
            lemma_host_keyword(pats@);
        }
        lemma_edit_reads_back(
            ls,
            nl,
            line as int,
            opt_str(input.original_patterns),
            pats@,
            input.values_spec(),
            file@,
        );
    }
    let b = block_view(doc, file, s, e);
    proof {
        let nl = doc.lines.deep_view();
        assert((s as int, e as int) == range_at(nl, line as int));
        assert(b@ == block_view_spec(nl, file@, range_at(nl, line as int).0, range_at(nl, line as int).1));
    }
    Ok(b)
}


proof fn lemma_position_kw(body: Seq<Seq<char>>, kw: Seq<char>, i: int)
    requires
        0 <= i,
    ensures
        position_kw(body, kw, i) matches Some(j) ==> i <= j < body.len() && keyword_spec(body[j])
            == kw,
    decreases body.len() - i,
{
    if i < body.len() && keyword_spec(body[i]) != kw {
        lemma_position_kw(body, kw, i + 1);
    }
}

proof fn lemma_last_content(body: Seq<Seq<char>>, n: int)
    requires
        0 <= n <= body.len(),
    ensures
        last_content(body, n) matches Some(j) ==> 0 <= j < n,
        n > 0 && is_content(body[0]) ==> last_content(body, n) is Some,
    decreases n,
{
    if n > 0 && !is_content(body[n - 1]) {
        lemma_last_content(body, n - 1);
    }
}

/// Applying the managed options to a body whose first line is an option
/// line that is not managed leaves that line first.
proof fn lemma_apply_keeps_head(body: Seq<Seq<char>>, values: Seq<Seq<char>>, indent: Seq<char>, n: int)
    requires
        body.len() > 0,
        is_content(body[0]),
        forall|k: int| 0 <= k < 6 ==> keyword_spec(body[0]) != #[trigger] managed_lower_spec(k),
        0 <= n <= 6,
    ensures
        apply_upto(body, values, indent, n).len() > 0,
        apply_upto(body, values, indent, n)[0] == body[0],
    decreases n,
{
    if n > 0 {
        lemma_apply_keeps_head(body, values, indent, n - 1);
        let b = apply_upto(body, values, indent, n - 1);
        let k = n - 1;
        assert(keyword_spec(body[0]) != managed_lower_spec(k));
        lemma_position_kw(b, managed_lower_spec(k), 0);
        lemma_last_content(b, b.len() as int);
    }
}

proof fn lemma_kw_len_host(t: Seq<char>)
    requires
        t.len() >= 4,
        t.take(4) == "Host"@,
        t.len() > 4 ==> t[4] == ' ',
    ensures
        kw_len(t) == 4,
{
    reveal_strlit("Host");
    reveal_with_fuel(kw_len, 6);
    let h = t.take(4);
    assert(h[0] == t[0] && h[1] == t[1] && h[2] == t[2] && h[3] == t[3]);
    assert(h[0] == 'H' && h[1] == 'o' && h[2] == 's' && h[3] == 't');
    assert(t.drop_first().drop_first().drop_first().drop_first() =~= t.skip(4));
}

/// The Host line of a new block reads back as a `Host` line.
proof fn lemma_new_host_line(pats: Seq<char>)
    ensures
        is_content("Host "@ + pats),
        raw_keyword("Host "@ + pats) == "Host"@,
{
    reveal_strlit("Host ");
    reveal_strlit("Host");
    let l = "Host "@ + pats;
    assert(l[0] == 'H' && l[1] == 'o' && l[2] == 's' && l[3] == 't' && l[4] == ' ');
    lemma_trim_start(l);
    assert(lead_ws(l) == 0) by {
        reveal_with_fuel(lead_ws, 2);
    }
    assert(trim_start(l) == l);
    crate::text::lemma_trim_end(l);
    let t = trim(l);
    assert(t.len() >= 4) by {
        if t.len() < 4 {
            assert(crate::text::is_ws(l[3]));
        }
    }
    assert(t == l.take(t.len() as int));
    assert(t.take(4) =~= "Host"@);
    lemma_kw_len_host(t);
}

proof fn lemma_host_keyword(pats: Seq<char>)
    requires
        keyword_known("Host "@ + pats),
    ensures
        keyword_spec("Host "@ + pats) == "host"@,
        forall|k: int| 0 <= k < 6 ==> keyword_spec("Host "@ + pats) != #[trigger] managed_lower_spec(k),
{
    lemma_new_host_line(pats);
    reveal_strlit("Host");
    reveal_strlit("host");
    reveal_strlit("hostname");
    reveal_strlit("user");
    reveal_strlit("port");
    reveal_strlit("identityfile");
    reveal_strlit("proxyjump");
    reveal_strlit("proxycommand");
    assert(ascii_lower_seq("Host"@) =~= "host"@);
    assert forall|k: int| 0 <= k < 6 implies "host"@ != #[trigger] managed_lower_spec(k) by {
        if k == 1 {
            assert("host"@[0] != "user"@[0]);
        } else if k == 2 {
            assert("host"@[0] != "port"@[0]);
        } else {
            assert("host"@.len() != managed_lower_spec(k).len());
        }
    }
}

/// Whether a line opens a catch-all section.
fn catch_all(line: &String) -> (r: bool)
    ensures
        r == is_catch_all(line@),
{
    let kw = line_keyword(line);
    if str_eq(kw.as_str(), "match") {
        return true;
    }
    if !str_eq(kw.as_str(), "host") {
        return false;
    }
    let v = line_value(line);
    let vc = chars_of(v.as_str());
    let ws = split_ws(&vc);
    let ghost wv = ws.deep_view();
    let mut j: usize = 0;
    while j < ws.len()
        invariant
            j <= ws@.len(),
            wv == ws.deep_view(),
            wv == words(patterns_of(line@)),
            keyword_spec(line@) == "host"@,
            forall|i: int| 0 <= i < j ==> !(#[trigger] wv[i]).contains('*') && !wv[i].contains('?'),
        decreases ws.len() - j,
    {
        let w = chars_of(ws[j].as_str());
        if has_char(&w, '*') || has_char(&w, '?') {
            assert(wv[j as int] == w@);
            assert(words(patterns_of(line@))[j as int].contains('*') || words(
                patterns_of(line@),
            )[j as int].contains('?'));
            assert(0 <= j < words(patterns_of(line@)).len());
            assert(is_catch_all(line@));
            return true;
        }
        j += 1;
    }
    false
}

fn first_catch_all_exec(doc: &Doc) -> (r: usize)
    ensures
        r as int == first_catch_all(doc.lines.deep_view(), 0),
        r <= doc.lines@.len(),
{
    let ghost ls = doc.lines.deep_view();
    let mut i: usize = 0;
    while i < doc.lines.len()
        invariant
            i <= doc.lines@.len(),
            ls == doc.lines.deep_view(),
            first_catch_all(ls, 0) == first_catch_all(ls, i as int),
        decreases doc.lines.len() - i,
    {
        if catch_all(&doc.lines[i]) {
            return i;
        }
        i += 1;
    }
    i
}

/// Add a new block (the add case of `save_block`).
fn add_in(doc: &mut Doc, file: &str, input: &HostInput, pats: &String) -> (b: HostBlock)
    requires
        old(doc).wf(),
    ensures
        final(doc).final_eol == old(doc).final_eol,
        final(doc).wf(),
        final(doc).ends@ == add_ends_spec(
            old(doc).lines.deep_view(),
            old(doc).ends@,
            pats@,
            input.values_spec(),
            old(doc).crlf,
        ),
        written_as_asked(
            seq!["Host "@ + pats@],
            new_block_spec(old(doc).lines.deep_view(), pats@, input.values_spec()),
            input.values_spec(),
        ),
        final(doc).crlf == old(doc).crlf,
        final(doc).lines.deep_view() == add_spec(old(doc).lines.deep_view(), pats@, input.values_spec()).0,
        b@ == block_view_spec(
            final(doc).lines.deep_view(),
            file@,
            range_at(final(doc).lines.deep_view(), add_spec(old(doc).lines.deep_view(), pats@, input.values_spec()).1).0,
            range_at(final(doc).lines.deep_view(), add_spec(old(doc).lines.deep_view(), pats@, input.values_spec()).1).1,
        ),
        forall|k: int|
            0 <= k < 6 && reads_back(k, input.values_spec()[k]) ==> (#[trigger] b@.values[k]) == trim(
                input.values_spec()[k],
            ),
{
    let ghost ls = doc.lines.deep_view();
    let indent = doc.option_indent();
    let host = cat("Host ", pats.as_str());
    let ghost hv = host@;
    let mut block: Vec<String> = Vec::new();
    block.push(host);
    assert(block.deep_view() =~= seq!["Host "@ + pats@]);
    proof {
        lemma_new_host_line(pats@);
        lemma_option_indent_ws(ls, 0);
    }
    let ghost es = doc.ends@;
    let mut block_ends: Vec<bool> = Vec::new();
    block_ends.push(doc.crlf);
    assert(block_ends@ =~= seq![doc.crlf]);
    apply_marked(&mut block, &mut block_ends, input, indent.as_str(), doc.crlf);
    proof {
        let b0 = seq![hv];
        lemma_apply_unmanaged(b0, input.values_spec(), indent@, 6);
        assert forall|k: int| 0 <= k < 6 && reads_back(k, input.values_spec()[k]) implies read_values(
            block.deep_view(),
        )[k] == trim(input.values_spec()[k]) by {
            lemma_apply_read_values(b0, input.values_spec(), indent@, k);
        }
    }
    proof {
        lemma_host_keyword(pats@);
        lemma_apply_keeps_head(seq![hv], input.values_spec(), indent@, 6);
    }
    let at = first_catch_all_exec(doc);
    let gap = at > 0 && !blank_line(&doc.lines[at - 1]);
    let ghost before: Seq<Seq<char>> = if gap { seq![seq![]] } else { seq![] };
    let ghost after: Seq<Seq<char>> = if at < ls.len() { seq![seq![]] } else { seq![] };
    let ghost before_e: Seq<bool> = if gap { seq![doc.crlf] } else { seq![] };
    let ghost after_e: Seq<bool> = if at < ls.len() { seq![doc.crlf] } else { seq![] };
    let ghost be = block_ends@;
    let mut out_ends = flags_range(&doc.ends, 0, at);
    if gap {
        out_ends.push(doc.crlf);
    }
    append_flags(&mut out_ends, &block_ends);
    if at < doc.lines.len() {
        out_ends.push(doc.crlf);
    }
    let tail_ends = flags_range(&doc.ends, at, doc.ends.len());
    append_flags(&mut out_ends, &tail_ends);
    assert(out_ends@ =~= es.take(at as int) + before_e + be + after_e + es.skip(at as int));
    let mut out = clone_range(&doc.lines, 0, at);
    assert(ls.subrange(0, at as int) == ls.take(at as int));
    if gap {
        let ghost o0 = out.deep_view();
        out.push(String::new());
        assert(out.deep_view() =~= o0 + before);
    } else {
        assert(out.deep_view() =~= ls.take(at as int) + before);
    }
    let host_line = out.len();
    let ghost bv = block.deep_view();
    append_lines(&mut out, block);
    if at < doc.lines.len() {
        let ghost o1 = out.deep_view();
        out.push(String::new());
        assert(out.deep_view() =~= o1 + after);
    } else {
        assert(out.deep_view() =~= out.deep_view() + after);
    }
    let tail = clone_range(&doc.lines, at, doc.lines.len());
    assert(ls.subrange(at as int, ls.len() as int) == ls.skip(at as int));
    append_lines(&mut out, tail);
    assert(out.deep_view() =~= ls.take(at as int) + before + bv + after + ls.skip(at as int));
    assert(host_line < out@.len());
    doc.lines = out;
    doc.ends = out_ends;
    let n = doc.lines.len();
    assert(host_line < n);
    let (s, e) = match doc.block_at(host_line) {
        Some(b) => b,
        None => (host_line, host_line + 1),
    };
    let b = block_view(doc, file, s, e);
    proof {
        lemma_add_reads_back(ls, pats@, input.values_spec(), file@);
        let (nl, h) = add_spec(ls, pats@, input.values_spec());
        assert(h == host_line);
        assert((s as int, e as int) == range_at(nl, h));
    }
    b
}

fn blank_line(l: &String) -> (r: bool)
    ensures
        r == is_blank(l@),
{
    let c = chars_of(l.as_str());
    blank(&c)
}

/// The concrete aliases of `pats` (from `i` on) that a listed block has:
/// the first one.
fn first_dup_exec(ws: &Vec<String>, listed: &Vec<HostBlock>) -> (r: Option<String>)
    ensures
        opt_str(r) == first_dup(ws.deep_view(), listed_patterns(listed@), 0),
{
    let ghost wv = ws.deep_view();
    let ghost lp = listed_patterns(listed@);
    let mut i: usize = 0;
    while i < ws.len()
        invariant
            i <= ws@.len(),
            wv == ws.deep_view(),
            lp == listed_patterns(listed@),
            first_dup(wv, lp, 0) == first_dup(wv, lp, i as int),
        decreases ws.len() - i,
    {
        let w = chars_of(ws[i].as_str());
        let concrete = !has_char(&w, '*') && !has_char(&w, '?') && !has_char(&w, '!');
        if concrete {
            let mut j: usize = 0;
            while j < listed.len()
                invariant
                    j <= listed@.len(),
                    i < ws@.len(),
                    wv == ws.deep_view(),
                    lp == listed_patterns(listed@),
                    w@ == wv[i as int],
                    is_concrete(w@),
                    first_dup(wv, lp, 0) == first_dup(wv, lp, i as int),
                    forall|q: int| 0 <= q < j ==> !words(#[trigger] lp[q]).contains(w@),
                decreases listed.len() - j,
            {
                let pc = chars_of(listed[j].patterns.as_str());
                let pw = split_ws(&pc);
                let mut q: usize = 0;
                while q < pw.len()
                    invariant
                        q <= pw@.len(),
                        j < listed@.len(),
                        i < ws@.len(),
                        wv == ws.deep_view(),
                        w@ == wv[i as int],
                        is_concrete(w@),
                        first_dup(wv, lp, 0) == first_dup(wv, lp, i as int),
                        pw.deep_view() == words(lp[j as int]),
                        lp == listed_patterns(listed@),
                        forall|t: int| 0 <= t < q ==> pw.deep_view()[t] != w@,
                    decreases pw.len() - q,
                {
                    if str_eq(pw[q].as_str(), ws[i].as_str()) {
                        assert(pw.deep_view()[q as int] == w@);
                        assert(words(lp[j as int]).contains(w@));
                        assert(listed_has(lp, wv[i as int]));
                        return Some(copy_string(&ws[i]));
                    }
                    q += 1;
                }
                assert(!words(lp[j as int]).contains(w@));
                j += 1;
            }
            assert(!listed_has(lp, wv[i as int]));
        }
        i += 1;
    }
    None
}

/// The patterns of listed blocks.
pub open spec fn listed_patterns(listed: Seq<HostBlock>) -> Seq<Seq<char>> {
    listed.map_values(|b: HostBlock| b.patterns@)
}

/// Save the form into the file `file`, whose text is `doc`. An edit (the
/// input names a file and a line) rewrites that block if it is still there
/// with the original patterns; otherwise a new block is added, unless one
/// of its concrete aliases is taken by one of the `listed` blocks (all the
/// blocks the main config shows, includes followed). Returns the block as
/// saved; on error `doc` is unchanged.
pub fn save_block(doc: &mut Doc, file: &str, input: &HostInput, listed: &Vec<HostBlock>) -> (r:
    Result<HostBlock, String>)
    requires
        old(doc).wf(),
    ensures
        final(doc).crlf == old(doc).crlf,
        final(doc).final_eol == old(doc).final_eol,
        final(doc).wf(),
        r is Err ==> final(doc).ends@ == old(doc).ends@,
        r is Ok && input.file is Some && input.line is Some ==> final(doc).ends@ == edit_ends_spec(
            old(doc).lines.deep_view(),
            old(doc).ends@,
            input.line->0 as int,
            input.values_spec(),
            old(doc).crlf,
        ),
        r is Ok && !(input.file is Some && input.line is Some) ==> final(doc).ends@ == add_ends_spec(
            old(doc).lines.deep_view(),
            old(doc).ends@,
            normalized(input.patterns@),
            input.values_spec(),
            old(doc).crlf,
        ),
        match save_spec(old(doc).lines.deep_view(), *input, listed_patterns(listed@)) {
            Ok((nl, (s, e))) => r matches Ok(b) && final(doc).lines.deep_view() == nl && b@
                == block_view_spec(nl, file@, s, e),
            Err(m) => r matches Err(e) && e@ == m && final(doc).lines.deep_view() == old(
                doc,
            ).lines.deep_view(),
        },
        r is Ok && input.file is Some && input.line is Some ==> edit_written(
            old(doc).lines.deep_view(),
            final(doc).lines.deep_view(),
            input.line->0 as int,
            input.values_spec(),
        ),
        r is Ok && !(input.file is Some && input.line is Some) ==> written_as_asked(
            seq!["Host "@ + normalized(input.patterns@)],
            new_block_spec(
                old(doc).lines.deep_view(),
                normalized(input.patterns@),
                input.values_spec(),
            ),
            input.values_spec(),
        ),
        r matches Ok(b) ==> forall|k: int|
            0 <= k < 6 && reads_back(k, input.values_spec()[k]) ==> (#[trigger] b@.values[k]) == trim(
                input.values_spec()[k],
            ),
{
    match validate(input) {
        Ok(()) => {},
        Err(e) => {
            return Err(e);
        },
    }
    let pc = chars_of(input.patterns.as_str());
    let ws = split_ws(&pc);
    let pats = join_words(&ws);
    if input.file.is_some() && input.line.is_some() {
        let line = match input.line {
            Some(l) => l,
            None => 0,
        };
        edit_in(doc, file, input, line, &pats)
    } else {
        let pw = chars_of(pats.as_str());
        let pws = split_ws(&pw);
        match first_dup_exec(&pws, listed) {
            Some(dup) => {
                let mut m = "主机「".to_owned();
                m.append(dup.as_str());
                m.append("」已存在。");
                return Err(m);
            },
            None => {},
        }
        Ok(add_in(doc, file, input, &pats))
    }
}


// ---- deleting a block ------------------------------------------------------------------

/// `ls` without its trailing blank lines.
pub open spec fn drop_trailing_blank(ls: Seq<Seq<char>>) -> Seq<Seq<char>>
    decreases ls.len(),
{
    if ls.len() > 0 && is_blank(ls.last()) {
        drop_trailing_blank(ls.drop_last())
    } else {
        ls
    }
}

proof fn lemma_drop_trailing_blank_len(ls: Seq<Seq<char>>)
    ensures
        drop_trailing_blank(ls).len() <= ls.len(),
    decreases ls.len(),
{
    if ls.len() > 0 && is_blank(ls.last()) {
        lemma_drop_trailing_blank_len(ls.drop_last());
    }
}

/// The lines after deleting the block at `line`, if it is still there with
/// `patterns`: the block goes, the blank line left between its neighbours
/// is collapsed, and trailing blank lines are dropped.
pub open spec fn delete_spec(lines: Seq<Seq<char>>, line: int, patterns: Seq<char>) -> Option<
    Seq<Seq<char>>,
> {
    match block_at_spec(lines, line) {
        Some((s, e)) => if patterns_of(lines[s]) == patterns {
            let l1 = lines.take(s) + lines.skip(e);
            let l2 = if s > 0 && s < l1.len() && is_blank(l1[s - 1]) && is_blank(l1[s]) {
                l1.remove(s)
            } else {
                l1
            };
            Some(drop_trailing_blank(l2))
        } else {
            None
        },
        None => None,
    }
}

/// The line endings after `delete_spec`: the remaining lines keep theirs.
pub open spec fn delete_ends_spec(lines: Seq<Seq<char>>, ends: Seq<bool>, line: int, patterns: Seq<char>) -> Seq<
    bool,
> {
    match block_at_spec(lines, line) {
        Some((s, e)) => if patterns_of(lines[s]) == patterns {
            let l1 = lines.take(s) + lines.skip(e);
            let e1 = ends.take(s) + ends.skip(e);
            let collapse = s > 0 && s < l1.len() && is_blank(l1[s - 1]) && is_blank(l1[s]);
            let l2 = if collapse { l1.remove(s) } else { l1 };
            let e2 = if collapse { e1.remove(s) } else { e1 };
            e2.take(drop_trailing_blank(l2).len() as int)
        } else {
            ends
        },
        None => ends,
    }
}

/// The lines of `ls` that are not blank, in order.
pub open spec fn nonblank_lines(ls: Seq<Seq<char>>) -> Seq<Seq<char>> {
    ls.filter(|l: Seq<char>| !is_blank(l))
}

proof fn lemma_nonblank_add(a: Seq<Seq<char>>, c: Seq<Seq<char>>)
    ensures
        nonblank_lines(a + c) == nonblank_lines(a) + nonblank_lines(c),
{
    let p = |l: Seq<char>| !is_blank(l);
    Seq::filter_distributes_over_add(a, c, p);
}

proof fn lemma_nonblank_single(x: Seq<char>)
    ensures
        nonblank_lines(seq![x]) == (if is_blank(x) {
            Seq::<Seq<char>>::empty()
        } else {
            seq![x]
        }),
{
    reveal_with_fuel(Seq::filter, 2);
    assert(seq![x].drop_last() =~= Seq::<Seq<char>>::empty());
}

/// Dropping trailing blank lines keeps a prefix, ends on a line that is
/// not blank, and keeps every line that is not blank.
proof fn lemma_drop_trailing_blank(ls: Seq<Seq<char>>)
    ensures
        drop_trailing_blank(ls) == ls.take(drop_trailing_blank(ls).len() as int),
        drop_trailing_blank(ls).len() <= ls.len(),
        drop_trailing_blank(ls).len() > 0 ==> !is_blank(drop_trailing_blank(ls).last()),
        nonblank_lines(drop_trailing_blank(ls)) == nonblank_lines(ls),
    decreases ls.len(),
{
    if ls.len() > 0 && is_blank(ls.last()) {
        let d = ls.drop_last();
        lemma_drop_trailing_blank(d);
        assert(ls =~= d + seq![ls.last()]);
        lemma_nonblank_add(d, seq![ls.last()]);
        lemma_nonblank_single(ls.last());
        assert(nonblank_lines(d) + Seq::<Seq<char>>::empty() =~= nonblank_lines(d));
        let n = drop_trailing_blank(d).len() as int;
        assert(d.take(n) =~= ls.take(n));
    } else {
        assert(ls.take(ls.len() as int) =~= ls);
    }
}

/// Deleting the block at `line` takes out its lines and nothing else
/// that is not blank: every line outside the block that is not blank is
/// still there, in order (so every other block keeps its Host line and
/// body), only blank lines go besides (one where two meet, and those at
/// the end), the lines before the block keep their places, and the file
/// does not end on a blank line.
pub proof fn lemma_delete_law(lines: Seq<Seq<char>>, line: int, patterns: Seq<char>)
    requires
        delete_spec(lines, line, patterns) is Some,
    ensures
        ({
            let nl = delete_spec(lines, line, patterns)->0;
            let (s, e) = block_at_spec(lines, line)->0;
            &&& 0 <= s < e <= lines.len()
            &&& nonblank_lines(nl) == nonblank_lines(lines.take(s)) + nonblank_lines(lines.skip(e))
            &&& forall|i: int| 0 <= i < s && i < nl.len() ==> nl[i] == lines[i]
            &&& nl.len() > 0 ==> !is_blank(nl.last())
        }),
{
    lemma_block_at(lines, line);
    let (s, e) = block_at_spec(lines, line)->0;
    lemma_next_break(lines, s + 1);
    let l1 = lines.take(s) + lines.skip(e);
    lemma_nonblank_add(lines.take(s), lines.skip(e));
    let collapse = s > 0 && s < l1.len() && is_blank(l1[s - 1]) && is_blank(l1[s]);
    let l2 = if collapse {
        l1.remove(s)
    } else {
        l1
    };
    if collapse {
        let a = l1.take(s);
        let c = l1.skip(s + 1);
        assert(l1 =~= a + seq![l1[s]] + c);
        assert(l2 =~= a + c);
        lemma_nonblank_add(a + seq![l1[s]], c);
        lemma_nonblank_add(a, seq![l1[s]]);
        lemma_nonblank_add(a, c);
        lemma_nonblank_single(l1[s]);
        assert(nonblank_lines(a) + Seq::<Seq<char>>::empty() =~= nonblank_lines(a));
    }
    assert(nonblank_lines(l2) == nonblank_lines(l1));
    lemma_drop_trailing_blank(l2);
    let nl = drop_trailing_blank(l2);
    assert(nl == delete_spec(lines, line, patterns)->0);
    assert forall|i: int| 0 <= i < s && i < nl.len() implies nl[i] == lines[i] by {
        assert(nl[i] == l2.take(nl.len() as int)[i]);
        assert(l2[i] == l1[i]);
        assert(l1[i] == lines.take(s)[i]);
    }
}

/// Delete the block at `line` of `doc`, if it still has `patterns`;
/// otherwise `doc` is unchanged and the error asks for a refresh.
pub fn delete_block(doc: &mut Doc, line: usize, patterns: &str) -> (r: Result<(), String>)
    requires
        old(doc).wf(),
    ensures
        final(doc).crlf == old(doc).crlf,
        final(doc).final_eol == old(doc).final_eol,
        final(doc).wf(),
        final(doc).ends@ == delete_ends_spec(old(doc).lines.deep_view(), old(doc).ends@, line as int, patterns@),
        match delete_spec(old(doc).lines.deep_view(), line as int, patterns@) {
            Some(nl) => r is Ok && final(doc).lines.deep_view() == nl,
            None => r matches Err(e) && e@ == stale_msg() && final(doc).lines.deep_view() == old(
                doc,
            ).lines.deep_view(),
        },
{
    let ghost ls = doc.lines.deep_view();
    let (start, end) = match doc.block_at(line) {
        Some(b) => b,
        None => {
            return Err(stale());
        },
    };
    let cur = line_value(&doc.lines[start]);
    if !str_eq(cur.as_str(), patterns) {
        return Err(stale());
    }
    let ghost es = doc.ends@;
    let mut out = clone_range(&doc.lines, 0, start);
    let tail = clone_range(&doc.lines, end, doc.lines.len());
    append_lines(&mut out, tail);
    let mut out_ends = flags_range(&doc.ends, 0, start);
    let tail_ends = flags_range(&doc.ends, end, doc.ends.len());
    append_flags(&mut out_ends, &tail_ends);
    assert(ls.subrange(0, start as int) == ls.take(start as int));
    assert(ls.subrange(end as int, ls.len() as int) == ls.skip(end as int));
    assert(es.subrange(0, start as int) == es.take(start as int));
    assert(es.subrange(end as int, es.len() as int) == es.skip(end as int));
    let ghost l1 = out.deep_view();
    let ghost e1 = out_ends@;
    if start > 0 && start < out.len() && blank_line(&out[start - 1]) && blank_line(&out[start]) {
        out.remove(start);
        out_ends.remove(start);
        assert(out.deep_view() =~= l1.remove(start as int));
    }
    let ghost l2 = out.deep_view();
    let ghost e2 = out_ends@;
    proof {
        lemma_drop_trailing_blank_len(l2);
    }
    while out.len() > 0 && blank_line(&out[out.len() - 1])
        invariant
            drop_trailing_blank(l2) == drop_trailing_blank(out.deep_view()),
            out_ends@.len() == out@.len(),
            out@.len() <= l2.len(),
            out_ends@ == e2.take(out@.len() as int),
            l2.len() == e2.len(),
            drop_trailing_blank(out.deep_view()).len() <= out@.len(),
        decreases out.len(),
    {
        let ghost o = out.deep_view();
        out.pop();
        out_ends.pop();
        assert(out.deep_view() =~= o.drop_last());
        assert(out_ends@ =~= e2.take(out@.len() as int));
        proof {
            lemma_drop_trailing_blank_len(out.deep_view());
        }
    }
    assert(drop_trailing_blank(out.deep_view()) == out.deep_view());
    doc.lines = out;
    doc.ends = out_ends;
    Ok(())
}

// ---- walking a file --------------------------------------------------------------------

/// What a config file holds, in reading order: Host blocks, and the
/// patterns of `Include` lines (to be read in their place).
pub enum DocItem {
    Block(HostBlock),
    Include(Vec<String>),
}

pub enum DocItemV {
    Block(HostBlockV),
    Include(Seq<Seq<char>>),
}

impl View for DocItem {
    type V = DocItemV;

    open spec fn view(&self) -> DocItemV {
        match self {
            DocItem::Block(b) => DocItemV::Block(b@),
            DocItem::Include(ps) => DocItemV::Include(ps.deep_view()),
        }
    }
}

/// The items of the first `n` lines: at each line, the block starting
/// there, then the patterns of an `Include` there.
pub open spec fn items_upto(lines: Seq<Seq<char>>, file: Seq<char>, n: int) -> Seq<DocItemV>
    decreases n,
{
    if n <= 0 {
        seq![]
    } else {
        let i = n - 1;
        let prev = items_upto(lines, file, i);
        let with_block = match block_at_spec(lines, i) {
            Some((s, e)) => prev.push(DocItemV::Block(block_view_spec(lines, file, s, e))),
            None => prev,
        };
        if keyword_spec(lines[i]) == "include"@ {
            with_block.push(DocItemV::Include(words(patterns_of(lines[i]))))
        } else {
            with_block
        }
    }
}

/// The block of `bs` that starts at `line`.
fn block_starting(bs: &Vec<(usize, usize)>, line: usize) -> (r: Option<(usize, usize)>)
    ensures
        r matches Some(b) ==> find_block(
            bs@.map_values(|p: (usize, usize)| (p.0 as int, p.1 as int)),
            line as int,
            0,
        ) == Some((b.0 as int, b.1 as int)) && exists|k: int| 0 <= k < bs@.len() && bs@[k] == b,
        r is None ==> find_block(
            bs@.map_values(|p: (usize, usize)| (p.0 as int, p.1 as int)),
            line as int,
            0,
        ) is None,
{
    let ghost bv = bs@.map_values(|p: (usize, usize)| (p.0 as int, p.1 as int));
    let mut j: usize = 0;
    while j < bs.len()
        invariant
            j <= bs@.len(),
            bv == bs@.map_values(|p: (usize, usize)| (p.0 as int, p.1 as int)),
            find_block(bv, line as int, 0) == find_block(bv, line as int, j as int),
        decreases bs.len() - j,
    {
        if bs[j].0 == line {
            assert(bv[j as int] == (bs@[j as int].0 as int, bs@[j as int].1 as int));
            return Some(bs[j]);
        }
        j += 1;
    }
    None
}

/// The Host blocks and `Include` patterns of `doc`, read from `file`, in
/// the order ssh reads them.
pub fn doc_items(doc: &Doc, file: &str) -> (r: Vec<DocItem>)
    ensures
        r@.map_values(|it: DocItem| it@) == items_upto(
            doc.lines.deep_view(),
            file@,
            doc.lines@.len() as int,
        ),
{
    let ghost ls = doc.lines.deep_view();
    let bs = doc.blocks();
    let ghost bv = bs@.map_values(|p: (usize, usize)| (p.0 as int, p.1 as int));
    let mut out: Vec<DocItem> = Vec::new();
    let mut i: usize = 0;
    while i < doc.lines.len()
        invariant
            i <= doc.lines@.len(),
            ls == doc.lines.deep_view(),
            bv == bs@.map_values(|p: (usize, usize)| (p.0 as int, p.1 as int)),
            bv == blocks_spec(ls),
            forall|k: int| 0 <= k < bs@.len() ==> (#[trigger] bs@[k]).0 < bs@[k].1 <= doc.lines@.len(),
            out@.map_values(|it: DocItem| it@) == items_upto(ls, file@, i as int),
        decreases doc.lines.len() - i,
    {
        let ghost o0 = out@.map_values(|it: DocItem| it@);
        let found = block_starting(&bs, i);
        let ghost o1 = out@.map_values(|it: DocItem| it@);
        match found {
            Some((s, e)) => {
                let b = block_view(doc, file, s, e);
                let ghost bw = b@;
                out.push(DocItem::Block(b));
                assert(out@.map_values(|it: DocItem| it@) =~= o1.push(DocItemV::Block(bw)));
            },
            None => {},
        }
        let kw = doc.keyword(i);
        if str_eq(kw.as_str(), "include") {
            let v = line_value(&doc.lines[i]);
            let vc = chars_of(v.as_str());
            let ps = split_ws(&vc);
            let ghost pv = ps.deep_view();
            let ghost o2 = out@.map_values(|it: DocItem| it@);
            out.push(DocItem::Include(ps));
            assert(out@.map_values(|it: DocItem| it@) =~= o2.push(DocItemV::Include(pv)));
        }
        i += 1;
    }
    out
}


// ---- what an edit keeps ------------------------------------------------------------------

/// Whether every character of `s` is whitespace.
pub open spec fn all_ws(s: Seq<char>) -> bool {
    forall|i: int| 0 <= i < s.len() ==> crate::text::is_ws(#[trigger] s[i])
}

/// Whether a line sets one of the managed options.
pub open spec fn is_managed(l: Seq<char>) -> bool {
    slot_of(keyword_spec(l)) >= 0
}

/// The lines of `body` that do not set a managed option, in order.
pub open spec fn unmanaged(body: Seq<Seq<char>>) -> Seq<Seq<char>> {
    body.filter(|l: Seq<char>| !is_managed(l))
}

proof fn lemma_lead_ws_prefix(a: Seq<char>, b: Seq<char>)
    requires
        all_ws(a),
    ensures
        lead_ws(a + b) == a.len() + lead_ws(b),
    decreases a.len(),
{
    if a.len() > 0 {
        assert((a + b).drop_first() =~= a.drop_first() + b);
        assert(crate::text::is_ws((a + b)[0]));
        lemma_lead_ws_prefix(a.drop_first(), b);
    } else {
        assert(a + b =~= b);
    }
}

proof fn lemma_kw_len_word(key: Seq<char>, rest: Seq<char>)
    requires
        forall|i: int| 0 <= i < key.len() ==> !crate::ssh_config::is_kw_end(#[trigger] key[i]),
        rest.len() > 0,
        crate::ssh_config::is_kw_end(rest[0]),
    ensures
        kw_len(key + rest) == key.len(),
    decreases key.len(),
{
    if key.len() > 0 {
        assert((key + rest).drop_first() =~= key.drop_first() + rest);
        assert(!crate::ssh_config::is_kw_end((key + rest)[0]));
        lemma_kw_len_word(key.drop_first(), rest);
    } else {
        assert(key + rest =~= rest);
    }
}

proof fn lemma_managed_key_chars(k: int)
    requires
        0 <= k < 6,
    ensures
        managed_key_spec(k).len() > 0,
        managed_key_spec(k)[0] != '#',
        managed_key_spec(k)[0] != '"',
        forall|i: int|
            0 <= i < managed_key_spec(k).len() ==> !crate::ssh_config::is_kw_end(
                #[trigger] managed_key_spec(k)[i],
            ),
        managed_key_spec(k) != "ProxyCommand"@ <==> k != 5,
{
    reveal_strlit("HostName");
    reveal_strlit("User");
    reveal_strlit("Port");
    reveal_strlit("IdentityFile");
    reveal_strlit("ProxyJump");
    reveal_strlit("ProxyCommand");
    let key = managed_key_spec(k);
    assert forall|i: int| 0 <= i < key.len() implies !crate::ssh_config::is_kw_end(
        #[trigger] key[i],
    ) by {
        assert('A' <= key[i] <= 'Z' || 'a' <= key[i] <= 'z');
    }
    if k != 5 {
        assert(key.len() != "ProxyCommand"@.len() || key[0] != 'P' || key[5] != 'C');
    }
}

proof fn lemma_managed_lower_slot(k: int)
    requires
        0 <= k < 6,
    ensures
        slot_of(managed_lower_spec(k)) == k,
        managed_lower_spec(k).len() > 0,
{
    reveal_strlit("hostname");
    reveal_strlit("user");
    reveal_strlit("port");
    reveal_strlit("identityfile");
    reveal_strlit("proxyjump");
    reveal_strlit("proxycommand");
    let l = managed_lower_spec(k);
    if k == 1 {
        assert(l.len() != "hostname"@.len());
    } else if k == 2 {
        assert(l.len() != "hostname"@.len());
        assert(l[0] != "user"@[0]);
    } else if k == 3 {
        assert(l.len() != "hostname"@.len());
        assert(l.len() != "user"@.len());
        assert(l.len() != "port"@.len());
    } else if k == 4 {
        assert(l.len() != "hostname"@.len());
        assert(l.len() != "user"@.len());
        assert(l.len() != "port"@.len());
        assert(l.len() != "identityfile"@.len());
    } else if k == 5 {
        assert(l.len() != "hostname"@.len());
        assert(l.len() != "user"@.len());
        assert(l.len() != "port"@.len());
        assert(l[0] != "identityfile"@[0]);
        assert(l.len() != "proxyjump"@.len());
    }
}

/// A non-empty value without whitespace at its end.
pub open spec fn ends_solid(v: Seq<char>) -> bool {
    v.len() > 0 && !crate::text::is_ws(v.last())
}

proof fn lemma_trim_ends_solid(v: Seq<char>)
    ensures
        trim(v).len() > 0 ==> ends_solid(trim(v)),
{
    crate::text::lemma_trim_end(trim_start(v));
}

/// A rendered option line reads back as the option it sets.
proof fn lemma_rendered_line(indent: Seq<char>, k: int, v: Seq<char>)
    requires
        0 <= k < 6,
        all_ws(indent),
        ends_solid(v),
        lowercase(managed_key_spec(k)) == managed_lower_spec(k),
    ensures
        trim(rendered_spec(indent, k, v)) == managed_key_spec(k) + seq![' '] + quote_spec(
            managed_key_spec(k),
            v,
        ),
        raw_keyword(rendered_spec(indent, k, v)) == managed_key_spec(k),
        keyword_spec(rendered_spec(indent, k, v)) == managed_lower_spec(k),
        is_content(rendered_spec(indent, k, v)),
        is_managed(rendered_spec(indent, k, v)),
{
    let key = managed_key_spec(k);
    let q = quote_spec(key, v);
    let t0 = key + seq![' '] + q;
    let l = rendered_spec(indent, k, v);
    lemma_managed_key_chars(k);
    lemma_managed_lower_slot(k);
    assert(l =~= indent + t0);
    lemma_lead_ws_prefix(indent, t0);
    assert(!crate::text::is_ws(t0[0]));
    assert(lead_ws(t0) == 0) by {
        reveal_with_fuel(lead_ws, 2);
    }
    lemma_trim_start(l);
    assert(trim_start(l) =~= t0);
    assert(q.len() > 0 && !crate::text::is_ws(q.last()));
    assert(t0.last() == q.last());
    assert(crate::text::trim_end(t0) == t0);
    assert(trim(l) == t0);
    assert(t0 =~= key + (seq![' '] + q));
    lemma_kw_len_word(key, seq![' '] + q);
    assert(t0.take(key.len() as int) =~= key);
}

proof fn lemma_filter_single(x: Seq<char>)
    requires
        is_managed(x),
    ensures
        unmanaged(seq![x]) == Seq::<Seq<char>>::empty(),
{
    reveal_with_fuel(Seq::filter, 2);
    assert(seq![x].drop_last() =~= Seq::<Seq<char>>::empty());
}

/// Removing, replacing or inserting managed lines keeps the other lines.
proof fn lemma_unmanaged_edits(b: Seq<Seq<char>>, i: int, x: Seq<char>)
    requires
        is_managed(x),
    ensures
        0 <= i < b.len() && is_managed(b[i]) ==> unmanaged(b.remove(i)) == unmanaged(b),
        0 <= i < b.len() && is_managed(b[i]) ==> unmanaged(b.update(i, x)) == unmanaged(b),
        0 <= i <= b.len() ==> unmanaged(b.insert(i, x)) == unmanaged(b),
{
    let p = |l: Seq<char>| !is_managed(l);
    if 0 <= i < b.len() && is_managed(b[i]) {
        let a = b.take(i);
        let c = b.skip(i + 1);
        assert(b =~= a + seq![b[i]] + c);
        assert(b.remove(i) =~= a + c);
        assert(b.update(i, x) =~= a + seq![x] + c);
        Seq::filter_distributes_over_add(a + seq![b[i]], c, p);
        Seq::filter_distributes_over_add(a, seq![b[i]], p);
        Seq::filter_distributes_over_add(a + seq![x], c, p);
        Seq::filter_distributes_over_add(a, seq![x], p);
        Seq::filter_distributes_over_add(a, c, p);
        lemma_filter_single(b[i]);
        lemma_filter_single(x);
        assert(unmanaged(a) + unmanaged(seq![b[i]]) =~= unmanaged(a));
        assert(unmanaged(a) + unmanaged(seq![x]) =~= unmanaged(a));
    }
    if 0 <= i <= b.len() {
        let a = b.take(i);
        let c = b.skip(i);
        assert(b =~= a + c);
        assert(b.insert(i, x) =~= a + seq![x] + c);
        Seq::filter_distributes_over_add(a + seq![x], c, p);
        Seq::filter_distributes_over_add(a, seq![x], p);
        Seq::filter_distributes_over_add(a, c, p);
        lemma_filter_single(x);
        assert(unmanaged(a) + unmanaged(seq![x]) =~= unmanaged(a));
    }
}

/// Applying one managed option keeps every line that sets no managed
/// option, in order.
proof fn lemma_apply_one_unmanaged(b: Seq<Seq<char>>, k: int, value: Seq<char>, indent: Seq<char>)
    requires
        0 <= k < 6,
        all_ws(indent),
        managed_keywords_lower(),
    ensures
        unmanaged(apply_one(b, k, value, indent)) == unmanaged(b),
{
    let v = trim(value);
    lemma_trim_ends_solid(value);
    lemma_managed_lower_slot(k);
    lemma_position_kw(b, managed_lower_spec(k), 0);
    lemma_last_content(b, b.len() as int);
    assert(lowercase(managed_key_spec(k)) == managed_lower_spec(k));
    if v.len() > 0 {
        lemma_rendered_line(indent, k, v);
        let line = rendered_spec(indent, k, v);
        match position_kw(b, managed_lower_spec(k), 0) {
            Some(i) => {
                lemma_unmanaged_edits(b, i, line);
            },
            None => {
                let at = match last_content(b, b.len() as int) {
                    Some(j) => j + 1,
                    None => 0,
                };
                lemma_unmanaged_edits(b, at, line);
            },
        }
    } else {
        match position_kw(b, managed_lower_spec(k), 0) {
            Some(i) => {
                lemma_unmanaged_edits(b, i, b[i]);
            },
            None => {},
        }
    }
}

proof fn lemma_apply_unmanaged(b: Seq<Seq<char>>, values: Seq<Seq<char>>, indent: Seq<char>, n: int)
    requires
        0 <= n <= 6,
        all_ws(indent),
        managed_keywords_lower(),
    ensures
        unmanaged(apply_upto(b, values, indent, n)) == unmanaged(b),
    decreases n,
{
    if n > 0 {
        lemma_apply_unmanaged(b, values, indent, n - 1);
        lemma_apply_one_unmanaged(apply_upto(b, values, indent, n - 1), n - 1, values[n - 1], indent);
    }
}


// ---- the lines of one option ----------------------------------------------------------

/// The lines of `body` that set managed option `k`, in order.
pub open spec fn option_lines(body: Seq<Seq<char>>, k: int) -> Seq<Seq<char>> {
    body.filter(|l: Seq<char>| keyword_spec(l) == managed_lower_spec(k))
}

/// Whether option line `line` of managed option `k` already holds the
/// (trimmed) value `v`: its value, unquoted but for ProxyCommand, is `v`.
pub open spec fn holds_value(k: int, line: Seq<char>, v: Seq<char>) -> bool {
    let old = split_keyword_spec(trim(line)).1;
    if k == 5 {
        old == v
    } else {
        unquote_spec(old) == v
    }
}

/// The lines setting option `k` once the form gives it `value`, from those
/// `ls` it had: with an empty (trimmed) value the first is dropped; with one
/// it already holds, nothing changes; with another, the first becomes the
/// rendered option line, or, with none, that line is the only one.
pub open spec fn option_lines_after(ls: Seq<Seq<char>>, k: int, value: Seq<char>, indent: Seq<char>) -> Seq<
    Seq<char>,
> {
    let v = trim(value);
    if ls.len() == 0 {
        if v.len() == 0 {
            ls
        } else {
            seq![rendered_spec(indent, k, v)]
        }
    } else if v.len() == 0 {
        ls.drop_first()
    } else if holds_value(k, ls[0], v) {
        ls
    } else {
        ls.update(0, rendered_spec(indent, k, v))
    }
}

proof fn lemma_option_lines_single(x: Seq<char>, k: int)
    ensures
        option_lines(seq![x], k) == (if keyword_spec(x) == managed_lower_spec(k) {
            seq![x]
        } else {
            Seq::<Seq<char>>::empty()
        }),
{
    reveal_with_fuel(Seq::filter, 2);
    assert(seq![x].drop_last() =~= Seq::<Seq<char>>::empty());
}

proof fn lemma_option_lines_add(a: Seq<Seq<char>>, c: Seq<Seq<char>>, k: int)
    ensures
        option_lines(a + c, k) == option_lines(a, k) + option_lines(c, k),
{
    let p = |l: Seq<char>| keyword_spec(l) == managed_lower_spec(k);
    Seq::filter_distributes_over_add(a, c, p);
}

/// Lines none of which sets option `k` hold no line for it.
proof fn lemma_option_lines_none(b: Seq<Seq<char>>, k: int)
    requires
        forall|j: int| 0 <= j < b.len() ==> keyword_spec(#[trigger] b[j]) != managed_lower_spec(k),
    ensures
        option_lines(b, k) == Seq::<Seq<char>>::empty(),
{
    let p = |l: Seq<char>| keyword_spec(l) == managed_lower_spec(k);
    assert(b.all(|x: Seq<char>| !p(x)));
    b.lemma_all_neg_filter_empty(p);
    assert(option_lines(b, k) =~= Seq::<Seq<char>>::empty());
}

/// Removing, replacing or inserting lines that do not set option `k`
/// keeps the lines that do.
proof fn lemma_option_lines_edits(b: Seq<Seq<char>>, i: int, x: Seq<char>, k: int)
    requires
        keyword_spec(x) != managed_lower_spec(k),
    ensures
        0 <= i < b.len() && keyword_spec(b[i]) != managed_lower_spec(k) ==> option_lines(b.remove(i), k)
            == option_lines(b, k),
        0 <= i < b.len() && keyword_spec(b[i]) != managed_lower_spec(k) ==> option_lines(b.update(i, x), k)
            == option_lines(b, k),
        0 <= i <= b.len() ==> option_lines(b.insert(i, x), k) == option_lines(b, k),
{
    lemma_option_lines_single(x, k);
    if 0 <= i < b.len() && keyword_spec(b[i]) != managed_lower_spec(k) {
        let a = b.take(i);
        let c = b.skip(i + 1);
        assert(b =~= a + seq![b[i]] + c);
        assert(b.remove(i) =~= a + c);
        assert(b.update(i, x) =~= a + seq![x] + c);
        lemma_option_lines_single(b[i], k);
        lemma_option_lines_add(a + seq![b[i]], c, k);
        lemma_option_lines_add(a, seq![b[i]], k);
        lemma_option_lines_add(a + seq![x], c, k);
        lemma_option_lines_add(a, seq![x], k);
        lemma_option_lines_add(a, c, k);
        assert(option_lines(a, k) + Seq::<Seq<char>>::empty() =~= option_lines(a, k));
    }
    if 0 <= i <= b.len() {
        let a = b.take(i);
        let c = b.skip(i);
        assert(b =~= a + c);
        assert(b.insert(i, x) =~= a + seq![x] + c);
        lemma_option_lines_add(a + seq![x], c, k);
        lemma_option_lines_add(a, seq![x], k);
        lemma_option_lines_add(a, c, k);
        assert(option_lines(a, k) + Seq::<Seq<char>>::empty() =~= option_lines(a, k));
    }
}

/// Applying another managed option keeps the lines that set option `k`.
proof fn lemma_apply_other_lines(b: Seq<Seq<char>>, j: int, value: Seq<char>, indent: Seq<char>, k: int)
    requires
        0 <= j < 6,
        0 <= k < 6,
        j != k,
        all_ws(indent),
        managed_keywords_lower(),
    ensures
        option_lines(apply_one(b, j, value, indent), k) == option_lines(b, k),
{
    let kj = managed_lower_spec(j);
    lemma_lower_distinct(j, k);
    let v = trim(value);
    lemma_trim_ends_solid(value);
    assert(lowercase(managed_key_spec(j)) == managed_lower_spec(j));
    lemma_position_kw(b, kj, 0);
    lemma_last_content(b, b.len() as int);
    let line = rendered_spec(indent, j, v);
    if v.len() > 0 {
        lemma_rendered_line(indent, j, v);
        match position_kw(b, kj, 0) {
            Some(p) => {
                lemma_option_lines_edits(b, p, line, k);
            },
            None => {
                let at = match last_content(b, b.len() as int) {
                    Some(q) => q + 1,
                    None => 0,
                };
                lemma_option_lines_edits(b, at, line, k);
            },
        }
    } else {
        match position_kw(b, kj, 0) {
            Some(p) => {
                lemma_option_lines_edits(b, p, b[p], k);
            },
            None => {},
        }
    }
}

/// The lines for option `k` of a body whose first such line is at `i`,
/// and of that body with the line removed or replaced by `x`.
proof fn lemma_option_lines_at(b: Seq<Seq<char>>, k: int, i: int, x: Seq<char>)
    requires
        position_kw(b, managed_lower_spec(k), 0) == Some(i),
        keyword_spec(x) == managed_lower_spec(k),
    ensures
        0 <= i < b.len(),
        option_lines(b, k) == seq![b[i]] + option_lines(b.skip(i + 1), k),
        option_lines(b.remove(i), k) == option_lines(b.skip(i + 1), k),
        option_lines(b.update(i, x), k) == seq![x] + option_lines(b.skip(i + 1), k),
{
    let kw = managed_lower_spec(k);
    lemma_position_char(b, kw, i, 0);
    let a = b.take(i);
    let c = b.skip(i + 1);
    assert(b =~= a + seq![b[i]] + c);
    assert(b.remove(i) =~= a + c);
    assert(b.update(i, x) =~= a + seq![x] + c);
    assert forall|j: int| 0 <= j < a.len() implies keyword_spec(#[trigger] a[j]) != kw by {
        assert(a[j] == b[j]);
    }
    lemma_option_lines_none(a, k);
    lemma_option_lines_single(b[i], k);
    lemma_option_lines_single(x, k);
    lemma_option_lines_add(a + seq![b[i]], c, k);
    lemma_option_lines_add(a, seq![b[i]], k);
    lemma_option_lines_add(a + seq![x], c, k);
    lemma_option_lines_add(a, seq![x], k);
    lemma_option_lines_add(a, c, k);
    assert(Seq::<Seq<char>>::empty() + seq![b[i]] =~= seq![b[i]]);
    assert(Seq::<Seq<char>>::empty() + seq![x] =~= seq![x]);
    assert(Seq::<Seq<char>>::empty() + option_lines(c, k) =~= option_lines(c, k));
}

/// A body with no line for option `k` gets only `x` when `x` is inserted.
proof fn lemma_option_lines_missing(b: Seq<Seq<char>>, k: int, at: int, x: Seq<char>)
    requires
        position_kw(b, managed_lower_spec(k), 0) is None,
        keyword_spec(x) == managed_lower_spec(k),
        0 <= at <= b.len(),
    ensures
        option_lines(b, k) == Seq::<Seq<char>>::empty(),
        option_lines(b.insert(at, x), k) == seq![x],
{
    lemma_position_none(b, managed_lower_spec(k), 0);
    lemma_option_lines_none(b, k);
    let a = b.take(at);
    let c = b.skip(at);
    assert(b =~= a + c);
    assert(b.insert(at, x) =~= a + seq![x] + c);
    lemma_option_lines_add(a, c, k);
    lemma_option_lines_add(a + seq![x], c, k);
    lemma_option_lines_add(a, seq![x], k);
    lemma_option_lines_single(x, k);
    assert(option_lines(a, k).len() == 0 && option_lines(c, k).len() == 0);
    assert(option_lines(b.insert(at, x), k) =~= seq![x]);
}

/// Applying option `k` changes its lines as `option_lines_after` says.
proof fn lemma_apply_own_lines(b: Seq<Seq<char>>, k: int, value: Seq<char>, indent: Seq<char>)
    requires
        0 <= k < 6,
        all_ws(indent),
        managed_keywords_lower(),
    ensures
        option_lines(apply_one(b, k, value, indent), k) == option_lines_after(option_lines(b, k), k, value, indent),
{
    let kw = managed_lower_spec(k);
    let v = trim(value);
    lemma_trim_ends_solid(value);
    assert(lowercase(managed_key_spec(k)) == managed_lower_spec(k));
    lemma_last_content(b, b.len() as int);
    let line = rendered_spec(indent, k, v);
    match position_kw(b, kw, 0) {
        Some(i) => {
            if v.len() > 0 {
                lemma_rendered_line(indent, k, v);
                lemma_option_lines_at(b, k, i, line);
                let rest = option_lines(b.skip(i + 1), k);
                assert(option_lines(b, k).update(0, line) =~= seq![line] + rest);
            } else {
                lemma_position_kw(b, kw, 0);
                lemma_option_lines_at(b, k, i, b[i]);
                let rest = option_lines(b.skip(i + 1), k);
                assert(option_lines(b, k).drop_first() =~= rest);
            }
        },
        None => {
            if v.len() > 0 {
                lemma_rendered_line(indent, k, v);
                let at = match last_content(b, b.len() as int) {
                    Some(q) => q + 1,
                    None => 0,
                };
                lemma_option_lines_missing(b, k, at, line);
            } else {
                lemma_position_none(b, kw, 0);
                lemma_option_lines_none(b, k);
            }
        },
    }
}

proof fn lemma_apply_upto_lines(b: Seq<Seq<char>>, values: Seq<Seq<char>>, indent: Seq<char>, n: int, k: int)
    requires
        0 <= n <= 6,
        0 <= k < 6,
        all_ws(indent),
        managed_keywords_lower(),
    ensures
        option_lines(apply_upto(b, values, indent, n), k) == (if n > k {
            option_lines_after(option_lines(b, k), k, values[k], indent)
        } else {
            option_lines(b, k)
        }),
    decreases n,
{
    if n > 0 {
        lemma_apply_upto_lines(b, values, indent, n - 1, k);
        let prev = apply_upto(b, values, indent, n - 1);
        if n - 1 == k {
            lemma_apply_own_lines(prev, k, values[k], indent);
        } else {
            lemma_apply_other_lines(prev, n - 1, values[n - 1], indent, k);
        }
    }
}

/// The form applied to a block body, option by option: for each managed
/// option, its first line is removed when the trimmed value is empty,
/// kept byte for byte when it already holds that value (unquoted, but for
/// ProxyCommand), else replaced by the option written with `indent`, and
/// a body without one gets one; its other lines stay as they were, in
/// order. Every line that sets no managed option is kept, in order.
/// The indentation is whitespace, as the block's own lines give it: with
/// other text in front, a written line would set another keyword.
/// (`managed_keywords_lower` is what `apply` ensures of the keywords.)
pub proof fn lemma_apply_law(body: Seq<Seq<char>>, values: Seq<Seq<char>>, indent: Seq<char>)
    requires
        all_ws(indent),
        managed_keywords_lower(),
    ensures
        forall|k: int|
            0 <= k < 6 ==> #[trigger] option_lines(apply_spec(body, values, indent), k) == option_lines_after(
                option_lines(body, k),
                k,
                values[k],
                indent,
            ),
        unmanaged(apply_spec(body, values, indent)) == unmanaged(body),
{
    assert forall|k: int| 0 <= k < 6 implies #[trigger] option_lines(apply_spec(body, values, indent), k)
        == option_lines_after(option_lines(body, k), k, values[k], indent) by {
        lemma_apply_upto_lines(body, values, indent, 6, k);
    }
    lemma_apply_unmanaged(body, values, indent, 6);
}


// ---- what an edit gives back -----------------------------------------------------------

/// What a block shows for option `k` of line `l`: its value, without
/// quotes except for ProxyCommand.
pub open spec fn read_value(k: int, l: Seq<char>) -> Seq<char> {
    if k == 5 {
        patterns_of(l)
    } else {
        unquote_spec(patterns_of(l))
    }
}

/// The managed values a body shows, read line by line.
pub open spec fn read_values(b: Seq<Seq<char>>) -> Seq<Seq<char>> {
    view_body(b, 0, b.len() as int).0
}

/// Whether a value written for option `k` reads back as its trimmed self:
/// it is not empty and does not start with `=` (which ssh takes as the
/// separator), and, but for ProxyCommand, is not itself in double quotes.
pub open spec fn reads_back(k: int, value: Seq<char>) -> bool {
    let v = trim(value);
    &&& v.len() > 0
    &&& v[0] != '='
    &&& (k == 5 || !(v.len() >= 2 && v[0] == '"' && v.last() == '"'))
}

proof fn lemma_position_char(b: Seq<Seq<char>>, kw: Seq<char>, i: int, start: int)
    requires
        0 <= start,
    ensures
        position_kw(b, kw, start) == Some(i) <==> (start <= i < b.len() && keyword_spec(b[i]) == kw
            && forall|j: int| start <= j < i ==> keyword_spec(#[trigger] b[j]) != kw),
    decreases b.len() - start,
{
    if start < b.len() && keyword_spec(b[start]) != kw {
        lemma_position_char(b, kw, i, start + 1);
    }
}

proof fn lemma_position_none(b: Seq<Seq<char>>, kw: Seq<char>, start: int)
    requires
        0 <= start,
    ensures
        position_kw(b, kw, start) is None <==> forall|j: int| start <= j < b.len() ==> keyword_spec(
            #[trigger] b[j],
        ) != kw,
    decreases b.len() - start,
{
    if start < b.len() && keyword_spec(b[start]) != kw {
        lemma_position_none(b, kw, start + 1);
    }
}

proof fn lemma_slot_of_lower(kw: Seq<char>, k: int)
    requires
        0 <= k < 6,
    ensures
        slot_of(kw) == k <==> kw == managed_lower_spec(k),
{
    lemma_managed_lower_slot(k);
}

/// A line that `s` neither starts nor ends with whitespace reads as itself.
proof fn lemma_trim_solid(s: Seq<char>)
    requires
        s.len() > 0,
        !crate::text::is_ws(s[0]),
        !crate::text::is_ws(s.last()),
    ensures
        trim(s) == s,
{
    lemma_trim_start(s);
    assert(lead_ws(s) == 0) by {
        reveal_with_fuel(lead_ws, 2);
    }
    assert(trim_start(s) =~= s);
}

/// A rendered line shows the value it was rendered with.
proof fn lemma_rendered_reads(indent: Seq<char>, k: int, value: Seq<char>)
    requires
        0 <= k < 6,
        all_ws(indent),
        reads_back(k, value),
        lowercase(managed_key_spec(k)) == managed_lower_spec(k),
    ensures
        read_value(k, rendered_spec(indent, k, trim(value))) == trim(value),
{
    let v = trim(value);
    lemma_trim_ends_solid(value);
    lemma_trim_start(value);
    crate::text::lemma_trim_end(trim_start(value));
    assert(!crate::text::is_ws(v[0])) by {
        assert(v[0] == trim_start(value)[0]);
    }
    lemma_rendered_line(indent, k, v);
    lemma_managed_key_chars(k);
    let key = managed_key_spec(k);
    let q = quote_spec(key, v);
    let t0 = key + seq![' '] + q;
    lemma_kw_len_word(key, seq![' '] + q);
    assert(t0 =~= key + (seq![' '] + q));
    assert(t0.skip(key.len() as int) =~= seq![' '] + q);
    assert(q.len() > 0 && q[0] != '=' && !crate::text::is_ws(q[0]) && !crate::text::is_ws(q.last()));
    assert(crate::ssh_config::skip_kw_sep(seq![' '] + q) == crate::ssh_config::skip_kw_sep(q)) by {
        assert((seq![' '] + q).drop_first() =~= q);
    }
    assert(crate::ssh_config::skip_kw_sep(q) == q);
    lemma_trim_solid(q);
    assert(patterns_of(rendered_spec(indent, k, v)) == q);
    if k != 5 {
        if q != v {
            let w = seq!['"'] + v + seq!['"'];
            assert(q == w);
            lemma_trim_solid(w);
            assert(w.subrange(1, w.len() - 1) =~= v);
        }
    }
}


proof fn lemma_lower_distinct(j: int, k: int)
    requires
        0 <= j < 6,
        0 <= k < 6,
        j != k,
    ensures
        managed_lower_spec(j) != managed_lower_spec(k),
{
    lemma_managed_lower_slot(j);
    lemma_managed_lower_slot(k);
}

/// Applying another option keeps the first line that sets option `k`.
proof fn lemma_apply_other_keeps(b: Seq<Seq<char>>, j: int, value: Seq<char>, indent: Seq<char>, k: int, i: int)
    requires
        0 <= j < 6,
        0 <= k < 6,
        j != k,
        all_ws(indent),
        managed_keywords_lower(),
        position_kw(b, managed_lower_spec(k), 0) == Some(i),
    ensures
        exists|i2: int|
            position_kw(apply_one(b, j, value, indent), managed_lower_spec(k), 0) == Some(i2) && (
            #[trigger] apply_one(b, j, value, indent)[i2]) == b[i],
{
    let kw = managed_lower_spec(k);
    let kj = managed_lower_spec(j);
    lemma_lower_distinct(j, k);
    lemma_position_char(b, kw, i, 0);
    let v = trim(value);
    lemma_trim_ends_solid(value);
    assert(lowercase(managed_key_spec(j)) == managed_lower_spec(j));
    lemma_position_kw(b, kj, 0);
    lemma_last_content(b, b.len() as int);
    let b2 = apply_one(b, j, value, indent);
    let line = rendered_spec(indent, j, v);
    if v.len() > 0 {
        lemma_rendered_line(indent, j, v);
    }
    match position_kw(b, kj, 0) {
        Some(p) => {
            assert(p != i);
            if v.len() == 0 {
                let i2 = if p < i { i - 1 } else { i };
                assert(b2 == b.remove(p));
                assert forall|x: int| 0 <= x < i2 implies keyword_spec(#[trigger] b2[x]) != kw by {
                    if x < p {
                        assert(b2[x] == b[x]);
                    } else {
                        assert(b2[x] == b[x + 1]);
                    }
                }
                assert(b2[i2] == b[i]);
                lemma_position_char(b2, kw, i2, 0);
            } else {
                assert(b2 == b || b2 == b.update(p, line));
                assert forall|x: int| 0 <= x < i implies keyword_spec(#[trigger] b2[x]) != kw by {
                    if x == p && b2 != b {
                        assert(b2[x] == line);
                    } else {
                        assert(b2[x] == b[x]);
                    }
                }
                assert(b2[i] == b[i]);
                lemma_position_char(b2, kw, i, 0);
            }
        },
        None => {
            if v.len() == 0 {
                assert(b2 == b);
                assert(b2[i] == b[i]);
            } else {
                let at = match last_content(b, b.len() as int) {
                    Some(q) => q + 1,
                    None => 0,
                };
                assert(b2 == b.insert(at, line));
                let i2 = if at <= i { i + 1 } else { i };
                assert forall|x: int| 0 <= x < i2 implies keyword_spec(#[trigger] b2[x]) != kw by {
                    if x < at {
                        assert(b2[x] == b[x]);
                    } else if x == at {
                        assert(b2[x] == line);
                    } else {
                        assert(b2[x] == b[x - 1]);
                    }
                }
                assert(b2[i2] == b[i]);
                lemma_position_char(b2, kw, i2, 0);
            }
        },
    }
}

/// Applying option `k` with a value that reads back leaves a first line
/// for `k` that shows that value.
proof fn lemma_apply_own(b: Seq<Seq<char>>, k: int, value: Seq<char>, indent: Seq<char>)
    requires
        0 <= k < 6,
        all_ws(indent),
        managed_keywords_lower(),
        reads_back(k, value),
    ensures
        exists|i2: int|
            position_kw(apply_one(b, k, value, indent), managed_lower_spec(k), 0) == Some(i2)
                && read_value(k, #[trigger] apply_one(b, k, value, indent)[i2]) == trim(value),
{
    let kw = managed_lower_spec(k);
    let v = trim(value);
    lemma_trim_ends_solid(value);
    assert(lowercase(managed_key_spec(k)) == managed_lower_spec(k));
    lemma_position_kw(b, kw, 0);
    lemma_last_content(b, b.len() as int);
    lemma_rendered_line(indent, k, v);
    lemma_rendered_reads(indent, k, value);
    let b2 = apply_one(b, k, value, indent);
    let line = rendered_spec(indent, k, v);
    match position_kw(b, kw, 0) {
        Some(p) => {
            lemma_position_char(b, kw, p, 0);
            let old = split_keyword_spec(trim(b[p])).1;
            let same = if k == 5 { old == v } else { unquote_spec(old) == v };
            if same {
                assert(b2 == b);
                assert(read_value(k, b2[p]) == v);
            } else {
                assert(b2 == b.update(p, line));
                assert forall|x: int| 0 <= x < p implies keyword_spec(#[trigger] b2[x]) != kw by {
                    assert(b2[x] == b[x]);
                }
                lemma_position_char(b2, kw, p, 0);
                assert(b2[p] == line);
            }
            assert(read_value(k, b2[p]) == v);
        },
        None => {
            lemma_position_none(b, kw, 0);
            let at = match last_content(b, b.len() as int) {
                Some(q) => q + 1,
                None => 0,
            };
            assert(b2 == b.insert(at, line));
            assert forall|x: int| 0 <= x < at implies keyword_spec(#[trigger] b2[x]) != kw by {
                assert(b2[x] == b[x]);
            }
            assert(b2[at] == line);
            lemma_position_char(b2, kw, at, 0);
            assert(read_value(k, b2[at]) == v);
        },
    }
}

/// After the first `n > k` options are applied, the first line for option
/// `k` shows its (trimmed) value.
proof fn lemma_apply_upto_reads(b: Seq<Seq<char>>, values: Seq<Seq<char>>, indent: Seq<char>, n: int, k: int)
    requires
        0 <= k < n <= 6,
        all_ws(indent),
        managed_keywords_lower(),
        reads_back(k, values[k]),
    ensures
        exists|i: int|
            position_kw(apply_upto(b, values, indent, n), managed_lower_spec(k), 0) == Some(i)
                && read_value(k, #[trigger] apply_upto(b, values, indent, n)[i]) == trim(values[k]),
    decreases n,
{
    let prev = apply_upto(b, values, indent, n - 1);
    let cur = apply_upto(b, values, indent, n);
    assert(cur == apply_one(prev, n - 1, values[n - 1], indent));
    if n - 1 == k {
        lemma_apply_own(prev, k, values[k], indent);
        let i2 = choose|i2: int|
            position_kw(apply_one(prev, k, values[k], indent), managed_lower_spec(k), 0) == Some(i2)
                && read_value(k, #[trigger] apply_one(prev, k, values[k], indent)[i2]) == trim(
                values[k],
            );
        assert(position_kw(cur, managed_lower_spec(k), 0) == Some(i2) && read_value(k, cur[i2])
            == trim(values[k]));
    } else {
        lemma_apply_upto_reads(b, values, indent, n - 1, k);
        let i = choose|i: int|
            position_kw(prev, managed_lower_spec(k), 0) == Some(i) && read_value(k, #[trigger] prev[i])
                == trim(values[k]);
        lemma_apply_other_keeps(prev, n - 1, values[n - 1], indent, k, i);
        let i2 = choose|i2: int|
            position_kw(apply_one(prev, n - 1, values[n - 1], indent), managed_lower_spec(k), 0)
                == Some(i2) && (#[trigger] apply_one(prev, n - 1, values[n - 1], indent)[i2])
                == prev[i];
        assert(position_kw(cur, managed_lower_spec(k), 0) == Some(i2) && read_value(k, cur[i2])
            == trim(values[k]));
    }
}

/// What a body shows for option `k` is the value of its first line for `k`,
/// when that value is not empty.
proof fn lemma_view_first(b: Seq<Seq<char>>, k: int, i: int, n: int)
    requires
        0 <= k < 6,
        position_kw(b, managed_lower_spec(k), 0) == Some(i),
        read_value(k, b[i]).len() > 0,
        0 <= n <= b.len(),
    ensures
        view_body(b, 0, n).0.len() == 6,
        n <= i ==> view_body(b, 0, n).0[k].len() == 0,
        n > i ==> view_body(b, 0, n).0[k] == read_value(k, b[i]),
    decreases n,
{
    lemma_position_char(b, managed_lower_spec(k), i, 0);
    if n > 0 {
        lemma_view_first(b, k, i, n - 1);
        let st = view_body(b, 0, n - 1);
        assert(view_body(b, 0, n) == view_step(st, b[n - 1]));
        let line = b[n - 1];
        let raw = trim(line);
        if !(raw.len() == 0 || raw[0] == '#') {
            let kw = split_keyword_spec(raw).0;
            let value = split_keyword_spec(raw).1;
            assert(kw == keyword_spec(line));
            assert(value == patterns_of(line));
            lemma_slot_of_lower(kw, k);
            let k2 = slot_of(kw);
            if k2 >= 0 && st.0[k2].len() == 0 {
                if k2 == k {
                    assert(n - 1 == i);
                    assert(view_body(b, 0, n).0 == st.0.update(k, read_value(k, line)));
                } else {
                    assert(view_body(b, 0, n).0[k] == st.0[k]);
                }
            } else {
                assert(view_body(b, 0, n).0 == st.0);
            }
        } else {
            assert(keyword_spec(line).len() == 0);
            lemma_managed_lower_slot(k);
            assert(n - 1 != i);
        }
    }
}

/// The values a body shows after the form is applied to it: each value
/// that reads back is shown as written (trimmed).
proof fn lemma_apply_read_values(b: Seq<Seq<char>>, values: Seq<Seq<char>>, indent: Seq<char>, k: int)
    requires
        0 <= k < 6,
        all_ws(indent),
        managed_keywords_lower(),
        reads_back(k, values[k]),
    ensures
        read_values(apply_spec(b, values, indent))[k] == trim(values[k]),
{
    let f = apply_spec(b, values, indent);
    lemma_apply_upto_reads(b, values, indent, 6, k);
    let i = choose|i: int|
        position_kw(f, managed_lower_spec(k), 0) == Some(i) && read_value(k, #[trigger] f[i]) == trim(
            values[k],
        );
    lemma_position_kw(f, managed_lower_spec(k), 0);
    lemma_view_first(f, k, i, f.len() as int);
}


proof fn lemma_indent_ws(l: Seq<char>)
    ensures
        all_ws(indent_of(l)),
{
    lemma_trim_start(l);
}

proof fn lemma_four_spaces()
    ensures
        all_ws("    "@),
{
    reveal_strlit("    ");
}

proof fn lemma_ws_cat(a: Seq<char>, b: Seq<char>)
    requires
        all_ws(a),
        all_ws(b),
    ensures
        all_ws(a + b),
{
    assert forall|i: int| 0 <= i < (a + b).len() implies crate::text::is_ws(#[trigger] (a + b)[i]) by {
        if i < a.len() {
            assert((a + b)[i] == a[i]);
        } else {
            assert((a + b)[i] == b[i - a.len()]);
        }
    }
}

proof fn lemma_option_indent_ws(lines: Seq<Seq<char>>, i: int)
    ensures
        all_ws(option_indent_from(lines, i)),
    decreases lines.len() - i,
{
    if i < 0 || i >= lines.len() {
        lemma_four_spaces();
    } else if is_indented_option(lines[i]) {
        lemma_indent_ws(lines[i]);
    } else {
        lemma_option_indent_ws(lines, i + 1);
    }
}


// ---- patterns as words ---------------------------------------------------------------------

/// A word: some characters, none of them whitespace.
pub open spec fn solid(w: Seq<char>) -> bool {
    w.len() > 0 && forall|k: int| 0 <= k < w.len() ==> !is_ws(#[trigger] w[k])
}

proof fn lemma_words_solid(s: Seq<char>)
    ensures
        forall|i: int| 0 <= i < words(s).len() ==> solid(#[trigger] words(s)[i]),
    decreases s.len(),
{
    let t = trim_start(s);
    lemma_trim_start(s);
    if t.len() > 0 {
        crate::text::lemma_word_len(t);
        let n = crate::text::word_len(t);
        if n > 0 {
            lemma_words_solid(t.skip(n as int));
            let w = words(s);
            assert forall|i: int| 0 <= i < w.len() implies solid(#[trigger] w[i]) by {
                if i == 0 {
                    assert(w[0] == t.take(n as int));
                } else {
                    assert(w[i] == words(t.skip(n as int))[i - 1]);
                }
            }
        }
    }
}

proof fn lemma_word_len_solid(w: Seq<char>, rest: Seq<char>)
    requires
        solid(w),
        rest.len() == 0 || is_ws(rest[0]),
    ensures
        crate::text::word_len(w + rest) == w.len(),
    decreases w.len(),
{
    let t = w + rest;
    assert(!is_ws(t[0])) by {
        assert(t[0] == w[0]);
    }
    assert(t.drop_first() =~= w.drop_first() + rest);
    if w.len() > 1 {
        assert forall|k: int| 0 <= k < w.drop_first().len() implies !is_ws(#[trigger] w.drop_first()[k]) by {
            assert(w.drop_first()[k] == w[k + 1]);
        }
        lemma_word_len_solid(w.drop_first(), rest);
    } else {
        assert(w.drop_first() + rest =~= rest);
        assert(crate::text::word_len(rest) == 0);
        assert(crate::text::word_len(t) == 1 + crate::text::word_len(t.drop_first()));
    }
}

proof fn lemma_words_cons(w: Seq<char>, rest: Seq<char>)
    requires
        solid(w),
        rest.len() == 0 || is_ws(rest[0]),
    ensures
        words(w + rest) == seq![w] + words(rest),
{
    let t = w + rest;
    assert(t[0] == w[0]);
    assert(trim_start(t) == t);
    lemma_word_len_solid(w, rest);
    assert(t.take(w.len() as int) =~= w);
    assert(t.skip(w.len() as int) =~= rest);
}

proof fn lemma_words_space(r: Seq<char>)
    ensures
        words(seq![' '] + r) == words(r),
{
    let s = seq![' '] + r;
    assert(is_ws(' '));
    assert(s.drop_first() =~= r);
    assert(trim_start(s) == trim_start(r));
}

proof fn lemma_join_first(ws: Seq<Seq<char>>, sep: Seq<char>)
    requires
        ws.len() >= 2,
    ensures
        join_with(ws, sep) == ws[0] + sep + join_with(ws.drop_first(), sep),
    decreases ws.len(),
{
    let dl = ws.drop_last();
    let df = ws.drop_first();
    if ws.len() == 2 {
        assert(dl.len() == 1);
        assert(df.len() == 1);
        assert(join_with(dl, sep) == dl[0]);
        assert(join_with(df, sep) == df[0]);
    } else {
        lemma_join_first(dl, sep);
        assert(df.drop_last() =~= dl.drop_first());
        assert(df.last() == ws.last());
        assert(dl[0] == ws[0]);
        assert(join_with(df, sep) == join_with(df.drop_last(), sep) + sep + df.last());
        assert(join_with(ws, sep) =~= ws[0] + sep + join_with(df, sep));
    }
}

proof fn lemma_words_join(ws: Seq<Seq<char>>)
    requires
        forall|i: int| 0 <= i < ws.len() ==> solid(#[trigger] ws[i]),
    ensures
        words(join_with(ws, seq![' '])) == ws,
    decreases ws.len(),
{
    if ws.len() == 0 {
        assert(words(Seq::<char>::empty()) == Seq::<Seq<char>>::empty());
    } else if ws.len() == 1 {
        assert(join_with(ws, seq![' ']) == ws[0]);
        assert(ws[0] + Seq::<char>::empty() =~= ws[0]);
        lemma_words_cons(ws[0], Seq::<char>::empty());
        assert(words(Seq::<char>::empty()) == Seq::<Seq<char>>::empty());
        assert(seq![ws[0]] + Seq::<Seq<char>>::empty() =~= ws);
    } else {
        let df = ws.drop_first();
        assert forall|i: int| 0 <= i < df.len() implies solid(#[trigger] df[i]) by {
            assert(df[i] == ws[i + 1]);
        }
        lemma_words_join(df);
        lemma_join_first(ws, seq![' ']);
        let rest = seq![' '] + join_with(df, seq![' ']);
        assert(ws[0] + seq![' '] + join_with(df, seq![' ']) =~= ws[0] + rest);
        lemma_words_cons(ws[0], rest);
        lemma_words_space(join_with(df, seq![' ']));
        assert(seq![ws[0]] + df =~= ws);
    }
}

/// The patterns as saved have the words of the patterns as typed.
pub proof fn lemma_normalized_words(patterns: Seq<char>)
    ensures
        words(normalized(patterns)) == words(patterns),
{
    lemma_words_solid(patterns);
    lemma_words_join(words(patterns));
}

/// Adding a block whose patterns pass validation is refused, with nothing
/// changed, exactly when one of the aliases as typed names one host and is
/// already an alias of a listed block; the message names the first such.
pub proof fn lemma_add_refuses_first_dup(lines: Seq<Seq<char>>, input: HostInput, listed: Seq<Seq<char>>)
    requires
        validate_spec(input.patterns@, input.values_spec()) is None,
        !(input.file is Some && input.line is Some),
    ensures
        first_dup(words(input.patterns@), listed, 0) matches Some(dup) ==> save_spec(lines, input, listed) == Err::<
            (Seq<Seq<char>>, (int, int)),
            Seq<char>,
        >("主机「"@ + dup + "」已存在。"@),
        first_dup(words(input.patterns@), listed, 0) is None ==> save_spec(lines, input, listed) is Ok,
{
    lemma_normalized_words(input.patterns@);
}

// ---- reading back a file ------------------------------------------------------------------

/// A first line before the others: its ending (if it is not the last line
/// of a text without a final ending), then the others.
proof fn lemma_render_cons(x: Seq<char>, ls: Seq<Seq<char>>, b: bool, es: Seq<bool>, f: bool, n: int)
    requires
        es.len() == ls.len(),
        0 <= n <= ls.len(),
    ensures
        render_upto(seq![x] + ls, seq![b] + es, f, n + 1) == x + (if ls.len() > 0 || f {
            eol(b)
        } else {
            seq![]
        }) + render_upto(ls, es, f, n),
    decreases n,
{
    let xs = seq![x] + ls;
    let bs = seq![b] + es;
    if n == 0 {
        assert(render_upto(xs, bs, f, 0) == Seq::<char>::empty());
        assert(render_upto(ls, es, f, 0) == Seq::<char>::empty());
        assert(render_upto(xs, bs, f, 1) =~= x + ending_at(xs, bs, f, 0));
    } else {
        lemma_render_cons(x, ls, b, es, f, n - 1);
        assert(xs[n] == ls[n - 1]);
        assert(bs[n] == es[n - 1]);
        assert(ending_at(xs, bs, f, n) == ending_at(ls, es, f, n - 1));
        assert(render_upto(xs, bs, f, n + 1) =~= render_upto(xs, bs, f, n) + ls[n - 1] + ending_at(
            ls,
            es,
            f,
            n - 1,
        ));
    }
}

/// Writing the lines of `text` with endings that agree with its own on
/// every line that had one gives `text` back.
proof fn lemma_render_pieces(text: Seq<char>, es: Seq<bool>)
    requires
        es.len() == parse_spec(text).0.len(),
        forall|i: int|
            0 <= i < split_char(text, '\n').len() - 1 ==> es[i] == ends_cr(
                #[trigger] split_char(text, '\n')[i],
            ),
    ensures
        render_spec(parse_spec(text).0, es, parse_spec(text).2) == text,
    decreases text.len(),
{
    let pieces = split_char(text, '\n');
    let (ls, _e, f) = parse_spec(text);
    match find_from(text, seq!['\n'], 0) {
        Some(i) => {
            crate::text::lemma_find_from_bounds(text, seq!['\n'], 0);
            let p0 = text.take(i);
            let rest = text.skip(i + 1);
            let pr = split_char(rest, '\n');
            assert(pieces == seq![p0] + pr);
            assert(pr.len() >= 1);
            let (lr, _er, fr) = parse_spec(rest);
            assert(fr == f);
            assert(ls =~= seq![strip_last(p0, '\r')] + lr);
            let er = es.drop_first();
            assert forall|j: int| 0 <= j < pr.len() - 1 implies er[j] == ends_cr(#[trigger] pr[j]) by {
                assert(pieces[j + 1] == pr[j]);
            }
            lemma_render_pieces(rest, er);
            assert(es =~= seq![es[0]] + er);
            assert(es[0] == ends_cr(p0)) by {
                assert(pieces[0] == p0);
            }
            lemma_render_cons(strip_last(p0, '\r'), lr, es[0], er, f, lr.len() as int);
            assert(lr.len() > 0 || f) by {
                if lr.len() == 0 {
                    assert(pr.last().len() == 0);
                }
            }
            assert(strip_last(p0, '\r') + eol(es[0]) =~= p0 + seq!['\n']);
            assert(text.subrange(i, i + 1) == seq!['\n']);
            assert(text =~= p0 + seq!['\n'] + rest);
        },
        None => {
            assert(pieces == seq![text]);
            if text.len() == 0 {
                assert(ls.len() == 0);
            } else {
                assert(ls =~= seq![text]);
                assert(render_upto(ls, es, f, 0) == Seq::<char>::empty());
                assert(render_spec(ls, es, f) =~= text);
            }
        },
    }
}

proof fn lemma_apply_ends_len(
    body: Seq<Seq<char>>,
    ends: Seq<bool>,
    values: Seq<Seq<char>>,
    indent: Seq<char>,
    crlf: bool,
    n: int,
)
    requires
        ends.len() == body.len(),
    ensures
        apply_ends_upto(body, ends, values, indent, crlf, n).len() == apply_upto(body, values, indent, n).len(),
    decreases n,
{
    if n > 0 {
        lemma_apply_ends_len(body, ends, values, indent, crlf, n - 1);
        let b = apply_upto(body, values, indent, n - 1);
        match position_kw(b, managed_lower_spec(n - 1), 0) {
            Some(i) => {
                lemma_position_kw(b, managed_lower_spec(n - 1), 0);
            },
            None => {
                lemma_last_content(b, b.len() as int);
            },
        }
    }
}

/// Saving an edit keeps the line ending of the Host line and of every line
/// before and after the block, and every line has one.
pub proof fn lemma_edit_keeps_endings(
    lines: Seq<Seq<char>>,
    ends: Seq<bool>,
    line: int,
    original: Option<Seq<char>>,
    pats: Seq<char>,
    values: Seq<Seq<char>>,
    crlf: bool,
)
    requires
        ends.len() == lines.len(),
        edit_spec(lines, line, original, pats, values) is Some,
    ensures
        ({
            let nl = edit_spec(lines, line, original, pats, values)->0;
            let ne = edit_ends_spec(lines, ends, line, values, crlf);
            let (s, e) = block_at_spec(lines, line)->0;
            &&& ne.len() == nl.len()
            &&& ne.take(s + 1) == ends.take(s + 1)
            &&& ne.skip(ne.len() - (ends.len() - e)) == ends.skip(e)
        }),
{
    let (s, e) = block_at_spec(lines, line)->0;
    lemma_block_at(lines, line);
    lemma_next_break(lines, line + 1);
    assert(s + 1 <= e <= lines.len());
    let body = lines.subrange(s + 1, e);
    let be = ends.subrange(s + 1, e);
    let nl = edit_spec(lines, line, original, pats, values)->0;
    assert(nl == lines.take(s).push(nl[s]) + apply_spec(body, values, edit_indent(lines, s, e)) + lines.skip(e));
    let ind = edit_indent(lines, s, e);
    lemma_apply_ends_len(body, be, values, ind, crlf, 6);
    let mid = apply_ends_spec(body, be, values, ind, crlf);
    let ne = edit_ends_spec(lines, ends, line, values, crlf);
    assert(ne == ends.take(s + 1) + mid + ends.skip(e));
    assert(ne.take(s + 1) =~= ends.take(s + 1));
    assert(ne.skip(ne.len() - (ends.len() - e)) =~= ends.skip(e));
}

/// Saving an edit of the block at `line` changes nothing outside it: the
/// lines before the Host line and from the block's end on are kept; the
/// Host line is kept, or rewritten with its indentation when the patterns
/// change; in the body, every line that sets no managed option is kept, in
/// order, and each managed option's lines change as `option_lines_after`
/// says, written with the block's option indentation.
/// (`managed_keywords_lower` is what `apply` ensures of the keywords.)
pub proof fn lemma_edit_law(
    lines: Seq<Seq<char>>,
    line: int,
    original: Option<Seq<char>>,
    pats: Seq<char>,
    values: Seq<Seq<char>>,
)
    requires
        edit_spec(lines, line, original, pats, values) is Some,
        managed_keywords_lower(),
    ensures
        ({
            let nl = edit_spec(lines, line, original, pats, values)->0;
            let (s, e) = block_at_spec(lines, line)->0;
            let tail = lines.len() - e;
            let body = lines.subrange(s + 1, e);
            let nb = nl.subrange(s + 1, nl.len() - tail);
            &&& 0 <= s < e <= lines.len()
            &&& nl.len() >= s + 1 + tail
            &&& nl.take(s) == lines.take(s)
            &&& nl[s] == (if patterns_of(lines[s]) != pats {
                indent_of(lines[s]) + "Host "@ + pats
            } else {
                lines[s]
            })
            &&& nl.skip(nl.len() - tail) == lines.skip(e)
            &&& unmanaged(nb) == unmanaged(body)
            &&& forall|k: int|
                0 <= k < 6 ==> #[trigger] option_lines(nb, k) == option_lines_after(
                    option_lines(body, k),
                    k,
                    values[k],
                    edit_indent(lines, s, e),
                )
        }),
{
    lemma_block_at(lines, line);
    let (s, e) = block_at_spec(lines, line)->0;
    lemma_next_break(lines, s + 1);
    let host = lines[s];
    let body = lines.subrange(s + 1, e);
    let indent = edit_indent(lines, s, e);
    lemma_indent_ws(host);
    lemma_four_spaces();
    lemma_ws_cat(indent_of(host), "    "@);
    if first_content(body, 0) is Some {
        lemma_indent_ws(body[first_content(body, 0)->0]);
    }
    assert(all_ws(indent));
    lemma_apply_law(body, values, indent);
    let nl = edit_spec(lines, line, original, pats, values)->0;
    let new_host = if patterns_of(host) != pats {
        indent_of(host) + "Host "@ + pats
    } else {
        host
    };
    let ab = apply_spec(body, values, indent);
    assert(nl == lines.take(s).push(new_host) + ab + lines.skip(e));
    let tail = lines.len() - e;
    assert(nl.len() == s + 1 + ab.len() + tail);
    assert(nl.take(s) =~= lines.take(s));
    assert(nl.skip(nl.len() - tail) =~= lines.skip(e));
    assert(nl.subrange(s + 1, nl.len() - tail) =~= ab);
}

/// Reading a config file and writing it back gives the same text: every
/// line keeps its own line ending, and the text ends with a line ending
/// exactly when it did.
pub proof fn lemma_render_parse(text: Seq<char>)
    ensures
        render_spec(parse_spec(text).0, parse_spec(text).1, parse_spec(text).2) == text,
{
    let pieces = split_char(text, '\n');
    let es = parse_spec(text).1;
    assert forall|i: int| 0 <= i < pieces.len() - 1 implies es[i] == ends_cr(#[trigger] pieces[i]) by {
        assert(pieces.drop_last()[i] == pieces[i]);
    }
    lemma_render_pieces(text, es);
}

// ---- where a block ends ------------------------------------------------------------------

/// Whether a line starts a section (`Host` or `Match`), ending the block
/// before it.
pub open spec fn is_break(l: Seq<char>) -> bool {
    keyword_spec(l) == "host"@ || keyword_spec(l) == "match"@
}

/// The first section line from `j` on, or the end of the file.
pub open spec fn next_break(lines: Seq<Seq<char>>, j: int) -> int
    decreases lines.len() - j,
{
    if j < 0 || j >= lines.len() {
        lines.len() as int
    } else if is_break(lines[j]) {
        j
    } else {
        next_break(lines, j + 1)
    }
}

proof fn lemma_next_break(lines: Seq<Seq<char>>, j: int)
    requires
        0 <= j <= lines.len(),
    ensures
        j <= next_break(lines, j) <= lines.len(),
        next_break(lines, j) < lines.len() ==> is_break(lines[next_break(lines, j)]),
        forall|t: int| j <= t < next_break(lines, j) ==> !is_break(#[trigger] lines[t]),
    decreases lines.len() - j,
{
    if j < lines.len() && !is_break(lines[j]) {
        lemma_next_break(lines, j + 1);
    }
}

/// The first section line from `j` on is the one at `m` when none comes
/// between.
proof fn lemma_next_break_at(lines: Seq<Seq<char>>, j: int, m: int)
    requires
        0 <= j <= m <= lines.len(),
        m < lines.len() ==> is_break(lines[m]),
        forall|t: int| j <= t < m ==> !is_break(#[trigger] lines[t]),
    ensures
        next_break(lines, j) == m,
    decreases m - j,
{
    if j < m {
        lemma_next_break_at(lines, j + 1, m);
    }
}

/// What the scan of the first `n` lines has found: each closed block runs
/// from a Host line to the next section line, in order; the open one, if
/// any, starts at a Host line with no section line after it yet; and
/// every Host line so far starts one of them.
pub open spec fn scan_inv(lines: Seq<Seq<char>>, n: int, out: Seq<(int, int)>, open: Option<int>) -> bool {
    &&& forall|i: int|
        0 <= i < out.len() ==> 0 <= (#[trigger] out[i]).0 < out[i].1 < n && keyword_spec(lines[out[i].0])
            == "host"@ && out[i].1 == next_break(lines, out[i].0 + 1)
    &&& forall|i: int, j: int| 0 <= i < j < out.len() ==> (#[trigger] out[i]).0 < (#[trigger] out[j]).0
    &&& open matches Some(o) ==> 0 <= o < n && keyword_spec(lines[o]) == "host"@ && next_break(lines, o + 1) >= n
        && forall|i: int| 0 <= i < out.len() ==> (#[trigger] out[i]).0 < o
    &&& forall|a: int|
        0 <= a < n && keyword_spec(#[trigger] lines[a]) == "host"@ ==> open == Some(a) || exists|i: int|
            0 <= i < out.len() && (#[trigger] out[i]).0 == a
}

proof fn lemma_scan(lines: Seq<Seq<char>>, n: int)
    requires
        0 <= n <= lines.len(),
    ensures
        scan_inv(lines, n, blocks_state(lines, n).0, blocks_state(lines, n).1),
    decreases n,
{
    if n > 0 {
        lemma_scan(lines, n - 1);
        let (out, open) = blocks_state(lines, n - 1);
        let m = n - 1;
        let kw = keyword_spec(lines[m]);
        let (out2, open2) = blocks_state(lines, n);
        if kw == "host"@ || kw == "match"@ {
            assert(is_break(lines[m]));
            match open {
                Some(o) => {
                    lemma_next_break(lines, o + 1);
                    lemma_next_break_at(lines, o + 1, m);
                    assert(out2 == out.push((o, m)));
                    assert forall|a: int|
                        0 <= a < n && keyword_spec(#[trigger] lines[a]) == "host"@ implies open2 == Some(a)
                            || exists|i: int| 0 <= i < out2.len() && (#[trigger] out2[i]).0 == a by {
                        if a < m {
                            if open == Some(a) {
                                assert(out2[out.len() as int].0 == a);
                            } else {
                                let i = choose|i: int| 0 <= i < out.len() && (#[trigger] out[i]).0 == a;
                                assert(out2[i].0 == a);
                            }
                        }
                    }
                },
                None => {
                    assert forall|a: int|
                        0 <= a < n && keyword_spec(#[trigger] lines[a]) == "host"@ implies open2 == Some(a)
                            || exists|i: int| 0 <= i < out2.len() && (#[trigger] out2[i]).0 == a by {
                        if a < m {
                            let i = choose|i: int| 0 <= i < out.len() && (#[trigger] out[i]).0 == a;
                            assert(out2[i].0 == a);
                        }
                    }
                },
            }
            if kw == "host"@ {
                lemma_next_break(lines, m + 1);
            }
        } else {
            assert(!is_break(lines[m]));
            match open {
                Some(o) => {
                    lemma_next_break(lines, o + 1);
                    if next_break(lines, o + 1) == m {
                        assert(false);
                    }
                },
                None => {},
            }
        }
    }
}

proof fn lemma_find_block(bs: Seq<(int, int)>, a: int, i: int, j: int)
    requires
        0 <= i <= j < bs.len(),
        bs[j].0 == a,
        forall|x: int, y: int| 0 <= x < y < bs.len() ==> (#[trigger] bs[x]).0 < (#[trigger] bs[y]).0,
    ensures
        find_block(bs, a, i) == Some(bs[j]),
    decreases j - i,
{
    if i < j {
        assert(bs[i].0 < bs[j].0);
        lemma_find_block(bs, a, i + 1, j);
    }
}

proof fn lemma_find_block_in(bs: Seq<(int, int)>, a: int, i: int)
    requires
        0 <= i,
    ensures
        find_block(bs, a, i) matches Some(b) ==> exists|j: int| i <= j < bs.len() && #[trigger] bs[j] == b
            && b.0 == a,
    decreases bs.len() - i,
{
    if i < bs.len() && bs[i].0 != a {
        lemma_find_block_in(bs, a, i + 1);
    }
}

/// The block at a Host line runs to the next section line or the end of
/// the file; there is a block at no other line.
proof fn lemma_block_at(lines: Seq<Seq<char>>, a: int)
    ensures
        block_at_spec(lines, a) matches Some((s, e)) ==> s == a && 0 <= a < lines.len() && keyword_spec(
            lines[a],
        ) == "host"@ && e == next_break(lines, a + 1),
        0 <= a < lines.len() && keyword_spec(lines[a]) == "host"@ ==> block_at_spec(lines, a) == Some(
            (a, next_break(lines, a + 1)),
        ),
{
    let n = lines.len() as int;
    lemma_scan(lines, n);
    let (out, open) = blocks_state(lines, n);
    let bs = blocks_spec(lines);
    match open {
        Some(o) => {
            lemma_next_break(lines, o + 1);
            assert(bs == out.push((o, n)));
        },
        None => {
            assert(bs == out);
        },
    }
    assert forall|i: int| 0 <= i < bs.len() implies 0 <= (#[trigger] bs[i]).0 < bs[i].1 <= n
        && keyword_spec(lines[bs[i].0]) == "host"@ && bs[i].1 == next_break(lines, bs[i].0 + 1) by {
        if i < out.len() {
            assert(bs[i] == out[i]);
        }
    }
    assert forall|x: int, y: int| 0 <= x < y < bs.len() implies (#[trigger] bs[x]).0 < (#[trigger] bs[y]).0 by {
        if y < out.len() {
            assert(bs[x] == out[x] && bs[y] == out[y]);
        } else {
            assert(bs[x] == out[x]);
        }
    }
    lemma_find_block_in(bs, a, 0);
    if 0 <= a < n && keyword_spec(lines[a]) == "host"@ {
        if open == Some(a) {
            lemma_find_block(bs, a, 0, out.len() as int);
        } else {
            let i = choose|i: int| 0 <= i < out.len() && (#[trigger] out[i]).0 == a;
            assert(bs[i] == out[i]);
            lemma_find_block(bs, a, 0, i);
        }
    }
}

// ---- reading back a saved block ---------------------------------------------------------

/// Neither a Host nor a Match line sets a managed option.
proof fn lemma_breaks_unmanaged(l: Seq<char>)
    ensures
        is_managed(l) ==> !is_break(l),
{
    reveal_strlit("host");
    reveal_strlit("match");
    reveal_strlit("hostname");
    reveal_strlit("user");
    reveal_strlit("port");
    reveal_strlit("identityfile");
    reveal_strlit("proxyjump");
    reveal_strlit("proxycommand");
    assert("host"@.len() != "hostname"@.len());
    assert("host"@[0] != "user"@[0]);
    assert("host"@[0] != "port"@[0]);
    assert("host"@.len() != "identityfile"@.len());
    assert("host"@.len() != "proxyjump"@.len());
    assert("host"@.len() != "proxycommand"@.len());
    assert("match"@.len() != "hostname"@.len());
    assert("match"@.len() != "user"@.len());
    assert("match"@.len() != "port"@.len());
    assert("match"@.len() != "identityfile"@.len());
    assert("match"@.len() != "proxyjump"@.len());
    assert("match"@.len() != "proxycommand"@.len());
}

/// No section line among the lines of `b` from `m` on.
pub open spec fn breakless_from(b: Seq<Seq<char>>, m: int) -> bool {
    forall|j: int| m <= j < b.len() ==> !is_break(#[trigger] b[j])
}

/// Applying one managed option adds no section line after the first `m`
/// lines; with `m == 1` the first line is a Host line and stays first.
proof fn lemma_apply_one_breakless(b: Seq<Seq<char>>, k: int, value: Seq<char>, indent: Seq<char>, m: int)
    requires
        0 <= k < 6,
        m == 0 || m == 1,
        all_ws(indent),
        managed_keywords_lower(),
        breakless_from(b, m),
        m == 1 ==> b.len() > 0 && is_content(b[0]) && keyword_spec(b[0]) == "host"@,
    ensures
        breakless_from(apply_one(b, k, value, indent), m),
        m == 1 ==> apply_one(b, k, value, indent).len() > 0 && apply_one(b, k, value, indent)[0] == b[0],
{
    let v = trim(value);
    let line = rendered_spec(indent, k, v);
    lemma_trim_ends_solid(value);
    lemma_managed_lower_slot(k);
    lemma_position_kw(b, managed_lower_spec(k), 0);
    lemma_last_content(b, b.len() as int);
    let r = apply_one(b, k, value, indent);
    if v.len() > 0 {
        lemma_rendered_line(indent, k, v);
        lemma_breaks_unmanaged(line);
    }
    match position_kw(b, managed_lower_spec(k), 0) {
        Some(i) => {
            if m == 1 {
                lemma_breaks_unmanaged(b[i]);
                assert(is_managed(b[i]));
                assert(i != 0);
            }
            assert forall|j: int| m <= j < r.len() implies !is_break(#[trigger] r[j]) by {
                if v.len() == 0 {
                    if j >= i {
                        assert(r[j] == b[j + 1]);
                    } else {
                        assert(r[j] == b[j]);
                    }
                } else if r != b {
                    if j != i {
                        assert(r[j] == b[j]);
                    }
                }
            }
        },
        None => {
            if v.len() > 0 {
                let at = match last_content(b, b.len() as int) {
                    Some(j) => j + 1,
                    None => 0,
                };
                assert(m == 1 ==> at >= 1);
                assert forall|j: int| m <= j < r.len() implies !is_break(#[trigger] r[j]) by {
                    if j < at {
                        assert(r[j] == b[j]);
                    } else if j > at {
                        assert(r[j] == b[j - 1]);
                    }
                }
            }
        },
    }
}

proof fn lemma_apply_breakless(b: Seq<Seq<char>>, values: Seq<Seq<char>>, indent: Seq<char>, n: int, m: int)
    requires
        0 <= n <= 6,
        m == 0 || m == 1,
        all_ws(indent),
        managed_keywords_lower(),
        breakless_from(b, m),
        m == 1 ==> b.len() > 0 && is_content(b[0]) && keyword_spec(b[0]) == "host"@,
    ensures
        breakless_from(apply_upto(b, values, indent, n), m),
        m == 1 ==> apply_upto(b, values, indent, n).len() > 0 && apply_upto(b, values, indent, n)[0] == b[0],
    decreases n,
{
    if n > 0 {
        lemma_apply_breakless(b, values, indent, n - 1, m);
        lemma_apply_one_breakless(apply_upto(b, values, indent, n - 1), n - 1, values[n - 1], indent, m);
    }
}

/// Reading lines `lo..n` of `lines` is reading them out of any stretch of
/// `lines` from `lo` that holds them.
proof fn lemma_view_body_sub(lines: Seq<Seq<char>>, lo: int, n: int, hi: int)
    requires
        0 <= lo <= n <= hi <= lines.len(),
    ensures
        view_body(lines, lo, n) == view_body(lines.subrange(lo, hi), 0, n - lo),
    decreases n - lo,
{
    if n > lo {
        lemma_view_body_sub(lines, lo, n - 1, hi);
        assert(lines.subrange(lo, hi)[n - 1 - lo] == lines[n - 1]);
    }
}

/// Leading whitespace changes neither the trimmed text of a line nor what
/// is known of its keyword.
proof fn lemma_trim_ws_prefix(a: Seq<char>, h: Seq<char>)
    requires
        all_ws(a),
    ensures
        trim(a + h) == trim(h),
        keyword_spec(a + h) == keyword_spec(h),
        is_content(a + h) == is_content(h),
        keyword_known(a + h) == keyword_known(h),
{
    lemma_lead_ws_prefix(a, h);
    lemma_trim_start(a + h);
    lemma_trim_start(h);
    assert((a + h).skip((a.len() + lead_ws(h)) as int) =~= h.skip(lead_ws(h) as int));
}

/// A first line that sets no managed option leaves the values read from
/// the lines after it as they are.
proof fn lemma_view_body_head(lines: Seq<Seq<char>>, lo: int, n: int)
    requires
        0 <= lo < n <= lines.len(),
        !is_managed(lines[lo]),
    ensures
        view_body(lines, lo, n).0 == view_body(lines, lo + 1, n).0,
    decreases n - lo,
{
    if n > lo + 1 {
        lemma_view_body_head(lines, lo, n - 1);
    } else {
        assert(view_body(lines, lo, lo) == (no_values(), Seq::<Seq<char>>::empty()));
    }
}

proof fn lemma_first_catch_all(lines: Seq<Seq<char>>, i: int)
    requires
        0 <= i <= lines.len(),
    ensures
        i <= first_catch_all(lines, i) <= lines.len(),
        first_catch_all(lines, i) < lines.len() ==> is_catch_all(lines[first_catch_all(lines, i)]),
    decreases lines.len() - i,
{
    if i < lines.len() && !is_catch_all(lines[i]) {
        lemma_first_catch_all(lines, i + 1);
    }
}

/// The block saved by an edit runs from its Host line over the body as
/// written, so it shows the values written.
proof fn lemma_edit_reads_back(
    old: Seq<Seq<char>>,
    nl: Seq<Seq<char>>,
    line: int,
    original: Option<Seq<char>>,
    pats: Seq<char>,
    values: Seq<Seq<char>>,
    file: Seq<char>,
)
    requires
        edit_spec(old, line, original, pats, values) == Some(nl),
        edit_written(old, nl, line, values),
        0 <= line < nl.len(),
        keyword_spec(nl[line]) == "host"@,
        managed_keywords_lower(),
    ensures
        forall|k: int|
            0 <= k < 6 && reads_back(k, values[k]) ==> (#[trigger] block_view_spec(
                nl,
                file,
                range_at(nl, line).0,
                range_at(nl, line).1,
            ).values[k]) == trim(values[k]),
{
    lemma_block_at(old, line);
    let (s, e) = block_at_spec(old, line)->0;
    lemma_next_break(old, s + 1);
    let host = old[s];
    let lead = indent_of(host);
    let body = old.subrange(s + 1, e);
    let indent = match first_content(body, 0) {
        Some(j) => indent_of(body[j]),
        None => lead + "    "@,
    };
    lemma_indent_ws(host);
    lemma_four_spaces();
    lemma_ws_cat(lead, "    "@);
    if first_content(body, 0) is Some {
        lemma_indent_ws(body[first_content(body, 0)->0]);
    }
    let nb = apply_spec(body, values, indent);
    assert(breakless_from(body, 0)) by {
        assert forall|j: int| 0 <= j < body.len() implies !is_break(#[trigger] body[j]) by {
            assert(body[j] == old[s + 1 + j]);
        }
    }
    lemma_apply_breakless(body, values, indent, 6, 0);
    let tail = old.len() - e;
    let m = s + 1 + nb.len();
    assert(nl.len() == m + tail);
    assert forall|t: int| s + 1 <= t < m implies !is_break(#[trigger] nl[t]) by {
        assert(nl[t] == nb[t - s - 1]);
    }
    if m < nl.len() {
        assert(nl[m] == old[e]);
    }
    lemma_next_break_at(nl, s + 1, m);
    lemma_block_at(nl, line);
    assert(range_at(nl, line) == (line, m));
    lemma_view_body_sub(nl, s + 1, m, m);
    assert(nl.subrange(s + 1, m) =~= nb);
    assert(nl.subrange(s + 1, nl.len() - tail) =~= nb);
    assert(written_as_asked(body, nb, values));
    assert(block_view_spec(nl, file, line, m).values == read_values(nb));
    assert forall|k: int| 0 <= k < 6 && reads_back(k, values[k]) implies (#[trigger] block_view_spec(
        nl,
        file,
        range_at(nl, line).0,
        range_at(nl, line).1,
    ).values[k]) == trim(values[k]) by {
        assert(read_values(nb)[k] == trim(values[k]));
    }
}

/// A new block runs from its Host line over its options (and the blank
/// line after it), so it shows the values written.
proof fn lemma_add_reads_back(lines: Seq<Seq<char>>, pats: Seq<char>, values: Seq<Seq<char>>, file: Seq<char>)
    requires
        keyword_known("Host "@ + pats),
        managed_keywords_lower(),
        written_as_asked(seq!["Host "@ + pats], new_block_spec(lines, pats, values), values),
    ensures
        forall|k: int|
            0 <= k < 6 && reads_back(k, values[k]) ==> (#[trigger] block_view_spec(
                add_spec(lines, pats, values).0,
                file,
                range_at(add_spec(lines, pats, values).0, add_spec(lines, pats, values).1).0,
                range_at(add_spec(lines, pats, values).0, add_spec(lines, pats, values).1).1,
            ).values[k]) == trim(values[k]),
{
    let hl = "Host "@ + pats;
    reveal_strlit("host");
    reveal_strlit("match");
    lemma_new_host_line(pats);
    lemma_host_keyword(pats);
    lemma_breaks_unmanaged(hl);
    let indent = option_indent_from(lines, 0);
    lemma_option_indent_ws(lines, 0);
    let bv = new_block_spec(lines, pats, values);
    assert(breakless_from(seq![hl], 1));
    lemma_apply_breakless(seq![hl], values, indent, 6, 1);
    let (nl, h) = add_spec(lines, pats, values);
    let at = first_catch_all(lines, 0);
    lemma_first_catch_all(lines, 0);
    let gap = at > 0 && !is_blank(lines[at - 1]);
    let before: Seq<Seq<char>> = if gap { seq![seq![]] } else { seq![] };
    let after: Seq<Seq<char>> = if at < lines.len() { seq![seq![]] } else { seq![] };
    assert(nl == lines.take(at) + before + bv + after + lines.skip(at));
    assert(h == at + before.len());
    let m = h + bv.len() + after.len();
    assert(nl[h] == bv[0]);
    assert forall|t: int| h + 1 <= t < m implies !is_break(#[trigger] nl[t]) by {
        if t < h + bv.len() {
            assert(nl[t] == bv[t - h]);
        } else {
            assert(nl[t] == Seq::<char>::empty());
            assert(trim(Seq::<char>::empty()).len() == 0);
        }
    }
    if m < nl.len() {
        assert(nl[m] == lines[at]);
    }
    lemma_next_break_at(nl, h + 1, m);
    lemma_block_at(nl, h);
    assert(range_at(nl, h) == (h, m));
    let sub = nl.subrange(h + 1, m);
    lemma_view_body_sub(nl, h + 1, m, m);
    let x = bv.subrange(1, bv.len() as int);
    assert(sub =~= x + after);
    lemma_view_body_sub(sub, 0, x.len() as int, x.len() as int);
    assert(sub.subrange(0, x.len() as int) =~= x);
    if after.len() > 0 {
        assert(trim(sub[x.len() as int]).len() == 0);
        assert(view_body(sub, 0, sub.len() as int) == view_body(sub, 0, x.len() as int));
    }
    lemma_view_body_head(bv, 0, bv.len() as int);
    lemma_view_body_sub(bv, 1, bv.len() as int, bv.len() as int);
    assert(bv.subrange(1, bv.len() as int) =~= x);
    assert(block_view_spec(nl, file, h, m).values == read_values(bv));
    assert forall|k: int| 0 <= k < 6 && reads_back(k, values[k]) implies (#[trigger] block_view_spec(
        nl,
        file,
        range_at(nl, h).0,
        range_at(nl, h).1,
    ).values[k]) == trim(values[k]) by {
        assert(read_values(bv)[k] == trim(values[k]));
    }
}

} // verus!
