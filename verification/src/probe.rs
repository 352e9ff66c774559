//! End-to-end connectivity probes: the parts that decide.
//!
//! SOCKS tunnels connect to the running `ssh -D`, ask it to CONNECT to the
//! probe target and, for `http://` URLs, send a tiny HTTP request. This
//! module parses the probe URL, builds the SOCKS5 and HTTP messages and
//! judges the replies; the sockets themselves live with the caller.

use vstd::prelude::*;
use vstd::string::StringSliceAdditionalSpecFns;

use crate::text::{
    ascii_lower_seq, ascii_lowercase, cat, chars_of, dec, dec_string, find_any, find_any_from,
    find_char_from, find_from, has_char, lemma_find_any_bounds, lemma_find_from_bounds,
    lemma_rfind_bounds, lit, parse_uint, parse_uint_range, prefix, push_chars, rfind_seq,
    rsplit_once, split_once, starts_with, string_of, string_of_range, sub_vec, tr, tr1, trim,
    trim_chars,
};

verus! {

/// Bracket IPv6 literals for use in `host:port` / URLs.
pub open spec fn host_for_url_spec(host: Seq<char>) -> Seq<char> {
    if host.contains(':') && !(host.len() > 0 && host[0] == '[') {
        seq!['['] + host + seq![']']
    } else {
        host
    }
}

/// Bracket IPv6 literals for use in `host:port` / URLs.
pub fn host_for_url(host: &str) -> (r: String)
    ensures
        r@ == host_for_url_spec(host@),
{
    let v = chars_of(host);
    if has_char(&v, ':') && !(v.len() > 0 && v[0] == '[') {
        let mut r = String::new();
        crate::text::push_char(&mut r, '[');
        push_chars(&mut r, &v);
        crate::text::push_char(&mut r, ']');
        r
    } else {
        host.to_owned()
    }
}

/// Where a probe URL points.
#[derive(Debug, PartialEq)]
pub struct Target {
    pub https: bool,
    pub host: String,
    pub port: u16,
    pub path: String,
}

pub struct TargetV {
    pub https: bool,
    pub host: Seq<char>,
    pub port: u16,
    pub path: Seq<char>,
}

impl View for Target {
    type V = TargetV;

    open spec fn view(&self) -> TargetV {
        TargetV { https: self.https, host: self.host@, port: self.port, path: self.path@ }
    }
}

/// The authority and the path of what follows `scheme://`: the path starts
/// at the first `/` or `?` (a `/` is put in front of a bare query) and is
/// `/` when there is none; a `#fragment` is dropped.
pub open spec fn authority_and_path(rest: Seq<char>) -> (Seq<char>, Seq<char>) {
    let (authority, path) = match find_any_from(rest, seq!['/', '?'], 0) {
        Some(i) => if rest[i] == '/' {
            (rest.take(i), rest.skip(i))
        } else {
            (rest.take(i), seq!['/'] + rest.skip(i))
        },
        None => (rest, seq!['/']),
    };
    let path = match find_from(path, seq!['#'], 0) {
        Some(j) => path.take(j),
        None => path,
    };
    (authority, path)
}

/// Host and port of an authority: `[v6]` or `[v6]:port`, else `host` or
/// `host:port` split at the last colon.
pub open spec fn host_and_port(authority: Seq<char>, default_port: nat) -> Option<(Seq<char>, nat)> {
    if authority.len() > 0 && authority[0] == '[' {
        match split_once(authority.drop_first(), seq![']']) {
            Some((h, after)) => if after.len() > 0 && after[0] == ':' {
                match parse_uint(after.drop_first(), 65535) {
                    Some(p) => Some((h, p)),
                    None => None,
                }
            } else {
                Some((h, default_port))
            },
            None => None,
        }
    } else {
        match rsplit_once(authority, seq![':']) {
            Some((h, p)) => match parse_uint(p, 65535) {
                Some(port) => Some((h, port)),
                None => None,
            },
            None => Some((authority, default_port)),
        }
    }
}

/// What `parse_url` makes of a probe URL: `http://` (the default when no
/// scheme is given) or `https://`, a non-empty host, a port (80 / 443 by
/// default) and a path.
pub open spec fn parse_url_spec(url: Seq<char>) -> Option<TargetV> {
    let u = trim(url);
    let (scheme, rest) = match split_once(u, "://"@) {
        Some((s, r)) => (ascii_lower_seq(s), r),
        None => ("http"@, u),
    };
    if scheme != "http"@ && scheme != "https"@ {
        None
    } else {
        let https = scheme == "https"@;
        let (authority, path) = authority_and_path(rest);
        match host_and_port(authority, if https { 443 } else { 80 }) {
            Some((host, port)) => if host.len() == 0 {
                None
            } else {
                Some(TargetV { https, host, port: port as u16, path })
            },
            None => None,
        }
    }
}

/// A plain host name: not empty, with no port, path, query, fragment or
/// bracket characters in it.
pub open spec fn plain_host(host: Seq<char>) -> bool {
    &&& host.len() > 0
    &&& host[0] != '['
    &&& forall|i: int|
        0 <= i < host.len() ==> #[trigger] host[i] != ':' && host[i] != '/' && host[i] != '?' && host[i] != '#'
}

/// A path: starts with `/`, with no fragment.
pub open spec fn plain_path(path: Seq<char>) -> bool {
    &&& path.len() > 0
    &&& path[0] == '/'
    &&& forall|i: int| 0 <= i < path.len() ==> #[trigger] path[i] != '#'
}

/// The first occurrence of `p` at or after `i` is at `k` when there is
/// one at `k` and none before it.
proof fn lemma_find_first(s: Seq<char>, p: Seq<char>, i: int, k: int)
    requires
        0 <= i <= k,
        k + p.len() <= s.len(),
        s.subrange(k, k + p.len()) == p,
        forall|j: int| i <= j < k ==> #[trigger] s.subrange(j, j + p.len()) != p,
    ensures
        find_from(s, p, i) == Some(k),
    decreases k - i,
{
    if i < k {
        lemma_find_first(s, p, i + 1, k);
    }
}

proof fn lemma_find_any_first(s: Seq<char>, cs: Seq<char>, i: int, k: int)
    requires
        0 <= i <= k < s.len(),
        cs.contains(s[k]),
        forall|j: int| i <= j < k ==> !cs.contains(#[trigger] s[j]),
    ensures
        find_any_from(s, cs, i) == Some(k),
    decreases k - i,
{
    if i < k {
        lemma_find_any_first(s, cs, i + 1, k);
    }
}

/// The authority and path of `host` followed by `path`.
proof fn lemma_plain_authority(host: Seq<char>, path: Seq<char>)
    requires
        plain_host(host),
        plain_path(path),
    ensures
        authority_and_path(host + path) == (host, path),
        host_and_port(host, 443) == Some((host, 443nat)),
        host_and_port(host, 80) == Some((host, 80nat)),
{
    let rest = host + path;
    let seps = seq!['/', '?'];
    assert(rest[host.len() as int] == '/');
    assert forall|j: int| 0 <= j < host.len() implies !seps.contains(#[trigger] rest[j]) by {
        assert(rest[j] == host[j]);
        if seps.contains(rest[j]) {
            let w = choose|w: int| 0 <= w < seps.len() && seps[w] == rest[j];
            assert(w == 0 || w == 1);
        }
    }
    assert(seps[0] == '/');
    lemma_find_any_first(rest, seps, 0, host.len() as int);
    assert(rest.take(host.len() as int) =~= host);
    assert(rest.skip(host.len() as int) =~= path);
    lemma_find_from_bounds(path, seq!['#'], 0);
    if find_from(path, seq!['#'], 0) is Some {
        let k = find_from(path, seq!['#'], 0)->0;
        assert(path.subrange(k, k + 1)[0] == path[k]);
    }
    lemma_rfind_bounds(host, seq![':'], host.len() - 1);
    if crate::text::rfind(host, seq![':']) is Some {
        let k = crate::text::rfind(host, seq![':'])->0;
        assert(host.subrange(k, k + 1)[0] == host[k]);
    }
}

/// `https://` and `http://` are read as themselves.
proof fn lemma_scheme_split(scheme: Seq<char>, after: Seq<char>)
    requires
        scheme == "https"@ || scheme == "http"@,
    ensures
        split_once(scheme + "://"@ + after, "://"@) == Some((scheme, after)),
        ascii_lower_seq(scheme) == scheme,
{
    reveal_strlit("https");
    reveal_strlit("http");
    reveal_strlit("://");
    let u = scheme + "://"@ + after;
    let n = scheme.len() as int;
    assert(u.subrange(n, n + 3) =~= "://"@);
    assert forall|j: int| 0 <= j < n implies #[trigger] u.subrange(j, j + 3) != "://"@ by {
        assert(u.subrange(j, j + 3)[0] == scheme[j]);
    }
    lemma_find_first(u, "://"@, 0, n);
    assert(u.take(n) =~= scheme);
    assert(u.skip(n + 3) =~= after);
    assert(ascii_lower_seq(scheme) =~= scheme);
}

/// A probe URL without a port gets its scheme's: `https://host/path` is
/// port 443, `http://host/path` and a bare `host/path` port 80, each with
/// that host and path.
pub proof fn lemma_default_port(url: Seq<char>, host: Seq<char>, path: Seq<char>)
    requires
        plain_host(host),
        plain_path(path),
    ensures
        trim(url) == "https://"@ + host + path ==> parse_url_spec(url) == Some(
            TargetV { https: true, host, port: 443, path },
        ),
        trim(url) == "http://"@ + host + path ==> parse_url_spec(url) == Some(
            TargetV { https: false, host, port: 80, path },
        ),
        trim(url) == host + path && (forall|i: int| 0 <= i < path.len() ==> #[trigger] path[i] != ':')
            ==> parse_url_spec(url) == Some(TargetV { https: false, host, port: 80, path }),
{
    reveal_strlit("https");
    reveal_strlit("http");
    reveal_strlit("https://");
    reveal_strlit("http://");
    reveal_strlit("://");
    lemma_plain_authority(host, path);
    let u = trim(url);
    if u == "https://"@ + host + path {
        lemma_scheme_split("https"@, host + path);
        assert("https://"@ + host + path =~= "https"@ + "://"@ + (host + path));
    }
    if u == "http://"@ + host + path {
        lemma_scheme_split("http"@, host + path);
        assert("http://"@ + host + path =~= "http"@ + "://"@ + (host + path));
        assert("http"@ != "https"@);
    }
    if u == host + path && (forall|i: int| 0 <= i < path.len() ==> #[trigger] path[i] != ':') {
        lemma_find_from_bounds(u, "://"@, 0);
        reveal_strlit("://");
        if find_from(u, "://"@, 0) is Some {
            let k = find_from(u, "://"@, 0)->0;
            assert(u.subrange(k, k + 3)[0] == u[k]);
            if k < host.len() {
                assert(u[k] == host[k]);
            } else {
                assert(u[k] == path[k - host.len()]);
            }
        }
    }
}

/// The last occurrence of `p` at or below `j` is at `k` when there is one
/// at `k` and none after it up to `j`.
proof fn lemma_rfind_last(s: Seq<char>, p: Seq<char>, j: int, k: int)
    requires
        0 <= k <= j,
        crate::text::occ_at(s, p, k),
        forall|x: int| k < x <= j ==> !#[trigger] crate::text::occ_at(s, p, x),
    ensures
        crate::text::rfind_below(s, p, j) == Some(k),
    decreases j - k,
{
    if k < j {
        lemma_rfind_last(s, p, j - 1, k);
    }
}

/// A probe URL with a port uses it: `https://host:n/path` and
/// `http://host:n/path` connect to port `n`, with that host and path.
pub proof fn lemma_explicit_port(url: Seq<char>, host: Seq<char>, digits: Seq<char>, n: nat, path: Seq<char>)
    requires
        plain_host(host),
        plain_path(path),
        forall|i: int| 0 <= i < digits.len() ==> '0' <= #[trigger] digits[i] <= '9',
        crate::text::parse_uint(digits, 65535) == Some(n),
    ensures
        trim(url) == "https://"@ + host + seq![':'] + digits + path ==> parse_url_spec(url) == Some(
            TargetV { https: true, host, port: n as u16, path },
        ),
        trim(url) == "http://"@ + host + seq![':'] + digits + path ==> parse_url_spec(url) == Some(
            TargetV { https: false, host, port: n as u16, path },
        ),
{
    reveal_strlit("https");
    reveal_strlit("http");
    reveal_strlit("https://");
    reveal_strlit("http://");
    reveal_strlit("://");
    let authority = host + seq![':'] + digits;
    let rest = authority + path;
    let seps = seq!['/', '?'];
    let m = authority.len() as int;
    assert(rest[m] == '/');
    assert forall|j: int| 0 <= j < m implies !seps.contains(#[trigger] rest[j]) by {
        if j < host.len() {
            assert(rest[j] == host[j]);
        } else if j == host.len() {
            assert(rest[j] == ':');
        } else {
            assert(rest[j] == digits[j - host.len() - 1]);
        }
        if seps.contains(rest[j]) {
            let w = choose|w: int| 0 <= w < seps.len() && seps[w] == rest[j];
            assert(w == 0 || w == 1);
        }
    }
    assert(seps[0] == '/');
    lemma_find_any_first(rest, seps, 0, m);
    assert(rest.take(m) =~= authority);
    assert(rest.skip(m) =~= path);
    lemma_find_from_bounds(path, seq!['#'], 0);
    if find_from(path, seq!['#'], 0) is Some {
        let k = find_from(path, seq!['#'], 0)->0;
        assert(path.subrange(k, k + 1)[0] == path[k]);
    }
    assert(authority_and_path(rest) == (authority, path));
    let h = host.len() as int;
    assert(authority.subrange(h, h + 1) =~= seq![':']);
    assert forall|x: int| h < x <= m - 1 implies !#[trigger] crate::text::occ_at(authority, seq![':'], x) by {
        assert(authority.subrange(x, x + 1)[0] == authority[x]);
        assert(authority[x] == digits[x - h - 1]);
    }
    lemma_rfind_last(authority, seq![':'], m - 1, h);
    assert(authority.take(h) =~= host);
    assert(authority.skip(h + 1) =~= digits);
    assert(authority[0] == host[0]);
    assert(host_and_port(authority, 443) == Some((host, n)));
    assert(host_and_port(authority, 80) == Some((host, n)));
    let u = trim(url);
    if u == "https://"@ + host + seq![':'] + digits + path {
        lemma_scheme_split("https"@, rest);
        assert(u =~= "https"@ + "://"@ + rest);
    }
    if u == "http://"@ + host + seq![':'] + digits + path {
        lemma_scheme_split("http"@, rest);
        assert(u =~= "http"@ + "://"@ + rest);
        assert("http"@ != "https"@);
    }
}

pub open spec fn target_view(t: Option<Target>) -> Option<TargetV> {
    match t {
        Some(t) => Some(t@),
        None => None,
    }
}

fn authority_path(rest: &Vec<char>) -> (r: (Vec<char>, Vec<char>))
    ensures
        (r.0@, r.1@) == authority_and_path(rest@),
{
    let seps = vec!['/', '?'];
    assert(seps@ == seq!['/', '?']);
    let (authority, path): (Vec<char>, Vec<char>) = match find_any(rest, &seps) {
        Some(i) => {
            proof {
                lemma_find_any_bounds(rest@, seps@, 0);
            }
            let a = sub_vec(rest, 0, i);
            assert(a@ == rest@.take(i as int));
            let p = sub_vec(rest, i, rest.len());
            assert(p@ == rest@.skip(i as int));
            if rest[i] == '/' {
                (a, p)
            } else {
                let mut q = vec!['/'];
                assert(q@ == seq!['/'] + p@.take(0));
                let mut k: usize = 0;
                while k < p.len()
                    invariant
                        k <= p@.len(),
                        q@ == seq!['/'] + p@.take(k as int),
                    decreases p.len() - k,
                {
                    q.push(p[k]);
                    assert(p@.take(k + 1) == p@.take(k as int).push(p@[k as int]));
                    k += 1;
                }
                assert(p@.take(p@.len() as int) == p@);
                (a, q)
            }
        },
        None => {
            let a = sub_vec(rest, 0, rest.len());
            assert(a@ == rest@);
            let slash = vec!['/'];
            assert(slash@ == seq!['/']);
            (a, slash)
        },
    };
    let ghost ap = authority_and_path(rest@);
    assert(authority@ == ap.0);
    let path = match find_char_from(&path, '#', 0) {
        Some(j) => {
            proof {
                lemma_find_from_bounds(path@, seq!['#'], 0);
            }
            sub_vec(&path, 0, j)
        },
        None => path,
    };
    assert(path@ == ap.1);
    (authority, path)
}

fn split_host_port(authority: &Vec<char>, default_port: u16) -> (r: Option<(Vec<char>, u16)>)
    ensures
        match host_and_port(authority@, default_port as nat) {
            Some((h, p)) => (r matches Some((rh, rp)) && rh@ == h && rp as nat == p),
            None => r is None,
        },
{
    if authority.len() > 0 && authority[0] == '[' {
        let v6 = sub_vec(authority, 1, authority.len());
        assert(v6@ == authority@.drop_first());
        match find_char_from(&v6, ']', 0) {
            Some(i) => {
                proof {
                    lemma_find_from_bounds(v6@, seq![']'], 0);
                }
                let h = sub_vec(&v6, 0, i);
                let after = sub_vec(&v6, i + 1, v6.len());
                assert(after@ == v6@.skip(i + 1));
                if after.len() > 0 && after[0] == ':' {
                    assert(after@.drop_first() == after@.subrange(1, after@.len() as int));
                    match parse_uint_range(&after, 1, after.len(), 65535) {
                        Some(p) => Some((h, p as u16)),
                        None => None,
                    }
                } else {
                    Some((h, default_port))
                }
            },
            None => None,
        }
    } else {
        let colon = vec![':'];
        assert(colon@ == seq![':']);
        match rfind_seq(authority, &colon) {
            Some(i) => {
                proof {
                    lemma_rfind_bounds(authority@, colon@, authority@.len() - 1);
                }
                let h = sub_vec(authority, 0, i);
                assert(authority@.skip(i + 1) == authority@.subrange(i + 1, authority@.len() as int));
                match parse_uint_range(authority, i + 1, authority.len(), 65535) {
                    Some(p) => Some((h, p as u16)),
                    None => None,
                }
            },
            None => Some((authority.clone(), default_port)),
        }
    }
}

/// Parse a probe URL; `None` when the scheme is not `http`/`https`, the
/// port is not a number, or there is no host.
pub fn parse_url(url: &str) -> (r: Option<Target>)
    ensures
        target_view(r) == parse_url_spec(url@),
{
    let raw = chars_of(url);
    let u = trim_chars(&raw);
    let sep = lit("://");
    let (scheme, rest): (Vec<char>, Vec<char>) = match crate::text::find_seq(&u, &sep, 0) {
        Some(i) => {
            proof {
                lemma_find_from_bounds(u@, sep@, 0);
            }
            let s = sub_vec(&u, 0, i);
            assert(i + sep@.len() <= u@.len());
            let n = u.len();
            let r = sub_vec(&u, i + sep.len(), n);
            assert(r@ == u@.skip(i + sep@.len()));
            (ascii_lowercase(&s), r)
        },
        None => (lit("http"), u),
    };
    let http = lit("http");
    let https_lit = lit("https");
    let is_http = crate::text::chars_eq(&scheme, &http);
    let is_https = crate::text::chars_eq(&scheme, &https_lit);
    if !is_http && !is_https {
        return None;
    }
    let (authority, path) = authority_path(&rest);
    match split_host_port(&authority, if is_https { 443 } else { 80 }) {
        Some((host, port)) => {
            if host.len() == 0 {
                None
            } else {
                Some(Target { https: is_https, host: string_of(&host), port, path: string_of(&path) })
            }
        },
        None => None,
    }
}

// ---- SOCKS5 ---------------------------------------------------------------------

/// The client greeting: SOCKS5, one method, no authentication.
pub fn socks5_greeting() -> (r: Vec<u8>)
    ensures
        r@ == seq![5u8, 1u8, 0u8],
{
    vec![5u8, 1u8, 0u8]
}

/// Whether the server accepted the greeting (version 5, no authentication).
pub fn socks5_greeting_ok(reply: &[u8]) -> (r: bool)
    ensures
        r == (reply@ == seq![5u8, 0u8]),
{
    let ok = reply.len() == 2 && reply[0] == 5 && reply[1] == 0;
    proof {
        if ok {
            assert(reply@ =~= seq![5u8, 0u8]);
        } else if reply@.len() == 2 {
            assert(reply@[0] != 5u8 || reply@[1] != 0u8);
        }
    }
    ok
}

/// The bytes of `s` (`str::as_bytes`), as a vector.
fn bytes_of(s: &str) -> (r: Vec<u8>)
    ensures
        r@ == s.spec_bytes(),
{
    let b = s.as_bytes();
    let mut r: Vec<u8> = Vec::new();
    let mut i: usize = 0;
    while i < b.len()
        invariant
            i <= b@.len(),
            r@ == b@.take(i as int),
        decreases b.len() - i,
    {
        r.push(b[i]);
        assert(b@.take(i + 1) == b@.take(i as int).push(b@[i as int]));
        i += 1;
    }
    assert(b@.take(b@.len() as int) == b@);
    r
}

/// The CONNECT request for `host:port`, with the host sent as a domain name
/// (the ssh server resolves it).
pub open spec fn connect_request_spec(host: Seq<u8>, port: u16) -> Seq<u8> {
    seq![5u8, 1u8, 0u8, 3u8, host.len() as u8] + host + seq![(port / 256) as u8, (port % 256) as u8]
}

/// The SOCKS5 CONNECT request for `host:port`; an error when the host name
/// is longer than the 255 bytes SOCKS5 allows.
pub fn socks5_connect_request(host: &str, port: u16, en: bool) -> (r: Result<Vec<u8>, String>)
    ensures
        host.spec_bytes().len() > 255 ==> (r matches Err(e) && e@ == (if en {
            "Host name too long"@
        } else {
            "主机名过长"@
        })),
        host.spec_bytes().len() <= 255 ==> (r matches Ok(v) && v@ == connect_request_spec(
            host.spec_bytes(),
            port,
        )),
{
    let bytes = bytes_of(host);
    if bytes.len() > 255 {
        return Err(tr(en, "主机名过长", "Host name too long"));
    }
    let mut req: Vec<u8> = vec![5u8, 1u8, 0u8, 3u8, bytes.len() as u8];
    let mut i: usize = 0;
    while i < bytes.len()
        invariant
            i <= bytes@.len() <= 255,
            req@ == seq![5u8, 1u8, 0u8, 3u8, bytes@.len() as u8] + bytes@.take(i as int),
        decreases bytes.len() - i,
    {
        req.push(bytes[i]);
        assert(bytes@.take(i + 1) == bytes@.take(i as int).push(bytes@[i as int]));
        i += 1;
    }
    assert(bytes@.take(bytes@.len() as int) == bytes@);
    req.push((port / 256) as u8);
    req.push((port % 256) as u8);
    Ok(req)
}

/// The CONNECT request reads back as what was asked: SOCKS5, CONNECT, a
/// domain name of `host.len()` bytes that is `host`, then `port` in network
/// byte order.
pub proof fn lemma_connect_request_law(host: Seq<u8>, port: u16)
    requires
        host.len() <= 255,
    ensures
        ({
            let r = connect_request_spec(host, port);
            let n = host.len() as int;
            &&& r.len() == n + 7
            &&& r[0] == 5 && r[1] == 1 && r[2] == 0 && r[3] == 3
            &&& r[4] == n
            &&& r.subrange(5, 5 + n) == host
            &&& r[5 + n] * 256 + r[6 + n] == port
        }),
{
    let r = connect_request_spec(host, port);
    let n = host.len() as int;
    assert(r.subrange(5, 5 + n) =~= host);
    assert(r[5 + n] == (port / 256) as u8);
    assert(r[6 + n] == (port % 256) as u8);
    assert((port / 256) as u8 == port / 256 && (port % 256) as u8 == port % 256) by (bit_vector);
    assert((port / 256) * 256 + port % 256 == port) by (nonlinear_arith);
}

/// What follows the 4-byte CONNECT reply header: the bound address, whose
/// length the address type gives.
#[derive(Debug, PartialEq, Eq, Clone, Copy)]
pub enum ReplyRest {
    /// Skip this many more bytes (IPv4 or IPv6 address, then the port).
    Fixed(usize),
    /// A domain name: read one length byte, then skip that many + 2.
    DomainName,
}

/// The SOCKS error code message.
pub open spec fn socks_error_spec(code: u8, en: bool) -> Seq<char> {
    if en {
        "The server could not reach the target (SOCKS error "@ + dec(code as nat) + ")"@
    } else {
        "远端无法连接目标（SOCKS 错误码 "@ + dec(code as nat) + "）"@
    }
}

/// Judge the 4-byte header of the CONNECT reply: a non-zero status is the
/// server failing to reach the target; otherwise what remains to be read.
pub fn socks5_connect_reply(header: &[u8], en: bool) -> (r: Result<ReplyRest, String>)
    requires
        header@.len() == 4,
    ensures
        header@[1] != 0 ==> (r matches Err(e) && e@ == socks_error_spec(header@[1], en)),
        header@[1] == 0 && header@[3] == 1 ==> r == Ok::<ReplyRest, String>(ReplyRest::Fixed(6)),
        header@[1] == 0 && header@[3] == 4 ==> r == Ok::<ReplyRest, String>(ReplyRest::Fixed(18)),
        header@[1] == 0 && header@[3] == 3 ==> r == Ok::<ReplyRest, String>(ReplyRest::DomainName),
        header@[1] == 0 && header@[3] != 1 && header@[3] != 3 && header@[3] != 4 ==> (r matches Err(
            e,
        ) && e@ == (if en {
            "Malformed SOCKS5 response"@
        } else {
            "SOCKS5 响应格式错误"@
        })),
{
    if header[1] != 0 {
        let code = dec_string(header[1] as u64);
        return Err(
            tr1(
                en,
                "远端无法连接目标（SOCKS 错误码 ",
                "）",
                "The server could not reach the target (SOCKS error ",
                ")",
                code.as_str(),
            ),
        );
    }
    match header[3] {
        1 => Ok(ReplyRest::Fixed(6)),
        4 => Ok(ReplyRest::Fixed(18)),
        3 => Ok(ReplyRest::DomainName),
        _ => Err(tr(en, "SOCKS5 响应格式错误", "Malformed SOCKS5 response")),
    }
}

/// How many bytes follow a domain name's length byte (the name, then the
/// port).
pub fn socks5_domain_skip(len: u8) -> (r: usize)
    ensures
        r == len as usize + 2,
{
    len as usize + 2
}

// ---- HTTP -----------------------------------------------------------------------

pub open spec fn http_request_spec(path: Seq<char>, host: Seq<char>) -> Seq<char> {
    "GET "@ + path + " HTTP/1.1\r\nHost: "@ + host
        + "\r\nUser-Agent: ssh2socks\r\nConnection: close\r\nAccept: */*\r\n\r\n"@
}

/// The tiny HTTP request sent through the proxy for `http://` probes.
pub fn http_request(target: &Target) -> (r: String)
    ensures
        r@ == http_request_spec(target.path@, target.host@),
{
    let mut r = cat("GET ", target.path.as_str());
    r.append(" HTTP/1.1\r\nHost: ");
    r.append(target.host.as_str());
    r.append("\r\nUser-Agent: ssh2socks\r\nConnection: close\r\nAccept: */*\r\n\r\n");
    r
}

/// What a SOCKS probe does once the proxy has connected to the target.
pub enum AfterConnect {
    /// The target is reached: an `https://` probe counts as up without TLS.
    Up,
    /// Send this HTTP request and judge the answer (`is_http_response`).
    Send(String),
}

/// The step after the CONNECT: done for `https://`, else the request.
pub fn after_connect(target: &Target) -> (r: AfterConnect)
    ensures
        target.https ==> r is Up,
        !target.https ==> (r matches AfterConnect::Send(req) && req@ == http_request_spec(
            target.path@,
            target.host@,
        )),
{
    if target.https {
        AfterConnect::Up
    } else {
        AfterConnect::Send(http_request(target))
    }
}

/// Whether the first bytes of the answer are an HTTP status line.
pub fn is_http_response(head: &[u8]) -> (r: bool)
    ensures
        r == (head@.len() >= 5 && head@.take(5) == seq![72u8, 84u8, 84u8, 80u8, 47u8]),
{
    let ok = head.len() >= 5 && head[0] == 72 && head[1] == 84 && head[2] == 84 && head[3] == 80
        && head[4] == 47;
    proof {
        if head@.len() >= 5 {
            if ok {
                assert(head@.take(5) =~= seq![72u8, 84u8, 84u8, 80u8, 47u8]);
            } else {
                let t = head@.take(5);
                assert(t[0] != 72u8 || t[1] != 84u8 || t[2] != 84u8 || t[3] != 80u8 || t[4] != 47u8);
            }
        }
    }
    ok
}

// ---- what a probe reports ----------------------------------------------------------------

/// `zh` or `english`, then `arg` and `tail`.
fn msg_with(en: bool, zh: &str, zh_tail: &str, english: &str, en_tail: &str, arg: &str) -> (r: String)
    ensures
        r@ == (if en { english@ + arg@ + en_tail@ } else { zh@ + arg@ + zh_tail@ }),
{
    tr1(en, zh, zh_tail, english, en_tail, arg)
}

/// The message of a probe that worked.
pub fn up_message(en: bool) -> (r: String)
    ensures
        r@ == (if en { "up"@ } else { "通"@ }),
{
    tr(en, "通", "up")
}

/// The local SOCKS proxy could not be reached.
pub fn proxy_unreachable(error: &str, en: bool) -> (r: String)
    ensures
        r@ == (if en { "Could not connect to the local proxy: "@ + error@ } else { "无法连接本地代理："@ + error@ }),
{
    let r = msg_with(en, "无法连接本地代理：", "", "Could not connect to the local proxy: ", "", error);
    proof {
        reveal_strlit("");
        assert(r@ =~= (if en { "Could not connect to the local proxy: "@ + error@ } else { "无法连接本地代理："@ + error@ }));
    }
    r
}

/// An I/O error during the SOCKS exchange: the proxy hanging up is said
/// as such (`closed`), any other error by its own text.
pub fn exchange_error(closed: bool, error: &str, en: bool) -> (r: String)
    ensures
        r@ == (if closed {
            if en { "The proxy closed the connection"@ } else { "代理关闭了连接"@ }
        } else {
            error@
        }),
{
    if closed {
        tr(en, "代理关闭了连接", "The proxy closed the connection")
    } else {
        error.to_owned()
    }
}

/// The proxy refused the SOCKS5 greeting.
pub fn handshake_rejected(en: bool) -> (r: String)
    ensures
        r@ == (if en { "SOCKS5 handshake rejected"@ } else { "SOCKS5 握手被拒绝"@ }),
{
    tr(en, "SOCKS5 握手被拒绝", "SOCKS5 handshake rejected")
}

/// The target did not answer like an HTTP server.
pub fn no_valid_response(en: bool) -> (r: String)
    ensures
        r@ == (if en { "No valid response"@ } else { "无有效响应"@ }),
{
    tr(en, "无有效响应", "No valid response")
}

/// The probe address could not be parsed.
pub fn invalid_probe_url(en: bool) -> (r: String)
    ensures
        r@ == (if en { "Invalid probe URL"@ } else { "无效的探测地址"@ }),
{
    tr(en, "无效的探测地址", "Invalid probe URL")
}

/// The probe did not finish in time.
pub fn timed_out(en: bool) -> (r: String)
    ensures
        r@ == (if en { "Timed out"@ } else { "超时"@ }),
{
    tr(en, "超时", "Timed out")
}

/// Nothing listens on the local end of a local forward.
pub fn local_not_listening(port: u16, en: bool) -> (r: String)
    ensures
        r@ == (if en {
            "Nothing is listening on local port "@ + dec(port as nat)
        } else {
            "本地端口 "@ + dec(port as nat) + " 未监听"@
        }),
{
    let p = dec_string(port as u64);
    let r = msg_with(en, "本地端口 ", " 未监听", "Nothing is listening on local port ", "", p.as_str());
    proof {
        reveal_strlit("");
        assert(r@ =~= (if en {
            "Nothing is listening on local port "@ + dec(port as nat)
        } else {
            "本地端口 "@ + dec(port as nat) + " 未监听"@
        }));
    }
    r
}

/// The server dropped a forwarded connection: it cannot reach the target.
pub fn server_cannot_reach(target: &str, en: bool) -> (r: String)
    ensures
        r@ == (if en { "The server can't reach "@ + target@ } else { "服务器无法连接 "@ + target@ }),
{
    let r = msg_with(en, "服务器无法连接 ", "", "The server can't reach ", "", target);
    proof {
        reveal_strlit("");
        assert(r@ =~= (if en { "The server can't reach "@ + target@ } else { "服务器无法连接 "@ + target@ }));
    }
    r
}

/// Nothing runs on the local end of a remote forward.
pub fn no_local_service(port: u16, en: bool) -> (r: String)
    ensures
        r@ == (if en {
            "No service is running on local port "@ + dec(port as nat)
        } else {
            "本地 "@ + dec(port as nat) + " 端口没有服务在运行"@
        }),
{
    let p = dec_string(port as u64);
    let r = msg_with(en, "本地 ", " 端口没有服务在运行", "No service is running on local port ", "", p.as_str());
    proof {
        reveal_strlit("");
        assert(r@ =~= (if en {
            "No service is running on local port "@ + dec(port as nat)
        } else {
            "本地 "@ + dec(port as nat) + " 端口没有服务在运行"@
        }));
    }
    r
}

/// The published end of a remote forward cannot be reached from here.
pub fn remote_unreachable(host: &str, port: u16, en: bool) -> (r: String)
    ensures
        r@ == (if en {
            host_for_url_spec(host@) + ":"@ + dec(port as nat)
                + " is not reachable from this machine (check the server firewall / sshd GatewayPorts)"@
        } else {
            "本机访问不到 "@ + host_for_url_spec(host@) + ":"@ + dec(port as nat)
                + "（检查服务器防火墙 / sshd 的 GatewayPorts）"@
        }),
{
    let h = host_for_url(host);
    let p = dec_string(port as u64);
    let mut r = if en { String::new() } else { "本机访问不到 ".to_owned() };
    proof {
        reveal_strlit("");
    }
    r.append(h.as_str());
    r.append(":");
    r.append(p.as_str());
    r.append(
        if en {
            " is not reachable from this machine (check the server firewall / sshd GatewayPorts)"
        } else {
            "（检查服务器防火墙 / sshd 的 GatewayPorts）"
        },
    );
    r
}

} // verus!
