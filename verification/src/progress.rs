//! Where an ssh connection attempt is, read from its `-v` output, so a
//! connection that hangs can say which step it is stuck at instead of just
//! "still waiting".
//!
//! With ProxyJump the helper `ssh -W` inherits `-v` and shares ssh's stderr,
//! so its lines arrive too. The two sessions run one after the other, so the
//! latest milestone line is always the current step; hosts other than the
//! target are labelled as jump hosts.

use vstd::prelude::*;

use crate::text::{
    ascii_lower, ascii_lower_seq, cat, chars_of, find_from, find_seq, first_word, first_word_bounds,
    has_char, lemma_find_from_bounds, lemma_rfind_bounds, lit, parse_uint, parse_uint_range,
    push_char, push_chars, rfind_seq, rsplit_once, split_once, starts_lit, starts_with, str_eq,
    string_of, string_of_range, sub_vec, to_ascii_lower, tr, tr1, trim, trim_chars,
    trim_end_char, trim_end_char_at,
};

verus! {

/// One step of the connection, in the order ssh goes through them.
#[derive(Debug, PartialEq, Eq)]
pub enum Step {
    /// ssh started but has not connected anywhere yet.
    Start,
    /// A ProxyCommand was started; nothing heard back yet.
    Proxy,
    /// TCP connect to host:port.
    Tcp(String),
    /// TCP is up, waiting for the server's SSH version line.
    Banner(String),
    /// Key exchange with the host.
    Kex(String),
    /// Key exchange request sent, waiting for the server's reply.
    KexReply(String),
    /// Keys agreed, authenticating.
    Auth(String),
    /// Logged in to the host.
    LoggedIn(String),
    /// Logged in to the target, setting up the forward.
    Forwarding,
}

/// A step, with its host as characters.
pub enum StepV {
    Start,
    Proxy,
    Tcp(Seq<char>),
    Banner(Seq<char>),
    Kex(Seq<char>),
    KexReply(Seq<char>),
    Auth(Seq<char>),
    LoggedIn(Seq<char>),
    Forwarding,
}

impl View for Step {
    type V = StepV;

    open spec fn view(&self) -> StepV {
        match self {
            Step::Start => StepV::Start,
            Step::Proxy => StepV::Proxy,
            Step::Tcp(h) => StepV::Tcp(h@),
            Step::Banner(h) => StepV::Banner(h@),
            Step::Kex(h) => StepV::Kex(h@),
            Step::KexReply(h) => StepV::KexReply(h@),
            Step::Auth(h) => StepV::Auth(h@),
            Step::LoggedIn(h) => StepV::LoggedIn(h@),
            Step::Forwarding => StepV::Forwarding,
        }
    }
}

/// The progress tracker of one connection attempt.
pub struct Progress {
    /// The target's HostName (from `ssh -G`), to tell it from jump hosts.
    target: String,
    via_proxy: bool,
    host: String,
    step: Step,
    last_debug: String,
    version_seen: bool,
}

pub struct ProgressV {
    pub target: Seq<char>,
    pub via_proxy: bool,
    pub host: Seq<char>,
    pub step: StepV,
    pub last_debug: Seq<char>,
    pub version_seen: bool,
}

impl View for Progress {
    type V = ProgressV;

    closed spec fn view(&self) -> ProgressV {
        ProgressV {
            target: self.target@,
            via_proxy: self.via_proxy,
            host: self.host@,
            step: self.step@,
            last_debug: self.last_debug@,
            version_seen: self.version_seen,
        }
    }
}

// ---- specification -----------------------------------------------------------

/// "host:22" / "[::1]:22" / "HOST" -> "host" (ASCII-lowercase, no port).
pub open spec fn bare_host_spec(host: Seq<char>) -> Seq<char> {
    let h = trim(host);
    let name = if h.len() > 0 && h[0] == '[' {
        let rest = h.drop_first();
        match find_from(rest, seq![']'], 0) {
            Some(i) => rest.take(i),
            None => rest,
        }
    } else {
        match rsplit_once(h, seq![':']) {
            Some((name, port)) => if !name.contains(':') && parse_uint(port, 65535) is Some {
                name
            } else {
                h
            },
            None => h,
        }
    };
    ascii_lower_seq(name)
}

/// What ssh prints at `-v` level besides `debugN:` lines that is only
/// progress, not worth a log line.
pub open spec fn is_chatter_spec(line: Seq<char>) -> bool {
    ||| starts_with(line, "OpenSSH"@)
    ||| starts_with(line, "Authenticated to "@)
    ||| starts_with(line, "Transferred: "@)
    ||| starts_with(line, "Bytes per second"@)
    ||| starts_with(line, "Killed by signal"@)
}

/// The host of a `Connecting to host [addr] port 22.` line: the first word,
/// then `:port` when the line names a port.
pub open spec fn connecting_host(rest: Seq<char>) -> Seq<char> {
    let name = first_word(rest);
    let port = match rsplit_once(rest, " port "@) {
        Some((_, p)) => trim_end_char(p, '.'),
        None => seq![],
    };
    if port.len() == 0 {
        name
    } else {
        name + seq![':'] + port
    }
}

/// The host of an `Authenticating to host:22 as 'user'` line.
pub open spec fn authenticating_host(rest: Seq<char>) -> Seq<char> {
    match split_once(rest, " as "@) {
        Some((a, _)) => a,
        None => rest,
    }
}

/// What one `debugN: msg` line does to the tracker.
pub open spec fn debug_spec(p: ProgressV, msg: Seq<char>) -> ProgressV {
    if starts_with(msg, "Executing proxy command:"@) {
        ProgressV { via_proxy: true, step: StepV::Proxy, ..p }
    } else if starts_with(msg, "Connecting to "@) {
        let host = connecting_host(msg.skip("Connecting to "@.len() as int));
        ProgressV { host: host, step: StepV::Tcp(host), ..p }
    } else if starts_with(msg, "Connection established"@) {
        ProgressV { step: StepV::Banner(p.host), ..p }
    } else if starts_with(msg, "Authenticating to "@) {
        let host = authenticating_host(msg.skip("Authenticating to "@.len() as int));
        ProgressV { host: host, step: StepV::Kex(host), ..p }
    } else if starts_with(msg, "expecting SSH2_MSG_KEX"@) {
        ProgressV { step: StepV::KexReply(p.host), ..p }
    } else if starts_with(msg, "SSH2_MSG_NEWKEYS received"@) {
        ProgressV { step: StepV::Auth(p.host), ..p }
    } else if starts_with(msg, "Local forwarding listening on"@) || starts_with(
        msg,
        "Local connections to"@,
    ) || starts_with(msg, "Remote connections from"@) {
        ProgressV { step: StepV::Forwarding, ..p }
    } else {
        p
    }
}

/// The message of a `debugN: msg` line, if `line` is one.
pub open spec fn debug_message(line: Seq<char>) -> Option<Seq<char>> {
    if starts_with(line, "debug"@) {
        match split_once(line.skip("debug"@.len() as int), ": "@) {
            Some((_, m)) => Some(m),
            None => None,
        }
    } else {
        None
    }
}

/// What one line of ssh's stderr does: the new tracker, and the ssh version
/// the first time it is printed.
pub open spec fn feed_spec(p: ProgressV, line: Seq<char>) -> (ProgressV, Option<Seq<char>>) {
    match debug_message(line) {
        Some(msg) => (ProgressV { last_debug: msg, ..debug_spec(p, msg) }, None),
        None => if starts_with(line, "Authenticated to "@) || starts_with(
            line,
            "Authentication succeeded"@,
        ) {
            (ProgressV { step: StepV::LoggedIn(p.host), ..p }, None)
        } else if starts_with(line, "OpenSSH"@) && !p.version_seen {
            (ProgressV { version_seen: true, ..p }, Some(line))
        } else {
            (p, None)
        },
    }
}

pub open spec fn is_jump_spec(p: ProgressV, host: Seq<char>) -> bool {
    p.via_proxy && p.target.len() != 0 && bare_host_spec(host) != p.target
}

/// "jump host 1.2.3.4:22" / "server 1.2.3.4:22"
pub open spec fn name_spec(p: ProgressV, host: Seq<char>, en: bool) -> Seq<char> {
    if is_jump_spec(p, host) {
        if en {
            "jump host "@ + host
        } else {
            "跳板机 "@ + host
        }
    } else {
        if en {
            "server "@ + host
        } else {
            "服务器 "@ + host
        }
    }
}

pub open spec fn msg(en: bool, zh: Seq<char>, english: Seq<char>) -> Seq<char> {
    if en {
        english
    } else {
        zh
    }
}

pub open spec fn msg1(
    en: bool,
    zh_a: Seq<char>,
    zh_b: Seq<char>,
    en_a: Seq<char>,
    en_b: Seq<char>,
    arg: Seq<char>,
) -> Seq<char> {
    if en {
        en_a + arg + en_b
    } else {
        zh_a + arg + zh_b
    }
}

/// The current step, for "stuck at …" / "progress: …" messages.
pub open spec fn describe_spec(p: ProgressV, en: bool) -> Seq<char> {
    match p.step {
        StepV::Start => msg(
            en,
            "ssh 尚未开始连接（在读取配置或解析主机名）"@,
            "ssh has not started connecting (reading its config or resolving the host name)"@,
        ),
        StepV::Proxy => msg(
            en,
            "代理命令已启动，还没有收到服务器的回应"@,
            "the proxy command is running, but nothing has come back from the server"@,
        ),
        StepV::Tcp(h) => msg1(
            en,
            "正在连接"@,
            "，对方没有响应"@,
            "connecting to "@,
            ", no answer"@,
            name_spec(p, h, en),
        ),
        StepV::Banner(h) => msg1(
            en,
            "已连上"@,
            " 的端口，但对方没有发来 SSH 版本信息"@,
            "connected to the port of "@,
            ", but it has not sent its SSH version"@,
            name_spec(p, h, en),
        ),
        StepV::Kex(h) => msg1(
            en,
            "正在与"@,
            " 交换密钥"@,
            "exchanging keys with "@,
            ""@,
            name_spec(p, h, en),
        ),
        StepV::KexReply(h) => msg1(
            en,
            "已向"@,
            " 发出密钥交换请求，一直没有收到回应"@,
            "sent the key exchange request to "@,
            ", no reply"@,
            name_spec(p, h, en),
        ),
        StepV::Auth(h) => msg1(
            en,
            "正在向"@,
            " 验证身份"@,
            "logging in to "@,
            ""@,
            name_spec(p, h, en),
        ),
        StepV::LoggedIn(h) => if is_jump_spec(p, h) {
            msg1(
                en,
                "已登录"@,
                "，正在通过它连接目标服务器"@,
                "logged in to "@,
                ", connecting to the target server through it"@,
                name_spec(p, h, en),
            )
        } else {
            msg1(
                en,
                "已登录"@,
                "，正在建立端口转发"@,
                "logged in to "@,
                ", setting up the forward"@,
                name_spec(p, h, en),
            )
        },
        StepV::Forwarding => msg(
            en,
            "已登录，正在等待端口转发就绪"@,
            "logged in, waiting for the forward to be ready"@,
        ),
    }
}

/// Likely causes for being stuck at the current step, when there is
/// something useful to say.
pub open spec fn hint_spec(p: ProgressV, en: bool) -> Option<Seq<char>> {
    match p.step {
        StepV::Proxy => Some(
            msg(
                en,
                "可能原因：ProxyCommand 本身卡住，或它连不到目标地址。"@,
                "Possible causes: the ProxyCommand itself is stuck, or it cannot reach the target."@,
            ),
        ),
        StepV::Tcp(_) => Some(
            msg(
                en,
                "可能原因：地址或端口不对、网络不通，或被防火墙/安全组拦截。"@,
                "Possible causes: wrong address or port, no network route, or a firewall / security group blocking it."@,
            ),
        ),
        StepV::Banner(_) => Some(
            msg(
                en,
                "可能原因：该端口上不是 sshd，或 sshd 负载过高、连接被中间设备拦截。"@,
                "Possible causes: something other than sshd on that port, sshd overloaded, or a device in between holding the connection."@,
            ),
        ),
        StepV::KexReply(_) => Some(
            msg(
                en,
                "可能原因：网络路径上的设备丢弃了较大的数据包（MTU 问题），或经跳板机转发的链路卡住。可以稍后重试，或换个网络确认。"@,
                "Possible causes: a device on the network path drops larger packets (an MTU problem), or the link through the jump host is stuck. Retry later, or try another network to confirm."@,
            ),
        ),
        StepV::LoggedIn(h) => if is_jump_spec(p, h) {
            Some(
                msg(
                    en,
                    "可能原因：跳板机连不到目标服务器的地址或端口。"@,
                    "Possible causes: the jump host cannot reach the target server's address or port."@,
                ),
            )
        } else {
            None
        },
        _ => None,
    }
}

pub open spec fn opt_view(o: Option<String>) -> Option<Seq<char>> {
    match o {
        Some(s) => Some(s@),
        None => None,
    }
}

// ---- implementation ------------------------------------------------------------

/// `line` starts with the literal `p`.
pub fn is_chatter(line: &str) -> (r: bool)
    ensures
        r == is_chatter_spec(line@),
{
    let l = chars_of(line);
    starts_lit(&l, "OpenSSH") || starts_lit(&l, "Authenticated to ") || starts_lit(
        &l,
        "Transferred: ",
    ) || starts_lit(&l, "Bytes per second") || starts_lit(&l, "Killed by signal")
}

/// "host:22" / "[::1]:22" / "HOST" -> "host" (lowercase, no port).
pub fn bare_host(host: &str) -> (r: String)
    ensures
        r@ == bare_host_spec(host@),
{
    let v = chars_of(host);
    let h = trim_chars(&v);
    let name: Vec<char> = if h.len() > 0 && h[0] == '[' {
        let rest = sub_vec(&h, 1, h.len());
        assert(rest@ == h@.drop_first());
        let close = vec![']'];
        assert(close@ == seq![']']);
        match find_seq(&rest, &close, 0) {
            Some(i) => {
                proof {
                    lemma_find_from_bounds(rest@, close@, 0);
                }
                sub_vec(&rest, 0, i)
            },
            None => rest,
        }
    } else {
        let colon = vec![':'];
        assert(colon@ == seq![':']);
        match rfind_seq(&h, &colon) {
            Some(i) => {
                proof {
                    lemma_rfind_bounds(h@, colon@, h@.len() - 1);
                }
                let name = sub_vec(&h, 0, i);
                let ok = !has_char(&name, ':') && parse_uint_range(&h, i + 1, h.len(), 65535).is_some();
                proof {
                    assert(h@.skip(i + 1) == h@.subrange(i + 1, h@.len() as int));
                    assert(h@.take(i as int) == name@);
                }
                if ok {
                    name
                } else {
                    h
                }
            },
            None => h,
        }
    };
    let mut out: Vec<char> = Vec::new();
    let mut k: usize = 0;
    while k < name.len()
        invariant
            k <= name@.len(),
            out@ == ascii_lower_seq(name@).take(k as int),
        decreases name.len() - k,
    {
        out.push(to_ascii_lower(name[k]));
        assert(ascii_lower_seq(name@).take(k + 1) == ascii_lower_seq(name@).take(k as int).push(
            ascii_lower(name@[k as int]),
        ));
        k += 1;
    }
    assert(ascii_lower_seq(name@).take(name@.len() as int) == ascii_lower_seq(name@));
    string_of(&out)
}

impl Progress {
    pub fn new(target: &str) -> (p: Self)
        ensures
            p@ == (ProgressV {
                target: bare_host_spec(target@),
                via_proxy: false,
                host: Seq::empty(),
                step: StepV::Start,
                last_debug: Seq::empty(),
                version_seen: false,
            }),
    {
        Progress {
            target: bare_host(target),
            via_proxy: false,
            host: String::new(),
            step: Step::Start,
            last_debug: String::new(),
            version_seen: false,
        }
    }

    /// The step the connection is at.
    pub fn step(&self) -> (s: &Step)
        ensures
            s@ == self@.step,
    {
        &self.step
    }

    /// Take one line of ssh's stderr. Returns the ssh version the first time
    /// it is printed, for the log.
    pub fn feed(&mut self, line: &str) -> (r: Option<String>)
        ensures
            (final(self)@, opt_view(r)) == feed_spec(old(self)@, line@),
    {
        let l = chars_of(line);
        if starts_lit(&l, "debug") {
            let d = lit("debug");
            let rest = sub_vec(&l, d.len(), l.len());
            assert(rest@ == line@.skip("debug"@.len() as int));
            let sep = lit(": ");
            match find_seq(&rest, &sep, 0) {
                Some(i) => {
                    proof {
                        lemma_find_from_bounds(rest@, sep@, 0);
                    }
                    let m = sub_vec(&rest, i + sep.len(), rest.len());
                    assert(m@ == rest@.skip(i + sep@.len()));
                    self.last_debug = string_of(&m);
                    self.debug(&m);
                    return None;
                },
                None => {},
            }
        }
        if starts_lit(&l, "Authenticated to ") || starts_lit(&l, "Authentication succeeded") {
            self.step = Step::LoggedIn(self.host.clone());
        } else if starts_lit(&l, "OpenSSH") && !self.version_seen {
            self.version_seen = true;
            return Some(line.to_owned());
        }
        None
    }

    fn debug(&mut self, m: &Vec<char>)
        ensures
            final(self)@ == debug_spec(old(self)@, m@),
    {
        if starts_lit(m, "Executing proxy command:") {
            self.via_proxy = true;
            self.step = Step::Proxy;
        } else if starts_lit(m, "Connecting to ") {
            let n = lit("Connecting to ").len();
            let rest = sub_vec(m, n, m.len());
            assert(rest@ == m@.skip("Connecting to "@.len() as int));
            let (a, b) = first_word_bounds(&rest, 0);
            assert(rest@.skip(0) == rest@);
            let mut host = string_of_range(&rest, a, b);
            let pat = lit(" port ");
            let port: Vec<char> = match rfind_seq(&rest, &pat) {
                Some(i) => {
                    proof {
                        lemma_rfind_bounds(rest@, pat@, rest@.len() - pat@.len());
                    }
                    let lo = i + pat.len();
                    let j = trim_end_char_at(&rest, lo, rest.len(), '.');
                    assert(rest@.skip(lo as int) == rest@.subrange(lo as int, rest@.len() as int));
                    sub_vec(&rest, lo, j)
                },
                None => Vec::new(),
            };
            let ghost name = host@;
            assert(name == first_word(rest@));
            if port.len() > 0 {
                push_char(&mut host, ':');
                push_chars(&mut host, &port);
                assert(host@ == name + seq![':'] + port@);
            }
            assert(host@ == connecting_host(rest@));
            self.step = Step::Tcp(host.clone());
            self.host = host;
        } else if starts_lit(m, "Connection established") {
            self.step = Step::Banner(self.host.clone());
        } else if starts_lit(m, "Authenticating to ") {
            let n = lit("Authenticating to ").len();
            let rest = sub_vec(m, n, m.len());
            assert(rest@ == m@.skip("Authenticating to "@.len() as int));
            let pat = lit(" as ");
            let host = match find_seq(&rest, &pat, 0) {
                Some(i) => {
                    proof {
                        lemma_find_from_bounds(rest@, pat@, 0);
                    }
                    string_of_range(&rest, 0, i)
                },
                None => string_of(&rest),
            };
            self.step = Step::Kex(host.clone());
            self.host = host;
        } else if starts_lit(m, "expecting SSH2_MSG_KEX") {
            self.step = Step::KexReply(self.host.clone());
        } else if starts_lit(m, "SSH2_MSG_NEWKEYS received") {
            self.step = Step::Auth(self.host.clone());
        } else if starts_lit(m, "Local forwarding listening on") || starts_lit(
            m,
            "Local connections to",
        ) || starts_lit(m, "Remote connections from") {
            self.step = Step::Forwarding;
        }
    }

    /// Whether `host` is a jump host rather than the target.
    pub fn is_jump(&self, host: &str) -> (r: bool)
        ensures
            r == is_jump_spec(self@, host@),
    {
        if !self.via_proxy || self.target.as_str().is_empty() {
            return false;
        }
        let b = bare_host(host);
        !str_eq(b.as_str(), self.target.as_str())
    }

    /// "jump host 1.2.3.4:22" / "server 1.2.3.4:22"
    fn name(&self, host: &str, en: bool) -> (r: String)
        ensures
            r@ == name_spec(self@, host@, en),
    {
        if self.is_jump(host) {
            cat(if en { "jump host " } else { "跳板机 " }, host)
        } else {
            cat(if en { "server " } else { "服务器 " }, host)
        }
    }

    /// The current step, for "stuck at …" / "progress: …" messages.
    pub fn describe(&self, en: bool) -> (r: String)
        ensures
            r@ == describe_spec(self@, en),
    {
        match &self.step {
            Step::Start => tr(
                en,
                "ssh 尚未开始连接（在读取配置或解析主机名）",
                "ssh has not started connecting (reading its config or resolving the host name)",
            ),
            Step::Proxy => tr(
                en,
                "代理命令已启动，还没有收到服务器的回应",
                "the proxy command is running, but nothing has come back from the server",
            ),
            Step::Tcp(h) => {
                let n = self.name(h.as_str(), en);
                tr1(en, "正在连接", "，对方没有响应", "connecting to ", ", no answer", n.as_str())
            },
            Step::Banner(h) => {
                let n = self.name(h.as_str(), en);
                tr1(
                    en,
                    "已连上",
                    " 的端口，但对方没有发来 SSH 版本信息",
                    "connected to the port of ",
                    ", but it has not sent its SSH version",
                    n.as_str(),
                )
            },
            Step::Kex(h) => {
                let n = self.name(h.as_str(), en);
                tr1(en, "正在与", " 交换密钥", "exchanging keys with ", "", n.as_str())
            },
            Step::KexReply(h) => {
                let n = self.name(h.as_str(), en);
                tr1(
                    en,
                    "已向",
                    " 发出密钥交换请求，一直没有收到回应",
                    "sent the key exchange request to ",
                    ", no reply",
                    n.as_str(),
                )
            },
            Step::Auth(h) => {
                let n = self.name(h.as_str(), en);
                tr1(en, "正在向", " 验证身份", "logging in to ", "", n.as_str())
            },
            Step::LoggedIn(h) => {
                let n = self.name(h.as_str(), en);
                if self.is_jump(h.as_str()) {
                    tr1(
                        en,
                        "已登录",
                        "，正在通过它连接目标服务器",
                        "logged in to ",
                        ", connecting to the target server through it",
                        n.as_str(),
                    )
                } else {
                    tr1(
                        en,
                        "已登录",
                        "，正在建立端口转发",
                        "logged in to ",
                        ", setting up the forward",
                        n.as_str(),
                    )
                }
            },
            Step::Forwarding => tr(
                en,
                "已登录，正在等待端口转发就绪",
                "logged in, waiting for the forward to be ready",
            ),
        }
    }

    /// Likely causes for being stuck at the current step, if there is
    /// something useful to say.
    pub fn hint(&self, en: bool) -> (r: Option<String>)
        ensures
            opt_view(r) == hint_spec(self@, en),
    {
        match &self.step {
            Step::Proxy => Some(
                tr(
                    en,
                    "可能原因：ProxyCommand 本身卡住，或它连不到目标地址。",
                    "Possible causes: the ProxyCommand itself is stuck, or it cannot reach the target.",
                ),
            ),
            Step::Tcp(_) => Some(
                tr(
                    en,
                    "可能原因：地址或端口不对、网络不通，或被防火墙/安全组拦截。",
                    "Possible causes: wrong address or port, no network route, or a firewall / security group blocking it.",
                ),
            ),
            Step::Banner(_) => Some(
                tr(
                    en,
                    "可能原因：该端口上不是 sshd，或 sshd 负载过高、连接被中间设备拦截。",
                    "Possible causes: something other than sshd on that port, sshd overloaded, or a device in between holding the connection.",
                ),
            ),
            Step::KexReply(_) => Some(
                tr(
                    en,
                    "可能原因：网络路径上的设备丢弃了较大的数据包（MTU 问题），或经跳板机转发的链路卡住。可以稍后重试，或换个网络确认。",
                    "Possible causes: a device on the network path drops larger packets (an MTU problem), or the link through the jump host is stuck. Retry later, or try another network to confirm.",
                ),
            ),
            Step::LoggedIn(h) => if self.is_jump(h.as_str()) {
                Some(
                    tr(
                        en,
                        "可能原因：跳板机连不到目标服务器的地址或端口。",
                        "Possible causes: the jump host cannot reach the target server's address or port.",
                    ),
                )
            } else {
                None
            },
            _ => None,
        }
    }

    /// The last `-v` line ssh printed, for the log when giving up.
    pub fn last_debug(&self) -> (r: &str)
        ensures
            r@ == self@.last_debug,
    {
        self.last_debug.as_str()
    }
}


/// The tracker after the lines `ls`, fed one after the other.
pub open spec fn feed_all(p: ProgressV, ls: Seq<Seq<char>>) -> ProgressV
    decreases ls.len(),
{
    if ls.len() == 0 {
        p
    } else {
        feed_spec(feed_all(p, ls.drop_last()), ls.last()).0
    }
}

/// Whether some line of `ls` starts with `OpenSSH`.
pub open spec fn version_line_in(ls: Seq<Seq<char>>) -> bool {
    exists|i: int| 0 <= i < ls.len() && starts_with(#[trigger] ls[i], "OpenSSH"@)
}

/// A version line is neither a debug line nor an authentication line.
proof fn lemma_version_line_kind(line: Seq<char>)
    ensures
        starts_with(line, "OpenSSH"@) ==> debug_message(line) is None && !starts_with(line, "Authenticated to "@)
            && !starts_with(line, "Authentication succeeded"@),
{
    reveal_strlit("OpenSSH");
    reveal_strlit("debug");
    reveal_strlit("Authenticated to ");
    reveal_strlit("Authentication succeeded");
    if starts_with(line, "OpenSSH"@) {
        assert(line.take(7)[0] == 'O');
        assert(line[0] == 'O');
        if starts_with(line, "debug"@) {
            assert(line.take(5)[0] == 'd');
        }
        if starts_with(line, "Authenticated to "@) {
            assert(line.take(17)[0] == 'A');
        }
        if starts_with(line, "Authentication succeeded"@) {
            assert(line.take(24)[0] == 'A');
        }
    }
}

/// Feeding a line marks the version as seen exactly when it was seen or
/// the line starts with `OpenSSH`.
proof fn lemma_feed_seen(q: ProgressV, line: Seq<char>)
    ensures
        feed_spec(q, line).0.version_seen == (q.version_seen || starts_with(line, "OpenSSH"@)),
{
    lemma_version_line_kind(line);
}

proof fn lemma_feed_all_seen(p: ProgressV, ls: Seq<Seq<char>>)
    ensures
        feed_all(p, ls).version_seen == (p.version_seen || version_line_in(ls)),
    decreases ls.len(),
{
    if ls.len() > 0 {
        let front = ls.drop_last();
        lemma_feed_all_seen(p, front);
        lemma_feed_seen(feed_all(p, front), ls.last());
        if version_line_in(ls) && !version_line_in(front) {
            let i = choose|i: int| 0 <= i < ls.len() && starts_with(#[trigger] ls[i], "OpenSSH"@);
            if i < ls.len() - 1 {
                assert(front[i] == ls[i]);
            }
        }
        if version_line_in(front) {
            let i = choose|i: int| 0 <= i < front.len() && starts_with(#[trigger] front[i], "OpenSSH"@);
            assert(ls[i] == front[i]);
        }
        if starts_with(ls.last(), "OpenSSH"@) {
            assert(ls[ls.len() - 1] == ls.last());
        }
    }
}

/// A `msg` that starts with `lit` does not start with a text that differs
/// from `lit` at some index both have.
proof fn lemma_not_prefix_at(msg: Seq<char>, lit: Seq<char>, other: Seq<char>, k: int)
    requires
        starts_with(msg, lit),
        0 <= k < lit.len(),
        k < other.len(),
        other[k] != lit[k],
    ensures
        !starts_with(msg, other),
{
    assert(msg.take(lit.len() as int)[k] == lit[k]);
    if starts_with(msg, other) {
        assert(msg.take(other.len() as int)[k] == other[k]);
    }
}

proof fn lemma_starts_with_cat(lit: Seq<char>, rest: Seq<char>)
    ensures
        starts_with(lit + rest, lit),
{
    assert((lit + rest).take(lit.len() as int) =~= lit);
}

/// Each milestone message of ssh moves the tracker to its step, whatever
/// it saw before: a started ProxyCommand, the TCP connection up (waiting
/// for the banner), the key exchange request sent, the keys agreed
/// (authenticating), each on the host it last heard of; and
/// `Authenticating to host as user` names the host of the key exchange.
pub proof fn lemma_milestone_messages(p: ProgressV, rest: Seq<char>, host: Seq<char>)
    requires
        forall|i: int| 0 <= i < host.len() ==> #[trigger] host[i] != ' ',
    ensures
        debug_spec(p, "Executing proxy command:"@ + rest).step == StepV::Proxy,
        debug_spec(p, "Executing proxy command:"@ + rest).via_proxy,
        debug_spec(p, "Connection established"@ + rest).step == StepV::Banner(p.host),
        debug_spec(p, "expecting SSH2_MSG_KEX"@ + rest).step == StepV::KexReply(p.host),
        debug_spec(p, "SSH2_MSG_NEWKEYS received"@ + rest).step == StepV::Auth(p.host),
        debug_spec(p, "Authenticating to "@ + host + " as "@ + rest).step == StepV::Kex(host),
        debug_spec(p, "Authenticating to "@ + host + " as "@ + rest).host == host,
{
    reveal_strlit("Executing proxy command:");
    reveal_strlit("Connecting to ");
    reveal_strlit("Connection established");
    reveal_strlit("Authenticating to ");
    reveal_strlit("expecting SSH2_MSG_KEX");
    reveal_strlit("SSH2_MSG_NEWKEYS received");
    reveal_strlit(" as ");
    let proxy = "Executing proxy command:"@;
    let connecting = "Connecting to "@;
    let established = "Connection established"@;
    let authenticating = "Authenticating to "@;
    let expecting = "expecting SSH2_MSG_KEX"@;
    let newkeys = "SSH2_MSG_NEWKEYS received"@;
    lemma_starts_with_cat(proxy, rest);
    let m = established + rest;
    lemma_starts_with_cat(established, rest);
    lemma_not_prefix_at(m, established, proxy, 0);
    lemma_not_prefix_at(m, established, connecting, 8);
    let m = expecting + rest;
    lemma_starts_with_cat(expecting, rest);
    lemma_not_prefix_at(m, expecting, proxy, 0);
    lemma_not_prefix_at(m, expecting, connecting, 0);
    lemma_not_prefix_at(m, expecting, established, 0);
    lemma_not_prefix_at(m, expecting, authenticating, 0);
    let m = newkeys + rest;
    lemma_starts_with_cat(newkeys, rest);
    lemma_not_prefix_at(m, newkeys, proxy, 0);
    lemma_not_prefix_at(m, newkeys, connecting, 0);
    lemma_not_prefix_at(m, newkeys, established, 0);
    lemma_not_prefix_at(m, newkeys, authenticating, 0);
    lemma_not_prefix_at(m, newkeys, expecting, 0);
    let tail = host + " as "@ + rest;
    let m = authenticating + host + " as "@ + rest;
    assert(m =~= authenticating + tail);
    lemma_starts_with_cat(authenticating, tail);
    lemma_not_prefix_at(m, authenticating, proxy, 0);
    lemma_not_prefix_at(m, authenticating, connecting, 0);
    lemma_not_prefix_at(m, authenticating, established, 0);
    assert(m.skip(authenticating.len() as int) =~= tail);
    let h = host.len() as int;
    assert(tail.subrange(h, h + 4) =~= " as "@);
    assert forall|j: int| 0 <= j < h implies #[trigger] tail.subrange(j, j + 4) != " as "@ by {
        assert(tail.subrange(j, j + 4)[0] == host[j]);
    }
    lemma_find_first_occ(tail, " as "@, 0, h);
    assert(tail.take(h) =~= host);
}

proof fn lemma_find_first_occ(s: Seq<char>, p: Seq<char>, i: int, k: int)
    requires
        0 <= i <= k,
        k + p.len() <= s.len(),
        s.subrange(k, k + p.len()) == p,
        forall|j: int| i <= j < k ==> #[trigger] s.subrange(j, j + p.len()) != p,
    ensures
        find_from(s, p, i) == Some(k),
    decreases k - i,
{
    if i < k {
        lemma_find_first_occ(s, p, i + 1, k);
    }
}

/// After `Authenticated to …` (or `Authentication succeeded`), the tracker
/// is logged in to the host it last heard of.
pub proof fn lemma_logged_in_line(p: ProgressV, rest: Seq<char>)
    ensures
        feed_spec(p, "Authenticated to "@ + rest).0.step == StepV::LoggedIn(p.host),
        feed_spec(p, "Authentication succeeded"@ + rest).0.step == StepV::LoggedIn(p.host),
{
    reveal_strlit("Authenticated to ");
    reveal_strlit("Authentication succeeded");
    reveal_strlit("debug");
    lemma_starts_with_cat("Authenticated to "@, rest);
    lemma_starts_with_cat("Authentication succeeded"@, rest);
    lemma_not_prefix_at("Authenticated to "@ + rest, "Authenticated to "@, "debug"@, 0);
    lemma_not_prefix_at("Authentication succeeded"@ + rest, "Authentication succeeded"@, "debug"@, 0);
}

/// Once ssh says a forward is set up, local (`Local forwarding listening
/// on`, `Local connections to`) or remote (`Remote connections from`), the
/// tracker is at the Forwarding step, whatever it saw before.
pub proof fn lemma_forward_messages(p: ProgressV, rest: Seq<char>)
    ensures
        debug_spec(p, "Local forwarding listening on"@ + rest).step == StepV::Forwarding,
        debug_spec(p, "Local connections to"@ + rest).step == StepV::Forwarding,
        debug_spec(p, "Remote connections from"@ + rest).step == StepV::Forwarding,
{
    reveal_strlit("Local forwarding listening on");
    reveal_strlit("Local connections to");
    reveal_strlit("Remote connections from");
    reveal_strlit("Executing proxy command:");
    reveal_strlit("Connecting to ");
    reveal_strlit("Connection established");
    reveal_strlit("Authenticating to ");
    reveal_strlit("expecting SSH2_MSG_KEX");
    reveal_strlit("SSH2_MSG_NEWKEYS received");
    let others = seq![
        "Executing proxy command:"@,
        "Connecting to "@,
        "Connection established"@,
        "Authenticating to "@,
        "expecting SSH2_MSG_KEX"@,
        "SSH2_MSG_NEWKEYS received"@,
    ];
    let lits = seq!["Local forwarding listening on"@, "Local connections to"@, "Remote connections from"@];
    assert forall|a: int, b: int| 0 <= a < 3 && 0 <= b < 6 implies !starts_with(
        #[trigger] lits[a] + rest,
        #[trigger] others[b],
    ) by {
        let msg = lits[a] + rest;
        assert(msg.take(lits[a].len() as int) =~= lits[a]);
        lemma_not_prefix_at(msg, lits[a], others[b], 0);
    }
    assert forall|a: int| 0 <= a < 3 implies starts_with(#[trigger] (lits[a] + rest), lits[a]) by {
        assert((lits[a] + rest).take(lits[a].len() as int) =~= lits[a]);
    }
    assert(lits[0] == "Local forwarding listening on"@);
    assert(lits[1] == "Local connections to"@);
    assert(lits[2] == "Remote connections from"@);
    assert(others[0] == "Executing proxy command:"@);
    assert(others[1] == "Connecting to "@);
    assert(others[2] == "Connection established"@);
    assert(others[3] == "Authenticating to "@);
    assert(others[4] == "expecting SSH2_MSG_KEX"@);
    assert(others[5] == "SSH2_MSG_NEWKEYS received"@);
}

/// The same read off ssh's stderr: after a line `debugN: Remote
/// connections from …` (or one of the two local-forward messages), the
/// tracker is at the Forwarding step.
pub proof fn lemma_forward_lines(p: ProgressV, n: char, rest: Seq<char>)
    ensures
        feed_spec(p, "debug"@ + seq![n] + ": "@ + "Remote connections from"@ + rest).0.step == StepV::Forwarding,
        feed_spec(p, "debug"@ + seq![n] + ": "@ + "Local forwarding listening on"@ + rest).0.step
            == StepV::Forwarding,
        feed_spec(p, "debug"@ + seq![n] + ": "@ + "Local connections to"@ + rest).0.step == StepV::Forwarding,
{
    lemma_forward_messages(p, rest);
    let head = "debug"@ + seq![n] + ": "@;
    let lits = seq!["Remote connections from"@, "Local forwarding listening on"@, "Local connections to"@];
    assert forall|a: int| 0 <= a < 3 implies #[trigger] feed_spec(p, head + lits[a] + rest).0.step
        == StepV::Forwarding by {
        let m = lits[a] + rest;
        lemma_debug_message(n, m);
        assert(head + lits[a] + rest =~= head + m);
    }
    assert(lits[0] == "Remote connections from"@);
    assert(lits[1] == "Local forwarding listening on"@);
    assert(lits[2] == "Local connections to"@);
    assert(feed_spec(p, head + lits[0] + rest).0.step == StepV::Forwarding);
    assert(feed_spec(p, head + lits[1] + rest).0.step == StepV::Forwarding);
    assert(feed_spec(p, head + lits[2] + rest).0.step == StepV::Forwarding);
}

/// A `debugN: m` line carries the message `m`.
proof fn lemma_debug_message(n: char, m: Seq<char>)
    ensures
        debug_message("debug"@ + seq![n] + ": "@ + m) == Some(m),
{
    reveal_strlit("debug");
    reveal_strlit(": ");
    let line = "debug"@ + seq![n] + ": "@ + m;
    assert(line.take(5) =~= "debug"@);
    let s = line.skip(5);
    assert(s =~= seq![n] + ": "@ + m);
    assert(s.subrange(0, 2) != ": "@) by {
        assert(s.subrange(0, 2)[1] == ':');
    }
    assert(s.subrange(1, 3) =~= ": "@);
    assert(crate::text::find_from(s, ": "@, 1) == Some(1int));
    assert(crate::text::find_from(s, ": "@, 0) == Some(1int));
    assert(s.skip(3) =~= m);
}

/// ssh's version line is reported once: after the lines `ls` (from a
/// tracker that has not seen it), a line is reported exactly when it starts
/// with `OpenSSH` and no line before it did; a `debugN: m` line reports
/// nothing and leaves `m` as the last ssh output.
pub proof fn lemma_feed_reports(p: ProgressV, ls: Seq<Seq<char>>, line: Seq<char>)
    requires
        !p.version_seen,
    ensures
        feed_spec(feed_all(p, ls), line).1 == (if starts_with(line, "OpenSSH"@) && !version_line_in(ls) {
            Some(line)
        } else {
            None
        }),
        debug_message(line) matches Some(m) ==> feed_spec(feed_all(p, ls), line).0.last_debug == m,
{
    lemma_feed_all_seen(p, ls);
    lemma_version_line_kind(line);
}

/// The ssh version is reported once: a line that reports it leaves the
/// tracker having seen it, and a tracker that has seen it reports it no
/// more.
pub proof fn lemma_version_reported_once(p: ProgressV, line: Seq<char>)
    ensures
        feed_spec(p, line).1 is Some ==> !p.version_seen && feed_spec(p, line).0.version_seen,
        p.version_seen ==> feed_spec(p, line).1 is None && feed_spec(p, line).0.version_seen,
{
}

} // verus!
