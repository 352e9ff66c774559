//! What the window's commands decide: the tunnel form turned into a tunnel,
//! the login test's verdict, the tray's texts and the preferences. The
//! window calls these and does the rest (files, processes, widgets).

use vstd::prelude::*;

use crate::models::{is_simple_uuid_v4, new_id, Prefs, Tunnel, TunnelKind, DEFAULT_PROBE_URL};
use crate::text::{
    cat, chars_of, dec, dec_string, is_ws, is_whitespace, string_of_range, str_eq, tr, tr1, trim,
    trim_bounds, trim_end_char, trim_end_char_at,
};

verus! {

// ---- the tunnel form --------------------------------------------------------------------

/// What the tunnel form sends; `id` is set when editing a tunnel.
pub struct TunnelInput {
    pub id: Option<String>,
    pub name: String,
    pub host: String,
    pub kind: TunnelKind,
    pub port: u16,
    pub remote_port: u16,
    pub target_host: String,
    pub probe_url: String,
    pub auto_reconnect: bool,
}

/// `s` without its leading `c`s (`str::trim_start_matches`).
pub open spec fn trim_start_char(s: Seq<char>, c: char) -> Seq<char>
    decreases s.len(),
{
    if s.len() > 0 && s[0] == c {
        trim_start_char(s.drop_first(), c)
    } else {
        s
    }
}

/// The target address a form value gives: trimmed and without brackets
/// around it, `127.0.0.1` when empty.
pub open spec fn target_of(value: Seq<char>) -> Seq<char> {
    let v = trim(value);
    if v.len() == 0 {
        "127.0.0.1"@
    } else {
        trim_end_char(trim_start_char(v, '['), ']')
    }
}

/// The probe address a form value gives: trimmed, the default when empty.
pub open spec fn probe_url_of(value: Seq<char>) -> Seq<char> {
    let v = trim(value);
    if v.len() == 0 {
        DEFAULT_PROBE_URL@
    } else {
        v
    }
}

/// Why the form cannot be saved, checked in this order, if it cannot.
pub open spec fn form_error(input: TunnelInput, en: bool) -> Option<Seq<char>> {
    let target = target_of(input.target_host@);
    if trim(input.host@).len() == 0 {
        Some(if en { "Choose an ssh host from the list."@ } else { "请从列表中选择一个 ssh 连接。"@ })
    } else if trim(input.name@).len() == 0 {
        Some(if en { "Enter a tunnel name."@ } else { "请填写隧道名称。"@ })
    } else if input.port == 0 || (input.kind != TunnelKind::Socks && input.remote_port == 0) {
        Some(if en { "Ports must be between 1 and 65535."@ } else { "端口必须在 1–65535 之间。"@ })
    } else if exists|i: int| 0 <= i < target.len() && is_ws(#[trigger] target[i]) {
        Some(if en { "The target address is not valid."@ } else { "目标地址格式不正确。"@ })
    } else {
        None
    }
}

fn trimmed(s: &str) -> (r: String)
    ensures
        r@ == trim(s@),
{
    let v = chars_of(s);
    let (lo, hi) = trim_bounds(&v, 0, v.len());
    assert(v@.subrange(0, v@.len() as int) == v@);
    string_of_range(&v, lo, hi)
}

fn target_value(value: &str) -> (r: String)
    ensures
        r@ == target_of(value@),
{
    let t = trimmed(value);
    if t.as_str().is_empty() {
        return "127.0.0.1".to_owned();
    }
    let v = chars_of(t.as_str());
    let mut i: usize = 0;
    assert(v@.skip(0) == v@);
    while i < v.len() && v[i] == '['
        invariant
            i <= v@.len(),
            trim_start_char(v@, '[') == trim_start_char(v@.skip(i as int), '['),
        decreases v.len() - i,
    {
        assert(v@.skip(i as int).drop_first() =~= v@.skip(i + 1));
        i += 1;
    }
    assert(trim_start_char(v@.skip(i as int), '[') == v@.skip(i as int));
    let j = trim_end_char_at(&v, i, v.len(), ']');
    assert(v@.subrange(i as int, v@.len() as int) == v@.skip(i as int));
    string_of_range(&v, i, j)
}

fn has_whitespace(s: &str) -> (r: bool)
    ensures
        r == exists|i: int| 0 <= i < s@.len() && is_ws(#[trigger] s@[i]),
{
    let v = chars_of(s);
    let mut i: usize = 0;
    while i < v.len()
        invariant
            i <= v@.len(),
            v@ == s@,
            forall|k: int| 0 <= k < i ==> !is_ws(#[trigger] v@[k]),
        decreases v.len() - i,
    {
        if is_whitespace(v[i]) {
            return true;
        }
        i += 1;
    }
    false
}

/// The tunnel the form describes, or why it cannot be saved. Names,
/// hosts and addresses are trimmed; a new tunnel gets a fresh identifier.
pub fn tunnel_from_input(input: TunnelInput, en: bool) -> (r: Result<Tunnel, String>)
    ensures
        match form_error(input, en) {
            Some(m) => r matches Err(e) && e@ == m,
            None => r matches Ok(t) && {
                &&& t.name@ == trim(input.name@)
                &&& t.host@ == trim(input.host@)
                &&& t.kind == input.kind
                &&& t.port == input.port
                &&& t.remote_port == input.remote_port
                &&& t.target_host@ == target_of(input.target_host@)
                &&& t.probe_url@ == probe_url_of(input.probe_url@)
                &&& t.auto_reconnect == input.auto_reconnect
                &&& match input.id {
                    Some(id) => t.id@ == id@,
                    None => is_simple_uuid_v4(t.id@),
                }
            },
        },
{
    let name = trimmed(input.name.as_str());
    let host = trimmed(input.host.as_str());
    if host.as_str().is_empty() {
        return Err(tr(en, "请从列表中选择一个 ssh 连接。", "Choose an ssh host from the list."));
    }
    if name.as_str().is_empty() {
        return Err(tr(en, "请填写隧道名称。", "Enter a tunnel name."));
    }
    if input.port == 0 || (input.kind != TunnelKind::Socks && input.remote_port == 0) {
        return Err(tr(en, "端口必须在 1–65535 之间。", "Ports must be between 1 and 65535."));
    }
    let target_host = target_value(input.target_host.as_str());
    if has_whitespace(target_host.as_str()) {
        return Err(tr(en, "目标地址格式不正确。", "The target address is not valid."));
    }
    let url = trimmed(input.probe_url.as_str());
    let probe_url = if url.as_str().is_empty() {
        DEFAULT_PROBE_URL.to_owned()
    } else {
        url
    };
    let id = match input.id {
        Some(id) => id,
        None => new_id(),
    };
    Ok(
        Tunnel {
            name,
            host,
            kind: input.kind,
            port: input.port,
            remote_port: input.remote_port,
            target_host,
            probe_url,
            auto_reconnect: input.auto_reconnect,
            id,
        },
    )
}

// ---- the login test ---------------------------------------------------------------------

/// How long the login test may take, in seconds.
pub const LOGIN_TEST_SECS: u64 = 30;

/// The arguments of `ssh` for the login test of `alias`: no command, no
/// terminal, no prompts.
pub fn login_test_args(alias: &str) -> (r: Vec<String>)
    ensures
        r.deep_view() == seq![
            "-T"@,
            "-o"@,
            "BatchMode=yes"@,
            "-o"@,
            "ConnectTimeout=10"@,
            "-o"@,
            "StrictHostKeyChecking=accept-new"@,
            alias@,
            "exit"@,
        ],
{
    let mut r: Vec<String> = Vec::new();
    r.push("-T".to_owned());
    r.push("-o".to_owned());
    r.push("BatchMode=yes".to_owned());
    r.push("-o".to_owned());
    r.push("ConnectTimeout=10".to_owned());
    r.push("-o".to_owned());
    r.push("StrictHostKeyChecking=accept-new".to_owned());
    r.push(alias.to_owned());
    r.push("exit".to_owned());
    assert(r.deep_view() =~= seq![
        "-T"@,
        "-o"@,
        "BatchMode=yes"@,
        "-o"@,
        "ConnectTimeout=10"@,
        "-o"@,
        "StrictHostKeyChecking=accept-new"@,
        alias@,
        "exit"@,
    ]);
    r
}

/// How the login test's ssh ended.
pub enum LoginRun {
    /// It did not finish within `LOGIN_TEST_SECS`.
    TimedOut,
    /// ssh could not be started; the error's text.
    NotStarted(String),
    /// ssh ended; whether it succeeded, and its stderr as text.
    Finished { success: bool, stderr: String },
}

/// The verdict of the login test.
pub struct TestResult {
    pub ok: bool,
    pub output: String,
}

/// The verdict for how the login test ended: ssh's own message, or a
/// short one when there is none.
pub fn test_result(run: LoginRun, en: bool) -> (r: TestResult)
    ensures
        match run {
            LoginRun::TimedOut => !r.ok && r.output@ == (if en {
                "Login did not finish within 30 seconds (network unreachable, or the ProxyCommand / jump host is stuck)"@
            } else {
                "30 秒内没有完成登录（网络不通，或 ProxyCommand / 跳板机卡住）"@
            }),
            LoginRun::NotStarted(e) => !r.ok && r.output@ == (if en {
                "Could not start ssh: "@ + e@
            } else {
                "无法启动 ssh："@ + e@
            }),
            LoginRun::Finished { success, stderr } => r.ok == success && r.output@ == (if success && trim(
                stderr@,
            ).len() == 0 {
                if en {
                    "Login succeeded"@
                } else {
                    "登录成功"@
                }
            } else {
                trim(stderr@)
            }),
        },
{
    match run {
        LoginRun::TimedOut => TestResult {
            ok: false,
            output: tr(
                en,
                "30 秒内没有完成登录（网络不通，或 ProxyCommand / 跳板机卡住）",
                "Login did not finish within 30 seconds (network unreachable, or the ProxyCommand / jump host is stuck)",
            ),
        },
        LoginRun::NotStarted(e) => {
            let output = tr1(en, "无法启动 ssh：", "", "Could not start ssh: ", "", e.as_str());
            proof {
                reveal_strlit("");
                assert(output@ =~= (if en { "Could not start ssh: "@ + e@ } else { "无法启动 ssh："@ + e@ }));
            }
            TestResult { ok: false, output }
        },
        LoginRun::Finished { success, stderr } => {
            let text = trimmed(stderr.as_str());
            let output = if success && text.as_str().is_empty() {
                tr(en, "登录成功", "Login succeeded")
            } else {
                text
            };
            TestResult { ok: success, output }
        },
    }
}

// ---- keys -------------------------------------------------------------------------------

/// The file name a new key of `kind` starts from.
pub fn key_base_name(kind: &str) -> (r: &'static str)
    ensures
        r@ == (if kind@ == "rsa"@ { "id_rsa"@ } else { "id_ed25519"@ }),
{
    if str_eq(kind, "rsa") {
        "id_rsa"
    } else {
        "id_ed25519"
    }
}

// ---- messages ---------------------------------------------------------------------------

/// The home directory could not be found.
pub fn no_home_message(en: bool) -> (r: String)
    ensures
        r@ == (if en { "Could not find the home directory"@ } else { "找不到用户主目录"@ }),
{
    tr(en, "找不到用户主目录", "Could not find the home directory")
}

/// The browser could not be opened.
pub fn browser_error(error: &str, en: bool) -> (r: String)
    ensures
        r@ == (if en { "Could not open the browser: "@ + error@ } else { "无法打开浏览器："@ + error@ }),
{
    let r = tr1(en, "无法打开浏览器：", "", "Could not open the browser: ", "", error);
    proof {
        reveal_strlit("");
        assert(r@ =~= (if en { "Could not open the browser: "@ + error@ } else { "无法打开浏览器："@ + error@ }));
    }
    r
}

/// No editor could be opened.
pub fn editor_error(error: &str, en: bool) -> (r: String)
    ensures
        r@ == (if en { "Could not open an editor: "@ + error@ } else { "无法打开编辑器："@ + error@ }),
{
    let r = tr1(en, "无法打开编辑器：", "", "Could not open an editor: ", "", error);
    proof {
        reveal_strlit("");
        assert(r@ =~= (if en { "Could not open an editor: "@ + error@ } else { "无法打开编辑器："@ + error@ }));
    }
    r
}

/// `~/.ssh/config` does not exist yet.
pub fn config_missing_message(en: bool) -> (r: String)
    ensures
        r@ == (if en {
            "~/.ssh/config does not exist yet. Add a host to create it."@
        } else {
            "~/.ssh/config 还不存在，先添加一个主机即可创建。"@
        }),
{
    tr(
        en,
        "~/.ssh/config 还不存在，先添加一个主机即可创建。",
        "~/.ssh/config does not exist yet. Add a host to create it.",
    )
}

/// The tunnel list could not be saved.
pub fn settings_save_error(error: &str, en: bool) -> (r: String)
    ensures
        r@ == (if en { "Could not save settings: "@ + error@ } else { "保存配置失败："@ + error@ }),
{
    let r = tr1(en, "保存配置失败：", "", "Could not save settings: ", "", error);
    proof {
        reveal_strlit("");
        assert(r@ =~= (if en { "Could not save settings: "@ + error@ } else { "保存配置失败："@ + error@ }));
    }
    r
}

/// `path: error` behind `zh_a` / `en_a`, with `zh_b` between them in
/// Chinese.
fn path_error(en: bool, zh_a: &str, zh_b: &str, en_a: &str, path: &str, error: &str) -> (r: String)
    ensures
        r@ == (if en { en_a@ + path@ + ": "@ + error@ } else { zh_a@ + path@ + zh_b@ + error@ }),
{
    let mut r = if en { cat(en_a, path) } else { cat(zh_a, path) };
    r.append(if en { ": " } else { zh_b });
    r.append(error);
    r
}

/// A directory could not be created.
pub fn create_error(path: &str, error: &str, en: bool) -> (r: String)
    ensures
        r@ == (if en {
            "Could not create "@ + path@ + ": "@ + error@
        } else {
            "无法创建 "@ + path@ + "："@ + error@
        }),
{
    path_error(en, "无法创建 ", "：", "Could not create ", path, error)
}

/// A key file could not be written.
pub fn key_write_error(path: &str, error: &str, en: bool) -> (r: String)
    ensures
        r@ == (if en {
            "Could not write "@ + path@ + ": "@ + error@
        } else {
            "无法写入 "@ + path@ + "："@ + error@
        }),
{
    path_error(en, "无法写入 ", "：", "Could not write ", path, error)
}

/// An ssh config file could not be read.
pub fn config_read_error(path: &str, error: &str, en: bool) -> (r: String)
    ensures
        r@ == (if en {
            "Could not read "@ + path@ + ": "@ + error@
        } else {
            "读取 "@ + path@ + " 失败："@ + error@
        }),
{
    path_error(en, "读取 ", " 失败：", "Could not read ", path, error)
}

/// An ssh config file could not be written.
pub fn config_write_error(path: &str, error: &str, en: bool) -> (r: String)
    ensures
        r@ == (if en {
            "Could not write "@ + path@ + ": "@ + error@
        } else {
            "写入 "@ + path@ + " 失败："@ + error@
        }),
{
    path_error(en, "写入 ", " 失败：", "Could not write ", path, error)
}

/// What a launch tells about ssh processes an earlier run left behind.
pub fn leftovers_line(n: usize) -> (r: String)
    ensures
        r@ == "ssh2socks: stopped "@ + dec(n as nat) + " ssh process(es) left by an earlier run"@,
{
    let d = dec_string(n as u64);
    let mut r = cat("ssh2socks: stopped ", d.as_str());
    r.append(" ssh process(es) left by an earlier run");
    r
}

// ---- tray -------------------------------------------------------------------------------

/// The tray's tooltip: how many tunnels are connected out of how many.
pub fn tray_tooltip(connected: usize, total: usize, en: bool) -> (r: String)
    ensures
        r@ == "ssh2socks — "@ + dec(connected as nat) + "/"@ + dec(total as nat) + (if en {
            " connected"@
        } else {
            " 已连接"@
        }),
{
    let c = dec_string(connected as u64);
    let t = dec_string(total as u64);
    let mut r = cat("ssh2socks — ", c.as_str());
    r.append("/");
    r.append(t.as_str());
    r.append(if en { " connected" } else { " 已连接" });
    r
}

/// The tray menu's entries: show the window, start all, stop all, quit.
pub fn tray_labels(en: bool) -> (r: Vec<String>)
    ensures
        r.deep_view() == (if en {
            seq!["Show window"@, "Start all"@, "Stop all"@, "Quit"@]
        } else {
            seq!["显示主界面"@, "全部启动"@, "全部停止"@, "退出"@]
        }),
{
    let mut r: Vec<String> = Vec::new();
    r.push(tr(en, "显示主界面", "Show window"));
    r.push(tr(en, "全部启动", "Start all"));
    r.push(tr(en, "全部停止", "Stop all"));
    r.push(tr(en, "退出", "Quit"));
    assert(r.deep_view() =~= (if en {
        seq!["Show window"@, "Start all"@, "Stop all"@, "Quit"@]
    } else {
        seq!["显示主界面"@, "全部启动"@, "全部停止"@, "退出"@]
    }));
    r
}

// ---- preferences ------------------------------------------------------------------------

/// The window theme a preference asks for.
#[derive(Clone, Copy, Debug, PartialEq, Eq, Structural)]
pub enum Theme {
    /// Follow the system.
    System,
    Light,
    Dark,
}

/// The theme `"light"` or `"dark"` names; anything else follows the
/// system.
pub fn theme_of(theme: &str) -> (t: Theme)
    ensures
        t == (if theme@ == "light"@ {
            Theme::Light
        } else if theme@ == "dark"@ {
            Theme::Dark
        } else {
            Theme::System
        }),
{
    if str_eq(theme, "light") {
        Theme::Light
    } else if str_eq(theme, "dark") {
        Theme::Dark
    } else {
        Theme::System
    }
}

/// Whether the preferences switch messages to English (`Some(true)`), to
/// Chinese (`Some(false)`), or leave the language as it is (no choice
/// made yet).
pub fn language_choice(prefs: &Prefs) -> (r: Option<bool>)
    ensures
        r == (if prefs.lang@.len() == 0 {
            None
        } else {
            Some(prefs.lang@ == "en"@)
        }),
{
    if prefs.lang.as_str().is_empty() {
        None
    } else {
        Some(str_eq(prefs.lang.as_str(), "en"))
    }
}

} // verus!
