//! Creating new key pairs and importing existing ones into `~/.ssh`.
//!
//! Imported keys are checked before anything is written: the private key
//! must parse and decrypt, match the public key (when one is given), sign a
//! random message that the public key verifies, and for RSA and Ed25519
//! also decrypt what the public key encrypted. Reading and writing the
//! key files is the caller's; the checks and the cryptography are here.

use vstd::prelude::*;

use rsa::pkcs1::DecodeRsaPrivateKey as _;
use rsa::pkcs8::DecodePrivateKey as _;
use rsa::traits::PublicKeyParts as _;
use rsa::signature::{SignatureEncoding as _, Signer as _};
use ssh_key::private::{Ed25519Keypair, KeypairData, RsaKeypair};
use ssh_key::public::KeyData;
use ssh_key::rand_core::{OsRng, RngCore as _};
use ssh_key::{Algorithm, HashAlg, LineEnding, PrivateKey, PublicKey, Signature, SshSig};

use crate::keys::KeyInfo;
use crate::text::{
    cat, chars_of, contains_seq, dec, dec_string, has_char, is_ascii_alnum, lit, prefix,
    str_contains, str_eq, str_starts_with, starts_with, string_of_range, suffix, ends_with, tr,
    tr1, trim, trim_str, copy_string, push_char, lemma_dec_injective,
};

verus! {

/// The namespace of the self-test signatures.
pub const NAMESPACE: &'static str = "ssh2socks-selftest";

/// The length of the self-tests' random messages, in bytes.
pub const TEST_BYTES: usize = 32;

/// What the form sends to create a key pair.
#[derive(Debug)]
pub struct GenerateInput {
    pub name: String,
    /// `ed25519` or `rsa`.
    pub kind: String,
    pub bits: Option<usize>,
    pub comment: String,
    pub passphrase: String,
}

/// What the form sends to import a key pair.
#[derive(Debug)]
pub struct ImportInput {
    pub name: String,
    pub private_key: String,
    pub public_key: String,
    pub passphrase: String,
}

/// One check of an import, as the report shows it.
#[derive(Debug)]
pub struct Step {
    pub title: String,
    pub ok: bool,
    pub detail: String,
}

pub struct StepV {
    pub title: Seq<char>,
    pub ok: bool,
    pub detail: Seq<char>,
}

impl View for Step {
    type V = StepV;

    open spec fn view(&self) -> StepV {
        StepV { title: self.title@, ok: self.ok, detail: self.detail@ }
    }
}

pub open spec fn steps_view(steps: Seq<Step>) -> Seq<StepV> {
    steps.map_values(|s: Step| s@)
}

/// The checks of an import, and a summary of the key.
#[derive(Debug)]
pub struct ImportReport {
    pub ok: bool,
    pub steps: Vec<Step>,
    /// Summary of the key, e.g. `RSA 3072 · SHA256:…`.
    pub summary: String,
}

// ---- file names -----------------------------------------------------------------------------

/// Characters a key file name may hold.
pub open spec fn name_char_ok(c: char) -> bool {
    is_ascii_alnum(c) || c == '.' || c == '_' || c == '-'
}

/// Files in `~/.ssh` that are no key.
pub open spec fn reserved(name: Seq<char>) -> bool {
    ||| name == "config"@
    ||| name == "known_hosts"@
    ||| name == "known_hosts.old"@
    ||| name == "authorized_keys"@
    ||| name == "environment"@
}

/// Why `name` cannot be used for a new key pair, if it cannot: it is
/// empty, holds other characters than letters, digits, `.`, `_` and `-`
/// or starts with a dot, ends with `.pub` or names another ssh file, or
/// the private or the public key file already exists.
pub open spec fn check_name_spec(name: Seq<char>, private_exists: bool, public_exists: bool, en: bool) -> Option<
    Seq<char>,
> {
    if name.len() == 0 {
        Some(if en { "Enter a file name."@ } else { "请填写文件名。"@ })
    } else if !(forall|i: int| 0 <= i < name.len() ==> name_char_ok(#[trigger] name[i])) || name[0]
        == '.' {
        Some(
            if en {
                "File names may only contain letters, digits, dots, underscores and hyphens."@
            } else {
                "文件名只能包含字母、数字、点、下划线和减号。"@
            },
        )
    } else if ends_with(name, ".pub"@) || reserved(name) {
        Some(
            if en {
                "\""@ + name + "\" can't be used as a key file name."@
            } else {
                "不能使用「"@ + name + "」作为密钥文件名。"@
            },
        )
    } else if private_exists || public_exists {
        let file = if private_exists { name } else { name + ".pub"@ };
        Some(
            if en {
                "~/.ssh/"@ + file + " already exists. Choose another file name."@
            } else {
                "~/.ssh/"@ + file + " 已存在，请换一个文件名。"@
            },
        )
    } else {
        None
    }
}

fn is_reserved(name: &str) -> (r: bool)
    ensures
        r == reserved(name@),
{
    str_eq(name, "config") || str_eq(name, "known_hosts") || str_eq(name, "known_hosts.old")
        || str_eq(name, "authorized_keys") || str_eq(name, "environment")
}

/// Check a file name for a new key pair; `private_exists` and
/// `public_exists` say whether `~/.ssh/<name>` and `~/.ssh/<name>.pub`
/// exist.
pub fn check_name(name: &str, private_exists: bool, public_exists: bool, en: bool) -> (r: Result<
    (),
    String,
>)
    ensures
        r is Ok <==> check_name_spec(name@, private_exists, public_exists, en) is None,
        r matches Err(e) ==> check_name_spec(name@, private_exists, public_exists, en) == Some(e@),
{
    let c = chars_of(name);
    if c.len() == 0 {
        return Err(tr(en, "请填写文件名。", "Enter a file name."));
    }
    let mut i: usize = 0;
    let mut ok = true;
    while i < c.len()
        invariant
            i <= c@.len(),
            c@ == name@,
            ok == forall|j: int| 0 <= j < i ==> name_char_ok(#[trigger] c@[j]),
        decreases c.len() - i,
    {
        let ch = c[i];
        let good = ('0' <= ch && ch <= '9') || ('a' <= ch && ch <= 'z') || ('A' <= ch && ch <= 'Z')
            || ch == '.' || ch == '_' || ch == '-';
        proof {
            if ok && !good {
                assert(!name_char_ok(c@[i as int]));
            }
        }
        ok = ok && good;
        i += 1;
    }
    if !ok || c[0] == '.' {
        return Err(
            tr(
                en,
                "文件名只能包含字母、数字、点、下划线和减号。",
                "File names may only contain letters, digits, dots, underscores and hyphens.",
            ),
        );
    }
    let pubx = lit(".pub");
    if suffix(&c, &pubx) || is_reserved(name) {
        return Err(
            tr1(
                en,
                "不能使用「",
                "」作为密钥文件名。",
                "\"",
                "\" can't be used as a key file name.",
                name,
            ),
        );
    }
    if private_exists || public_exists {
        let file = if private_exists {
            name.to_owned()
        } else {
            cat(name, ".pub")
        };
        return Err(
            tr1(
                en,
                "~/.ssh/",
                " 已存在，请换一个文件名。",
                "~/.ssh/",
                " already exists. Choose another file name.",
                file.as_str(),
            ),
        );
    }
    Ok(())
}

/// The `i`-th name tried for a new key: `base`, then `base_2`, `base_3`…
pub open spec fn candidate(base: Seq<char>, i: nat) -> Seq<char> {
    if i <= 1 {
        base
    } else {
        base + "_"@ + dec(i)
    }
}

/// Whether neither `n` nor `n.pub` is among the `taken` file names.
pub open spec fn is_free(n: Seq<char>, taken: Seq<Seq<char>>) -> bool {
    !taken.contains(n) && !taken.contains(n + ".pub"@)
}

/// The first free candidate from the `i`-th to the `last`-th, or `base`.
pub open spec fn first_free(base: Seq<char>, taken: Seq<Seq<char>>, i: nat, last: nat) -> Seq<char>
    decreases last + 1 - i,
{
    if i > last {
        base
    } else if is_free(candidate(base, i), taken) {
        candidate(base, i)
    } else {
        first_free(base, taken, i + 1, last)
    }
}

proof fn lemma_cat_cancel(a: Seq<char>, b: Seq<char>, s: Seq<char>)
    requires
        a + s == b + s,
    ensures
        a == b,
{
    assert(a =~= (a + s).take(a.len() as int));
    assert(b =~= (b + s).take(b.len() as int));
}

/// Different candidates are different names.
proof fn lemma_candidate_injective(base: Seq<char>, i: nat, j: nat)
    requires
        1 <= i,
        1 <= j,
        candidate(base, i) == candidate(base, j),
    ensures
        i == j,
{
    if i >= 2 && j >= 2 {
        reveal_strlit("_");
        let (ci, cj) = (candidate(base, i), candidate(base, j));
        let k = base.len() + 1;
        assert(ci.skip(k as int) =~= dec(i));
        assert(cj.skip(k as int) =~= dec(j));
        lemma_dec_injective(i, j);
    } else if i >= 2 {
        assert(candidate(base, i).len() > base.len());
    } else if j >= 2 {
        assert(candidate(base, j).len() > base.len());
    }
}

proof fn lemma_first_free_found(base: Seq<char>, taken: Seq<Seq<char>>, i: nat, last: nat, w: nat)
    requires
        i <= w <= last,
        is_free(candidate(base, w), taken),
    ensures
        exists|k: nat|
            i <= k <= w && first_free(base, taken, i, last) == candidate(base, k) && is_free(candidate(base, k), taken)
                && forall|j: nat| i <= j < k ==> !is_free(#[trigger] candidate(base, j), taken),
    decreases w - i,
{
    if is_free(candidate(base, i), taken) {
        assert(first_free(base, taken, i, last) == candidate(base, i));
    } else {
        lemma_first_free_found(base, taken, i + 1, last, w);
        let k = choose|k: nat|
            i + 1 <= k <= w && first_free(base, taken, i + 1, last) == candidate(base, k) && is_free(
                candidate(base, k),
                taken,
            ) && forall|j: nat| i + 1 <= j < k ==> !is_free(#[trigger] candidate(base, j), taken);
        assert(first_free(base, taken, i, last) == candidate(base, k));
        assert forall|j: nat| i <= j < k implies !is_free(#[trigger] candidate(base, j), taken) by {
            if j > i {
                assert(i + 1 <= j < k);
            }
        }
    }
}

/// The name suggested for a new key is the first free one of `base`,
/// `base_2`, `base_3`…: among the first `2n + 1` candidates one is free, as
/// each of the `n` taken names rules out at most one candidate as itself
/// and one as its `.pub` file, so the search finds the least.
pub proof fn lemma_suggestion_is_free(base: Seq<char>, taken: Seq<Seq<char>>)
    ensures
        is_free(first_free(base, taken, 1, (2 * taken.len() + 1) as nat), taken),
        exists|k: nat|
            k >= 1 && first_free(base, taken, 1, (2 * taken.len() + 1) as nat) == candidate(base, k) && is_free(
                candidate(base, k),
                taken,
            ) && forall|j: nat| 1 <= j < k ==> !is_free(#[trigger] candidate(base, j), taken),
{
    broadcast use vstd::seq_lib::seq_to_set_is_finite;

    let n = taken.len() as int;
    let last = (2 * n + 1) as nat;
    if exists|w: nat| 1 <= w <= last && is_free(#[trigger] candidate(base, w), taken) {
        let w = choose|w: nat| 1 <= w <= last && is_free(#[trigger] candidate(base, w), taken);
        lemma_first_free_found(base, taken, 1, last, w);
    } else {
        let t = taken.to_set();
        taken.lemma_cardinality_of_set();
        let range = vstd::set_lib::set_int_range(1, 2 * n + 2);
        vstd::set_lib::lemma_int_range(1, 2 * n + 2);
        let f0 = |i: int| candidate(base, i as nat);
        let f1 = |i: int| candidate(base, i as nat) + ".pub"@;
        let i0 = Set::new(|i: int| 1 <= i <= 2 * n + 1 && t.contains(candidate(base, i as nat)));
        let i1 = Set::new(|i: int| 1 <= i <= 2 * n + 1 && t.contains(candidate(base, i as nat) + ".pub"@));
        vstd::set_lib::lemma_len_subset(i0, range);
        vstd::set_lib::lemma_len_subset(i1, range);
        assert(vstd::relations::injective_on(f0, i0)) by {
            assert forall|x: int, y: int| i0.contains(x) && i0.contains(y) && #[trigger] f0(x) == #[trigger] f0(y) implies x == y by {
                lemma_candidate_injective(base, x as nat, y as nat);
            }
        }
        assert(vstd::relations::injective_on(f1, i1)) by {
            assert forall|x: int, y: int| i1.contains(x) && i1.contains(y) && #[trigger] f1(x) == #[trigger] f1(y) implies x == y by {
                lemma_cat_cancel(candidate(base, x as nat), candidate(base, y as nat), ".pub"@);
                lemma_candidate_injective(base, x as nat, y as nat);
            }
        }
        vstd::set_lib::lemma_map_size(i0, i0.map(f0), f0);
        vstd::set_lib::lemma_map_size(i1, i1.map(f1), f1);
        vstd::set_lib::lemma_len_subset(i0.map(f0), t);
        vstd::set_lib::lemma_len_subset(i1.map(f1), t);
        vstd::set_lib::lemma_len_union(i0, i1);
        assert forall|i: int| range.contains(i) implies #[trigger] i0.union(i1).contains(i) by {
            assert(!is_free(candidate(base, i as nat), taken));
        }
        vstd::set_lib::lemma_len_subset(range, i0.union(i1));
        assert(false);
    }
}

fn contains_name(taken: &Vec<String>, n: &str) -> (r: bool)
    ensures
        r == taken.deep_view().contains(n@),
{
    let mut i: usize = 0;
    while i < taken.len()
        invariant
            i <= taken@.len(),
            forall|k: int| 0 <= k < i ==> taken.deep_view()[k] != n@,
        decreases taken.len() - i,
    {
        if str_eq(taken[i].as_str(), n) {
            assert(taken.deep_view()[i as int] == n@);
            return true;
        }
        i += 1;
    }
    false
}

// ---- the default comment ------------------------------------------------------------

/// `s` up to its first `c` (all of it without one): what `str::split`
/// gives first.
pub open spec fn before_char(s: Seq<char>, c: char) -> Seq<char> {
    match crate::text::find_from(s, seq![c], 0) {
        Some(i) => s.take(i),
        None => s,
    }
}

/// Index of the first zero byte of `b` from `i` on, or its length.
pub open spec fn nul_from(b: Seq<u8>, i: int) -> int
    decreases b.len() - i,
{
    if i < 0 || i >= b.len() {
        b.len() as int
    } else if b[i] == 0 {
        i
    } else {
        nul_from(b, i + 1)
    }
}

/// The machine's short name from the buffer `gethostname` filled: the
/// text before the first zero byte (invalid UTF-8 replaced), up to its
/// first dot; `None` when that is empty.
pub open spec fn short_host_spec(buf: Seq<u8>) -> Option<Seq<char>> {
    let name = crate::platform::utf8_lossy(buf.take(nul_from(buf, 0)));
    let short = before_char(name, '.');
    if short.len() == 0 {
        None
    } else {
        Some(short)
    }
}

pub fn short_hostname(buf: &[u8]) -> (r: Option<String>)
    ensures
        opt_str(r) == short_host_spec(buf@),
{
    let mut end: usize = 0;
    while end < buf.len() && buf[end] != 0
        invariant
            end <= buf@.len(),
            nul_from(buf@, 0) == nul_from(buf@, end as int),
        decreases buf.len() - end,
    {
        end += 1;
    }
    let mut head: Vec<u8> = Vec::new();
    let mut i: usize = 0;
    while i < end
        invariant
            i <= end <= buf@.len(),
            head@ == buf@.take(i as int),
        decreases end - i,
    {
        head.push(buf[i]);
        assert(buf@.take(i + 1) =~= buf@.take(i as int).push(buf@[i as int]));
        i += 1;
    }
    let name = crate::platform::decode_fallback(head.as_slice(), None);
    let v = chars_of(name.as_str());
    let cut = match crate::text::find_char_from(&v, '.', 0) {
        Some(j) => j,
        None => v.len(),
    };
    proof {
        crate::text::lemma_find_from_bounds(v@, seq!['.'], 0);
    }
    if cut == 0 {
        assert(before_char(v@, '.').len() == 0);
        return None;
    }
    let r = string_of_range(&v, 0, cut);
    assert(v@.subrange(0, cut as int) =~= before_char(v@, '.'));
    Some(r)
}

/// The comment `ssh-keygen` gives a new key: `user@host`, or the user
/// alone when either is unknown.
pub fn comment_of(user: &str, host: Option<String>) -> (r: String)
    ensures
        r@ == (match host {
            Some(h) => if user@.len() > 0 {
                user@ + "@"@ + h@
            } else {
                user@
            },
            None => user@,
        }),
{
    match host {
        Some(h) => if !user.is_empty() {
            let mut r = cat(user, "@");
            r.append(h.as_str());
            r
        } else {
            user.to_owned()
        },
        None => user.to_owned(),
    }
}

/// A free name for a new key pair in a directory holding the files
/// `taken`: the first of `base`, `base_2`, `base_3`… for which neither the
/// name nor the name with `.pub` is taken. Each taken file rules out at
/// most two candidates, so the first `2n + 1` are the ones looked at.
pub fn suggest_name(base: &str, taken: &Vec<String>) -> (r: String)
    requires
        2 * taken@.len() + 1 < u64::MAX,
    ensures
        r@ == first_free(base@, taken.deep_view(), 1, (2 * taken@.len() + 1) as nat),
        is_free(r@, taken.deep_view()),
        exists|k: nat|
            k >= 1 && r@ == candidate(base@, k) && forall|j: nat|
                1 <= j < k ==> !is_free(#[trigger] candidate(base@, j), taken.deep_view()),
{
    proof {
        lemma_suggestion_is_free(base@, taken.deep_view());
    }
    let last: u64 = 2 * (taken.len() as u64) + 1;
    let mut i: u64 = 1;
    while i <= last
        invariant
            1 <= i <= last + 1,
            last == 2 * taken@.len() + 1,
            2 * taken@.len() + 1 < u64::MAX,
            first_free(base@, taken.deep_view(), 1, last as nat) == first_free(
                base@,
                taken.deep_view(),
                i as nat,
                last as nat,
            ),
        decreases last + 1 - i,
    {
        let n = if i == 1 {
            base.to_owned()
        } else {
            let mut s = cat(base, "_");
            let d = dec_string(i);
            s.append(d.as_str());
            s
        };
        assert(n@ == candidate(base@, i as nat));
        let p = cat(n.as_str(), ".pub");
        if !contains_name(taken, n.as_str()) && !contains_name(taken, p.as_str()) {
            proof {
                let tv = taken.deep_view();
                lemma_suggestion_is_free(base@, tv);
                assert(first_free(base@, tv, 1, last as nat) == n@);
                let k = choose|k: nat|
                    k >= 1 && first_free(base@, tv, 1, last as nat) == candidate(base@, k) && is_free(
                        candidate(base@, k),
                        tv,
                    ) && forall|j: nat| 1 <= j < k ==> !is_free(#[trigger] candidate(base@, j), tv);
                assert(n@ == candidate(base@, k));
            }
            return n;
        }
        i += 1;
    }
    base.to_owned()
}

// ---- the kind of key to create ----------------------------------------------------------------

/// Which step of writing a key's OpenSSH text failed, with the outside
/// error's text: making the key (or encrypting it), or encoding it.
pub enum TextFailure {
    Make(String),
    Encode(String),
}

/// The key pair to create.
#[derive(Debug, PartialEq, Eq, Clone, Copy, Structural)]
pub enum KeyChoice {
    Ed25519,
    Rsa(usize),
}

/// The key a form asks for: Ed25519, or RSA of 2048, 3072 (the default) or
/// 4096 bits; anything else is refused.
pub open spec fn key_choice_spec(kind: Seq<char>, bits: Option<usize>, en: bool) -> Result<KeyChoice, Seq<char>> {
    if kind == "ed25519"@ {
        Ok(KeyChoice::Ed25519)
    } else if kind == "rsa"@ {
        let b = match bits {
            Some(b) => b,
            None => 3072,
        };
        if b == 2048 || b == 3072 || b == 4096 {
            Ok(KeyChoice::Rsa(b))
        } else {
            Err(
                if en {
                    "RSA key size must be 2048, 3072 or 4096."@
                } else {
                    "RSA 长度只支持 2048、3072、4096。"@
                },
            )
        }
    } else {
        Err(if en { "Unsupported key type: "@ + kind } else { "不支持的密钥类型："@ + kind })
    }
}

pub fn key_choice(kind: &str, bits: Option<usize>, en: bool) -> (r: Result<KeyChoice, String>)
    ensures
        match key_choice_spec(kind@, bits, en) {
            Ok(c) => r == Ok::<KeyChoice, String>(c),
            Err(m) => r matches Err(e) && e@ == m,
        },
{
    if str_eq(kind, "ed25519") {
        Ok(KeyChoice::Ed25519)
    } else if str_eq(kind, "rsa") {
        let b = match bits {
            Some(b) => b,
            None => 3072,
        };
        if b == 2048 || b == 3072 || b == 4096 {
            Ok(KeyChoice::Rsa(b))
        } else {
            Err(tr(en, "RSA 长度只支持 2048、3072、4096。", "RSA key size must be 2048, 3072 or 4096."))
        }
    } else {
        let m = tr1(en, "不支持的密钥类型：", "", "Unsupported key type: ", "", kind);
        proof {
            reveal_strlit("");
            assert("不支持的密钥类型："@ + kind@ + ""@ =~= "不支持的密钥类型："@ + kind@);
            assert("Unsupported key type: "@ + kind@ + ""@ =~= "Unsupported key type: "@ + kind@);
        }
        Err(m)
    }
}


// ---- what a private key file holds ----------------------------------------------------------

/// How a private key is stored.
#[derive(Debug, PartialEq, Eq, Clone, Copy, Structural)]
pub enum PrivateFormat {
    OpenSsh,
    Pkcs1,
    Pkcs8,
}

pub open spec fn msg(en: bool, zh: Seq<char>, english: Seq<char>) -> Seq<char> {
    if en {
        english
    } else {
        zh
    }
}

/// The format of a pasted private key, by its markers; or why it cannot be
/// read: nothing given, a PuTTY key, a public key, an encrypted PEM key, or
/// no known marker.
pub open spec fn classify_spec(text: Seq<char>, en: bool) -> Result<PrivateFormat, Seq<char>> {
    let t = trim(text);
    if t.len() == 0 {
        Err(msg(en, "请选择或粘贴私钥。"@, "Choose or paste a private key."@))
    } else if starts_with(t, "PuTTY-User-Key-File"@) {
        Err(msg(en, "这是 PuTTY 的 .ppk 格式，请先在 PuTTYgen 里「Conversions → Export OpenSSH key」导出后再导入。"@, "This is a PuTTY .ppk file. Export it in PuTTYgen with \"Conversions → Export OpenSSH key\" first, then import that."@))
    } else if starts_with(t, "ssh-"@) || starts_with(t, "ecdsa-"@) {
        Err(msg(en, "这是公钥，请在「私钥」处选择不带 .pub 的那个文件。"@, "This is a public key. For the private key, choose the file without .pub."@))
    } else if contains_seq(t, "BEGIN OPENSSH PRIVATE KEY"@) {
        Ok(PrivateFormat::OpenSsh)
    } else if contains_seq(t, "ENCRYPTED"@) {
        Err(msg(en, "暂不支持加密的 PEM 私钥，请先运行 ssh-keygen -p -f <文件> 转为 OpenSSH 格式后再导入。"@, "Encrypted PEM private keys are not supported. Run ssh-keygen -p -f <file> to convert it to OpenSSH format first."@))
    } else if contains_seq(t, "BEGIN RSA PRIVATE KEY"@) {
        Ok(PrivateFormat::Pkcs1)
    } else if contains_seq(t, "BEGIN PRIVATE KEY"@) {
        Ok(PrivateFormat::Pkcs8)
    } else {
        Err(msg(en, "无法识别的私钥格式，需要 OpenSSH（BEGIN OPENSSH PRIVATE KEY）或 RSA PEM 格式。"@, "Unrecognized private key format. OpenSSH (BEGIN OPENSSH PRIVATE KEY) or RSA PEM is required."@))
    }
}

/// Tell the format of a pasted private key (trimmed) by its markers.
pub fn classify_private(text: &str, en: bool) -> (r: Result<PrivateFormat, String>)
    ensures
        match classify_spec(text@, en) {
            Ok(f) => r == Ok::<PrivateFormat, String>(f),
            Err(m) => r matches Err(e) && e@ == m,
        },
{
    let t = trim_str(text);
    let t = t.as_str();
    if t.is_empty() {
        return Err(tr(en, "请选择或粘贴私钥。", "Choose or paste a private key."));
    }
    if str_starts_with(t, "PuTTY-User-Key-File") {
        return Err(tr(en, "这是 PuTTY 的 .ppk 格式，请先在 PuTTYgen 里「Conversions → Export OpenSSH key」导出后再导入。", "This is a PuTTY .ppk file. Export it in PuTTYgen with \"Conversions → Export OpenSSH key\" first, then import that."));
    }
    if str_starts_with(t, "ssh-") || str_starts_with(t, "ecdsa-") {
        return Err(tr(en, "这是公钥，请在「私钥」处选择不带 .pub 的那个文件。", "This is a public key. For the private key, choose the file without .pub."));
    }
    if str_contains(t, "BEGIN OPENSSH PRIVATE KEY") {
        return Ok(PrivateFormat::OpenSsh);
    }
    if str_contains(t, "ENCRYPTED") {
        return Err(tr(en, "暂不支持加密的 PEM 私钥，请先运行 ssh-keygen -p -f <文件> 转为 OpenSSH 格式后再导入。", "Encrypted PEM private keys are not supported. Run ssh-keygen -p -f <file> to convert it to OpenSSH format first."));
    }
    if str_contains(t, "BEGIN RSA PRIVATE KEY") {
        return Ok(PrivateFormat::Pkcs1);
    }
    if str_contains(t, "BEGIN PRIVATE KEY") {
        return Ok(PrivateFormat::Pkcs8);
    }
    Err(tr(en, "无法识别的私钥格式，需要 OpenSSH（BEGIN OPENSSH PRIVATE KEY）或 RSA PEM 格式。", "Unrecognized private key format. OpenSSH (BEGIN OPENSSH PRIVATE KEY) or RSA PEM is required."))
}

/// The private key text as it is saved: CRLF line endings turned into LF,
/// trimmed, with one final newline.
pub open spec fn saved_text_spec(text: Seq<char>) -> Seq<char> {
    trim(crlf_to_lf(text)).push('\n')
}

/// `text` with every `\r\n` replaced by `\n`.
pub open spec fn crlf_to_lf(text: Seq<char>) -> Seq<char>
    decreases text.len(),
{
    if text.len() == 0 {
        seq![]
    } else if text.len() >= 2 && text[0] == '\r' && text[1] == '\n' {
        seq!['\n'] + crlf_to_lf(text.skip(2))
    } else {
        seq![text[0]] + crlf_to_lf(text.skip(1))
    }
}

proof fn lemma_crlf_step(text: Seq<char>, i: int)
    requires
        0 <= i < text.len(),
    ensures
        (i + 1 < text.len() && text[i] == '\r' && text[i + 1] == '\n') ==> crlf_to_lf(text.skip(i))
            == seq!['\n'] + crlf_to_lf(text.skip(i + 2)),
        !(i + 1 < text.len() && text[i] == '\r' && text[i + 1] == '\n') ==> crlf_to_lf(text.skip(i))
            == seq![text[i]] + crlf_to_lf(text.skip(i + 1)),
{
    let t = text.skip(i);
    if i + 2 <= text.len() {
        assert(t.skip(2) =~= text.skip(i + 2));
    }
    assert(t.skip(1) =~= text.skip(i + 1));
}

/// The private key text as it is saved.
pub fn saved_text(text: &str) -> (r: String)
    ensures
        r@ == saved_text_spec(text@),
{
    let c = chars_of(text);
    let mut out: Vec<char> = Vec::new();
    let mut i: usize = 0;
    assert(c@.skip(0) == c@);
    while i < c.len()
        invariant
            i <= c@.len(),
            c@ == text@,
            out@ + crlf_to_lf(c@.skip(i as int)) == crlf_to_lf(c@),
        decreases c.len() - i,
    {
        proof {
            lemma_crlf_step(c@, i as int);
        }
        let ghost o = out@;
        if i + 1 < c.len() && c[i] == '\r' && c[i + 1] == '\n' {
            out.push('\n');
            assert(out@ + crlf_to_lf(c@.skip(i + 2)) =~= o + crlf_to_lf(c@.skip(i as int)));
            i += 2;
        } else {
            out.push(c[i]);
            assert(out@ + crlf_to_lf(c@.skip(i + 1)) =~= o + crlf_to_lf(c@.skip(i as int)));
            i += 1;
        }
    }
    assert(c@.skip(i as int).len() == 0);
    assert(out@ =~= crlf_to_lf(c@));
    let s = crate::text::string_of(&out);
    let mut t = trim_str(s.as_str());
    push_char(&mut t, '\n');
    t
}


// ---- the key types of ssh-key, rsa and the dalek crates --------------------------------------

#[verifier::external_type_specification]
#[verifier::external_body]
pub struct ExPrivateKey(ssh_key::PrivateKey);

#[verifier::external_type_specification]
#[verifier::external_body]
pub struct ExPublicKey(ssh_key::PublicKey);

#[verifier::external_type_specification]
#[verifier::external_body]
pub struct ExRsaPublicKey(rsa::RsaPublicKey);

#[verifier::external_type_specification]
#[verifier::external_body]
pub struct ExVerifyingKey(ed25519_dalek::VerifyingKey);

#[verifier::external_type_specification]
#[verifier::external_body]
pub struct ExSigningKey(ed25519_dalek::SigningKey);

#[verifier::external_type_specification]
#[verifier::external_body]
pub struct ExHashAlg(ssh_key::HashAlg);

#[verifier::external_type_specification]
#[verifier::external_body]
pub struct ExLineEnding(ssh_key::LineEnding);

/// A hash function the self-tests use.
#[derive(Debug, PartialEq, Eq, Clone, Copy, Structural)]
pub enum HashChoice {
    Sha256,
    Sha512,
}

/// The line ending of a written private key file.
#[derive(Debug, PartialEq, Eq, Clone, Copy, Structural)]
pub enum LineBreak {
    Lf,
    CrLf,
}

/// The kind of a public key's data.
#[derive(Debug, PartialEq, Eq, Clone, Copy, Structural)]
pub enum KeyClass {
    Rsa,
    Ed25519,
    Other,
}

/// The algorithm names ssh-key gives keys: its own, or `name@domain`.
pub open spec fn ssh_algorithm(a: Seq<char>) -> bool {
    ||| a == "ssh-dss"@
    ||| a == "ecdsa-sha2-nistp256"@
    ||| a == "ecdsa-sha2-nistp384"@
    ||| a == "ecdsa-sha2-nistp521"@
    ||| a == "ssh-ed25519"@
    ||| a == "ssh-rsa"@
    ||| a == "rsa-sha2-256"@
    ||| a == "rsa-sha2-512"@
    ||| a.contains('@')
}

/// Whether `ssh_key::PrivateKey::from_openssh` accepts `text`.
pub uninterp spec fn openssh_private_parses(text: Seq<char>) -> bool;

/// Whether `rsa::RsaPrivateKey::from_pkcs1_pem` accepts `text`.
pub uninterp spec fn pkcs1_parses(text: Seq<char>) -> bool;

/// Whether `rsa::RsaPrivateKey::from_pkcs8_pem` accepts `text`.
pub uninterp spec fn pkcs8_parses(text: Seq<char>) -> bool;

/// Whether the parser for format `f` accepts `t`.
pub open spec fn parser_accepts(f: PrivateFormat, t: Seq<char>) -> bool {
    match f {
        PrivateFormat::OpenSsh => openssh_private_parses(t),
        PrivateFormat::Pkcs1 => pkcs1_parses(t),
        PrivateFormat::Pkcs8 => pkcs8_parses(t),
    }
}

/// Whether a pasted private key gets past its format check and the parser
/// of its format (given the trimmed text).
pub open spec fn read_accepts(text: Seq<char>, en: bool) -> bool {
    classify_spec(text, en) matches Ok(f) && parser_accepts(f, trim(text))
}

/// `ssh_key::PrivateKey::from_openssh`: an OpenSSH private key, or the
/// error's text. Parsing depends on the text alone; whether it succeeds is
/// named by `openssh_private_parses`.
#[verifier::external_body]
fn openssh_private(text: &str) -> (r: Result<PrivateKey, String>)
    ensures
        r is Ok <==> openssh_private_parses(text@),
{
    PrivateKey::from_openssh(text).map_err(|e| e.to_string())
}

/// The OpenSSH text (LF line endings, empty comment) that ssh-key writes
/// for the RSA key pair of a PEM private key, PKCS#8 if `pkcs8` else
/// PKCS#1; `None` when that fails.
pub uninterp spec fn pem_as_openssh(text: Seq<char>, pkcs8: bool) -> Option<Seq<char>>;

/// Why a PEM private key could not be read as OpenSSH: `rsa` could not read
/// it, ssh-key refused the RSA key pair, or ssh-key could not write it.
pub enum PemFailure {
    Unreadable,
    NotSsh(String),
    Other(String),
}

/// `rsa::RsaPrivateKey::from_pkcs8_pem` (or `from_pkcs1_pem`), then
/// `RsaKeypair::try_from`, `PrivateKey::new` with an empty comment and
/// `PrivateKey::to_openssh` with LF; named by `pem_as_openssh` (an
/// unencrypted key is written with a check number taken from its key
/// data, so the text depends on the PEM text alone). The first step fails
/// exactly when the PEM parser refuses the text; ssh-key reads back the
/// text it wrote.
#[verifier::external_body]
fn pem_to_openssh(text: &str, pkcs8: bool) -> (r: Result<String, PemFailure>)
    ensures
        r matches Ok(t) ==> pem_as_openssh(text@, pkcs8) == Some(t@) && openssh_private_parses(t@),
        r is Err ==> pem_as_openssh(text@, pkcs8) is None,
        (r matches Err(PemFailure::Unreadable)) <==> !(if pkcs8 {
            pkcs8_parses(text@)
        } else {
            pkcs1_parses(text@)
        }),
{
    let key = if pkcs8 {
        rsa::RsaPrivateKey::from_pkcs8_pem(text).ok()
    } else {
        rsa::RsaPrivateKey::from_pkcs1_pem(text).ok()
    }.ok_or(PemFailure::Unreadable)?;
    let pair = RsaKeypair::try_from(key).map_err(|e| PemFailure::NotSsh(e.to_string()))?;
    let k = PrivateKey::new(KeypairData::from(pair), "").map_err(|e| PemFailure::Other(e.to_string()))?;
    k.to_openssh(LineEnding::LF).map(|t| t.to_string()).map_err(|e| PemFailure::Other(e.to_string()))
}

/// Whether `ssh_key::PublicKey::from_openssh` accepts `line`.
pub uninterp spec fn openssh_public_parses(line: Seq<char>) -> bool;

/// `PublicKey::from_openssh`: a public key line, if it is one (named by
/// `openssh_public_parses`; parsing depends on the line alone).
#[verifier::external_body]
fn openssh_public(line: &str) -> (r: Option<PublicKey>)
    ensures
        r is Some <==> openssh_public_parses(line@),
{
    PublicKey::from_openssh(line).ok()
}






/// Whether the OpenSSH private key `key` is encrypted (`false` when it does
/// not parse).
pub uninterp spec fn private_encrypted(key: Seq<char>) -> bool;

/// `PrivateKey::from_openssh` of `key`, then `PrivateKey::is_encrypted`;
/// named by `private_encrypted`.
#[verifier::external_body]
fn text_encrypted(key: &str) -> (r: bool)
    ensures
        r == private_encrypted(key@),
{
    PrivateKey::from_openssh(key).map(|k| k.is_encrypted()).unwrap_or(false)
}

/// The OpenSSH text (with `eol`) of the OpenSSH private key `key` decrypted
/// with `passphrase`, if that works.
pub uninterp spec fn private_decrypted(key: Seq<char>, passphrase: Seq<char>, eol: LineBreak) -> Option<Seq<char>>;

/// `PrivateKey::from_openssh` of `key`, `PrivateKey::decrypt` with
/// `passphrase` (bcrypt-pbkdf and the cipher are deterministic), then
/// `PrivateKey::to_openssh` with `eol`; named by `private_decrypted`.
#[verifier::external_body]
fn decrypt_text(key: &str, passphrase: &str, eol: LineBreak) -> (r: Option<String>)
    ensures
        opt_str(r) == private_decrypted(key@, passphrase@, eol),
{
    let k = PrivateKey::from_openssh(key).ok()?.decrypt(passphrase).ok()?;
    k.to_openssh(line_ending(eol)).ok().map(|t| t.to_string())
}

/// The public key line of the OpenSSH private key `key` (empty when it does
/// not parse or cannot be written).
pub uninterp spec fn private_public_line(key: Seq<char>) -> Seq<char>;

/// `PrivateKey::from_openssh` of `key`, `PrivateKey::public_key`, then
/// `PublicKey::to_openssh`; named by `private_public_line`.
#[verifier::external_body]
fn public_line_of(key: &str) -> (r: String)
    ensures
        r@ == private_public_line(key@),
{
    match PrivateKey::from_openssh(key) {
        Ok(k) => k.public_key().to_openssh().unwrap_or_default(),
        Err(_) => String::new(),
    }
}

/// Whether two public key lines parse and have the same key data.
pub uninterp spec fn same_key_lines(a: Seq<char>, b: Seq<char>) -> bool;

/// `PublicKey::from_openssh` of both lines, and whether their
/// `PublicKey::key_data` compare equal; named by `same_key_lines`.
#[verifier::external_body]
fn lines_same_key(a: &str, b: &str) -> (r: bool)
    ensures
        r == same_key_lines(a@, b@),
{
    match (PublicKey::from_openssh(a), PublicKey::from_openssh(b)) {
        (Ok(x), Ok(y)) => x.key_data() == y.key_data(),
        _ => false,
    }
}

/// The comment of a public key line (empty when it does not parse).
pub uninterp spec fn line_comment(line: Seq<char>) -> Seq<char>;

/// `PublicKey::from_openssh`, then `PublicKey::comment`; named by
/// `line_comment`.
#[verifier::external_body]
fn comment_of_line(line: &str) -> (r: String)
    ensures
        r@ == line_comment(line@),
{
    PublicKey::from_openssh(line).map(|k| k.comment().to_string()).unwrap_or_default()
}

/// The comment of an OpenSSH private key (empty when it does not parse).
pub uninterp spec fn key_comment(key: Seq<char>) -> Seq<char>;

/// `PrivateKey::from_openssh`, then `PrivateKey::comment`; named by
/// `key_comment`.
#[verifier::external_body]
fn comment_of_key(key: &str) -> (r: String)
    ensures
        r@ == key_comment(key@),
{
    PrivateKey::from_openssh(key).map(|k| k.comment().to_string()).unwrap_or_default()
}

/// A public key line written again with `comment`.
pub uninterp spec fn line_with_comment(line: Seq<char>, comment: Seq<char>) -> Option<Seq<char>>;

/// `PublicKey::from_openssh`, `PublicKey::set_comment`, then
/// `PublicKey::to_openssh`; named by `line_with_comment`.
#[verifier::external_body]
fn set_line_comment(line: &str, comment: &str) -> (r: Option<String>)
    ensures
        opt_str(r) == line_with_comment(line@, comment@),
{
    let mut k = PublicKey::from_openssh(line).ok()?;
    k.set_comment(comment);
    k.to_openssh().ok()
}

/// Which kind of key a public key line holds (`Other` when it does not
/// parse).
pub uninterp spec fn line_class(line: Seq<char>) -> KeyClass;

/// `PublicKey::from_openssh`, then which variant `PublicKey::key_data` is;
/// named by `line_class`.
#[verifier::external_body]
fn class_of_line(line: &str) -> (r: KeyClass)
    ensures
        r == line_class(line@),
{
    match PublicKey::from_openssh(line).map(|k| k.key_data().clone()) {
        Ok(KeyData::Rsa(_)) => KeyClass::Rsa,
        Ok(KeyData::Ed25519(_)) => KeyClass::Ed25519,
        _ => KeyClass::Other,
    }
}

/// The modulus size in bytes of an RSA public key line.
pub uninterp spec fn line_rsa_bytes(line: Seq<char>) -> Option<usize>;

/// For a public key line holding an RSA key that `rsa::RsaPublicKey::try_from`
/// accepts, the modulus size in bytes (`PublicKeyParts::size`); `None`
/// otherwise; named by `line_rsa_bytes`. That conversion goes through
/// `rsa::RsaPublicKey::new`, which refuses a modulus of more than 4096 bits,
/// and then refuses a key of fewer than 2048 bits, so the size is between
/// 256 and 512.
#[verifier::external_body]
fn rsa_bytes_of_line(line: &str) -> (r: Option<usize>)
    ensures
        r == line_rsa_bytes(line@),
        r matches Some(n) ==> 256 <= n <= 512,
{
    match PublicKey::from_openssh(line).map(|k| k.key_data().clone()) {
        Ok(KeyData::Rsa(pk)) => rsa::RsaPublicKey::try_from(&pk).ok().map(|k| k.size()),
        _ => None,
    }
}

/// The algorithm name of a public key line (empty when it does not parse).
pub uninterp spec fn line_algorithm(line: Seq<char>) -> Seq<char>;

/// `PublicKey::from_openssh`, then `PublicKey::algorithm` as text
/// (`Algorithm::as_str`: one of the names ssh-key knows, or a `name@domain`
/// name that `AlgorithmName::new` checked); named by `line_algorithm`.
#[verifier::external_body]
fn algorithm_of_line(line: &str) -> (r: String)
    ensures
        r@ == line_algorithm(line@),
        r@.len() > 0 ==> ssh_algorithm(r@),
{
    PublicKey::from_openssh(line).map(|k| k.algorithm().to_string()).unwrap_or_default()
}

/// A new key of the kind `choice`, from the operating system's random
/// numbers (`Ed25519Keypair::random` or `RsaKeypair::random`), made a
/// `PrivateKey` with `comment` (`PrivateKey::new`, unencrypted) and written
/// with `PrivateKey::to_openssh` and `eol`; or the first error's text, as
/// a failure to make the key or to encode it.
/// What the text reads back as: an unencrypted key with that comment whose
/// public key is of that kind, and of exactly `bits` bits for RSA
/// (`rsa::RsaPrivateKey::new` draws primes until the modulus has them).
#[verifier::external_body]
fn new_key_text(choice: KeyChoice, comment: &str, eol: LineBreak) -> (r: Result<String, TextFailure>)
    ensures
        r matches Ok(t) ==> !private_encrypted(t@) && key_comment(t@) == comment@ && line_class(
            private_public_line(t@),
        ) == (match choice {
            KeyChoice::Ed25519 => KeyClass::Ed25519,
            KeyChoice::Rsa(_) => KeyClass::Rsa,
        }),
        r matches Ok(t) ==> (choice matches KeyChoice::Rsa(bits) ==> (2048 <= bits <= 4096 && bits % 8 == 0
            ==> line_rsa_bytes(private_public_line(t@)) == Some((bits / 8) as usize))),
{
    let data = match choice {
        KeyChoice::Ed25519 => KeypairData::from(Ed25519Keypair::random(&mut OsRng)),
        KeyChoice::Rsa(bits) => KeypairData::from(
            RsaKeypair::random(&mut OsRng, bits).map_err(|e| TextFailure::Make(e.to_string()))?,
        ),
    };
    let key = PrivateKey::new(data, comment).map_err(|e| TextFailure::Make(e.to_string()))?;
    key.to_openssh(line_ending(eol)).map(|t| t.to_string()).map_err(|e| TextFailure::Encode(e.to_string()))
}

/// `PrivateKey::from_openssh` of `key`, `PrivateKey::encrypt` with the
/// operating system's random numbers and `passphrase`, then
/// `PrivateKey::to_openssh` with `eol`; or the first error's text, as a
/// failure to read or encrypt the key, or to encode it. The text reads back
/// as an encrypted key that `passphrase` decrypts (`PrivateKey::decrypt`
/// runs the same key derivation and cipher backwards) to a key with the
/// same public key line: `encrypt_with` keeps the public key data and
/// encrypts the key pair with its comment, which `decrypt` decodes again.
#[verifier::external_body]
fn encrypt_text(key: &str, passphrase: &str, eol: LineBreak) -> (r: Result<String, TextFailure>)
    ensures
        r matches Ok(t) ==> private_encrypted(t@),
        r matches Ok(t) ==> (private_decrypted(t@, passphrase@, LineBreak::Lf) matches Some(d)
            && private_public_line(d) == private_public_line(key@)),
{
    let k = PrivateKey::from_openssh(key).map_err(|e| TextFailure::Make(e.to_string()))?;
    let e = k.encrypt(&mut OsRng, passphrase).map_err(|e| TextFailure::Make(e.to_string()))?;
    e.to_openssh(line_ending(eol)).map(|t| t.to_string()).map_err(|e| TextFailure::Encode(e.to_string()))
}

/// `rsa::RsaPrivateKey::from_components` of the five numbers, then
/// `RsaPrivateKey::decrypt` with OAEP and `hash`; or the error's text.
#[verifier::external_body]
fn rsa_decrypt(n: &[u8], e: &[u8], d: &[u8], p: &[u8], q: &[u8], hash: HashChoice, cipher: &[u8]) -> (r: Result<
    Vec<u8>,
    String,
>) {
    let big = rsa::BigUint::from_bytes_be;
    let key = rsa::RsaPrivateKey::from_components(big(n), big(e), big(d), vec![big(p), big(q)]).map_err(|x| x.to_string())?;
    let padding = match hash {
        HashChoice::Sha256 => rsa::Oaep::new::<sha2::Sha256>(),
        HashChoice::Sha512 => rsa::Oaep::new::<sha2::Sha512>(),
    };
    key.decrypt(padding, cipher).map_err(|x| x.to_string())
}

/// `PublicKey::from_openssh` of `line`, then, for an RSA key,
/// `rsa::RsaPublicKey::try_from` of its data: the key or the error's text;
/// `None` for a line that does not parse or holds another kind of key (the
/// same match as `class_of_line`).
#[verifier::external_body]
fn rsa_public_of(line: &str) -> (r: Option<Result<rsa::RsaPublicKey, String>>)
    ensures
        r is Some <==> line_class(line@) == KeyClass::Rsa,
{
    match PublicKey::from_openssh(line).map(|k| k.key_data().clone()) {
        Ok(KeyData::Rsa(pk)) => Some(rsa::RsaPublicKey::try_from(&pk).map_err(|e| e.to_string())),
        _ => None,
    }
}





/// `n` bytes from the operating system's random numbers
/// (`RngCore::fill_bytes` of `OsRng`).
#[verifier::external_body]
fn random_bytes(n: usize) -> (r: Vec<u8>)
    ensures
        r@.len() == n,
{
    let mut b = vec![0u8; n];
    OsRng.fill_bytes(&mut b);
    b
}





/// `ssh_key::HashAlg` for a hash of the library.
#[verifier::external_body]
fn hash_alg(hash: HashChoice) -> (r: HashAlg) {
    match hash {
        HashChoice::Sha256 => HashAlg::Sha256,
        HashChoice::Sha512 => HashAlg::Sha512,
    }
}

/// `ssh_key::LineEnding` for a line ending of the library.
#[verifier::external_body]
fn line_ending(eol: LineBreak) -> (r: LineEnding) {
    match eol {
        LineBreak::Lf => LineEnding::LF,
        LineBreak::CrLf => LineEnding::CRLF,
    }
}

/// What `SshSig::signed_data` gives for a namespace, hash and message.
pub uninterp spec fn sshsig_signed_data(namespace: Seq<char>, hash: HashChoice, msg: Seq<u8>) -> Result<
    Seq<u8>,
    Seq<char>,
>;

/// `SshSig::signed_data` for `namespace` and `hash`: what an SSH signature
/// of `msg` signs, or the error's text (named by `sshsig_signed_data`).
#[verifier::external_body]
fn signed_data(namespace: &str, hash: HashChoice, msg: &[u8]) -> (r: Result<Vec<u8>, String>)
    ensures
        bytes_res(r) == sshsig_signed_data(namespace@, hash, msg@),
{
    SshSig::signed_data(namespace, hash_alg(hash), msg).map_err(|e| e.to_string())
}

/// What signing `msg` with the OpenSSH private key `key` gives: the SSH
/// signature as PEM text, or the error's text.
pub uninterp spec fn sshsig_made(
    key: Seq<char>,
    namespace: Seq<char>,
    hash: HashChoice,
    msg: Seq<u8>,
    eol: LineBreak,
) -> Result<Seq<char>, Seq<char>>;

/// `PrivateKey::from_openssh` of `key`, `PrivateKey::sign` of `msg` for
/// `namespace` and `hash`, and `SshSig::to_pem` with `eol`; the first error's
/// text. Signing is deterministic (Ed25519 and ECDSA per RFC 6979); the
/// result is named by `sshsig_made`.
#[verifier::external_body]
fn sign_with_text(key: &str, namespace: &str, hash: HashChoice, msg: &[u8], eol: LineBreak) -> (r: Result<
    String,
    String,
>)
    ensures
        res_view(r) == sshsig_made(key@, namespace@, hash, msg@, eol),
{
    let k = PrivateKey::from_openssh(key).map_err(|e| e.to_string())?;
    let sig = k.sign(namespace, hash_alg(hash), msg).map_err(|e| e.to_string())?;
    sig.to_pem(line_ending(eol)).map_err(|e| e.to_string())
}

/// Whether the OpenSSH public key line `public` accepts the PEM signature
/// `sig` for `msg` under `namespace`.
pub uninterp spec fn sshsig_verifies(public: Seq<char>, namespace: Seq<char>, msg: Seq<u8>, sig: Seq<char>) -> bool;

/// `PublicKey::from_openssh` of `public`, `SshSig::from_pem` of `sig`, and
/// whether `PublicKey::verify` accepts it for `msg` under `namespace`
/// (`false` when either does not parse); named by `sshsig_verifies`.
#[verifier::external_body]
fn verify_with_line(public: &str, namespace: &str, msg: &[u8], sig: &str) -> (r: bool)
    ensures
        r == sshsig_verifies(public@, namespace@, msg@, sig@),
{
    match (PublicKey::from_openssh(public), SshSig::from_pem(sig)) {
        (Ok(k), Ok(s)) => k.verify(namespace, msg, &s).is_ok(),
        _ => false,
    }
}

/// The five numbers of the RSA key pair in the OpenSSH private key `key`
/// (modulus, public and private exponent, the two primes), each as the
/// bytes `Mpint::as_positive_bytes` gives (empty where it is not a positive
/// number); `None` when `key` does not parse or is not RSA.
pub uninterp spec fn rsa_numbers(key: Seq<char>) -> Option<Seq<Seq<u8>>>;

#[verifier::external_body]
fn rsa_numbers_of(key: &str) -> (r: Option<Vec<Vec<u8>>>)
    ensures
        match r {
            Some(v) => rsa_numbers(key@) == Some(v.deep_view()) && v@.len() == 5,
            None => rsa_numbers(key@) is None,
        },
{
    let pair = match PrivateKey::from_openssh(key).map(|k| k.key_data().clone()) {
        Ok(KeypairData::Rsa(pair)) => pair,
        _ => return None,
    };
    let num = |m: &ssh_key::Mpint| m.as_positive_bytes().map(|b| b.to_vec()).unwrap_or_default();
    Some(vec![num(&pair.public.n), num(&pair.public.e), num(&pair.private.d), num(&pair.private.p), num(&pair.private.q)])
}

/// What `rsa::RsaPrivateKey::from_components` and `validate` say of the
/// five numbers (big-endian): `Ok` or the first error's text.
pub uninterp spec fn rsa_numbers_check(n: Seq<u8>, e: Seq<u8>, d: Seq<u8>, p: Seq<u8>, q: Seq<u8>) -> Result<
    (),
    Seq<char>,
>;

/// `rsa::RsaPrivateKey::from_components` of the numbers (each
/// `BigUint::from_bytes_be`), then `validate`; named by
/// `rsa_numbers_check`.
#[verifier::external_body]
fn rsa_check(n: &[u8], e: &[u8], d: &[u8], p: &[u8], q: &[u8]) -> (r: Result<(), String>)
    ensures
        unit_res(r) == rsa_numbers_check(n@, e@, d@, p@, q@),
{
    let big = rsa::BigUint::from_bytes_be;
    let key = rsa::RsaPrivateKey::from_components(big(n), big(e), big(d), vec![big(p), big(q)]).map_err(|x| x.to_string())?;
    key.validate().map_err(|x| x.to_string())
}

/// The raw PKCS#1 v1.5 signature with `hash` of `data` by the RSA key of the
/// five numbers, or the error's text.
pub uninterp spec fn rsa_pkcs1_signature(
    n: Seq<u8>,
    e: Seq<u8>,
    d: Seq<u8>,
    p: Seq<u8>,
    q: Seq<u8>,
    hash: HashChoice,
    data: Seq<u8>,
) -> Result<Seq<u8>, Seq<char>>;

/// `rsa::RsaPrivateKey::from_components` of the numbers, then
/// `Signer::try_sign` of an `rsa::pkcs1v15::SigningKey` with `hash` (PKCS#1
/// v1.5 signing is deterministic); named by `rsa_pkcs1_signature`.
#[verifier::external_body]
fn rsa_sign(n: &[u8], e: &[u8], d: &[u8], p: &[u8], q: &[u8], hash: HashChoice, data: &[u8]) -> (r: Result<
    Vec<u8>,
    String,
>)
    ensures
        bytes_res(r) == rsa_pkcs1_signature(n@, e@, d@, p@, q@, hash, data@),
{
    let big = rsa::BigUint::from_bytes_be;
    let key = rsa::RsaPrivateKey::from_components(big(n), big(e), big(d), vec![big(p), big(q)]).map_err(|x| x.to_string())?;
    let signed = match hash {
        HashChoice::Sha256 => rsa::pkcs1v15::SigningKey::<sha2::Sha256>::new(key).try_sign(data).map(|s| s.to_vec()),
        HashChoice::Sha512 => rsa::pkcs1v15::SigningKey::<sha2::Sha512>::new(key).try_sign(data).map(|s| s.to_vec()),
    };
    signed.map_err(|x| x.to_string())
}

/// The SSH signature, as PEM text, made of the raw RSA signature `raw`
/// with `hash` for the public key of the OpenSSH private key `key` and
/// `namespace`, or the error's text.
pub uninterp spec fn rsa_sshsig(
    key: Seq<char>,
    namespace: Seq<char>,
    hash: HashChoice,
    raw: Seq<u8>,
    eol: LineBreak,
) -> Result<Seq<char>, Seq<char>>;

/// `PrivateKey::from_openssh` of `key`, `Signature::new` for RSA with
/// `hash` of `raw`, `SshSig::new` for the key's public part, `namespace` and
/// `hash`, and `SshSig::to_pem` with `eol`; named by `rsa_sshsig`.
#[verifier::external_body]
fn rsa_sshsig_of(key: &str, namespace: &str, hash: HashChoice, raw: Vec<u8>, eol: LineBreak) -> (r: Result<
    String,
    String,
>)
    ensures
        res_view(r) == rsa_sshsig(key@, namespace@, hash, raw@, eol),
{
    let data = PrivateKey::from_openssh(key).map_err(|e| e.to_string())?.public_key().key_data().clone();
    let sig = Signature::new(Algorithm::Rsa { hash: Some(hash_alg(hash)) }, raw).map_err(|e| e.to_string())?;
    let ssh = SshSig::new(data, namespace, hash_alg(hash), sig).map_err(|e| e.to_string())?;
    ssh.to_pem(line_ending(eol)).map_err(|e| e.to_string())
}

/// `rsa::RsaPublicKey::encrypt` with OAEP and `hash` and the operating
/// system's random numbers, or the error's text.
#[verifier::external_body]
fn rsa_encrypt(key: &rsa::RsaPublicKey, hash: HashChoice, plain: &[u8]) -> (r: Result<Vec<u8>, String>) {
    let padding = match hash {
        HashChoice::Sha256 => rsa::Oaep::new::<sha2::Sha256>(),
        HashChoice::Sha512 => rsa::Oaep::new::<sha2::Sha512>(),
    };
    key.encrypt(&mut OsRng, padding, plain).map_err(|e| e.to_string())
}


/// The 32 bytes of the Ed25519 key in a public key line (`None` when the
/// line does not parse or holds another kind of key).
pub uninterp spec fn line_ed25519_key(line: Seq<char>) -> Option<Seq<u8>>;

/// `PublicKey::from_openssh` of `line`, then the bytes of its
/// `Ed25519PublicKey` data (32 of them); named by `line_ed25519_key`. It is
/// `Some` exactly for an Ed25519 line (the same match as `class_of_line`).
#[verifier::external_body]
fn ed25519_public_bytes(line: &str) -> (r: Option<Vec<u8>>)
    ensures
        r is Some <==> line_class(line@) == KeyClass::Ed25519,
        match r {
            Some(b) => line_ed25519_key(line@) == Some(b@) && b@.len() == 32,
            None => line_ed25519_key(line@) is None,
        },
{
    match PublicKey::from_openssh(line).map(|k| k.key_data().clone()) {
        Ok(KeyData::Ed25519(pk)) => Some(pk.0.to_vec()),
        _ => None,
    }
}

/// The 32 secret bytes of the Ed25519 key pair in the OpenSSH private key
/// `key` (`None` when it does not parse, is encrypted or is not Ed25519).
pub uninterp spec fn ed25519_secret(key: Seq<char>) -> Option<Seq<u8>>;

/// `PrivateKey::from_openssh` of `key`, then, for `KeypairData::Ed25519`,
/// `Ed25519PrivateKey::to_bytes` (32 bytes); named by `ed25519_secret`.
#[verifier::external_body]
fn ed25519_private_bytes(key: &str) -> (r: Option<Vec<u8>>)
    ensures
        match r {
            Some(b) => ed25519_secret(key@) == Some(b@) && b@.len() == 32,
            None => ed25519_secret(key@) is None,
        },
{
    match PrivateKey::from_openssh(key).map(|k| k.key_data().clone()) {
        Ok(KeypairData::Ed25519(pair)) => Some(pair.private.to_bytes().to_vec()),
        _ => None,
    }
}

/// `ed25519_dalek::VerifyingKey::from_bytes`, if the bytes are a valid key.
#[verifier::external_body]
fn verifying_key(bytes: &[u8]) -> (r: Option<ed25519_dalek::VerifyingKey>)
    requires
        bytes@.len() == 32,
{
    let b: [u8; 32] = bytes.try_into().unwrap();
    ed25519_dalek::VerifyingKey::from_bytes(&b).ok()
}

/// `VerifyingKey::to_montgomery`, as its 32 bytes.
#[verifier::external_body]
fn to_montgomery(key: &ed25519_dalek::VerifyingKey) -> (r: Vec<u8>)
    ensures
        r@.len() == 32,
{
    key.to_montgomery().to_bytes().to_vec()
}

/// `curve25519_dalek::MontgomeryPoint::mul_base_clamped`, as 32 bytes.
#[verifier::external_body]
fn mul_base_clamped(secret: &[u8]) -> (r: Vec<u8>)
    requires
        secret@.len() == 32,
    ensures
        r@.len() == 32,
{
    let s: [u8; 32] = secret.try_into().unwrap();
    curve25519_dalek::MontgomeryPoint::mul_base_clamped(s).to_bytes().to_vec()
}

/// `curve25519_dalek::MontgomeryPoint::mul_clamped` of the point `point` by
/// `scalar`, as 32 bytes.
#[verifier::external_body]
fn mul_clamped(point: &[u8], scalar: &[u8]) -> (r: Vec<u8>)
    requires
        point@.len() == 32,
        scalar@.len() == 32,
    ensures
        r@.len() == 32,
{
    let p: [u8; 32] = point.try_into().unwrap();
    let s: [u8; 32] = scalar.try_into().unwrap();
    curve25519_dalek::MontgomeryPoint(p).mul_clamped(s).to_bytes().to_vec()
}

/// `ed25519_dalek::SigningKey::from_bytes`.
#[verifier::external_body]
fn signing_key(secret: &[u8]) -> (r: ed25519_dalek::SigningKey)
    requires
        secret@.len() == 32,
{
    let s: [u8; 32] = secret.try_into().unwrap();
    ed25519_dalek::SigningKey::from_bytes(&s)
}

/// `SigningKey::to_scalar_bytes`.
#[verifier::external_body]
fn scalar_bytes(key: &ed25519_dalek::SigningKey) -> (r: Vec<u8>)
    ensures
        r@.len() == 32,
{
    key.to_scalar_bytes().to_vec()
}


// ---- the checks, step by step --------------------------------------------------------------

/// The title of the `k`-th check of an import.
pub open spec fn check_title(k: int, en: bool) -> Seq<char> {
    if k == 0 {
        msg(en, "读取私钥"@, "Read private key"@)
    } else if k == 1 {
        msg(en, "解密私钥"@, "Decrypt private key"@)
    } else if k == 2 {
        msg(en, "公私钥配对"@, "Key pair match"@)
    } else if k == 3 {
        msg(en, "签名验证"@, "Sign and verify"@)
    } else if k == 4 {
        msg(en, "加密解密"@, "Encrypt and decrypt"@)
    } else {
        msg(en, "重复检查"@, "Duplicate check"@)
    }
}

fn title(k: usize, en: bool) -> (r: String)
    requires
        k < 6,
    ensures
        r@ == check_title(k as int, en),
{
    if k == 0 {
        tr(en, "读取私钥", "Read private key")
    } else if k == 1 {
        tr(en, "解密私钥", "Decrypt private key")
    } else if k == 2 {
        tr(en, "公私钥配对", "Key pair match")
    } else if k == 3 {
        tr(en, "签名验证", "Sign and verify")
    } else if k == 4 {
        tr(en, "加密解密", "Encrypt and decrypt")
    } else {
        tr(en, "重复检查", "Duplicate check")
    }
}

pub open spec fn res_view(r: Result<String, String>) -> Result<Seq<char>, Seq<char>> {
    match r {
        Ok(d) => Ok(d@),
        Err(e) => Err(e@),
    }
}

/// The step a check with this outcome shows.
pub open spec fn outcome_step(title: Seq<char>, r: Result<Seq<char>, Seq<char>>) -> StepV {
    StepV {
        title: title,
        ok: r is Ok,
        detail: match r {
            Ok(d) => d,
            Err(e) => e,
        },
    }
}

/// Add the step for a check; its detail, if it passed.
fn record(steps: &mut Vec<Step>, title: String, r: Result<String, String>) -> (ok: Option<String>)
    ensures
        steps_view(final(steps)@) == steps_view(old(steps)@).push(outcome_step(title@, res_view(r))),
        ok is Some <==> r is Ok,
        ok matches Some(d) ==> res_view(r) == Ok::<Seq<char>, Seq<char>>(d@),
{
    let ghost before = steps_view(steps@);
    let ghost rv = res_view(r);
    let ghost tv = title@;
    let (good, detail) = match r {
        Ok(d) => (true, d),
        Err(e) => (false, e),
    };
    let kept = copy_string(&detail);
    steps.push(Step { title, ok: good, detail });
    assert(steps_view(steps@) =~= before.push(outcome_step(tv, rv)));
    if good {
        Some(kept)
    } else {
        None
    }
}

/// The decryption check: an unencrypted key passes; an encrypted one needs
/// a passphrase, and passes when it opens the key.
pub open spec fn decrypt_outcome_spec(encrypted: bool, passphrase_empty: bool, decrypted: bool, en: bool) -> Result<
    Seq<char>,
    Seq<char>,
> {
    if encrypted {
        if passphrase_empty {
            Err(msg(en, "私钥已加密，请填写口令。"@, "The private key is encrypted. Enter its passphrase."@))
        } else if decrypted {
            Ok(msg(en, "口令正确，已解密"@, "Passphrase correct, decrypted"@))
        } else {
            Err(msg(en, "口令错误，无法解密私钥。"@, "Wrong passphrase; the private key could not be decrypted."@))
        }
    } else {
        Ok(msg(en, "私钥未加密（无口令）"@, "The private key is not encrypted (no passphrase)"@))
    }
}

pub fn decrypt_outcome(encrypted: bool, passphrase_empty: bool, decrypted: bool, en: bool) -> (r: Result<
    String,
    String,
>)
    ensures
        res_view(r) == decrypt_outcome_spec(encrypted, passphrase_empty, decrypted, en),
{
    if encrypted {
        if passphrase_empty {
            Err(tr(en, "私钥已加密，请填写口令。", "The private key is encrypted. Enter its passphrase."))
        } else if decrypted {
            Ok(tr(en, "口令正确，已解密", "Passphrase correct, decrypted"))
        } else {
            Err(tr(en, "口令错误，无法解密私钥。", "Wrong passphrase; the private key could not be decrypted."))
        }
    } else {
        Ok(tr(en, "私钥未加密（无口令）", "The private key is not encrypted (no passphrase)"))
    }
}

/// The pairing check: with no public key given it passes (the public key
/// is derived); a given one must parse and have the private key's data.
pub open spec fn pair_outcome_spec(given: bool, parsed: bool, same: bool, en: bool) -> Result<Seq<char>, Seq<char>> {
    if !given {
        Ok(msg(en, "未提供公钥，将从私钥导出"@, "No public key given; it will be derived from the private key"@))
    } else if !parsed {
        Err(msg(en, "公钥格式不正确，应为 ssh-ed25519 / ssh-rsa 开头的一行。"@, "Invalid public key. It should be one line starting with ssh-ed25519 / ssh-rsa."@))
    } else if !same {
        Err(msg(en, "公钥和私钥不是一对（指纹不一致）。"@, "The public and private keys are not a pair (fingerprints differ)."@))
    } else {
        Ok(msg(en, "公钥与私钥匹配"@, "Public key matches the private key"@))
    }
}

pub fn pair_outcome(given: bool, parsed: bool, same: bool, en: bool) -> (r: Result<String, String>)
    ensures
        res_view(r) == pair_outcome_spec(given, parsed, same, en),
{
    if !given {
        Ok(tr(en, "未提供公钥，将从私钥导出", "No public key given; it will be derived from the private key"))
    } else if !parsed {
        Err(tr(en, "公钥格式不正确，应为 ssh-ed25519 / ssh-rsa 开头的一行。", "Invalid public key. It should be one line starting with ssh-ed25519 / ssh-rsa."))
    } else if !same {
        Err(tr(en, "公钥和私钥不是一对（指纹不一致）。", "The public and private keys are not a pair (fingerprints differ)."))
    } else {
        Ok(tr(en, "公钥与私钥匹配", "Public key matches the private key"))
    }
}

/// The signature check once signed: the public key must accept the
/// signature, and must not accept it for a tampered message.
pub open spec fn verify_outcome_spec(verified: bool, tampered_verified: bool, en: bool) -> Result<Seq<char>, Seq<char>> {
    if !verified {
        Err(msg(en, "公钥无法验证私钥的签名。"@, "The public key can't verify the private key's signature."@))
    } else if tampered_verified {
        Err(msg(en, "篡改后的消息仍能通过验证，密钥异常。"@, "A tampered message still verified; the key is faulty."@))
    } else {
        Ok(msg(en, "私钥签名、公钥验签通过"@, "Signed with the private key, verified with the public key"@))
    }
}

pub fn verify_outcome(verified: bool, tampered_verified: bool, en: bool) -> (r: Result<String, String>)
    ensures
        res_view(r) == verify_outcome_spec(verified, tampered_verified, en),
{
    if !verified {
        Err(tr(en, "公钥无法验证私钥的签名。", "The public key can't verify the private key's signature."))
    } else if tampered_verified {
        Err(tr(en, "篡改后的消息仍能通过验证，密钥异常。", "A tampered message still verified; the key is faulty."))
    } else {
        Ok(tr(en, "私钥签名、公钥验签通过", "Signed with the private key, verified with the public key"))
    }
}

/// The encryption check once decrypted: what came back must be what was
/// encrypted.
pub open spec fn round_trip_outcome_spec(back: Result<Seq<u8>, Seq<char>>, plain: Seq<u8>, en: bool) -> Result<
    Seq<char>,
    Seq<char>,
> {
    match back {
        Err(e) => Err(e),
        Ok(b) => if b == plain {
            Ok(msg(en, "公钥加密、私钥解密还原一致"@, "Encrypted with the public key, decrypted with the private key, contents match"@))
        } else {
            Err(msg(en, "私钥解密结果与原文不一致。"@, "The decrypted data does not match the original."@))
        },
    }
}

pub open spec fn bytes_res(r: Result<Vec<u8>, String>) -> Result<Seq<u8>, Seq<char>> {
    match r {
        Ok(b) => Ok(b@),
        Err(e) => Err(e@),
    }
}

fn bytes_eq(a: &[u8], b: &[u8]) -> (r: bool)
    ensures
        r == (a@ == b@),
{
    if a.len() != b.len() {
        return false;
    }
    let mut i: usize = 0;
    while i < a.len()
        invariant
            i <= a@.len(),
            a@.len() == b@.len(),
            forall|k: int| 0 <= k < i ==> a@[k] == b@[k],
        decreases a.len() - i,
    {
        if a[i] != b[i] {
            return false;
        }
        i += 1;
    }
    assert(a@ =~= b@);
    true
}

pub fn round_trip_outcome(back: Result<Vec<u8>, String>, plain: &[u8], en: bool) -> (r: Result<String, String>)
    ensures
        res_view(r) == round_trip_outcome_spec(bytes_res(back), plain@, en),
{
    match back {
        Err(e) => Err(e),
        Ok(b) => if bytes_eq(b.as_slice(), plain) {
            Ok(tr(en, "公钥加密、私钥解密还原一致", "Encrypted with the public key, decrypted with the private key, contents match"))
        } else {
            Err(tr(en, "私钥解密结果与原文不一致。", "The decrypted data does not match the original."))
        },
    }
}

/// The last check of an import: the name must be usable, and no key in the
/// directory may already be this one.
pub open spec fn duplicate_outcome_spec(
    name_check: Result<(), Seq<char>>,
    existing: Option<Seq<char>>,
    name: Seq<char>,
    en: bool,
) -> Result<Seq<char>, Seq<char>> {
    match name_check {
        Err(e) => Err(e),
        Ok(()) => match existing {
            Some(n) => Err(
                if en {
                    "This key already exists as \""@ + n + "\"."@
                } else {
                    "这把密钥已经存在，文件名是「"@ + n + "」。"@
                },
            ),
            None => Ok(
                if en {
                    "Will be saved as ~/.ssh/"@ + name + " and "@ + name + ".pub"@
                } else {
                    "将保存为 ~/.ssh/"@ + name + " 和 "@ + name + ".pub"@
                },
            ),
        },
    }
}

pub open spec fn unit_res(r: Result<(), String>) -> Result<(), Seq<char>> {
    match r {
        Ok(()) => Ok(()),
        Err(e) => Err(e@),
    }
}

pub open spec fn opt_str(o: Option<String>) -> Option<Seq<char>> {
    match o {
        Some(s) => Some(s@),
        None => None,
    }
}

pub fn duplicate_outcome(name_check: Result<(), String>, existing: Option<String>, name: &str, en: bool) -> (r:
    Result<String, String>)
    ensures
        res_view(r) == duplicate_outcome_spec(unit_res(name_check), opt_str(existing), name@, en),
{
    match name_check {
        Err(e) => Err(e),
        Ok(()) => match existing {
            Some(n) => Err(
                tr1(
                    en,
                    "这把密钥已经存在，文件名是「",
                    "」。",
                    "This key already exists as \"",
                    "\".",
                    n.as_str(),
                ),
            ),
            None => {
                let mut m = if en {
                    "Will be saved as ~/.ssh/".to_owned()
                } else {
                    "将保存为 ~/.ssh/".to_owned()
                };
                m.append(name);
                m.append(if en { " and " } else { " 和 " });
                m.append(name);
                m.append(".pub");
                Ok(m)
            },
        },
    }
}

/// A key's description: `RSA <bits>` (or `RSA` when its size is unknown),
/// `Ed25519`, or the algorithm's name.
pub open spec fn describe_spec(class: KeyClass, rsa_bytes: Option<usize>, algorithm: Seq<char>) -> Seq<char> {
    match class {
        KeyClass::Rsa => match rsa_bytes {
            Some(n) => "RSA "@ + dec((n * 8) as nat),
            None => "RSA"@,
        },
        KeyClass::Ed25519 => "Ed25519"@,
        KeyClass::Other => algorithm,
    }
}

pub fn describe_parts(class: KeyClass, rsa_bytes: Option<usize>, algorithm: &str) -> (r: String)
    requires
        rsa_bytes matches Some(n) ==> n <= 512,
    ensures
        r@ == describe_spec(class, rsa_bytes, algorithm@),
{
    match class {
        KeyClass::Rsa => match rsa_bytes {
            Some(n) => {
                let bits = (n as u64) * 8;
                let d = dec_string(bits);
                cat("RSA ", d.as_str())
            },
            None => "RSA".to_owned(),
        },
        KeyClass::Ed25519 => "Ed25519".to_owned(),
        KeyClass::Other => algorithm.to_owned(),
    }
}

/// The description of a public key line (see `describe_spec`): `Ed25519`,
/// `RSA` with the modulus size in bits or alone, or the algorithm's name.
pub fn describe(line: &str) -> (r: String)
    ensures
        r@ == describe_spec(line_class(line@), line_rsa_bytes(line@), line_algorithm(line@)),
{
    let class = class_of_line(line);
    let size = rsa_bytes_of_line(line);
    let alg = algorithm_of_line(line);
    describe_parts(class, size, alg.as_str())
}

/// `a · b`, the summary of a key.
pub fn summary_line(description: &str, fingerprint: &str) -> (r: String)
    ensures
        r@ == description@ + " · "@ + fingerprint@,
{
    let mut s = description.to_owned();
    s.append(" · ");
    s.append(fingerprint);
    s
}

/// `data` xor-ed with `stream`, as long as the shorter of the two.
pub open spec fn xor_spec(data: Seq<u8>, stream: Seq<u8>) -> Seq<u8> {
    Seq::new(
        if data.len() < stream.len() {
            data.len()
        } else {
            stream.len()
        },
        |i: int| data[i] ^ stream[i],
    )
}

pub fn xor(data: &[u8], stream: &[u8]) -> (r: Vec<u8>)
    ensures
        r@ == xor_spec(data@, stream@),
{
    let n = if data.len() < stream.len() {
        data.len()
    } else {
        stream.len()
    };
    let mut out: Vec<u8> = Vec::new();
    let mut i: usize = 0;
    while i < n
        invariant
            i <= n,
            n <= data@.len(),
            n <= stream@.len(),
            out@.len() == i,
            forall|k: int| 0 <= k < i ==> out@[k] == data@[k] ^ stream@[k],
        decreases n - i,
    {
        out.push(data[i] ^ stream[i]);
        i += 1;
    }
    assert(out@ =~= xor_spec(data@, stream@));
    out
}

/// The first line of `text` that is not blank, trimmed.
pub open spec fn given_key_line(text: Seq<char>) -> Option<Seq<char>> {
    match crate::keys::first_nonblank(crate::text::lines_of(text), 0) {
        Some(l) => Some(trim(l)),
        None => None,
    }
}

pub fn first_key_line(text: &str) -> (r: Option<String>)
    ensures
        opt_str(r) == given_key_line(text@),
{
    let c = chars_of(text);
    let ls = crate::text::lines(&c);
    let ghost lv = ls.deep_view();
    let mut i: usize = 0;
    while i < ls.len()
        invariant
            i <= ls@.len(),
            lv == ls.deep_view(),
            lv == crate::text::lines_of(text@),
            crate::keys::first_nonblank(lv, 0) == crate::keys::first_nonblank(lv, i as int),
        decreases ls.len() - i,
    {
        let t = trim_str(ls[i].as_str());
        if !t.as_str().is_empty() {
            return Some(t);
        }
        i += 1;
    }
    None
}

/// The name of the first key in `keys` with this fingerprint.
pub open spec fn same_key_spec(keys: Seq<crate::keys::KeyInfoV>, fingerprint: Seq<char>, i: int) -> Option<Seq<char>>
    decreases keys.len() - i,
{
    if i < 0 || i >= keys.len() {
        None
    } else if keys[i].fingerprint == fingerprint {
        Some(keys[i].name)
    } else {
        same_key_spec(keys, fingerprint, i + 1)
    }
}

pub fn same_key_in(keys: &Vec<KeyInfo>, fingerprint: &str) -> (r: Option<String>)
    ensures
        opt_str(r) == same_key_spec(crate::keys::keys_view(keys@), fingerprint@, 0),
{
    let ghost kv = crate::keys::keys_view(keys@);
    let mut i: usize = 0;
    while i < keys.len()
        invariant
            i <= keys@.len(),
            kv == crate::keys::keys_view(keys@),
            same_key_spec(kv, fingerprint@, 0) == same_key_spec(kv, fingerprint@, i as int),
        decreases keys.len() - i,
    {
        if str_eq(keys[i].fingerprint.as_str(), fingerprint) {
            return Some(copy_string(&keys[i].name));
        }
        i += 1;
    }
    None
}

/// The key among `keys` named `name`.
pub open spec fn find_key_spec(keys: Seq<crate::keys::KeyInfoV>, name: Seq<char>, i: int) -> Option<crate::keys::KeyInfoV>
    decreases keys.len() - i,
{
    if i < 0 || i >= keys.len() {
        None
    } else if keys[i].name == name {
        Some(keys[i])
    } else {
        find_key_spec(keys, name, i + 1)
    }
}

/// The key just saved, as listed; an error if it cannot be found.
pub fn find_key(keys: &Vec<KeyInfo>, name: &str, en: bool) -> (r: Result<KeyInfo, String>)
    ensures
        match find_key_spec(crate::keys::keys_view(keys@), name@, 0) {
            Some(k) => r matches Ok(found) && found@ == k,
            None => r matches Err(e) && e@ == msg(en, "密钥已保存，但读取失败。"@, "The key was saved but could not be read back."@),
        },
{
    let ghost kv = crate::keys::keys_view(keys@);
    let mut i: usize = 0;
    while i < keys.len()
        invariant
            i <= keys@.len(),
            kv == crate::keys::keys_view(keys@),
            find_key_spec(kv, name@, 0) == find_key_spec(kv, name@, i as int),
        decreases keys.len() - i,
    {
        if str_eq(keys[i].name.as_str(), name) {
            return Ok(keys[i].clone());
        }
        i += 1;
    }
    Err(tr(en, "密钥已保存，但读取失败。", "The key was saved but could not be read back."))
}


// ---- the checks themselves ------------------------------------------------------------------

/// A private key as read from the form, and how it was stored.
pub struct Parsed {
    /// The key as OpenSSH text: the trimmed text itself for an OpenSSH key,
    /// the RSA key pair written by ssh-key for a PEM key.
    pub text: String,
    pub format: PrivateFormat,
}

/// How a format is named in the report.
pub fn format_name(f: PrivateFormat) -> (r: &'static str)
    ensures
        r@ == match f {
            PrivateFormat::OpenSsh => "OpenSSH"@,
            PrivateFormat::Pkcs1 => "PEM (PKCS#1)"@,
            PrivateFormat::Pkcs8 => "PEM (PKCS#8)"@,
        },
{
    match f {
        PrivateFormat::OpenSsh => "OpenSSH",
        PrivateFormat::Pkcs1 => "PEM (PKCS#1)",
        PrivateFormat::Pkcs8 => "PEM (PKCS#8)",
    }
}

/// The OpenSSH text of a pasted private key that can be read: the trimmed
/// text of an OpenSSH key that parses, the converted key pair of a PEM key.
pub open spec fn read_key_spec(text: Seq<char>, en: bool) -> Option<Seq<char>> {
    match classify_spec(text, en) {
        Ok(PrivateFormat::OpenSsh) => if openssh_private_parses(trim(text)) {
            Some(trim(text))
        } else {
            None
        },
        Ok(f) => pem_as_openssh(trim(text), f == PrivateFormat::Pkcs8),
        Err(_) => None,
    }
}

/// Read a pasted private key: OpenSSH keys with ssh-key, PKCS#1 and PKCS#8
/// PEM keys with rsa, converted to OpenSSH text. Text that `classify_spec`
/// refuses is refused with its message before any parsing.
pub fn parse_private(text: &str, en: bool) -> (r: Result<Parsed, String>)
    ensures
        r is Ok <==> read_key_spec(text@, en) is Some,
        r matches Ok(p) ==> Some(p.text@) == read_key_spec(text@, en) && openssh_private_parses(p.text@),
        classify_spec(text@, en) matches Err(m) ==> r matches Err(e) && e@ == m,
        r matches Ok(p) ==> classify_spec(text@, en) == Ok::<PrivateFormat, Seq<char>>(p.format),
        r is Ok ==> read_accepts(text@, en),
        r matches Ok(p) ==> (p.format == PrivateFormat::OpenSsh ==> p.text@ == trim(text@)),
        classify_spec(text@, en) == Ok::<PrivateFormat, Seq<char>>(PrivateFormat::OpenSsh) ==> (r is Ok
            <==> openssh_private_parses(trim(text@))),
        (classify_spec(text@, en) == Ok::<PrivateFormat, Seq<char>>(PrivateFormat::OpenSsh) && !openssh_private_parses(
            trim(text@),
        )) ==> (r matches Err(e) && starts_with(e@, msg(en, "私钥内容损坏或不完整（"@, "The private key is damaged or incomplete ("@))),
        (classify_spec(text@, en) matches Ok(f) && f != PrivateFormat::OpenSsh && !parser_accepts(f, trim(text@)))
            ==> (r matches Err(e) && e@ == msg(en, "私钥内容损坏，或不是 RSA 私钥。"@, "The private key is damaged, or is not an RSA key."@)),
{
    let format = match classify_private(text, en) {
        Ok(f) => f,
        Err(e) => {
            return Err(e);
        },
    };
    let t = trim_str(text);
    match format {
        PrivateFormat::OpenSsh => match openssh_private(t.as_str()) {
            Ok(_) => Ok(Parsed { text: t, format }),
            Err(e) => {
                let m = tr1(
                    en,
                    "私钥内容损坏或不完整（",
                    "）",
                    "The private key is damaged or incomplete (",
                    ")",
                    e.as_str(),
                );
                proof {
                    let lead = msg(en, "私钥内容损坏或不完整（"@, "The private key is damaged or incomplete ("@);
                    assert(m@.take(lead.len() as int) =~= lead);
                }
                Err(m)
            },
        },
        _ => match pem_to_openssh(t.as_str(), format == PrivateFormat::Pkcs8) {
            Ok(text) => Ok(Parsed { text, format }),
            Err(PemFailure::Unreadable) => Err(
                tr(en, "私钥内容损坏，或不是 RSA 私钥。", "The private key is damaged, or is not an RSA key."),
            ),
            Err(PemFailure::NotSsh(e)) => Err(
                tr1(en, "无法读取 RSA 私钥：", "", "Could not read the RSA private key: ", "", e.as_str()),
            ),
            Err(PemFailure::Other(e)) => Err(e),
        },
    }
}

/// A message made of a fixed lead and an outside error's text begins with
/// the lead.
proof fn lemma_msg_tail(en: bool, zh: Seq<char>, english: Seq<char>, x: Seq<char>)
    ensures
        msg(en, zh + x + ""@, english + x + ""@) == msg(en, zh + x, english + x),
        starts_with(msg(en, zh + x, english + x), msg(en, zh, english)),
{
    reveal_strlit("");
    assert(zh + x + ""@ =~= zh + x);
    assert(english + x + ""@ =~= english + x);
    assert((zh + x).take(zh.len() as int) =~= zh);
    assert((english + x).take(english.len() as int) =~= english);
}

/// Why the numbers of an RSA key pair were refused: one of them is not a
/// positive number, or `rsa` refused them with the text after the lead.
pub open spec fn rsa_param_error(m: Seq<char>, en: bool) -> bool {
    ||| m == msg(en, "RSA 私钥参数无效。"@, "Invalid RSA private key parameters."@)
    ||| starts_with(m, msg(en, "RSA 私钥参数无效："@, "Invalid RSA private key parameters: "@))
}

/// A signing failure, with the outside error's text after the lead.
pub open spec fn sign_error(m: Seq<char>, en: bool) -> bool {
    starts_with(m, msg(en, "私钥无法签名："@, "The private key can't sign: "@))
}

/// Why the RSA encryption test failed before comparing: the private key's
/// numbers, the public key, the encryption or the decryption.
pub open spec fn rsa_trip_error(m: Seq<char>, en: bool) -> bool {
    ||| rsa_param_error(m, en)
    ||| starts_with(m, msg(en, "无法读取 RSA 公钥："@, "Could not read the RSA public key: "@))
    ||| starts_with(m, msg(en, "公钥加密失败："@, "Public key encryption failed: "@))
    ||| starts_with(m, msg(en, "私钥解密失败："@, "Private key decryption failed: "@))
}


fn sign_failure(e: &str, en: bool) -> (r: String)
    ensures
        r@ == sign_failed(e@, en),
        sign_error(r@, en),
{
    proof {
        lemma_msg_tail(en, "私钥无法签名："@, "The private key can't sign: "@, e@);
    }
    tr1(en, "私钥无法签名：", "", "The private key can't sign: ", "", e)
}

/// The message after a signing step failed with `x`.
pub open spec fn sign_failed(x: Seq<char>, en: bool) -> Seq<char> {
    msg(en, "私钥无法签名："@ + x, "The private key can't sign: "@ + x)
}

/// Whether `nums` are five positive numbers.
pub open spec fn all_positive(nums: Seq<Seq<u8>>) -> bool {
    nums.len() == 5 && forall|i: int| 0 <= i < 5 ==> (#[trigger] nums[i]).len() > 0
}

/// The self-test signature of `msg` by the OpenSSH private key `key`, as PEM
/// text, under `NAMESPACE` with SHA-512: an RSA key is rebuilt from its
/// numbers, validated, and signed with PKCS#1 v1.5 over what the SSH
/// signature covers (ssh-key cannot sign with RSA itself); any other key
/// signs with ssh-key. Or why it could not sign.
pub open spec fn signature_spec(key: Seq<char>, m: Seq<u8>, en: bool) -> Result<Seq<char>, Seq<char>> {
    match rsa_numbers(key) {
        Some(nums) => if !all_positive(nums) {
            Err(msg(en, "RSA 私钥参数无效。"@, "Invalid RSA private key parameters."@))
        } else {
            match rsa_numbers_check(nums[0], nums[1], nums[2], nums[3], nums[4]) {
                Err(x) => Err(msg(en, "RSA 私钥参数无效："@ + x, "Invalid RSA private key parameters: "@ + x)),
                Ok(()) => match sshsig_signed_data(NAMESPACE@, HashChoice::Sha512, m) {
                    Err(x) => Err(sign_failed(x, en)),
                    Ok(data) => match rsa_pkcs1_signature(
                        nums[0],
                        nums[1],
                        nums[2],
                        nums[3],
                        nums[4],
                        HashChoice::Sha512,
                        data,
                    ) {
                        Err(x) => Err(sign_failed(x, en)),
                        Ok(raw) => match rsa_sshsig(key, NAMESPACE@, HashChoice::Sha512, raw, LineBreak::Lf) {
                            Err(x) => Err(sign_failed(x, en)),
                            Ok(sig) => Ok(sig),
                        },
                    },
                },
            }
        },
        None => match sshsig_made(key, NAMESPACE@, HashChoice::Sha512, m, LineBreak::Lf) {
            Err(x) => Err(sign_failed(x, en)),
            Ok(sig) => Ok(sig),
        },
    }
}

/// `m` with its first byte's lowest bit flipped.
pub open spec fn tampered(m: Seq<u8>) -> Seq<u8> {
    m.update(0, m[0] ^ 1)
}

/// The signature check of the OpenSSH private key `key` and public key line
/// `public` with the message `m`: `key` signs `m`, the signature must verify
/// for `m` and must not for `tampered(m)`.
pub open spec fn sign_check_spec(key: Seq<char>, public: Seq<char>, m: Seq<u8>, en: bool) -> Result<
    Seq<char>,
    Seq<char>,
> {
    match signature_spec(key, m, en) {
        Err(e) => Err(e),
        Ok(sig) => verify_outcome_spec(
            sshsig_verifies(public, NAMESPACE@, m, sig),
            sshsig_verifies(public, NAMESPACE@, tampered(m), sig),
            en,
        ),
    }
}

/// Sign a random message with the private key `key` (OpenSSH text) and
/// verify it with the public key line `public`; a tampered copy of the
/// message must fail verification (`sign_check_spec`, for the random
/// message).
pub fn sign_and_verify(key: &str, public: &str, en: bool) -> (r: Result<String, String>)
    ensures
        exists|m: Seq<u8>| m.len() == TEST_BYTES && res_view(r) == #[trigger] sign_check_spec(key@, public@, m, en),
{
    let mut msg = random_bytes(TEST_BYTES);
    let ghost m = msg@;
    let sig = match rsa_numbers_of(key) {
        Some(nums) => {
            if nums[0].len() == 0 || nums[1].len() == 0 || nums[2].len() == 0 || nums[3].len() == 0
                || nums[4].len() == 0 {
                proof {
                    let nv = nums.deep_view();
                    assert(nv[0] == nums@[0]@ && nv[1] == nums@[1]@ && nv[2] == nums@[2]@ && nv[3] == nums@[3]@
                        && nv[4] == nums@[4]@);
                    assert(!all_positive(nv));
                }
                let r = Err(tr(en, "RSA 私钥参数无效。", "Invalid RSA private key parameters."));
                assert(res_view(r) == sign_check_spec(key@, public@, m, en));
                return r;
            }
            let ghost nv = nums.deep_view();
            assert(nv[0] == nums@[0]@ && nv[1] == nums@[1]@ && nv[2] == nums@[2]@ && nv[3] == nums@[3]@
                && nv[4] == nums@[4]@);
            assert(all_positive(nv));
            match rsa_check(nums[0].as_slice(), nums[1].as_slice(), nums[2].as_slice(), nums[3].as_slice(), nums[4].as_slice()) {
                Ok(()) => {},
                Err(x) => {
                    proof {
                        lemma_msg_tail(en, "RSA 私钥参数无效："@, "Invalid RSA private key parameters: "@, x@);
                    }
                    let r = Err(tr1(en, "RSA 私钥参数无效：", "", "Invalid RSA private key parameters: ", "", x.as_str()));
                    assert(res_view(r) == sign_check_spec(key@, public@, m, en));
                    return r;
                },
            }
            let data = match signed_data(NAMESPACE, HashChoice::Sha512, msg.as_slice()) {
                Ok(d) => d,
                Err(x) => {
                    let r = Err(sign_failure(x.as_str(), en));
                    assert(res_view(r) == sign_check_spec(key@, public@, m, en));
                    return r;
                },
            };
            let raw = match rsa_sign(
                nums[0].as_slice(),
                nums[1].as_slice(),
                nums[2].as_slice(),
                nums[3].as_slice(),
                nums[4].as_slice(),
                HashChoice::Sha512,
                data.as_slice(),
            ) {
                Ok(raw) => raw,
                Err(x) => {
                    let r = Err(sign_failure(x.as_str(), en));
                    assert(res_view(r) == sign_check_spec(key@, public@, m, en));
                    return r;
                },
            };
            match rsa_sshsig_of(key, NAMESPACE, HashChoice::Sha512, raw, LineBreak::Lf) {
                Ok(sig) => sig,
                Err(x) => {
                    let r = Err(sign_failure(x.as_str(), en));
                    assert(res_view(r) == sign_check_spec(key@, public@, m, en));
                    return r;
                },
            }
        },
        None => match sign_with_text(key, NAMESPACE, HashChoice::Sha512, msg.as_slice(), LineBreak::Lf) {
            Ok(sig) => sig,
            Err(x) => {
                let r = Err(sign_failure(x.as_str(), en));
                assert(res_view(r) == sign_check_spec(key@, public@, m, en));
                return r;
            },
        },
    };
    assert(signature_spec(key@, m, en) == Ok::<Seq<char>, Seq<char>>(sig@));
    let verified = verify_with_line(public, NAMESPACE, msg.as_slice(), sig.as_str());
    msg.set(0, msg[0] ^ 1);
    assert(msg@ == tampered(m));
    if !verified {
        let r = verify_outcome(false, false, en);
        assert(res_view(r) == sign_check_spec(key@, public@, m, en));
        return r;
    }
    let tampered_ok = verify_with_line(public, NAMESPACE, msg.as_slice(), sig.as_str());
    let r = verify_outcome(true, tampered_ok, en);
    assert(res_view(r) == sign_check_spec(key@, public@, m, en));
    r
}

/// RSA: encrypt with the public key, decrypt with the private key.
fn rsa_round_trip(nums: &Vec<Vec<u8>>, public: Result<rsa::RsaPublicKey, String>, plain: &[u8], en: bool) -> (r:
    Result<Vec<u8>, String>)
    requires
        nums@.len() == 5,
    ensures
        r matches Err(m) ==> rsa_trip_error(m@, en),
        public matches Err(e) ==> r matches Err(m) && (rsa_param_error(m@, en) || m@ == msg(
            en,
            "无法读取 RSA 公钥："@ + e@,
            "Could not read the RSA public key: "@ + e@,
        )),
{
    if nums[0].len() == 0 || nums[1].len() == 0 || nums[2].len() == 0 || nums[3].len() == 0 || nums[4].len() == 0 {
        return Err(tr(en, "RSA 私钥参数无效。", "Invalid RSA private key parameters."));
    }
    match rsa_check(nums[0].as_slice(), nums[1].as_slice(), nums[2].as_slice(), nums[3].as_slice(), nums[4].as_slice()) {
        Ok(()) => {},
        Err(x) => {
            proof {
                lemma_msg_tail(en, "RSA 私钥参数无效："@, "Invalid RSA private key parameters: "@, x@);
            }
            return Err(tr1(en, "RSA 私钥参数无效：", "", "Invalid RSA private key parameters: ", "", x.as_str()));
        },
    }
    let public = match public {
        Ok(k) => k,
        Err(e) => {
            proof {
                lemma_msg_tail(en, "无法读取 RSA 公钥："@, "Could not read the RSA public key: "@, e@);
            }
            return Err(tr1(en, "无法读取 RSA 公钥：", "", "Could not read the RSA public key: ", "", e.as_str()));
        },
    };
    let cipher = match rsa_encrypt(&public, HashChoice::Sha256, plain) {
        Ok(c) => c,
        Err(e) => {
            proof {
                lemma_msg_tail(en, "公钥加密失败："@, "Public key encryption failed: "@, e@);
            }
            return Err(tr1(en, "公钥加密失败：", "", "Public key encryption failed: ", "", e.as_str()));
        },
    };
    match rsa_decrypt(
        nums[0].as_slice(),
        nums[1].as_slice(),
        nums[2].as_slice(),
        nums[3].as_slice(),
        nums[4].as_slice(),
        HashChoice::Sha256,
        cipher.as_slice(),
    ) {
        Ok(b) => Ok(b),
        Err(e) => {
            proof {
                lemma_msg_tail(en, "私钥解密失败："@, "Private key decryption failed: "@, e@);
            }
            Err(tr1(en, "私钥解密失败：", "", "Private key decryption failed: ", "", e.as_str()))
        },
    }
}

/// The key stream of the Ed25519 test: SHA-256 of the shared point, the
/// ephemeral point and the recipient's public key.
fn keystream(shared: &[u8], ephemeral: &[u8], public: &[u8]) -> (r: Vec<u8>)
    ensures
        r@ == crate::keys::sha256_digest(shared@ + ephemeral@ + public@),
        r@.len() == 32,
{
    let mut all: Vec<u8> = Vec::new();
    let mut i: usize = 0;
    while i < shared.len()
        invariant
            i <= shared@.len(),
            all@ == shared@.take(i as int),
        decreases shared.len() - i,
    {
        all.push(shared[i]);
        assert(all@ =~= shared@.take(i + 1));
        i += 1;
    }
    assert(shared@.take(shared@.len() as int) == shared@);
    let mut j: usize = 0;
    while j < ephemeral.len()
        invariant
            j <= ephemeral@.len(),
            all@ == shared@ + ephemeral@.take(j as int),
        decreases ephemeral.len() - j,
    {
        all.push(ephemeral[j]);
        assert(all@ =~= shared@ + ephemeral@.take(j + 1));
        j += 1;
    }
    assert(ephemeral@.take(ephemeral@.len() as int) == ephemeral@);
    let mut k: usize = 0;
    while k < public.len()
        invariant
            k <= public@.len(),
            all@ == shared@ + ephemeral@ + public@.take(k as int),
        decreases public.len() - k,
    {
        all.push(public[k]);
        assert(all@ =~= shared@ + ephemeral@ + public@.take(k + 1));
        k += 1;
    }
    assert(public@.take(public@.len() as int) == public@);
    crate::keys::sha256(all.as_slice())
}

/// Xor-ing twice with one key stream gives the data back, where the stream
/// is at least as long as the data.
pub proof fn lemma_xor_twice(data: Seq<u8>, stream: Seq<u8>)
    requires
        data.len() <= stream.len(),
    ensures
        xor_spec(xor_spec(data, stream), stream) == data,
{
    let once = xor_spec(data, stream);
    assert forall|i: int| 0 <= i < data.len() implies #[trigger] xor_spec(once, stream)[i] == data[i] by {
        let (d, k): (u8, u8) = (data[i], stream[i]);
        assert((d ^ k) ^ k == d) by (bit_vector);
    }
    assert(xor_spec(once, stream) =~= data);
}

/// What the Ed25519 test gives back: `plain` xor-ed with the key stream of
/// the sender's shared point `shared`, then with that of the receiver's
/// `shared2`, both with the ephemeral point and the recipient's key.
pub open spec fn x25519_trip_spec(
    plain: Seq<u8>,
    public: Seq<u8>,
    shared: Seq<u8>,
    shared2: Seq<u8>,
    ephemeral: Seq<u8>,
) -> Seq<u8> {
    xor_spec(
        xor_spec(plain, crate::keys::sha256_digest(shared + ephemeral + public)),
        crate::keys::sha256_digest(shared2 + ephemeral + public),
    )
}

/// When the receiver derives the sender's shared point, the Ed25519 test
/// gives back what was encrypted (given a key stream at least as long).
pub proof fn lemma_x25519_trip_same_point(plain: Seq<u8>, public: Seq<u8>, shared: Seq<u8>, ephemeral: Seq<u8>)
    requires
        plain.len() <= crate::keys::sha256_digest(shared + ephemeral + public).len(),
    ensures
        x25519_trip_spec(plain, public, shared, shared, ephemeral) == plain,
{
    lemma_xor_twice(plain, crate::keys::sha256_digest(shared + ephemeral + public));
}

/// The message of the Ed25519 test for a public key that is not a point.
pub open spec fn bad_ed25519_public(en: bool) -> Seq<char> {
    msg(en, "Ed25519 公钥无效。"@, "Invalid Ed25519 public key."@)
}

/// Ed25519 can only sign, so the key is mapped to X25519 (as `age` does
/// for ssh-ed25519 recipients): the public key encrypts to an ephemeral key
/// exchange, and only the matching private key derives the same secret.
fn x25519_round_trip(private: &[u8], public: &[u8], plain: &[u8], en: bool) -> (r: Result<Vec<u8>, String>)
    requires
        private@.len() == 32,
        public@.len() == 32,
    ensures
        r matches Err(m) ==> m@ == bad_ed25519_public(en),
        r matches Ok(b) ==> exists|shared: Seq<u8>, shared2: Seq<u8>, ephemeral: Seq<u8>|
            b@ == #[trigger] x25519_trip_spec(plain@, public@, shared, shared2, ephemeral),
{
    // Encrypt with the public key only.
    let recipient = match verifying_key(public) {
        Some(v) => to_montgomery(&v),
        None => {
            return Err(tr(en, "Ed25519 公钥无效。", "Invalid Ed25519 public key."));
        },
    };
    let secret = random_bytes(32);
    let ephemeral = mul_base_clamped(secret.as_slice());
    let shared = mul_clamped(recipient.as_slice(), secret.as_slice());
    let stream = keystream(shared.as_slice(), ephemeral.as_slice(), public);
    let cipher = xor(plain, stream.as_slice());
    // Decrypt with the private key.
    let sk = signing_key(private);
    let scalar = scalar_bytes(&sk);
    let shared2 = mul_clamped(ephemeral.as_slice(), scalar.as_slice());
    let stream2 = keystream(shared2.as_slice(), ephemeral.as_slice(), public);
    let back = xor(cipher.as_slice(), stream2.as_slice());
    assert(back@ == x25519_trip_spec(plain@, public@, shared@, shared2@, ephemeral@));
    Ok(back)
}

/// How the decryption of the encryption test can fail before the bytes are
/// compared.
pub open spec fn trip_failure(back: Result<Seq<u8>, Seq<char>>, en: bool) -> bool {
    back matches Err(m) ==> rsa_trip_error(m, en) || m == bad_ed25519_public(en)
}

/// Whether the encryption test applies to the OpenSSH private key
/// `private` and the public key line `public`: both RSA, or both Ed25519.
pub open spec fn trip_applies(private: Seq<char>, public: Seq<char>) -> bool {
    ||| rsa_numbers(private) is Some && line_class(public) == KeyClass::Rsa
    ||| ed25519_secret(private) is Some && line_class(public) == KeyClass::Ed25519
}

/// Encrypt 32 random bytes with the public key line `public` and decrypt
/// them with the OpenSSH private key `private` (`round_trip_outcome`);
/// `None` exactly when the texts do not parse or the test does not apply
/// to their kinds of key. What comes back for a matching or a foreign key
/// rests on RSA and X25519 themselves, which this contract does not state.
pub fn encrypt_round_trip(private: &str, public: &str, en: bool) -> (r: Option<Result<String, String>>)
    ensures
        r is Some <==> openssh_private_parses(private@) && openssh_public_parses(public@) && trip_applies(
            private@,
            public@,
        ),
        r matches Some(res) ==> exists|back: Result<Seq<u8>, Seq<char>>, plain: Seq<u8>|
            plain.len() == 32 && trip_failure(back, en) && res_view(res)
                == #[trigger] round_trip_outcome_spec(back, plain, en),
{
    if openssh_private(private).is_err() || openssh_public(public).is_none() {
        return None;
    }
    let plain = random_bytes(TEST_BYTES);
    let back = match (rsa_numbers_of(private), rsa_public_of(public)) {
        (Some(nums), Some(pk)) => rsa_round_trip(&nums, pk, plain.as_slice(), en),
        _ => match (ed25519_private_bytes(private), ed25519_public_bytes(public)) {
            (Some(sk), Some(pk)) => x25519_round_trip(sk.as_slice(), pk.as_slice(), plain.as_slice(), en),
            _ => {
                return None;
            },
        },
    };
    let ghost b = bytes_res(back);
    let res = round_trip_outcome(back, plain.as_slice(), en);
    assert(res_view(res) == round_trip_outcome_spec(b, plain@, en));
    Some(res)
}

proof fn lemma_last_step(steps: Seq<Step>)
    ensures
        steps.len() > 0 ==> steps.last()@ == steps_view(steps).last(),
        forall|i: int| 0 <= i < steps.len() ==> (#[trigger] steps[i])@ == steps_view(steps)[i],
{
}

/// Whether `added` are the steps of an import run that stopped at its
/// first failure: titled in order, all passed but maybe the last.
pub open spec fn run_shape(added: Seq<StepV>, en: bool) -> bool {
    &&& forall|i: int| 0 <= i < added.len() ==> (#[trigger] added[i]).title == check_title(i, en)
    &&& forall|i: int| 0 <= i < added.len() - 1 ==> (#[trigger] added[i]).ok
}

/// The steps of a whole import check: at most six, titled in the order of
/// the checks (the encryption check may be left out before the last, the
/// duplicate check), all passed but maybe the last.
pub open spec fn import_shape(s: Seq<StepV>, en: bool) -> bool {
    &&& 1 <= s.len() <= 6
    &&& forall|i: int| 0 <= i < s.len() - 1 ==> (#[trigger] s[i]).ok
    &&& forall|i: int| 0 <= i < s.len() - 1 ==> (#[trigger] s[i]).title == check_title(i, en)
    &&& (s.last().title == check_title(s.len() - 1, en) || (s.len() == 5 && s.last().title == check_title(5, en)))
}

/// The read check's detail for a key of format `f` whose OpenSSH text is
/// `kt`: the format and the description of its public key.
pub open spec fn read_detail(f: PrivateFormat, kt: Seq<char>, en: bool) -> Seq<char> {
    let name = match f {
        PrivateFormat::OpenSsh => "OpenSSH"@,
        PrivateFormat::Pkcs1 => "PEM (PKCS#1)"@,
        PrivateFormat::Pkcs8 => "PEM (PKCS#8)"@,
    };
    let l = private_public_line(kt);
    name + (if en { " format, "@ } else { " 格式，"@ }) + describe_spec(line_class(l), line_rsa_bytes(l), line_algorithm(l))
}

/// The key the later checks use: the read key `kt` itself when it is not
/// encrypted, else what the passphrase decrypts it to (none without one).
pub open spec fn decrypted_spec(kt: Seq<char>, passphrase: Seq<char>) -> Option<Seq<char>> {
    if private_encrypted(kt) {
        if passphrase.len() == 0 {
            None
        } else {
            private_decrypted(kt, passphrase, LineBreak::Lf)
        }
    } else {
        Some(kt)
    }
}

/// The decryption check of the read key `kt` with `passphrase`.
pub open spec fn decrypt_step_spec(kt: Seq<char>, passphrase: Seq<char>, en: bool) -> Result<Seq<char>, Seq<char>> {
    decrypt_outcome_spec(private_encrypted(kt), passphrase.len() == 0, decrypted_spec(kt, passphrase) is Some, en)
}

/// The pairing check of the key `dt` with the given public key line, if
/// one was given: it must parse and have `dt`'s key data.
pub open spec fn pair_step_spec(dt: Seq<char>, given: Option<Seq<char>>, en: bool) -> Result<Seq<char>, Seq<char>> {
    match given {
        None => pair_outcome_spec(false, false, false, en),
        Some(l) => pair_outcome_spec(true, openssh_public_parses(l), same_key_lines(l, private_public_line(dt)), en),
    }
}

/// The public key the import goes on with: the given line when it parses,
/// else the one derived from `dt`; given `dt`'s comment when it has none.
pub open spec fn final_public(dt: Seq<char>, given: Option<Seq<char>>) -> Seq<char> {
    let pl = match given {
        Some(l) => if openssh_public_parses(l) {
            l
        } else {
            private_public_line(dt)
        },
        None => private_public_line(dt),
    };
    if line_comment(pl).len() == 0 && key_comment(dt).len() > 0 {
        match line_with_comment(pl, key_comment(dt)) {
            Some(c) => c,
            None => pl,
        }
    } else {
        pl
    }
}

/// The summary of a public key line: its description and fingerprint.
pub open spec fn summary_spec(pl: Seq<char>) -> Seq<char> {
    describe_spec(line_class(pl), line_rsa_bytes(pl), line_algorithm(pl)) + " · "@ + line_fingerprint(pl)
}

/// How the checks after reading go for the input, given the read key as
/// OpenSSH text `kt` (the one `read_key_spec` gives, when it gives one): the
/// steps `a` (from the read check on) are the read check passed with its
/// detail, the decryption, the pairing and the
/// signature check of the input's keys, as far as there are steps.
pub open spec fn checks_follow(input: ImportInput, kt: Seq<char>, a: Seq<StepV>, en: bool) -> bool {
    let dt = decrypted_spec(kt, input.passphrase@);
    let given = given_key_line(input.public_key@);
    &&& read_key_spec(input.private_key@, en) matches Some(t) ==> kt == t
    &&& a.len() > 1 ==> (classify_spec(input.private_key@, en) matches Ok(f) && a[0] == outcome_step(
        check_title(0, en),
        Ok(read_detail(f, kt, en)),
    ))
    &&& a.len() > 1 ==> a[1] == outcome_step(check_title(1, en), decrypt_step_spec(kt, input.passphrase@, en))
    &&& a.len() > 2 ==> (dt is Some && a[2] == outcome_step(check_title(2, en), pair_step_spec(dt->0, given, en)))
    &&& a.len() > 3 ==> exists|m: Seq<u8>|
        m.len() == TEST_BYTES && a[3] == outcome_step(
            check_title(3, en),
            #[trigger] sign_check_spec(dt->0, final_public(dt->0, given), m, en),
        )
}

/// Run the key checks of an import, adding one step per check and
/// stopping at the first that fails: read, decrypt, pair, sign, and (for
/// RSA and Ed25519) encrypt. On success, the public key (the one given,
/// with the private key's comment when it has none) and the key's summary.
#[verifier::spinoff_prover]
pub fn run_checks(input: &ImportInput, steps: &mut Vec<Step>, en: bool) -> (r: Result<(String, String), ()>)
    ensures
        steps_view(final(steps)@).take(old(steps)@.len() as int) == steps_view(old(steps)@),
        final(steps)@.len() > old(steps)@.len(),
        final(steps)@.len() <= old(steps)@.len() + 5,
        run_shape(steps_view(final(steps)@).skip(old(steps)@.len() as int), en),
        r is Ok <==> final(steps)@.last().ok,
        r is Ok ==> final(steps)@.len() >= old(steps)@.len() + 4,
        classify_spec(input.private_key@, en) matches Err(m) ==> final(steps)@.len() == old(steps)@.len() + 1 && final(steps)@.last()@ == outcome_step(check_title(0, en), Err(m)),
        final(steps)@[old(steps)@.len() as int].ok ==> read_accepts(input.private_key@, en),
        final(steps)@[old(steps)@.len() as int].ok <==> read_key_spec(input.private_key@, en) is Some,
        !read_accepts(input.private_key@, en) ==> final(steps)@.len() == old(steps)@.len() + 1
            && !final(steps)@.last().ok,
        classify_spec(input.private_key@, en) == Ok::<PrivateFormat, Seq<char>>(PrivateFormat::OpenSsh) ==> (
        final(steps)@[old(steps)@.len() as int].ok <==> openssh_private_parses(trim(input.private_key@))),
        final(steps)@.len() > old(steps)@.len() + 2 && given_key_line(input.public_key@) is None
            ==> final(steps)@[old(steps)@.len() + 2int].ok,
        (final(steps)@.len() > old(steps)@.len() + 2 && (given_key_line(input.public_key@) matches Some(l)
            && !openssh_public_parses(l)))
            ==> (final(steps)@.len() == old(steps)@.len() + 3 && !final(steps)@.last().ok),
        exists|kt: Seq<char>|
            #[trigger] checks_follow(*input, kt, steps_view(final(steps)@).skip(old(steps)@.len() as int), en) && (
            r matches Ok((public, summary)) ==> (decrypted_spec(kt, input.passphrase@) is Some && public@
                == final_public(decrypted_spec(kt, input.passphrase@)->0, given_key_line(input.public_key@))
                && summary@ == summary_spec(public@))),
{
    let ghost s0 = steps_view(steps@);
    let ghost n0 = steps@.len();
    let ghost mut kt = trim(input.private_key@);
    // 1. read
    let (read, parsed) = match parse_private(input.private_key.as_str(), en) {
        Ok(p) => {
            let derived = public_line_of(p.text.as_str());
            let d = describe(derived.as_str());
            let mut m = format_name(p.format).to_owned();
            m.append(if en { " format, " } else { " 格式，" });
            m.append(d.as_str());
            proof {
                kt = p.text@;
                reveal_strlit(" format, ");
                reveal_strlit(" 格式，");
            }
            assert(m@ == read_detail(p.format, kt, en));
            (Ok(m), Some(p))
        },
        Err(e) => (Err(e), None),
    };
    let ghost read_ok = read is Ok;
    let ghost rv = res_view(read);
    assert(read_ok ==> parsed is Some);
    let t0 = title(0, en);
    if record(steps, t0, read).is_none() {
        proof {
            assert(steps_view(steps@).skip(n0 as int) =~= seq![steps_view(steps@)[n0 as int]]);
            assert(steps_view(steps@).take(n0 as int) =~= s0);
            assert(checks_follow(*input, kt, steps_view(steps@).skip(n0 as int), en));
        }
        return Err(());
    }
    assert(steps_view(steps@).len() == steps@.len());
    assert(steps@.len() == n0 + 1);
    assert(read_ok);
    assert(parsed is Some);
    let parsed = match parsed {
        Some(p) => p,
        None => {
            return Err(());
        },
    };
    let ghost format = parsed.format;
    assert(classify_spec(input.private_key@, en) == Ok::<PrivateFormat, Seq<char>>(format));
    let key = parsed.text;
    assert(key@ == kt);
    // 2. decrypt
    let encrypted = text_encrypted(key.as_str());
    let passphrase_empty = input.passphrase.as_str().is_empty();
    let decrypted = if encrypted && !passphrase_empty {
        decrypt_text(key.as_str(), input.passphrase.as_str(), LineBreak::Lf)
    } else if !encrypted {
        Some(copy_string(&key))
    } else {
        None
    };
    assert(opt_str(decrypted) == decrypted_spec(kt, input.passphrase@));
    let outcome = decrypt_outcome(encrypted, passphrase_empty, decrypted.is_some(), en);
    let t1 = title(1, en);
    if record(steps, t1, outcome).is_none() {
        proof {
            assert(steps_view(steps@).take(n0 as int) =~= s0);
            lemma_last_step(steps@);
            assert(steps_view(steps@).len() == steps@.len());
            assert(steps@.len() == n0 + 2);
            let a = steps_view(steps@).skip(n0 as int);
            assert(a[0] == steps_view(steps@)[n0 as int]);
            assert(a[1] == steps_view(steps@)[n0 + 1int]);
            assert(checks_follow(*input, kt, a, en));
        }
        return Err(());
    }
    assert(steps_view(steps@).len() == steps@.len());
    assert(steps@.len() == n0 + 2);
    let key = match decrypted {
        Some(k) => k,
        None => {
            return Err(());
        },
    };
    let ghost dt = key@;
    // 3. pair
    let derived = public_line_of(key.as_str());
    let given = first_key_line(input.public_key.as_str());
    let ghost gv = opt_str(given);
    let (outcome, public) = match given {
        None => (pair_outcome(false, false, false, en), derived),
        Some(line) => if openssh_public(line.as_str()).is_some() {
            let same = lines_same_key(line.as_str(), derived.as_str());
            (pair_outcome(true, true, same, en), line)
        } else {
            (pair_outcome(true, false, false, en), derived)
        },
    };
    assert(res_view(outcome) == pair_step_spec(dt, gv, en));
    let t2 = title(2, en);
    if record(steps, t2, outcome).is_none() {
        proof {
            assert(steps_view(steps@).take(n0 as int) =~= s0);
            lemma_last_step(steps@);
            assert(steps_view(steps@).len() == steps@.len());
            assert(steps@.len() == n0 + 3);
            let a = steps_view(steps@).skip(n0 as int);
            assert(a[0] == steps_view(steps@)[n0 as int]);
            assert(a[1] == steps_view(steps@)[n0 + 1int]);
            assert(a[2] == steps_view(steps@)[n0 + 2int]);
            assert(checks_follow(*input, kt, a, en));
        }
        return Err(());
    }
    assert(steps_view(steps@).len() == steps@.len());
    assert(steps@.len() == n0 + 3);
    let pc = comment_of_line(public.as_str());
    let kc = comment_of_key(key.as_str());
    let public = if pc.as_str().is_empty() && !kc.as_str().is_empty() {
        match set_line_comment(public.as_str(), kc.as_str()) {
            Some(c) => c,
            None => public,
        }
    } else {
        public
    };
    assert(public@ == final_public(dt, gv));
    // 4. sign
    let signed = sign_and_verify(key.as_str(), public.as_str(), en);
    let t3 = title(3, en);
    let ghost sv = res_view(signed);
    let sign_ok = record(steps, t3, signed);
    proof {
        let m = choose|m: Seq<u8>| m.len() == TEST_BYTES && sv == #[trigger] sign_check_spec(dt, public@, m, en);
        let a = steps_view(steps@).skip(n0 as int);
        assert(steps_view(steps@).len() == steps@.len());
        assert(a[0] == steps_view(steps@)[n0 as int]);
        assert(a[1] == steps_view(steps@)[n0 + 1int]);
        assert(a[2] == steps_view(steps@)[n0 + 2int]);
        assert(a[3] == steps_view(steps@)[n0 + 3int]);
        assert(a[3] == outcome_step(check_title(3, en), sign_check_spec(dt, public@, m, en)));
        assert(checks_follow(*input, kt, a, en));
    }
    if sign_ok.is_none() {
        proof {
            assert(steps_view(steps@).take(n0 as int) =~= s0);
            lemma_last_step(steps@);
            assert(steps@.len() == n0 + 4);
        }
        return Err(());
    }
    let ghost a4 = steps_view(steps@).skip(n0 as int);
    assert(steps@.len() == n0 + 4);
    // 5. encrypt
    match encrypt_round_trip(key.as_str(), public.as_str(), en) {
        Some(result) => {
            let t4 = title(4, en);
            let ok4 = record(steps, t4, result);
            proof {
                let a = steps_view(steps@).skip(n0 as int);
                assert(a.take(4) =~= a4);
                assert(a[0] == a4[0] && a[1] == a4[1] && a[2] == a4[2] && a[3] == a4[3]);
                assert(checks_follow(*input, kt, a, en));
            }
            if ok4.is_none() {
                proof {
                    assert(steps_view(steps@).take(n0 as int) =~= s0);
                    lemma_last_step(steps@);
                    assert(steps_view(steps@).len() == steps@.len());
                    assert(steps@.len() == n0 + 5);
                }
                return Err(());
            }
        },
        None => {},
    }
    let d = describe(public.as_str());
    let f = fingerprint_of_line(public.as_str());
    let summary = summary_line(d.as_str(), f.as_str());
    proof {
        assert(steps_view(steps@).take(n0 as int) =~= s0);
        lemma_last_step(steps@);
    }
    Ok((public, summary))
}


/// The SHA-256 fingerprint of a public key line, as `ssh-keygen -l` shows it
/// (`keys::fingerprint_spec` of its blob); empty when the line is not one.
pub open spec fn line_fingerprint(line: Seq<char>) -> Seq<char> {
    match crate::keys::parse_public_key_spec(line) {
        Some(k) => k.fingerprint,
        None => seq![],
    }
}

fn fingerprint_of_line(line: &str) -> (r: String)
    ensures
        r@ == line_fingerprint(line@),
{
    match crate::keys::parse_public_key(line) {
        Some(k) => k.fingerprint,
        None => String::new(),
    }
}

/// The name of a key in `keys` (the keys of the target directory) with the
/// same public key as the line `public`, by SHA-256 fingerprint: the first
/// whose fingerprint is that of the line's blob.
pub fn same_key(keys: &Vec<KeyInfo>, public: &str) -> (r: Option<String>)
    ensures
        opt_str(r) == match crate::keys::parse_public_key_spec(public@) {
            Some(k) => same_key_spec(crate::keys::keys_view(keys@), k.fingerprint, 0),
            None => None,
        },
{
    match crate::keys::parse_public_key(public) {
        Some(k) => same_key_in(keys, k.fingerprint.as_str()),
        None => None,
    }
}

/// The duplicate check for the public key line `pl`: the trimmed name must be
/// usable, and no key among `keys` may have `pl`'s fingerprint.
pub open spec fn dup_step_spec(
    input: ImportInput,
    private_exists: bool,
    public_exists: bool,
    keys: Seq<crate::keys::KeyInfoV>,
    pl: Seq<char>,
    en: bool,
) -> Result<Seq<char>, Seq<char>> {
    let name = trim(input.name@);
    let check = check_name_spec(name, private_exists, public_exists, en);
    let existing = match check {
        Some(_) => None,
        None => match crate::keys::parse_public_key_spec(pl) {
            Some(k) => same_key_spec(keys, k.fingerprint, 0),
            None => None,
        },
    };
    let name_check: Result<(), Seq<char>> = match check {
        Some(e) => Err(e),
        None => Ok(()),
    };
    duplicate_outcome_spec(name_check, existing, name, en)
}

/// The steps checking an import of `input` into a directory whose key files
/// exist as given and whose keys are `keys`: shaped as `import_shape`; the
/// format check's refusal alone, or the read check passed only for a key
/// its parser accepts; then, for the key as read (`kt`), the decryption,
/// pairing and signature checks of `checks_follow`, and a last duplicate
/// check of the public key the import goes on with.
pub open spec fn import_steps(
    input: ImportInput,
    private_exists: bool,
    public_exists: bool,
    keys: Seq<crate::keys::KeyInfoV>,
    s: Seq<StepV>,
    en: bool,
) -> bool {
    &&& import_shape(s, en)
    &&& classify_spec(input.private_key@, en) matches Err(m) ==> s.len() == 1 && s[0] == outcome_step(
        check_title(0, en),
        Err(m),
    )
    &&& s[0].ok ==> read_accepts(input.private_key@, en)
    &&& !read_accepts(input.private_key@, en) ==> s.len() == 1 && !s[0].ok
    &&& exists|kt: Seq<char>|
        #[trigger] checks_follow(input, kt, s, en) && (s.len() >= 5 && s.last().title == check_title(5, en) ==> (
        decrypted_spec(kt, input.passphrase@) is Some && s.last() == outcome_step(
            check_title(5, en),
            dup_step_spec(
                input,
                private_exists,
                public_exists,
                keys,
                final_public(decrypted_spec(kt, input.passphrase@)->0, given_key_line(input.public_key@)),
                en,
            ),
        )))
}

proof fn lemma_checks_follow_extend(input: ImportInput, kt: Seq<char>, a: Seq<StepV>, b: Seq<StepV>, en: bool)
    requires
        checks_follow(input, kt, a, en),
        a.len() >= 4,
        b.len() >= a.len(),
        b.take(a.len() as int) == a,
    ensures
        checks_follow(input, kt, b, en),
{
    assert(b[0] == a[0]);
    assert(b[1] == a[1]);
    assert(b[2] == a[2]);
    assert(b[3] == a[3]);
}

/// The key checks, then a last step making sure neither the file name
/// (`private_exists`, `public_exists`: whether its two files exist) nor the
/// key itself (among `keys`, those of the target directory) is taken. On
/// success, the public key and the key's summary.
pub fn checked_import(
    input: &ImportInput,
    private_exists: bool,
    public_exists: bool,
    keys: &Vec<KeyInfo>,
    steps: &mut Vec<Step>,
    en: bool,
) -> (r: Result<(String, String), ()>)
    ensures
        steps_view(final(steps)@).take(old(steps)@.len() as int) == steps_view(old(steps)@),
        final(steps)@.len() > old(steps)@.len(),
        final(steps)@.len() <= old(steps)@.len() + 6,
        run_shape(steps_view(final(steps)@).skip(old(steps)@.len() as int), en) || (final(steps)@.len()
            >= old(steps)@.len() + 5 && final(steps)@.last().title@ == check_title(5, en) && run_shape(
            steps_view(final(steps)@).subrange(old(steps)@.len() as int, final(steps)@.len() - 1),
            en,
        ) && forall|i: int|
            old(steps)@.len() <= i < final(steps)@.len() - 1 ==> (#[trigger] final(steps)@[i]).ok),
        r is Ok <==> final(steps)@.last().ok,
        r is Ok ==> final(steps)@.last().title@ == check_title(5, en),
        r is Ok ==> forall|i: int| old(steps)@.len() <= i < final(steps)@.len() ==> (#[trigger] final(steps)@[i]).ok,
        classify_spec(input.private_key@, en) matches Err(m) ==> final(steps)@.len() == old(steps)@.len() + 1
            && final(steps)@.last()@ == outcome_step(check_title(0, en), Err(m)),
        import_shape(steps_view(final(steps)@).skip(old(steps)@.len() as int), en),
        final(steps)@[old(steps)@.len() as int].ok ==> read_accepts(input.private_key@, en),
        final(steps)@[old(steps)@.len() as int].ok <==> read_key_spec(input.private_key@, en) is Some,
        !read_accepts(input.private_key@, en) ==> final(steps)@.len() == old(steps)@.len() + 1
            && !final(steps)@.last().ok,
        import_steps(
            *input,
            private_exists,
            public_exists,
            crate::keys::keys_view(keys@),
            steps_view(final(steps)@).skip(old(steps)@.len() as int),
            en,
        ),
        r matches Ok((public, summary)) ==> exists|kt: Seq<char>|
            #[trigger] checks_follow(*input, kt, steps_view(final(steps)@).skip(old(steps)@.len() as int), en)
                && decrypted_spec(kt, input.passphrase@) is Some && public@ == final_public(
                decrypted_spec(kt, input.passphrase@)->0,
                given_key_line(input.public_key@),
            ) && summary@ == summary_spec(public@),
{
    let ghost n0 = steps@.len();
    let ghost s0 = steps_view(steps@);
    let checked = run_checks(input, steps, en);
    let ghost a = steps_view(steps@).skip(n0 as int);
    let ghost kt = choose|kt: Seq<char>|
        #[trigger] checks_follow(*input, kt, a, en) && (checked matches Ok((public, summary)) ==> (
        decrypted_spec(kt, input.passphrase@) is Some && public@ == final_public(
            decrypted_spec(kt, input.passphrase@)->0,
            given_key_line(input.public_key@),
        ) && summary@ == summary_spec(public@)));
    let (public, summary) = match checked {
        Ok(x) => x,
        Err(()) => {
            proof {
                assert(import_steps(*input, private_exists, public_exists, crate::keys::keys_view(keys@), a, en)) by {
                    if a.len() >= 5 && a.last().title == check_title(5, en) {
                        assert(a.len() == 5);
                        assert(a.last().title == check_title(4, en));
                        reveal_strlit("重复检查");
                        reveal_strlit("加密解密");
                        reveal_strlit("Duplicate check");
                        reveal_strlit("Encrypt and decrypt");
                        assert(check_title(5, en) != check_title(4, en)) by {
                            if en {
                                assert("Duplicate check"@[0] != "Encrypt and decrypt"@[0]);
                            } else {
                                assert("重复检查"@[0] != "加密解密"@[0]);
                            }
                        }
                    }
                }
            }
            return Err(());
        },
    };
    let ghost s1 = steps_view(steps@);
    let ghost n1 = steps@.len();
    proof {
        lemma_last_step(steps@);
        assert forall|i: int| n0 <= i < n1 implies (#[trigger] steps@[i]).ok by {
            let added = s1.skip(n0 as int);
            if i < n1 - 1 {
                assert(added[i - n0].ok);
            }
        }
    }
    let name = trim_str(input.name.as_str());
    let check = check_name(name.as_str(), private_exists, public_exists, en);
    let existing = match &check {
        Ok(()) => same_key(keys, &public),
        Err(_) => None,
    };
    let outcome = duplicate_outcome(check, existing, name.as_str(), en);
    let t5 = title(5, en);
    let ok = record(steps, t5, outcome);
    proof {
        lemma_last_step(steps@);
        let s2 = steps_view(steps@);
        assert(s2.take(n0 as int) =~= s0) by {
            assert(s2.take(n1 as int) == s1);
            assert(s1.take(n0 as int) == s0);
        }
        assert(s1.len() == n1);
        assert(s2.len() == steps@.len());
        assert(s2.len() == n1 + 1);
        assert forall|i: int| 0 <= i < n1 implies s2[i] == s1[i] by {
            assert(s2.take(n1 as int)[i] == s2[i]);
        }
        assert(s2.subrange(n0 as int, steps@.len() - 1) =~= s1.skip(n0 as int));
        assert forall|i: int| n0 <= i < steps@.len() - 1 implies (#[trigger] steps@[i]).ok by {
            assert(steps@[i]@ == s2[i]);
            assert(s2[i] == s1[i]);
            assert(steps_view(steps@)[i] == s1[i]);
        }
        let b = s2.skip(n0 as int);
        assert(b.take(a.len() as int) =~= a);
        lemma_checks_follow_extend(*input, kt, a, b, en);
        assert(b.last() == s2.last());
        assert(b.last() == outcome_step(
            check_title(5, en),
            dup_step_spec(
                *input,
                private_exists,
                public_exists,
                crate::keys::keys_view(keys@),
                public@,
                en,
            ),
        ));
        assert(import_steps(*input, private_exists, public_exists, crate::keys::keys_view(keys@), b, en));
    }
    match ok {
        Some(_) => Ok((public, summary)),
        None => Err(()),
    }
}

/// Whether every step passed.
pub open spec fn all_ok(steps: Seq<Step>) -> bool {
    forall|i: int| 0 <= i < steps.len() ==> (#[trigger] steps[i]).ok
}

fn steps_all_ok(steps: &Vec<Step>) -> (r: bool)
    ensures
        r == all_ok(steps@),
{
    let mut i: usize = 0;
    while i < steps.len()
        invariant
            i <= steps@.len(),
            forall|k: int| 0 <= k < i ==> (#[trigger] steps@[k]).ok,
        decreases steps.len() - i,
    {
        if !steps[i].ok {
            return false;
        }
        i += 1;
    }
    true
}

/// Run every check on a key pair without writing anything.
pub fn check_import(
    input: &ImportInput,
    private_exists: bool,
    public_exists: bool,
    keys: &Vec<KeyInfo>,
    en: bool,
) -> (r: ImportReport)
    ensures
        r.ok == all_ok(r.steps@),
        1 <= r.steps@.len() <= 6,
        r.steps@[0].title@ == check_title(0, en),
        r.ok ==> r.steps@.last().title@ == check_title(5, en),
        !r.ok ==> r.summary@.len() == 0,
        import_shape(steps_view(r.steps@), en),
        r.ok <==> r.steps@.last().ok,
        classify_spec(input.private_key@, en) matches Err(m) ==> r.steps@.len() == 1 && r.steps@[0]@
            == outcome_step(check_title(0, en), Err(m)),
        r.steps@[0].ok ==> read_accepts(input.private_key@, en),
        import_steps(*input, private_exists, public_exists, crate::keys::keys_view(keys@), steps_view(r.steps@), en),
{
    let mut steps: Vec<Step> = Vec::new();
    let result = checked_import(input, private_exists, public_exists, keys, &mut steps, en);
    proof {
        lemma_last_step(steps@);
        assert(steps_view(steps@).skip(0) == steps_view(steps@));
        if steps@.len() >= 5 {
            assert(steps_view(steps@).subrange(0, steps@.len() - 1)[0] == steps_view(steps@)[0]);
        }
    }
    let ok = steps_all_ok(&steps);
    proof {
        assert(steps_view(steps@).skip(0) == steps_view(steps@));
        lemma_last_step(steps@);
    }
    let summary = match result {
        Ok((_, s)) => {
            if ok {
                s
            } else {
                String::new()
            }
        },
        Err(()) => String::new(),
    };
    ImportReport { ok, steps, summary }
}

/// Why an import failed: the first failed step as `title: detail`, else a
/// general message.
pub open spec fn failure_spec(steps: Seq<StepV>, i: int, en: bool) -> Seq<char>
    decreases steps.len() - i,
{
    if i < 0 || i >= steps.len() {
        msg(en, "校验失败"@, "Checks failed"@)
    } else if !steps[i].ok {
        steps[i].title + ": "@ + steps[i].detail
    } else {
        failure_spec(steps, i + 1, en)
    }
}

pub fn failure_message(steps: &Vec<Step>, en: bool) -> (r: String)
    ensures
        r@ == failure_spec(steps_view(steps@), 0, en),
{
    let ghost sv = steps_view(steps@);
    let mut i: usize = 0;
    while i < steps.len()
        invariant
            i <= steps@.len(),
            sv == steps_view(steps@),
            failure_spec(sv, 0, en) == failure_spec(sv, i as int, en),
        decreases steps.len() - i,
    {
        if !steps[i].ok {
            let mut m = copy_string(&steps[i].title);
            m.append(": ");
            m.append(steps[i].detail.as_str());
            return m;
        }
        i += 1;
    }
    tr(en, "校验失败", "Checks failed")
}

/// Check a key pair for import; on success the public key and the private
/// key text as it is saved (see `saved_text_spec`), else why it failed.
pub fn import_key(
    input: &ImportInput,
    private_exists: bool,
    public_exists: bool,
    keys: &Vec<KeyInfo>,
    en: bool,
) -> (r: Result<(String, String), String>)
    ensures
        r matches Ok((_, text)) ==> text@ == saved_text_spec(input.private_key@),
        classify_spec(input.private_key@, en) matches Err(m) ==> r matches Err(e) && e@
            == check_title(0, en) + ": "@ + m,
        r matches Err(e) ==> exists|steps: Seq<StepV>|
            #[trigger] import_steps(*input, private_exists, public_exists, crate::keys::keys_view(keys@), steps, en)
                && !steps.last().ok && e@ == failure_spec(steps, 0, en),
        r matches Ok((public, _)) ==> exists|kt: Seq<char>|
            #[trigger] decrypted_spec(kt, input.passphrase@) matches Some(dt) && read_key_spec(input.private_key@, en)
                == Some(kt) && public@ == final_public(dt, given_key_line(input.public_key@)),
        !read_accepts(input.private_key@, en) ==> r is Err,
{
    let mut steps: Vec<Step> = Vec::new();
    match checked_import(input, private_exists, public_exists, keys, &mut steps, en) {
        Ok((public, _)) => Ok((public, saved_text(input.private_key.as_str()))),
        Err(()) => {
            proof {
                lemma_last_step(steps@);
                let sv = steps_view(steps@);
                assert(sv.skip(0) == sv);
                assert(!sv.last().ok);
                if steps@.len() == 1 {
                    assert(failure_spec(sv, 0, en) == if !sv[0].ok {
                        sv[0].title + ": "@ + sv[0].detail
                    } else {
                        failure_spec(sv, 1, en)
                    });
                }
            }
            Err(failure_message(&steps, en))
        },
    }
}

/// Why a new key failed its self-tests: a signing or verification failure,
/// or an encryption test that failed or gave back other bytes.
pub open spec fn self_test_error(m: Seq<char>, en: bool) -> bool {
    ||| rsa_trip_error(m, en)
    ||| sign_error(m, en)
    ||| m == bad_ed25519_public(en)
    ||| m == msg(en, "公钥无法验证私钥的签名。"@, "The public key can't verify the private key's signature."@)
    ||| m == msg(en, "篡改后的消息仍能通过验证，密钥异常。"@, "A tampered message still verified; the key is faulty."@)
    ||| m == msg(en, "私钥解密结果与原文不一致。"@, "The decrypted data does not match the original."@)
}

/// Why creating a key failed once its kind was accepted: ssh-key or rsa
/// could not make it, it failed its self-tests, or it could not be
/// encrypted or encoded.
pub open spec fn generate_error(m: Seq<char>, en: bool) -> bool {
    ||| starts_with(m, msg(en, "生成失败："@, "Generation failed: "@))
    ||| self_test_error(m, en)
    ||| starts_with(m, msg(en, "加密私钥失败："@, "Could not encrypt the private key: "@))
    ||| starts_with(m, msg(en, "编码私钥失败："@, "Could not encode the private key: "@))
}

/// Every failure of the signature check is a self-test error.
proof fn lemma_sign_check_errors(key: Seq<char>, public: Seq<char>, m: Seq<u8>, en: bool)
    ensures
        sign_check_spec(key, public, m, en) matches Err(e) ==> self_test_error(e, en),
{
    match rsa_numbers(key) {
        Some(nums) => if all_positive(nums) {
            match rsa_numbers_check(nums[0], nums[1], nums[2], nums[3], nums[4]) {
                Err(x) => {
                    lemma_msg_tail(en, "RSA 私钥参数无效："@, "Invalid RSA private key parameters: "@, x);
                },
                Ok(()) => match sshsig_signed_data(NAMESPACE@, HashChoice::Sha512, m) {
                    Err(x) => {
                        lemma_msg_tail(en, "私钥无法签名："@, "The private key can't sign: "@, x);
                    },
                    Ok(data) => match rsa_pkcs1_signature(
                        nums[0],
                        nums[1],
                        nums[2],
                        nums[3],
                        nums[4],
                        HashChoice::Sha512,
                        data,
                    ) {
                        Err(x) => {
                            lemma_msg_tail(en, "私钥无法签名："@, "The private key can't sign: "@, x);
                        },
                        Ok(raw) => match rsa_sshsig(key, NAMESPACE@, HashChoice::Sha512, raw, LineBreak::Lf) {
                            Err(x) => {
                                lemma_msg_tail(en, "私钥无法签名："@, "The private key can't sign: "@, x);
                            },
                            Ok(_) => {},
                        },
                    },
                },
            }
        },
        None => match sshsig_made(key, NAMESPACE@, HashChoice::Sha512, m, LineBreak::Lf) {
            Err(x) => {
                lemma_msg_tail(en, "私钥无法签名："@, "The private key can't sign: "@, x);
            },
            Ok(_) => {},
        },
    }
}

/// The kind of key a choice makes.
pub open spec fn choice_class(c: KeyChoice) -> KeyClass {
    match c {
        KeyChoice::Ed25519 => KeyClass::Ed25519,
        KeyChoice::Rsa(_) => KeyClass::Rsa,
    }
}

/// Whether `t` is the OpenSSH text of a key made for `input`: unencrypted,
/// with the trimmed comment, of the kind asked for, of the size asked for
/// if RSA.
pub open spec fn made_for(t: Seq<char>, input: GenerateInput, en: bool) -> bool {
    &&& key_choice_spec(input.kind@, input.bits, en) matches Ok(c)
    &&& !private_encrypted(t)
    &&& key_comment(t) == trim(input.comment@)
    &&& line_class(private_public_line(t)) == choice_class(c)
    &&& (c matches KeyChoice::Rsa(bits) ==> line_rsa_bytes(private_public_line(t)) == Some((bits / 8) as usize))
}

/// Whether `text` and `public` are what creating the key `t` for `input`
/// hands out: `t` was made for `input` and passed the signature check with
/// `public`, its public key line; `text` is `t` itself without a passphrase,
/// and with one, a text that the passphrase decrypts to a key with that
/// same public key line.
pub open spec fn generated_from(t: Seq<char>, text: Seq<char>, public: Seq<char>, input: GenerateInput, en: bool) -> bool {
    &&& made_for(t, input, en)
    &&& public == private_public_line(t)
    &&& input.passphrase@.len() == 0 ==> text == t
    &&& input.passphrase@.len() > 0 ==> (private_decrypted(text, input.passphrase@, LineBreak::Lf) matches Some(d)
        && private_public_line(d) == public)
    &&& exists|m: Seq<u8>| m.len() == TEST_BYTES && (#[trigger] sign_check_spec(t, public, m, en)) is Ok
}

/// Create a key pair as the form asks (the name already checked): a new
/// Ed25519 or RSA key with the trimmed comment, self-tested like an
/// imported key, encrypted with the passphrase if one is given. The
/// private key file's text and the public key.
pub fn generate_key(input: &GenerateInput, en: bool) -> (r: Result<(String, String), String>)
    ensures
        key_choice_spec(input.kind@, input.bits, en) matches Err(m) ==> r matches Err(e) && e@ == m,
        key_choice_spec(input.kind@, input.bits, en) is Ok ==> (r matches Err(e) ==> generate_error(e@, en)),
        r matches Ok((text, public)) ==> (private_encrypted(text@) <==> input.passphrase@.len() > 0),
        r matches Ok((text, public)) ==> exists|t: Seq<char>| #[trigger] generated_from(t, text@, public@, *input, en),
{
    let choice = match key_choice(input.kind.as_str(), input.bits, en) {
        Ok(c) => c,
        Err(e) => {
            return Err(e);
        },
    };
    let comment = trim_str(input.comment.as_str());
    let key = match new_key_text(choice, comment.as_str(), LineBreak::Lf) {
        Ok(k) => k,
        Err(TextFailure::Make(e)) => {
            proof {
                lemma_msg_tail(en, "生成失败："@, "Generation failed: "@, e@);
            }
            return Err(tr1(en, "生成失败：", "", "Generation failed: ", "", e.as_str()));
        },
        Err(TextFailure::Encode(e)) => {
            proof {
                lemma_msg_tail(en, "编码私钥失败："@, "Could not encode the private key: "@, e@);
            }
            return Err(tr1(en, "编码私钥失败：", "", "Could not encode the private key: ", "", e.as_str()));
        },
    };
    assert(made_for(key@, *input, en));
    let public = public_line_of(key.as_str());
    // Same check an imported key gets, so a broken RNG or library can't
    // hand out a key that doesn't work.
    let signed = sign_and_verify(key.as_str(), public.as_str(), en);
    let ghost sv = res_view(signed);
    let ghost m = choose|m: Seq<u8>| m.len() == TEST_BYTES && sv == #[trigger] sign_check_spec(key@, public@, m, en);
    match signed {
        Ok(_) => {},
        Err(e) => {
            proof {
                lemma_sign_check_errors(key@, public@, m, en);
            }
            return Err(e);
        },
    }
    let trip = encrypt_round_trip(key.as_str(), public.as_str(), en);
    match trip {
        Some(Err(e)) => {
            proof {
                let (back, plain) = choose|back: Result<Seq<u8>, Seq<char>>, plain: Seq<u8>|
                    plain.len() == 32 && trip_failure(back, en) && res_view(Err(e))
                        == #[trigger] round_trip_outcome_spec(back, plain, en);
                assert(res_view(Err(e)) == round_trip_outcome_spec(back, plain, en));
            }
            return Err(e);
        },
        _ => {},
    }
    let ghost kv = key@;
    assert(sign_check_spec(kv, public@, m, en) is Ok);
    let stored = if input.passphrase.as_str().is_empty() {
        key
    } else {
        match encrypt_text(key.as_str(), input.passphrase.as_str(), LineBreak::Lf) {
            Ok(k) => k,
            Err(TextFailure::Make(e)) => {
                proof {
                    lemma_msg_tail(en, "加密私钥失败："@, "Could not encrypt the private key: "@, e@);
                }
                return Err(tr1(en, "加密私钥失败：", "", "Could not encrypt the private key: ", "", e.as_str()));
            },
            Err(TextFailure::Encode(e)) => {
                proof {
                    lemma_msg_tail(en, "编码私钥失败："@, "Could not encode the private key: "@, e@);
                }
                return Err(tr1(en, "编码私钥失败：", "", "Could not encode the private key: ", "", e.as_str()));
            },
        }
    };
    proof {
        assert(made_for(kv, *input, en));
        assert(m.len() == TEST_BYTES && sign_check_spec(kv, public@, m, en) is Ok);
        assert(generated_from(kv, stored@, public@, *input, en));
    }
    let r = Ok((stored, public));
    assert(r matches Ok((text, public)) && generated_from(kv, text@, public@, *input, en));
    r
}

/// The public key file's text: the line and a newline.
pub fn public_line(line: &str) -> (r: String)
    ensures
        r@ == line@.push('\n'),
{
    let mut l = line.to_owned();
    push_char(&mut l, '\n');
    l
}

} // verus!
