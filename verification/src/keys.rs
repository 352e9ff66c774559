//! The user's SSH public keys (`~/.ssh/*.pub`), read-only: what one key
//! file says, and the order the list is shown in.

use vstd::prelude::*;

use base64::engine::general_purpose::{STANDARD, STANDARD_NO_PAD};
use base64::Engine as _;
use sha2::{Digest, Sha256};

use crate::text::{
    chars_of, chars_lt, is_blank, lines, lines_of, lowercase, seq_lt, string_of_range, to_lowercase,
    trim, trim_bounds, trim_str, word_end, word_len, cat, blank, lemma_word_len, ends_with,
    suffix, lit, copy_string, lemma_seq_lt_irreflexive, lemma_seq_lt_transitive, lemma_seq_le_transitive,
};

verus! {

/// One public key, as listed.
#[derive(Debug, PartialEq)]
pub struct KeyInfo {
    /// File name without `.pub`, e.g. `id_ed25519`.
    pub name: String,
    /// `~/.ssh/<name>` when the private key sits next to the public one,
    /// ready to use as an `IdentityFile` value.
    pub identity_file: Option<String>,
    pub kind: String,
    /// `SHA256:…`, the same format `ssh-keygen -l` prints.
    pub fingerprint: String,
    pub comment: String,
    /// The whole public key line, what goes into `authorized_keys`.
    pub public_key: String,
}

pub struct KeyInfoV {
    pub name: Seq<char>,
    pub identity_file: Option<Seq<char>>,
    pub kind: Seq<char>,
    pub fingerprint: Seq<char>,
    pub comment: Seq<char>,
    pub public_key: Seq<char>,
}

impl View for KeyInfo {
    type V = KeyInfoV;

    open spec fn view(&self) -> KeyInfoV {
        KeyInfoV {
            name: self.name@,
            identity_file: match self.identity_file {
                Some(f) => Some(f@),
                None => None,
            },
            kind: self.kind@,
            fingerprint: self.fingerprint@,
            comment: self.comment@,
            public_key: self.public_key@,
        }
    }
}

impl Clone for KeyInfo {
    fn clone(&self) -> (r: Self)
        ensures
            r@ == self@,
    {
        KeyInfo {
            name: self.name.clone(),
            identity_file: match &self.identity_file {
                Some(f) => Some(f.clone()),
                None => None,
            },
            kind: self.kind.clone(),
            fingerprint: self.fingerprint.clone(),
            comment: self.comment.clone(),
            public_key: self.public_key.clone(),
        }
    }
}

// ---- base64 and SHA-256 ----------------------------------------------------------------

/// The character of the standard base64 alphabet for the 6-bit value `v`.
pub open spec fn b64_char(v: int) -> char {
    if v < 26 {
        ('A' as int + v) as char
    } else if v < 52 {
        ('a' as int + v - 26) as char
    } else if v < 62 {
        ('0' as int + v - 52) as char
    } else if v == 62 {
        '+'
    } else {
        '/'
    }
}

/// Standard base64 without padding: each 3 bytes become 4 characters, a
/// final 1 or 2 bytes become 2 or 3.
pub open spec fn b64_unpadded(b: Seq<u8>) -> Seq<char>
    decreases b.len(),
{
    let x = if b.len() > 0 { b[0] as int } else { 0 };
    let y = if b.len() > 1 { b[1] as int } else { 0 };
    let z = if b.len() > 2 { b[2] as int } else { 0 };
    if b.len() == 0 {
        seq![]
    } else if b.len() == 1 {
        seq![b64_char(x / 4), b64_char((x % 4) * 16)]
    } else if b.len() == 2 {
        seq![b64_char(x / 4), b64_char((x % 4) * 16 + y / 16), b64_char((y % 16) * 4)]
    } else {
        seq![
            b64_char(x / 4),
            b64_char((x % 4) * 16 + y / 16),
            b64_char((y % 16) * 4 + z / 64),
            b64_char(z % 64),
        ] + b64_unpadded(b.skip(3))
    }
}

/// What `STANDARD.decode` (base64 with canonical padding) gives for `s`.
pub uninterp spec fn base64_decoded(s: Seq<char>) -> Option<Seq<u8>>;

/// The SHA-256 digest of `b`.
pub uninterp spec fn sha256_digest(b: Seq<u8>) -> Seq<u8>;

/// `base64::engine::general_purpose::STANDARD.decode`: the bytes `s`
/// spells in standard base64 with padding, or `None` for text that is not
/// such an encoding; the result is named by `base64_decoded`.
#[verifier::external_body]
fn decode_base64(s: &str) -> (r: Option<Vec<u8>>)
    ensures
        match r {
            Some(v) => base64_decoded(s@) == Some(v@),
            None => base64_decoded(s@) is None,
        },
{
    STANDARD.decode(s).ok()
}

/// `sha2::Sha256::digest`: the 32-byte SHA-256 digest of `b`, named by
/// `sha256_digest`.
#[verifier::external_body]
pub(crate) fn sha256(b: &[u8]) -> (r: Vec<u8>)
    ensures
        r@ == sha256_digest(b@),
        r@.len() == 32,
{
    Sha256::digest(b).to_vec()
}

/// `base64::engine::general_purpose::STANDARD_NO_PAD.encode`: standard
/// base64 without padding.
#[verifier::external_body]
fn encode_base64_unpadded(b: &[u8]) -> (r: String)
    ensures
        r@ == b64_unpadded(b@),
{
    STANDARD_NO_PAD.encode(b)
}

// ---- one key ------------------------------------------------------------------------------

/// `SHA256:` and the unpadded base64 of the SHA-256 digest of the key blob.
pub open spec fn fingerprint_spec(blob: Seq<u8>) -> Seq<char> {
    "SHA256:"@ + b64_unpadded(sha256_digest(blob))
}

/// A public key line, `kind blob comment`: split at the first two
/// whitespace characters (the comment is the rest, trimmed, and may be
/// missing); the blob must be base64.
pub open spec fn parse_public_key_spec(line: Seq<char>) -> Option<KeyInfoV> {
    let t = trim(line);
    let i = word_len(t) as int;
    if i >= t.len() {
        None
    } else {
        let r1 = t.skip(i + 1);
        let j = word_len(r1) as int;
        let blob_text = r1.take(j);
        let comment = if j >= r1.len() {
            seq![]
        } else {
            trim(r1.skip(j + 1))
        };
        match base64_decoded(blob_text) {
            None => None,
            Some(blob) => Some(
                KeyInfoV {
                    name: seq![],
                    identity_file: None,
                    kind: t.take(i),
                    fingerprint: fingerprint_spec(blob),
                    comment: comment,
                    public_key: t,
                },
            ),
        }
    }
}

pub open spec fn opt_key(o: Option<KeyInfo>) -> Option<KeyInfoV> {
    match o {
        Some(k) => Some(k@),
        None => None,
    }
}

/// Read one public key line.
pub fn parse_public_key(line: &str) -> (r: Option<KeyInfo>)
    ensures
        opt_key(r) == parse_public_key_spec(line@),
{
    let c = chars_of(line);
    let (a, b) = trim_bounds(&c, 0, c.len());
    assert(c@.subrange(0, c@.len() as int) == c@);
    let t = crate::text::sub_vec(c.as_slice(), a, b);
    let i = word_end(&t, 0);
    assert(t@.skip(0) == t@);
    if i >= t.len() {
        return None;
    }
    let j = word_end(&t, i + 1);
    proof {
        lemma_word_len(t@.skip(i + 1));
        assert(t@.skip(i + 1).take(j - (i + 1)) =~= t@.subrange(i + 1, j as int));
    }
    let blob_text = string_of_range(&t, i + 1, j);
    let comment = if j >= t.len() {
        String::new()
    } else {
        let (ca, cb) = trim_bounds(&t, j + 1, t.len());
        assert(t@.skip(i + 1).skip(j - i) =~= t@.subrange(j + 1, t@.len() as int));
        string_of_range(&t, ca, cb)
    };
    let blob = match decode_base64(blob_text.as_str()) {
        Some(v) => v,
        None => {
            return None;
        },
    };
    let digest = sha256(blob.as_slice());
    let mut fingerprint = "SHA256:".to_owned();
    let enc = encode_base64_unpadded(digest.as_slice());
    fingerprint.append(enc.as_str());
    let kind = string_of_range(&t, 0, i);
    assert(kind@ == t@.take(i as int));
    let public_key = string_of_range(&t, 0, t.len());
    assert(public_key@ == t@);
    Some(
        KeyInfo {
            name: String::new(),
            identity_file: None,
            kind,
            fingerprint,
            comment,
            public_key,
        },
    )
}

/// The key name of a file name: without `.pub`, if it ends so.
pub open spec fn key_name_spec(file_name: Seq<char>) -> Option<Seq<char>> {
    if file_name.len() >= 4 && file_name.skip(file_name.len() - 4) == ".pub"@ {
        Some(file_name.take(file_name.len() - 4))
    } else {
        None
    }
}

pub fn key_name(file_name: &str) -> (r: Option<String>)
    ensures
        match r {
            Some(n) => key_name_spec(file_name@) == Some(n@),
            None => key_name_spec(file_name@) is None,
        },
{
    let c = chars_of(file_name);
    let p = lit(".pub");
    proof {
        reveal_strlit(".pub");
    }
    if c.len() >= 4 && suffix(&c, &p) {
        assert(c@.skip(c@.len() - 4) == p@);
        Some(string_of_range(&c, 0, c.len() - 4))
    } else {
        proof {
            if c@.len() >= 4 && c@.skip(c@.len() - 4) == ".pub"@ {
                assert(ends_with(c@, p@));
            }
        }
        None
    }
}

/// The first line of `text` that is not blank.
pub open spec fn first_nonblank(ls: Seq<Seq<char>>, i: int) -> Option<Seq<char>>
    decreases ls.len() - i,
{
    if i < 0 || i >= ls.len() {
        None
    } else if !is_blank(ls[i]) {
        Some(ls[i])
    } else {
        first_nonblank(ls, i + 1)
    }
}

/// The key a `.pub` file named `name` + `.pub` holds: its first non-blank
/// line read as a public key, with the identity file `~/.ssh/<name>` when
/// the private key exists.
pub open spec fn key_from_text_spec(name: Seq<char>, text: Seq<char>, private_exists: bool) -> Option<
    KeyInfoV,
> {
    match first_nonblank(lines_of(text), 0) {
        None => None,
        Some(l) => match parse_public_key_spec(l) {
            None => None,
            Some(k) => Some(
                KeyInfoV {
                    name: name,
                    identity_file: if private_exists {
                        Some("~/.ssh/"@ + name)
                    } else {
                        None
                    },
                    ..k
                },
            ),
        },
    }
}

pub fn key_from_text(name: &str, text: &str, private_exists: bool) -> (r: Option<KeyInfo>)
    ensures
        opt_key(r) == key_from_text_spec(name@, text@, private_exists),
{
    let c = chars_of(text);
    let ls = lines(&c);
    let ghost lv = ls.deep_view();
    let mut i: usize = 0;
    while i < ls.len()
        invariant
            i <= ls@.len(),
            lv == ls.deep_view(),
            lv == lines_of(text@),
            first_nonblank(lv, 0) == first_nonblank(lv, i as int),
        decreases ls.len() - i,
    {
        let lc = chars_of(ls[i].as_str());
        if !blank(&lc) {
            let mut k = match parse_public_key(ls[i].as_str()) {
                Some(k) => k,
                None => {
                    return None;
                },
            };
            k.name = name.to_owned();
            k.identity_file = if private_exists {
                Some(cat("~/.ssh/", name))
            } else {
                None
            };
            return Some(k);
        }
        i += 1;
    }
    None
}

// ---- the list -----------------------------------------------------------------------------

/// `keys` with `k` inserted after every key whose lowercased name is not
/// greater: one step of a stable insertion sort.
pub open spec fn insert_by_name(keys: Seq<KeyInfoV>, k: KeyInfoV) -> Seq<KeyInfoV>
    decreases keys.len(),
{
    if keys.len() == 0 {
        seq![k]
    } else if seq_lt(lowercase(k.name), lowercase(keys.last().name)) {
        insert_by_name(keys.drop_last(), k).push(keys.last())
    } else {
        keys.push(k)
    }
}

/// The keys in the order they are listed: `slice::sort_by_key` on the
/// lowercased name (stable).
pub open spec fn sort_keys_spec(keys: Seq<KeyInfoV>) -> Seq<KeyInfoV>
    decreases keys.len(),
{
    if keys.len() == 0 {
        seq![]
    } else {
        insert_by_name(sort_keys_spec(keys.drop_last()), keys.last())
    }
}

/// `a` does not sort after `b`: its lowercased name is not greater.
pub open spec fn name_le(a: KeyInfoV, b: KeyInfoV) -> bool {
    !seq_lt(lowercase(b.name), lowercase(a.name))
}

/// Each key's lowercased name is not greater than those after it.
pub open spec fn sorted_by_name(keys: Seq<KeyInfoV>) -> bool {
    forall|i: int, j: int| 0 <= i < j < keys.len() ==> name_le(#[trigger] keys[i], #[trigger] keys[j])
}

proof fn lemma_name_le_transitive(a: KeyInfoV, b: KeyInfoV, c: KeyInfoV)
    requires
        name_le(a, b),
        name_le(b, c),
    ensures
        name_le(a, c),
{
    lemma_seq_le_transitive(lowercase(a.name), lowercase(b.name), lowercase(c.name));
}

proof fn lemma_insert_by_name(keys: Seq<KeyInfoV>, k: KeyInfoV)
    requires
        sorted_by_name(keys),
    ensures
        sorted_by_name(insert_by_name(keys, k)),
        insert_by_name(keys, k).to_multiset() == keys.to_multiset().insert(k),
    decreases keys.len(),
{
    broadcast use vstd::seq_lib::group_to_multiset_ensures;

    if keys.len() == 0 {
        assert(seq![k] =~= Seq::<KeyInfoV>::empty().push(k));
    } else {
        let last = keys.last();
        let dl = keys.drop_last();
        assert(dl.push(last) =~= keys);
        assert(sorted_by_name(dl));
        if seq_lt(lowercase(k.name), lowercase(last.name)) {
            lemma_insert_by_name(dl, k);
            let ins = insert_by_name(dl, k);
            assert forall|i: int| 0 <= i < ins.len() implies name_le(#[trigger] ins[i], last) by {
                assert(ins.to_multiset().count(ins[i]) > 0);
                if ins[i] != k {
                    assert(dl.contains(ins[i]));
                    let j = choose|j: int| 0 <= j < dl.len() && dl[j] == ins[i];
                    assert(keys[j] == dl[j]);
                    assert(keys[keys.len() - 1] == last);
                } else {
                    lemma_seq_lt_irreflexive(lowercase(last.name));
                    if seq_lt(lowercase(last.name), lowercase(k.name)) {
                        lemma_seq_lt_transitive(lowercase(last.name), lowercase(k.name), lowercase(last.name));
                    }
                }
            }
            assert(ins.to_multiset().insert(last) =~= dl.to_multiset().insert(last).insert(k));
        } else {
            assert forall|i: int, j: int| 0 <= i < j < keys.push(k).len() implies name_le(
                #[trigger] keys.push(k)[i],
                #[trigger] keys.push(k)[j],
            ) by {
                if j == keys.len() {
                    if i < keys.len() - 1 {
                        assert(name_le(keys[i], last));
                    }
                    assert(name_le(last, k));
                    if i < keys.len() - 1 {
                        lemma_name_le_transitive(keys[i], last, k);
                    }
                } else {
                    assert(keys.push(k)[i] == keys[i]);
                    assert(keys.push(k)[j] == keys[j]);
                }
            }
        }
    }
}

/// Listing keys puts them in order of their lowercased names and loses
/// or adds none.
pub proof fn lemma_sort_keys_sorted(keys: Seq<KeyInfoV>)
    ensures
        sorted_by_name(sort_keys_spec(keys)),
        sort_keys_spec(keys).to_multiset() == keys.to_multiset(),
    decreases keys.len(),
{
    broadcast use vstd::seq_lib::group_to_multiset_ensures;

    if keys.len() > 0 {
        lemma_sort_keys_sorted(keys.drop_last());
        lemma_insert_by_name(sort_keys_spec(keys.drop_last()), keys.last());
        assert(keys.drop_last().push(keys.last()) =~= keys);
    } else {
        assert(keys.to_multiset() =~= vstd::multiset::Multiset::empty());
        assert(sort_keys_spec(keys).to_multiset() =~= vstd::multiset::Multiset::empty());
    }
}

pub open spec fn keys_view(v: Seq<KeyInfo>) -> Seq<KeyInfoV> {
    v.map_values(|k: KeyInfo| k@)
}

fn insert_key(v: &mut Vec<KeyInfo>, x: KeyInfo)
    ensures
        keys_view(final(v)@) == insert_by_name(keys_view(old(v)@), x@),
{
    let key = to_lowercase(x.name.as_str());
    let kv = chars_of(key.as_str());
    let mut j = v.len();
    let ghost xv = x@;
    let mut stop = false;
    assert(v@.take(v@.len() as int) =~= v@);
    assert(keys_view(v@.skip(v@.len() as int)) =~= Seq::<KeyInfoV>::empty());
    while j > 0 && !stop
        invariant
            j <= v@.len(),
            v@ == old(v)@,
            kv@ == lowercase(x.name@),
            xv == x@,
            insert_by_name(keys_view(v@), xv) == insert_by_name(keys_view(v@.take(j as int)), xv)
                + keys_view(v@.skip(j as int)),
            stop ==> j > 0 && !seq_lt(lowercase(x.name@), lowercase(v@[j - 1].name@)),
        decreases j, (if stop { 0int } else { 1int }),
    {
        let other = to_lowercase(v[j - 1].name.as_str());
        let ov = chars_of(other.as_str());
        if !chars_lt(&kv, &ov) {
            stop = true;
        } else {
            let ghost pre = keys_view(v@.take(j as int));
            assert(pre.drop_last() =~= keys_view(v@.take(j - 1)));
            assert(pre.last() == v@[j - 1]@);
            assert(insert_by_name(pre, xv) == insert_by_name(pre.drop_last(), xv).push(pre.last()));
            assert(keys_view(v@.skip(j - 1)) =~= seq![pre.last()] + keys_view(v@.skip(j as int)));
            assert(insert_by_name(pre.drop_last(), xv).push(pre.last()) + keys_view(v@.skip(j as int))
                =~= insert_by_name(pre.drop_last(), xv) + keys_view(v@.skip(j - 1)));
            j -= 1;
        }
    }
    proof {
        if j > 0 {
            let pre = keys_view(v@.take(j as int));
            assert(pre.last() == v@[j - 1]@);
            assert(insert_by_name(pre, xv) == pre.push(xv));
        } else {
            assert(keys_view(v@.take(0)) =~= Seq::<KeyInfoV>::empty());
        }
    }
    let ghost before = v@;
    v.insert(j, x);
    assert(keys_view(v@) =~= keys_view(before.take(j as int)).push(xv) + keys_view(before.skip(j as int)));
}

/// The keys sorted for the list: by lowercased name, keys with equal
/// lowercased names in their original order.
pub fn sort_keys(keys: Vec<KeyInfo>) -> (r: Vec<KeyInfo>)
    ensures
        keys_view(r@) == sort_keys_spec(keys_view(keys@)),
{
    let mut sorted: Vec<KeyInfo> = Vec::new();
    let mut i: usize = 0;
    let n = keys.len();
    let ghost kv = keys_view(keys@);
    while i < n
        invariant
            i <= n == keys@.len(),
            kv == keys_view(keys@),
            keys_view(sorted@) == sort_keys_spec(kv.take(i as int)),
        decreases n - i,
    {
        assert(kv.take(i + 1).drop_last() == kv.take(i as int));
        assert(kv.take(i + 1).last() == kv[i as int]);
        let k = keys[i].clone();
        insert_key(&mut sorted, k);
        i += 1;
    }
    assert(kv.take(n as int) == kv);
    sorted
}


// ---- a directory's keys ---------------------------------------------------------------------

/// A file of `~/.ssh` as read: its name, its text, and whether the private
/// key file of the same name (without `.pub`) exists.
pub struct KeyFile {
    pub file_name: String,
    pub text: String,
    pub private_exists: bool,
}

pub open spec fn key_files_view(v: Seq<KeyFile>) -> Seq<(Seq<char>, Seq<char>, bool)> {
    v.map_values(|f: KeyFile| (f.file_name@, f.text@, f.private_exists))
}

/// The keys the files hold, in the files' order: one per `<name>.pub` file
/// whose first non-blank line is a public key line (`key_from_text_spec`).
pub open spec fn keys_of_files(files: Seq<(Seq<char>, Seq<char>, bool)>) -> Seq<KeyInfoV>
    decreases files.len(),
{
    if files.len() == 0 {
        seq![]
    } else {
        let rest = keys_of_files(files.drop_last());
        let (f, t, pe) = files.last();
        match key_name_spec(f) {
            Some(n) => match key_from_text_spec(n, t, pe) {
                Some(k) => rest.push(k),
                None => rest,
            },
            None => rest,
        }
    }
}

/// The keys of a directory's files, sorted by their lowercased names.
pub fn list_keys_from(files: &Vec<KeyFile>) -> (r: Vec<KeyInfo>)
    ensures
        keys_view(r@) == sort_keys_spec(keys_of_files(key_files_view(files@))),
{
    let ghost fv = key_files_view(files@);
    let mut found: Vec<KeyInfo> = Vec::new();
    let mut i: usize = 0;
    while i < files.len()
        invariant
            i <= files@.len(),
            fv == key_files_view(files@),
            keys_view(found@) == keys_of_files(fv.take(i as int)),
        decreases files.len() - i,
    {
        let f = &files[i];
        assert(fv.take(i + 1).drop_last() =~= fv.take(i as int));
        assert(fv.take(i + 1).last() == fv[i as int]);
        match key_name(f.file_name.as_str()) {
            Some(n) => match key_from_text(n.as_str(), f.text.as_str(), f.private_exists) {
                Some(k) => {
                    let ghost before = keys_view(found@);
                    found.push(k);
                    assert(keys_view(found@) =~= before.push(k@));
                },
                None => {},
            },
            None => {},
        }
        i += 1;
    }
    assert(fv.take(files@.len() as int) =~= fv);
    sort_keys(found)
}

/// A directory's key list is sorted by lowercased name and holds exactly
/// the keys its `.pub` files hold, each once per file.
pub proof fn lemma_listed_keys(files: Seq<(Seq<char>, Seq<char>, bool)>)
    ensures
        sorted_by_name(sort_keys_spec(keys_of_files(files))),
        sort_keys_spec(keys_of_files(files)).to_multiset() == keys_of_files(files).to_multiset(),
{
    lemma_sort_keys_sorted(keys_of_files(files));
}

} // verus!
