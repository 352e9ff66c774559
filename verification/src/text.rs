//! Character-level text helpers with their specifications.
//!
//! Text is reasoned about as `Seq<char>`, the view vstd gives `str` and
//! `String`. The functions here are the building blocks the parsers use:
//! trimming, prefixes, splitting on whitespace, numbers.

use vstd::prelude::*;

verus! {

// ---- characters --------------------------------------------------------------

/// Unicode `White_Space`, the set `char::is_whitespace` tests for.
pub open spec fn is_ws(c: char) -> bool {
    let u = c as u32;
    ||| 0x09 <= u <= 0x0d
    ||| u == 0x20
    ||| u == 0x85
    ||| u == 0xa0
    ||| u == 0x1680
    ||| 0x2000 <= u <= 0x200a
    ||| u == 0x2028
    ||| u == 0x2029
    ||| u == 0x202f
    ||| u == 0x205f
    ||| u == 0x3000
}

pub fn is_whitespace(c: char) -> (b: bool)
    ensures
        b == is_ws(c),
{
    let u = c as u32;
    (0x09 <= u && u <= 0x0d) || u == 0x20 || u == 0x85 || u == 0xa0 || u == 0x1680 || (0x2000
        <= u && u <= 0x200a) || u == 0x2028 || u == 0x2029 || u == 0x202f || u == 0x205f || u
        == 0x3000
}

pub open spec fn is_digit(c: char) -> bool {
    '0' <= c <= '9'
}

pub open spec fn is_ascii_alnum(c: char) -> bool {
    ||| '0' <= c <= '9'
    ||| 'a' <= c <= 'z'
    ||| 'A' <= c <= 'Z'
}

/// `char::to_ascii_lowercase`.
pub open spec fn ascii_lower(c: char) -> char {
    if 'A' <= c <= 'Z' {
        ((c as u32) + 32) as char
    } else {
        c
    }
}

pub fn to_ascii_lower(c: char) -> (r: char)
    ensures
        r == ascii_lower(c),
{
    if 'A' <= c && c <= 'Z' {
        let u = (c as u32) + 32;
        assert(0x61 <= u <= 0x7a);
        char_from_ascii(u)
    } else {
        c
    }
}

/// An ASCII code as a `char`.
fn char_from_ascii(u: u32) -> (c: char)
    requires
        u < 128,
    ensures
        c == u as char,
        c as u32 == u,
{
    let b = u as u8;
    b as char
}

/// Lowercase every ASCII letter, leave the rest (`str::to_ascii_lowercase`).
pub open spec fn ascii_lower_seq(s: Seq<char>) -> Seq<char> {
    s.map_values(|c: char| ascii_lower(c))
}

// ---- strings <-> character vectors -------------------------------------------

/// The characters of `s`, in order.
pub fn chars_of(s: &str) -> (v: Vec<char>)
    ensures
        v@ == s@,
{
    let mut v: Vec<char> = Vec::new();
    for c in it: s.chars()
        invariant
            v@ == it.seq().take(it.index() as int),
            it.seq() == s@,
    {
        v.push(c);
    }
    v
}

/// `String::push`: appends one character.
#[verifier::external_body]
pub(crate) fn push_char(s: &mut String, c: char)
    ensures
        final(s)@ == old(s)@.push(c),
{
    s.push(c);
}

/// The string made of the characters `v[lo..hi]`.
pub fn string_of_range(v: &[char], lo: usize, hi: usize) -> (s: String)
    requires
        lo <= hi <= v@.len(),
    ensures
        s@ == v@.subrange(lo as int, hi as int),
{
    let mut s = String::new();
    let mut i = lo;
    while i < hi
        invariant
            lo <= i <= hi <= v@.len(),
            s@ == v@.subrange(lo as int, i as int),
        decreases hi - i,
    {
        push_char(&mut s, v[i]);
        assert(v@.subrange(lo as int, i + 1) == v@.subrange(lo as int, i as int).push(v@[i as int]));
        i += 1;
    }
    s
}

/// The string made of the characters of `v`.
pub fn string_of(v: &[char]) -> (s: String)
    ensures
        s@ == v@,
{
    let s = string_of_range(v, 0, v.len());
    assert(v@.subrange(0, v@.len() as int) == v@);
    s
}

/// `v[lo..hi]` as a vector.
pub fn sub_vec(v: &[char], lo: usize, hi: usize) -> (r: Vec<char>)
    requires
        lo <= hi <= v@.len(),
    ensures
        r@ == v@.subrange(lo as int, hi as int),
{
    let mut r: Vec<char> = Vec::new();
    let mut i = lo;
    while i < hi
        invariant
            lo <= i <= hi <= v@.len(),
            r@ == v@.subrange(lo as int, i as int),
        decreases hi - i,
    {
        r.push(v[i]);
        assert(v@.subrange(lo as int, i + 1) == v@.subrange(lo as int, i as int).push(v@[i as int]));
        i += 1;
    }
    r
}

/// A copy of `s`.
pub fn copy_string(s: &String) -> (r: String)
    ensures
        r@ == s@,
{
    s.clone()
}

/// `a` followed by `b`.
pub fn cat(a: &str, b: &str) -> (r: String)
    ensures
        r@ == a@ + b@,
{
    let mut r = a.to_owned();
    r.append(b);
    r
}

/// Append the characters `v` to `s`.
pub(crate) fn push_chars(s: &mut String, v: &[char])
    ensures
        final(s)@ == old(s)@ + v@,
{
    let mut i: usize = 0;
    while i < v.len()
        invariant
            i <= v@.len(),
            s@ == old(s)@ + v@.take(i as int),
        decreases v.len() - i,
    {
        push_char(s, v[i]);
        assert(v@.take(i + 1) == v@.take(i as int).push(v@[i as int]));
        i += 1;
    }
    assert(v@.take(v@.len() as int) == v@);
}

/// Whether two character sequences are equal.
pub fn chars_eq(a: &[char], b: &[char]) -> (r: bool)
    ensures
        r == (a@ == b@),
{
    if a.len() != b.len() {
        return false;
    }
    let mut i: usize = 0;
    while i < a.len()
        invariant
            a@.len() == b@.len(),
            i <= a@.len(),
            forall|k: int| 0 <= k < i ==> a@[k] == b@[k],
        decreases a.len() - i,
    {
        if a[i] != b[i] {
            return false;
        }
        i += 1;
    }
    assert(a@ =~= b@);
    true
}

/// Whether two strings are equal.
pub fn str_eq(a: &str, b: &str) -> (r: bool)
    ensures
        r == (a@ == b@),
{
    let va = chars_of(a);
    let vb = chars_of(b);
    chars_eq(&va, &vb)
}

// ---- prefixes, suffixes, search ------------------------------------------------

pub open spec fn starts_with(s: Seq<char>, p: Seq<char>) -> bool {
    p.len() <= s.len() && s.take(p.len() as int) == p
}

pub open spec fn ends_with(s: Seq<char>, p: Seq<char>) -> bool {
    p.len() <= s.len() && s.skip(s.len() - p.len()) == p
}

/// Whether `s[at..]` starts with `p`.
pub fn has_at(s: &[char], at: usize, p: &[char]) -> (r: bool)
    requires
        at <= s@.len(),
    ensures
        r == starts_with(s@.skip(at as int), p@),
{
    if p.len() > s.len() - at {
        return false;
    }
    let mut i: usize = 0;
    while i < p.len()
        invariant
            at + p@.len() <= s@.len(),
            at + p.len() <= s.len(),
            i <= p@.len(),
            forall|k: int| 0 <= k < i ==> s@[at + k] == p@[k],
        decreases p.len() - i,
    {
        if s[at + i] != p[i] {
            assert(s@.skip(at as int).take(p@.len() as int)[i as int] != p@[i as int]);
            return false;
        }
        i += 1;
    }
    assert(s@.skip(at as int).take(p@.len() as int) =~= p@);
    true
}

pub fn prefix(s: &[char], p: &[char]) -> (r: bool)
    ensures
        r == starts_with(s@, p@),
{
    let r = has_at(s, 0, p);
    assert(s@.skip(0) == s@);
    r
}

pub fn suffix(s: &[char], p: &[char]) -> (r: bool)
    ensures
        r == ends_with(s@, p@),
{
    if p.len() > s.len() {
        return false;
    }
    let at = s.len() - p.len();
    let r = has_at(s, at, p);
    assert(s@.skip(at as int).len() == p@.len());
    assert(s@.skip(at as int).take(p@.len() as int) == s@.skip(at as int));
    r
}

/// `str::starts_with` on strings.
pub fn str_starts_with(s: &str, p: &str) -> (r: bool)
    ensures
        r == starts_with(s@, p@),
{
    let vs = chars_of(s);
    let vp = chars_of(p);
    prefix(&vs, &vp)
}

/// Whether `p` occurs somewhere in `s`.
pub open spec fn contains_seq(s: Seq<char>, p: Seq<char>) -> bool {
    exists|i: int| 0 <= i <= s.len() - p.len() && #[trigger] s.subrange(i, i + p.len()) == p
}

pub fn contains_chars(s: &[char], p: &[char]) -> (r: bool)
    ensures
        r == contains_seq(s@, p@),
{
    if p.len() > s.len() {
        return false;
    }
    if p.len() == 0 {
        assert(s@.subrange(0, 0 + p@.len() as int) =~= p@);
        return true;
    }
    let mut i: usize = 0;
    while i <= s.len() - p.len()
        invariant
            0 < p@.len() <= s@.len(),
            i <= s@.len() - p@.len() + 1,
            forall|k: int| 0 <= k < i ==> #[trigger] s@.subrange(k, k + p@.len()) != p@,
        decreases s.len() - p.len() + 1 - i,
    {
        if has_at(s, i, p) {
            assert(s@.skip(i as int).take(p@.len() as int) == s@.subrange(i as int, i + p@.len()));
            return true;
        }
        assert(s@.skip(i as int).take(p@.len() as int) == s@.subrange(i as int, i + p@.len()));
        i += 1;
    }
    false
}

/// `str::contains` with a string pattern.
pub fn str_contains(s: &str, p: &str) -> (r: bool)
    ensures
        r == contains_seq(s@, p@),
{
    let vs = chars_of(s);
    let vp = chars_of(p);
    contains_chars(&vs, &vp)
}

/// Whether the character `c` occurs in `s`.
pub fn has_char(s: &[char], c: char) -> (r: bool)
    ensures
        r == s@.contains(c),
{
    let mut i: usize = 0;
    while i < s.len()
        invariant
            i <= s@.len(),
            forall|k: int| 0 <= k < i ==> s@[k] != c,
        decreases s.len() - i,
    {
        if s[i] == c {
            return true;
        }
        i += 1;
    }
    false
}

// ---- trimming ---------------------------------------------------------------------

/// `s` without leading whitespace.
pub open spec fn trim_start(s: Seq<char>) -> Seq<char>
    decreases s.len(),
{
    if s.len() > 0 && is_ws(s[0]) {
        trim_start(s.drop_first())
    } else {
        s
    }
}

/// `s` without trailing whitespace.
pub open spec fn trim_end(s: Seq<char>) -> Seq<char>
    decreases s.len(),
{
    if s.len() > 0 && is_ws(s.last()) {
        trim_end(s.drop_last())
    } else {
        s
    }
}

/// `str::trim`: `s` without leading and trailing whitespace.
pub open spec fn trim(s: Seq<char>) -> Seq<char> {
    trim_end(trim_start(s))
}

pub open spec fn is_blank(s: Seq<char>) -> bool {
    trim(s).len() == 0
}

/// Number of leading whitespace characters.
pub open spec fn lead_ws(s: Seq<char>) -> nat
    decreases s.len(),
{
    if s.len() > 0 && is_ws(s[0]) {
        1 + lead_ws(s.drop_first())
    } else {
        0
    }
}

pub proof fn lemma_trim_start(s: Seq<char>)
    ensures
        lead_ws(s) <= s.len(),
        trim_start(s) == s.skip(lead_ws(s) as int),
        forall|k: int| 0 <= k < lead_ws(s) ==> is_ws(#[trigger] s[k]),
        lead_ws(s) < s.len() ==> !is_ws(s[lead_ws(s) as int]),
    decreases s.len(),
{
    if s.len() > 0 && is_ws(s[0]) {
        lemma_trim_start(s.drop_first());
        assert(s.drop_first().skip(lead_ws(s.drop_first()) as int) == s.skip(lead_ws(s) as int));
        assert forall|k: int| 0 <= k < lead_ws(s) implies is_ws(#[trigger] s[k]) by {
            if k > 0 {
                assert(s[k] == s.drop_first()[k - 1]);
            }
        }
    } else {
        assert(s.skip(0) == s);
    }
}

pub proof fn lemma_trim_end(s: Seq<char>)
    ensures
        trim_end(s).len() <= s.len(),
        trim_end(s) == s.take(trim_end(s).len() as int),
        forall|k: int| trim_end(s).len() <= k < s.len() ==> is_ws(#[trigger] s[k]),
        trim_end(s).len() > 0 ==> !is_ws(trim_end(s).last()),
    decreases s.len(),
{
    if s.len() > 0 && is_ws(s.last()) {
        lemma_trim_end(s.drop_last());
        assert(s.drop_last().take(trim_end(s).len() as int) == s.take(trim_end(s).len() as int));
        assert forall|k: int| trim_end(s).len() <= k < s.len() implies is_ws(#[trigger] s[k]) by {
            if k < s.len() - 1 {
                assert(s[k] == s.drop_last()[k]);
            }
        }
    } else {
        assert(s.take(s.len() as int) == s);
    }
}

/// Start of `trim_start(s@)`: the index of the first non-whitespace character.
pub fn skip_ws(s: &[char], from: usize) -> (i: usize)
    requires
        from <= s@.len(),
    ensures
        from <= i <= s@.len(),
        trim_start(s@.skip(from as int)) == s@.skip(i as int),
        forall|k: int| from <= k < i ==> is_ws(#[trigger] s@[k]),
        i < s@.len() ==> !is_ws(s@[i as int]),
{
    let mut i = from;
    while i < s.len() && is_whitespace(s[i])
        invariant
            from <= i <= s@.len(),
            trim_start(s@.skip(from as int)) == trim_start(s@.skip(i as int)),
            forall|k: int| from <= k < i ==> is_ws(#[trigger] s@[k]),
        decreases s.len() - i,
    {
        assert(s@.skip(i as int).drop_first() == s@.skip(i + 1));
        i += 1;
    }
    i
}

/// End of `trim_end(s@[lo..hi])`, counted from the start of `s`.
pub fn trim_end_at(s: &[char], lo: usize, hi: usize) -> (j: usize)
    requires
        lo <= hi <= s@.len(),
    ensures
        lo <= j <= hi,
        trim_end(s@.subrange(lo as int, hi as int)) == s@.subrange(lo as int, j as int),
        forall|k: int| j <= k < hi ==> is_ws(#[trigger] s@[k]),
        j > lo ==> !is_ws(s@[j - 1]),
{
    let mut j = hi;
    while j > lo && is_whitespace(s[j - 1])
        invariant
            lo <= j <= hi <= s@.len(),
            trim_end(s@.subrange(lo as int, hi as int)) == trim_end(s@.subrange(lo as int, j as int)),
            forall|k: int| j <= k < hi ==> is_ws(#[trigger] s@[k]),
        decreases j,
    {
        assert(s@.subrange(lo as int, j as int).drop_last() == s@.subrange(lo as int, j - 1));
        j -= 1;
    }
    j
}

/// Bounds of `trim(s@[lo..hi])` inside `s`.
pub fn trim_bounds(s: &[char], lo: usize, hi: usize) -> (r: (usize, usize))
    requires
        lo <= hi <= s@.len(),
    ensures
        lo <= r.0 <= r.1 <= hi,
        trim(s@.subrange(lo as int, hi as int)) == s@.subrange(r.0 as int, r.1 as int),
{
    let ghost t = s@.subrange(lo as int, hi as int);
    let a0 = skip_ws(s, lo);
    let a = if a0 > hi { hi } else { a0 };
    proof {
        lemma_trim_start(t);
        lemma_trim_start(s@.skip(lo as int));
        // the leading whitespace of t is that of s[lo..], capped at hi
        assert(trim_start(t) == s@.subrange(a as int, hi as int)) by {
            let n = lead_ws(t);
            assert forall|k: int| lo <= k < a implies is_ws(#[trigger] s@[k]) by {}
            if a < hi {
                assert(!is_ws(t[a - lo]));
                assert forall|k: int| 0 <= k < a - lo implies is_ws(#[trigger] t[k]) by {
                    assert(t[k] == s@[lo + k]);
                }
                if n < a - lo {
                    assert(is_ws(t[n as int]));
                }
                if n > a - lo {
                    assert(is_ws(t[a - lo]));
                }
            } else {
                assert forall|k: int| 0 <= k < t.len() implies is_ws(#[trigger] t[k]) by {
                    assert(t[k] == s@[lo + k]);
                }
                if n < t.len() {
                    assert(is_ws(t[n as int]));
                }
            }
            assert(t.skip(n as int) =~= s@.subrange(a as int, hi as int));
        }
    }
    let b = trim_end_at(s, a, hi);
    (a, b)
}

/// `str::trim` as a vector of characters.
pub fn trim_chars(s: &[char]) -> (r: Vec<char>)
    ensures
        r@ == trim(s@),
{
    let (a, b) = trim_bounds(s, 0, s.len());
    assert(s@.subrange(0, s@.len() as int) == s@);
    sub_vec(s, a, b)
}

/// `str::trim` on a string.
pub fn trim_str(s: &str) -> (r: String)
    ensures
        r@ == trim(s@),
{
    let v = chars_of(s);
    let t = trim_chars(&v);
    string_of(&t)
}

/// Whether `s` is empty after trimming.
pub fn blank(s: &[char]) -> (r: bool)
    ensures
        r == is_blank(s@),
{
    let (a, b) = trim_bounds(s, 0, s.len());
    assert(s@.subrange(0, s@.len() as int) == s@);
    a == b
}

// ---- splitting on whitespace ------------------------------------------------

/// Length of the run of non-whitespace characters at the start of `s`.
pub open spec fn word_len(s: Seq<char>) -> nat
    decreases s.len(),
{
    if s.len() == 0 || is_ws(s[0]) {
        0
    } else {
        1 + word_len(s.drop_first())
    }
}

pub proof fn lemma_word_len(s: Seq<char>)
    ensures
        word_len(s) <= s.len(),
        forall|k: int| 0 <= k < word_len(s) ==> !is_ws(#[trigger] s[k]),
        word_len(s) < s.len() ==> is_ws(s[word_len(s) as int]),
    decreases s.len(),
{
    if s.len() > 0 && !is_ws(s[0]) {
        lemma_word_len(s.drop_first());
        assert forall|k: int| 0 <= k < word_len(s) implies !is_ws(#[trigger] s[k]) by {
            if k > 0 {
                assert(s[k] == s.drop_first()[k - 1]);
            }
        }
    }
}

/// The whitespace-separated words of `s` (`str::split_whitespace`).
pub open spec fn words(s: Seq<char>) -> Seq<Seq<char>>
    decreases s.len(),
{
    let t = trim_start(s);
    if t.len() == 0 {
        seq![]
    } else {
        let n = word_len(t);
        proof {
            lemma_trim_start(s);
            lemma_word_len(t);
        }
        if n == 0 {
            seq![]
        } else {
            seq![t.take(n as int)] + words(t.skip(n as int))
        }
    }
}

/// Where the word starting at `i` ends.
pub fn word_end(s: &[char], i: usize) -> (j: usize)
    requires
        i <= s@.len(),
    ensures
        i <= j <= s@.len(),
        j == i + word_len(s@.skip(i as int)),
{
    let mut j = i;
    while j < s.len() && !is_whitespace(s[j])
        invariant
            i <= j <= s@.len(),
            word_len(s@.skip(i as int)) == (j - i) + word_len(s@.skip(j as int)),
        decreases s.len() - j,
    {
        assert(s@.skip(j as int).drop_first() == s@.skip(j + 1));
        j += 1;
    }
    j
}

/// `str::split_whitespace` over `s[from..]`, as strings.
pub fn split_ws_from(s: &[char], from: usize) -> (r: Vec<String>)
    requires
        from <= s@.len(),
    ensures
        r.deep_view() == words(s@.skip(from as int)),
{
    let mut r: Vec<String> = Vec::new();
    let mut i = from;
    while i < s.len()
        invariant
            from <= i <= s@.len(),
            words(s@.skip(from as int)) == r.deep_view() + words(s@.skip(i as int)),
        decreases s.len() - i,
    {
        let a = skip_ws(s, i);
        proof {
            lemma_trim_start(s@.skip(i as int));
        }
        if a == s.len() {
            assert(words(s@.skip(i as int)) == Seq::<Seq<char>>::empty());
            i = a;
        } else {
            let b = word_end(s, a);
            let w = string_of_range(s, a, b);
            proof {
                let t = s@.skip(a as int);
                lemma_word_len(t);
                assert(t.take((b - a) as int) == s@.subrange(a as int, b as int));
                assert(t.skip((b - a) as int) == s@.skip(b as int));
                assert(words(s@.skip(i as int)) == seq![w@] + words(s@.skip(b as int)));
            }
            let ghost before = r.deep_view();
            r.push(w);
            assert(r.deep_view() == before.push(w@));
            assert(before + words(s@.skip(i as int)) == r.deep_view() + words(s@.skip(b as int)));
            i = b;
        }
    }
    assert(s@.skip(i as int).len() == 0);
    assert(words(s@.skip(i as int)) == Seq::<Seq<char>>::empty());
    r
}

/// `str::split_whitespace`, as strings.
pub fn split_ws(s: &[char]) -> (r: Vec<String>)
    ensures
        r.deep_view() == words(s@),
{
    assert(s@.skip(0) == s@);
    split_ws_from(s, 0)
}

// ---- numbers ------------------------------------------------------------------

pub open spec fn digit_char(d: nat) -> char
    recommends
        d < 10,
{
    ((d + 48) as u32) as char
}

/// Decimal digits of `n`, without leading zeros (`"0"` for zero).
pub open spec fn dec(n: nat) -> Seq<char>
    decreases n,
{
    if n < 10 {
        seq![digit_char(n)]
    } else {
        dec(n / 10).push(digit_char(n % 10))
    }
}

/// `n.to_string()` for an unsigned integer.
pub fn dec_string(n: u64) -> (r: String)
    ensures
        r@ == dec(n as nat),
    decreases n,
{
    if n < 10 {
        let mut r = String::new();
        push_char(&mut r, char_from_ascii((n + 48) as u32));
        assert(r@ == seq![digit_char(n as nat)]);
        r
    } else {
        let mut r = dec_string(n / 10);
        push_char(&mut r, char_from_ascii((n % 10 + 48) as u32));
        r
    }
}

pub open spec fn digit_value(c: char) -> nat {
    ((c as u32) - 48) as nat
}

pub open spec fn all_digits(s: Seq<char>) -> bool {
    forall|k: int| 0 <= k < s.len() ==> is_digit(#[trigger] s[k])
}

/// The number the decimal digits `s` spell.
pub open spec fn digits_value(s: Seq<char>) -> nat
    decreases s.len(),
{
    if s.len() == 0 {
        0
    } else {
        digits_value(s.drop_last()) * 10 + digit_value(s.last())
    }
}

/// `FromStr` for an unsigned integer type whose largest value is `max`:
/// an optional `+`, then one or more ASCII digits, at most `max`.
pub open spec fn parse_uint(s: Seq<char>, max: nat) -> Option<nat> {
    let d = if s.len() > 0 && s[0] == '+' {
        s.drop_first()
    } else {
        s
    };
    if d.len() > 0 && all_digits(d) && digits_value(d) <= max {
        Some(digits_value(d))
    } else {
        None
    }
}

proof fn lemma_digits_value_grows(s: Seq<char>, i: int)
    requires
        0 <= i <= s.len(),
        all_digits(s),
    ensures
        digits_value(s.take(i)) <= digits_value(s),
    decreases s.len() - i,
{
    if i < s.len() {
        lemma_digits_value_grows(s, i + 1);
        assert(s.take(i + 1).drop_last() == s.take(i));
    } else {
        assert(s.take(i) == s);
    }
}

/// Parse `s[lo..hi]` as an unsigned number no larger than `max`.
pub fn parse_uint_range(s: &[char], lo: usize, hi: usize, max: u64) -> (r: Option<u64>)
    requires
        lo <= hi <= s@.len(),
    ensures
        match parse_uint(s@.subrange(lo as int, hi as int), max as nat) {
            Some(v) => r == Some(v as u64),
            None => r is None,
        },
{
    let ghost t = s@.subrange(lo as int, hi as int);
    let mut i = lo;
    if i < hi && s[i] == '+' {
        i += 1;
    }
    let ghost d = s@.subrange(i as int, hi as int);
    assert(d == (if t.len() > 0 && t[0] == '+' { t.drop_first() } else { t }));
    if i == hi {
        return None;
    }
    let start = i;
    let mut acc: u128 = 0;
    while i < hi
        invariant
            lo <= start <= i <= hi <= s@.len(),
            start < hi,
            t == s@.subrange(lo as int, hi as int),
            d == (if t.len() > 0 && t[0] == '+' { t.drop_first() } else { t }),
            d == s@.subrange(start as int, hi as int),
            acc == digits_value(s@.subrange(start as int, i as int)),
            acc <= max,
            all_digits(s@.subrange(start as int, i as int)),
        decreases hi - i,
    {
        let c = s[i];
        let ghost pre = s@.subrange(start as int, i as int);
        let ghost next = s@.subrange(start as int, i + 1);
        assert(next.drop_last() == pre);
        if !('0' <= c && c <= '9') {
            assert(!is_digit(d[i - start]));
            return None;
        }
        let dv = (c as u32 - 48) as u128;
        acc = acc * 10 + dv;
        assert(acc == digits_value(next));
        assert(all_digits(next)) by {
            assert forall|k: int| 0 <= k < next.len() implies is_digit(#[trigger] next[k]) by {
                if k < pre.len() {
                    assert(next[k] == pre[k]);
                }
            }
        }
        if acc > max as u128 {
            proof {
                if all_digits(d) {
                    lemma_digits_value_grows(d, i + 1 - start);
                    assert(d.take(i + 1 - start) == next);
                }
            }
            return None;
        }
        i += 1;
    }
    assert(s@.subrange(start as int, i as int) == d);
    Some(acc as u64)
}

// ---- occurrences of a pattern ---------------------------------------------------

/// Whether `p` occurs in `s` at index `i`.
pub open spec fn occ_at(s: Seq<char>, p: Seq<char>, i: int) -> bool {
    0 <= i && i + p.len() <= s.len() && s.subrange(i, i + p.len()) == p
}

/// The first index `>= i` where `p` occurs in `s`.
pub open spec fn find_from(s: Seq<char>, p: Seq<char>, i: int) -> Option<int>
    decreases s.len() + 1 - i,
{
    if i < 0 || i + p.len() > s.len() {
        None
    } else if s.subrange(i, i + p.len()) == p {
        Some(i)
    } else {
        find_from(s, p, i + 1)
    }
}

/// The last index `<= j` where `p` occurs in `s`.
pub open spec fn rfind_below(s: Seq<char>, p: Seq<char>, j: int) -> Option<int>
    decreases j + 1,
{
    if j < 0 {
        None
    } else if occ_at(s, p, j) {
        Some(j)
    } else {
        rfind_below(s, p, j - 1)
    }
}

/// The last index where `p` occurs in `s`.
pub open spec fn rfind(s: Seq<char>, p: Seq<char>) -> Option<int> {
    rfind_below(s, p, s.len() - p.len())
}

/// `str::split_once`: the parts around the first occurrence of `p`.
pub open spec fn split_once(s: Seq<char>, p: Seq<char>) -> Option<(Seq<char>, Seq<char>)> {
    match find_from(s, p, 0) {
        Some(i) => Some((s.take(i), s.skip(i + p.len()))),
        None => None,
    }
}

/// `str::rsplit_once`: the parts around the last occurrence of `p`.
pub open spec fn rsplit_once(s: Seq<char>, p: Seq<char>) -> Option<(Seq<char>, Seq<char>)> {
    match rfind(s, p) {
        Some(i) => Some((s.take(i), s.skip(i + p.len()))),
        None => None,
    }
}

pub proof fn lemma_find_from_bounds(s: Seq<char>, p: Seq<char>, i: int)
    ensures
        find_from(s, p, i) matches Some(k) ==> i <= k && occ_at(s, p, k),
    decreases s.len() + 1 - i,
{
    if !(i < 0 || i + p.len() > s.len()) && s.subrange(i, i + p.len()) != p {
        lemma_find_from_bounds(s, p, i + 1);
    }
}

pub proof fn lemma_rfind_bounds(s: Seq<char>, p: Seq<char>, j: int)
    ensures
        rfind_below(s, p, j) matches Some(k) ==> k <= j && occ_at(s, p, k),
    decreases j + 1,
{
    if j >= 0 && !occ_at(s, p, j) {
        lemma_rfind_bounds(s, p, j - 1);
    }
}

/// First occurrence of `p` in `s` at or after `from`.
pub fn find_seq(s: &[char], p: &[char], from: usize) -> (r: Option<usize>)
    requires
        from <= s@.len(),
    ensures
        r matches Some(j) ==> find_from(s@, p@, from as int) == Some(j as int),
        r is None ==> find_from(s@, p@, from as int) is None,
{
    if p.len() > s.len() {
        return None;
    }
    if p.len() == 0 {
        assert(s@.subrange(from as int, from as int) =~= p@);
        return Some(from);
    }
    if from > s.len() - p.len() {
        return None;
    }
    let mut i = from;
    while i <= s.len() - p.len()
        invariant
            from <= i,
            0 < p@.len() <= s@.len(),
            i <= s@.len() - p@.len() + 1,
            find_from(s@, p@, from as int) == find_from(s@, p@, i as int),
        decreases s.len() - i,
    {
        if has_at(s, i, p) {
            assert(s@.skip(i as int).take(p@.len() as int) == s@.subrange(i as int, i + p@.len()));
            return Some(i);
        }
        assert(s@.skip(i as int).take(p@.len() as int) == s@.subrange(i as int, i + p@.len()));
        i += 1;
    }
    None
}

/// Last occurrence of `p` in `s`.
pub fn rfind_seq(s: &[char], p: &[char]) -> (r: Option<usize>)
    ensures
        r matches Some(j) ==> rfind(s@, p@) == Some(j as int),
        r is None ==> rfind(s@, p@) is None,
{
    if p.len() > s.len() {
        return None;
    }
    if p.len() == 0 {
        assert(s@.subrange(s@.len() as int, s@.len() as int) =~= p@);
        return Some(s.len());
    }
    let mut j = s.len() - p.len() + 1;
    while j > 0
        invariant
            0 < p@.len() <= s@.len(),
            j <= s@.len() - p@.len() + 1,
            rfind(s@, p@) == rfind_below(s@, p@, j - 1),
        decreases j,
    {
        if has_at(s, j - 1, p) {
            assert(s@.skip(j - 1).take(p@.len() as int) == s@.subrange(j - 1, j - 1 + p@.len()));
            return Some(j - 1);
        }
        assert(s@.skip(j - 1).take(p@.len() as int) == s@.subrange(j - 1, j - 1 + p@.len()));
        j -= 1;
    }
    None
}

/// `s` without the trailing run of `c` (`str::trim_end_matches` with a char).
pub open spec fn trim_end_char(s: Seq<char>, c: char) -> Seq<char>
    decreases s.len(),
{
    if s.len() > 0 && s.last() == c {
        trim_end_char(s.drop_last(), c)
    } else {
        s
    }
}

/// End of `trim_end_char(s[lo..hi], c)`, counted from the start of `s`.
pub fn trim_end_char_at(s: &[char], lo: usize, hi: usize, c: char) -> (j: usize)
    requires
        lo <= hi <= s@.len(),
    ensures
        lo <= j <= hi,
        trim_end_char(s@.subrange(lo as int, hi as int), c) == s@.subrange(lo as int, j as int),
{
    let mut j = hi;
    while j > lo && s[j - 1] == c
        invariant
            lo <= j <= hi <= s@.len(),
            trim_end_char(s@.subrange(lo as int, hi as int), c) == trim_end_char(
                s@.subrange(lo as int, j as int),
                c,
            ),
        decreases j,
    {
        assert(s@.subrange(lo as int, j as int).drop_last() == s@.subrange(lo as int, j - 1));
        j -= 1;
    }
    j
}

/// The characters of a string literal (or any `&str`) as a vector.
pub fn lit(s: &str) -> (v: Vec<char>)
    ensures
        v@ == s@,
{
    chars_of(s)
}

/// `s[lo..]` starts with the literal `p`.
pub fn starts_lit(s: &[char], p: &str) -> (r: bool)
    ensures
        r == starts_with(s@, p@),
{
    let v = chars_of(p);
    prefix(s, &v)
}

/// The message in the chosen language.
pub fn tr(en: bool, zh: &str, english: &str) -> (r: String)
    ensures
        r@ == (if en { english@ } else { zh@ }),
{
    if en {
        english.to_owned()
    } else {
        zh.to_owned()
    }
}

/// A message with one argument in the chosen language:
/// `zh_a arg zh_b` or `en_a arg en_b`.
pub fn tr1(en: bool, zh_a: &str, zh_b: &str, en_a: &str, en_b: &str, arg: &str) -> (r: String)
    ensures
        r@ == (if en { en_a@ + arg@ + en_b@ } else { zh_a@ + arg@ + zh_b@ }),
{
    let mut r = if en {
        en_a.to_owned()
    } else {
        zh_a.to_owned()
    };
    r.append(arg);
    if en {
        r.append(en_b);
    } else {
        r.append(zh_b);
    }
    r
}

/// The first whitespace-separated word of `s`, or nothing.
pub open spec fn first_word(s: Seq<char>) -> Seq<char> {
    let t = trim_start(s);
    t.take(word_len(t) as int)
}

/// Bounds of `first_word(s[from..])` inside `s`.
pub fn first_word_bounds(s: &[char], from: usize) -> (r: (usize, usize))
    requires
        from <= s@.len(),
    ensures
        from <= r.0 <= r.1 <= s@.len(),
        first_word(s@.skip(from as int)) == s@.subrange(r.0 as int, r.1 as int),
{
    let a = skip_ws(s, from);
    let b = word_end(s, a);
    proof {
        let t = s@.skip(a as int);
        lemma_word_len(t);
        assert(t.take((b - a) as int) =~= s@.subrange(a as int, b as int));
    }
    (a, b)
}

// ---- splitting into pieces and lines ----------------------------------------------

/// `str::split` on one character: the pieces between the occurrences of `c`
/// (always at least one).
pub open spec fn split_char(s: Seq<char>, c: char) -> Seq<Seq<char>>
    decreases s.len(),
{
    match find_from(s, seq![c], 0) {
        Some(i) => {
            proof {
                lemma_find_from_bounds(s, seq![c], 0);
            }
            seq![s.take(i)] + split_char(s.skip(i + 1), c)
        },
        None => seq![s],
    }
}

/// `s` without one trailing `c`, if it ends with one.
pub open spec fn strip_last(s: Seq<char>, c: char) -> Seq<char> {
    if s.len() > 0 && s.last() == c {
        s.drop_last()
    } else {
        s
    }
}

/// The lines of `s` (`str::lines`): split at `\n`, a `\r` right before the
/// `\n` dropped, and no empty line after a final `\n`.
pub open spec fn lines_of(s: Seq<char>) -> Seq<Seq<char>>
    decreases s.len(),
{
    match find_from(s, seq!['\n'], 0) {
        Some(i) => {
            proof {
                lemma_find_from_bounds(s, seq!['\n'], 0);
            }
            seq![strip_last(s.take(i), '\r')] + lines_of(s.skip(i + 1))
        },
        None => if s.len() == 0 {
            seq![]
        } else {
            seq![s]
        },
    }
}

pub open spec fn shift(o: Option<int>, k: int) -> Option<int> {
    match o {
        Some(i) => Some(i + k),
        None => None,
    }
}

proof fn lemma_find_char_seq(s: Seq<char>, c: char, from: int)
    requires
        0 <= from <= s.len(),
    ensures
        find_from(s, seq![c], from) == shift(find_from(s.skip(from), seq![c], 0), from),
    decreases s.len() - from,
{
    let t = s.skip(from);
    if from + 1 <= s.len() {
        assert(t.subrange(0, 1) == s.subrange(from, from + 1));
        if s.subrange(from, from + 1) != seq![c] {
            lemma_find_char_seq(s, c, from + 1);
            lemma_find_shift(t, c, 1);
            assert(t.skip(1) == s.skip(from + 1));
        }
    }
}

proof fn lemma_find_shift(t: Seq<char>, c: char, k: int)
    requires
        0 <= k <= t.len(),
    ensures
        find_from(t, seq![c], k) == shift(find_from(t.skip(k), seq![c], 0), k),
    decreases t.len() - k,
{
    let u = t.skip(k);
    if k + 1 <= t.len() {
        assert(u.subrange(0, 1) == t.subrange(k, k + 1));
        if t.subrange(k, k + 1) != seq![c] {
            lemma_find_shift(t, c, k + 1);
            lemma_find_shift(u, c, 1);
            assert(u.skip(1) == t.skip(k + 1));
        }
    }
}

/// Index of the first `c` in `s[from..]`, as `find_from` describes it.
pub fn find_char_from(s: &[char], c: char, from: usize) -> (r: Option<usize>)
    requires
        from <= s@.len(),
    ensures
        r matches Some(j) ==> find_from(s@, seq![c], from as int) == Some(j as int),
        r is None ==> find_from(s@, seq![c], from as int) is None,
{
    let mut i = from;
    while i < s.len()
        invariant
            from <= i <= s@.len(),
            find_from(s@, seq![c], from as int) == find_from(s@, seq![c], i as int),
        decreases s.len() - i,
    {
        assert(s@.subrange(i as int, i + 1) =~= seq![s@[i as int]]);
        if s[i] == c {
            assert(s@.subrange(i as int, i + 1) =~= seq![c]);
            return Some(i);
        }
        assert(s@.subrange(i as int, i + 1)[0] != seq![c][0]);
        i += 1;
    }
    None
}

/// `str::split` on a character, as strings.
pub fn split_on(s: &[char], c: char) -> (r: Vec<String>)
    ensures
        r.deep_view() == split_char(s@, c),
{
    let mut r: Vec<String> = Vec::new();
    let mut i: usize = 0;
    assert(s@.skip(0) == s@);
    assert(r.deep_view() + split_char(s@, c) =~= split_char(s@, c));
    loop
        invariant
            i <= s@.len(),
            split_char(s@, c) == r.deep_view() + split_char(s@.skip(i as int), c),
        decreases s@.len() - i,
    {
        let ghost rest = s@.skip(i as int);
        proof {
            lemma_find_char_seq(s@, c, i as int);
        }
        match find_char_from(s, c, i) {
            Some(j) => {
                proof {
                    lemma_find_from_bounds(s@, seq![c], i as int);
                    assert(find_from(s@, seq![c], i as int) == Some(j as int));
                    assert(i <= j < s@.len());
                    assert(rest.take(j - i) =~= s@.subrange(i as int, j as int));
                    assert(rest.skip(j - i + 1) =~= s@.skip(j + 1));
                }
                let piece = string_of_range(s, i, j);
                let ghost before = r.deep_view();
                r.push(piece);
                assert(r.deep_view() == before.push(piece@));
                assert(before + split_char(rest, c) == r.deep_view() + split_char(s@.skip(j + 1), c));
                let n = s.len();
                assert(j < n);
                i = j + 1;
            },
            None => {
                let piece = string_of_range(s, i, s.len());
                assert(rest == s@.subrange(i as int, s@.len() as int));
                let ghost before = r.deep_view();
                r.push(piece);
                assert(r.deep_view() == before.push(piece@));
                assert(split_char(s@, c) == r.deep_view());
                return r;
            },
        }
    }
}

/// `str::lines`, as strings.
pub fn lines(s: &[char]) -> (r: Vec<String>)
    ensures
        r.deep_view() == lines_of(s@),
{
    let mut r: Vec<String> = Vec::new();
    let mut i: usize = 0;
    assert(s@.skip(0) == s@);
    assert(r.deep_view() + lines_of(s@) =~= lines_of(s@));
    loop
        invariant
            i <= s@.len(),
            lines_of(s@) == r.deep_view() + lines_of(s@.skip(i as int)),
        decreases s@.len() - i,
    {
        let ghost rest = s@.skip(i as int);
        proof {
            lemma_find_char_seq(s@, '\n', i as int);
        }
        match find_char_from(s, '\n', i) {
            Some(j) => {
                proof {
                    lemma_find_from_bounds(s@, seq!['\n'], i as int);
                    assert(find_from(s@, seq!['\n'], i as int) == Some(j as int));
                    assert(i <= j < s@.len());
                    assert(rest.take(j - i) =~= s@.subrange(i as int, j as int));
                    assert(rest.skip(j - i + 1) =~= s@.skip(j + 1));
                }
                let end = if j > i && s[j - 1] == '\r' {
                    j - 1
                } else {
                    j
                };
                let piece = string_of_range(s, i, end);
                assert(piece@ == strip_last(s@.subrange(i as int, j as int), '\r'));
                let ghost before = r.deep_view();
                r.push(piece);
                assert(r.deep_view() == before.push(piece@));
                assert(before + lines_of(rest) == r.deep_view() + lines_of(s@.skip(j + 1)));
                let n = s.len();
                assert(j < n);
                i = j + 1;
            },
            None => {
                assert(rest == s@.subrange(i as int, s@.len() as int));
                if i < s.len() {
                    let piece = string_of_range(s, i, s.len());
                    let ghost before = r.deep_view();
                    r.push(piece);
                    assert(r.deep_view() == before.push(piece@));
                } else {
                    assert(lines_of(rest) == Seq::<Seq<char>>::empty());
                }
                assert(lines_of(s@) == r.deep_view());
                return r;
            },
        }
    }
}

/// Index of the first character of `s[from..]` that is in `cs`.
pub open spec fn find_any_from(s: Seq<char>, cs: Seq<char>, i: int) -> Option<int>
    decreases s.len() - i,
{
    if i < 0 || i >= s.len() {
        None
    } else if cs.contains(s[i]) {
        Some(i)
    } else {
        find_any_from(s, cs, i + 1)
    }
}

pub proof fn lemma_find_any_bounds(s: Seq<char>, cs: Seq<char>, i: int)
    ensures
        find_any_from(s, cs, i) matches Some(k) ==> i <= k < s.len() && cs.contains(s[k]),
    decreases s.len() - i,
{
    if 0 <= i < s.len() && !cs.contains(s[i]) {
        lemma_find_any_bounds(s, cs, i + 1);
    }
}

/// Index of the first character of `s` that is in `cs`.
pub fn find_any(s: &[char], cs: &[char]) -> (r: Option<usize>)
    ensures
        match find_any_from(s@, cs@, 0) {
            Some(k) => r == Some(k as usize),
            None => r is None,
        },
{
    let mut i: usize = 0;
    while i < s.len()
        invariant
            i <= s@.len(),
            find_any_from(s@, cs@, 0) == find_any_from(s@, cs@, i as int),
        decreases s.len() - i,
    {
        if has_char(cs, s[i]) {
            return Some(i);
        }
        i += 1;
    }
    None
}

/// `s` with every ASCII letter lowercased.
pub fn ascii_lowercase(s: &[char]) -> (r: Vec<char>)
    ensures
        r@ == ascii_lower_seq(s@),
{
    let mut out: Vec<char> = Vec::new();
    let mut k: usize = 0;
    while k < s.len()
        invariant
            k <= s@.len(),
            out@ == ascii_lower_seq(s@).take(k as int),
        decreases s.len() - k,
    {
        out.push(to_ascii_lower(s[k]));
        assert(ascii_lower_seq(s@).take(k + 1) == ascii_lower_seq(s@).take(k as int).push(
            ascii_lower(s@[k as int]),
        ));
        k += 1;
    }
    assert(ascii_lower_seq(s@).take(s@.len() as int) == ascii_lower_seq(s@));
    out
}

// ---- lowercase and ordering ----------------------------------------------------

/// What `str::to_lowercase` makes of `s` (Unicode lowercase mapping).
pub uninterp spec fn lowercase(s: Seq<char>) -> Seq<char>;

/// `str::to_lowercase`: the Unicode lowercase of `s`. Its value is named by
/// `lowercase`; of the mapping only the ASCII case is stated (an ASCII
/// string lowercases to its ASCII lowercase).
#[verifier::external_body]
pub(crate) fn to_lowercase(s: &str) -> (r: String)
    ensures
        r@ == lowercase(s@),
        vstd::utf8::is_ascii_chars(s@) ==> r@ == ascii_lower_seq(s@),
{
    s.to_lowercase()
}

/// `a < b` in the order `str` and `String` compare in: lexicographic by
/// character (the same as by UTF-8 bytes).
pub open spec fn seq_lt(a: Seq<char>, b: Seq<char>) -> bool
    decreases a.len(),
{
    if a.len() == 0 {
        b.len() > 0
    } else if b.len() == 0 {
        false
    } else if a[0] != b[0] {
        (a[0] as u32) < (b[0] as u32)
    } else {
        seq_lt(a.drop_first(), b.drop_first())
    }
}

/// No string sorts before itself.
pub proof fn lemma_seq_lt_irreflexive(a: Seq<char>)
    ensures
        !seq_lt(a, a),
    decreases a.len(),
{
    if a.len() > 0 {
        lemma_seq_lt_irreflexive(a.drop_first());
    }
}

/// String order is transitive.
pub proof fn lemma_seq_lt_transitive(a: Seq<char>, b: Seq<char>, c: Seq<char>)
    requires
        seq_lt(a, b),
        seq_lt(b, c),
    ensures
        seq_lt(a, c),
    decreases a.len(),
{
    if a.len() > 0 && a[0] == b[0] && b[0] == c[0] {
        lemma_seq_lt_transitive(a.drop_first(), b.drop_first(), c.drop_first());
    }
}

/// Of two different strings one sorts before the other.
pub proof fn lemma_seq_lt_total(a: Seq<char>, b: Seq<char>)
    requires
        !seq_lt(a, b),
        !seq_lt(b, a),
    ensures
        a == b,
    decreases a.len(),
{
    if a.len() > 0 && b.len() > 0 {
        vstd::utf8::char_u32_cast(a[0], a[0] as u32);
        vstd::utf8::char_u32_cast(b[0], b[0] as u32);
        assert(a[0] == b[0]);
        lemma_seq_lt_total(a.drop_first(), b.drop_first());
        assert(a =~= seq![a[0]] + a.drop_first());
        assert(b =~= seq![b[0]] + b.drop_first());
    } else {
        assert(a =~= b);
    }
}

/// Not sorting after is transitive.
pub proof fn lemma_seq_le_transitive(x: Seq<char>, y: Seq<char>, z: Seq<char>)
    requires
        !seq_lt(y, x),
        !seq_lt(z, y),
    ensures
        !seq_lt(z, x),
{
    if seq_lt(z, x) {
        if x == y {
        } else if seq_lt(x, y) {
            lemma_seq_lt_transitive(z, x, y);
        } else {
            lemma_seq_lt_total(x, y);
        }
    }
}

/// Whether `a < b` in string order.
pub fn chars_lt(a: &[char], b: &[char]) -> (r: bool)
    ensures
        r == seq_lt(a@, b@),
{
    let mut i: usize = 0;
    assert(a@.skip(0) == a@ && b@.skip(0) == b@);
    while i < a.len() && i < b.len() && a[i] == b[i]
        invariant
            i <= a@.len(),
            i <= b@.len(),
            seq_lt(a@, b@) == seq_lt(a@.skip(i as int), b@.skip(i as int)),
        decreases a.len() - i,
    {
        assert(a@.skip(i as int).drop_first() =~= a@.skip(i + 1));
        assert(b@.skip(i as int).drop_first() =~= b@.skip(i + 1));
        i += 1;
    }
    if i == a.len() {
        i < b.len()
    } else if i == b.len() {
        false
    } else {
        (a[i] as u32) < (b[i] as u32)
    }
}


/// The decimal digits of `n` spell `n`.
pub proof fn lemma_dec_value(n: nat)
    ensures
        digits_value(dec(n)) == n,
    decreases n,
{
    if n >= 10 {
        lemma_dec_value(n / 10);
        let d = dec(n / 10).push(digit_char(n % 10));
        assert(d == dec(n));
        assert(d.drop_last() =~= dec(n / 10));
        assert(d.last() == digit_char(n % 10));
        assert(digit_value(digit_char(n % 10)) == n % 10);
        assert(digits_value(d) == digits_value(dec(n / 10)) * 10 + digit_value(d.last()));
        assert((n / 10) * 10 + n % 10 == n) by (nonlinear_arith);
    } else {
        let d = seq![digit_char(n)];
        assert(d == dec(n));
        assert(d.drop_last() =~= Seq::<char>::empty());
        assert(digit_value(digit_char(n)) == n);
        assert(digits_value(d) == digits_value(d.drop_last()) * 10 + digit_value(d.last()));
    }
}

/// Different numbers have different decimal digits.
pub proof fn lemma_dec_injective(i: nat, j: nat)
    requires
        dec(i) == dec(j),
    ensures
        i == j,
{
    lemma_dec_value(i);
    lemma_dec_value(j);
}

} // verus!
