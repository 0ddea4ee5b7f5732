//! Turning a textual key specification into a sequence of non-zero byte keys.
use rand::Rng;
use vstd::prelude::*;

verus! {

// ---------------------------------------------------------------------------
// Tokens
// ---------------------------------------------------------------------------

/// The characters with the Unicode `White_Space` property: the ones that
/// separate the tokens of a key specification.
pub open spec fn is_separator(c: char) -> bool {
    ('\u{9}' <= c && c <= '\u{d}') || c == ' ' || c == '\u{85}' || c == '\u{a0}' || c
        == '\u{1680}' || ('\u{2000}' <= c && c <= '\u{200a}') || c == '\u{2028}' || c
        == '\u{2029}' || c == '\u{202f}' || c == '\u{205f}' || c == '\u{3000}'
}

/// The tokens completed so far, and the token being read, after the
/// characters of `s` have been read left to right.
pub open spec fn split_state(s: Seq<char>) -> (Seq<Seq<char>>, Seq<char>)
    decreases s.len(),
{
    if s.len() == 0 {
        (Seq::empty(), Seq::empty())
    } else {
        let prev = split_state(s.drop_last());
        let c = s.last();
        if !is_separator(c) {
            (prev.0, prev.1.push(c))
        } else if prev.1.len() == 0 {
            prev
        } else {
            (prev.0.push(prev.1), Seq::empty())
        }
    }
}

/// The maximal runs of non-separator characters of `s`, in order.
pub open spec fn tokens(s: Seq<char>) -> Seq<Seq<char>> {
    let st = split_state(s);
    if st.1.len() == 0 {
        st.0
    } else {
        st.0.push(st.1)
    }
}

/// The character sequences held by a sequence of character vectors.
pub open spec fn char_views(v: Seq<Vec<char>>) -> Seq<Seq<char>> {
    Seq::new(v.len(), |i: int| v[i]@)
}

/// Whether `c` separates tokens.
pub fn separator(c: char) -> (r: bool)
    ensures
        r == is_separator(c),
{
    ('\u{9}' <= c && c <= '\u{d}') || c == ' ' || c == '\u{85}' || c == '\u{a0}' || c
        == '\u{1680}' || ('\u{2000}' <= c && c <= '\u{200a}') || c == '\u{2028}' || c
        == '\u{2029}' || c == '\u{202f}' || c == '\u{205f}' || c == '\u{3000}'
}

/// Splits `s` on runs of whitespace; leading and trailing whitespace yield
/// no empty tokens.
pub fn split_tokens(s: &Vec<char>) -> (r: Vec<Vec<char>>)
    ensures
        char_views(r@) == tokens(s@),
{
    let mut done: Vec<Vec<char>> = Vec::new();
    let mut cur: Vec<char> = Vec::new();
    let mut i: usize = 0;
    while i < s.len()
        invariant
            i <= s.len(),
            char_views(done@) == split_state(s@.take(i as int)).0,
            cur@ == split_state(s@.take(i as int)).1,
        decreases s.len() - i,
    {
        let c = s[i];
        assert(s@.take(i + 1).drop_last() =~= s@.take(i as int));
        if !separator(c) {
            cur.push(c);
        } else if cur.len() > 0 {
            let ghost before = done@;
            done.push(cur);
            cur = Vec::new();
            assert(char_views(done@) =~= char_views(before).push(
                split_state(s@.take(i as int)).1,
            ));
        }
        i += 1;
    }
    assert(s@.take(s.len() as int) =~= s@);
    if cur.len() > 0 {
        let ghost before = done@;
        let ghost last = cur@;
        done.push(cur);
        assert(char_views(done@) =~= char_views(before).push(last));
    }
    done
}

// ---------------------------------------------------------------------------
// Reading a token as a byte
// ---------------------------------------------------------------------------

/// Whether `c` is one of the ASCII digits `0` to `9`.
pub open spec fn is_digit(c: char) -> bool {
    '0' <= c && c <= '9'
}

/// The value of the decimal digits `s`, most significant first.
pub open spec fn decimal_value(s: Seq<char>) -> int
    decreases s.len(),
{
    if s.len() == 0 {
        0
    } else {
        decimal_value(s.drop_last()) * 10 + (s.last() as int - '0' as int)
    }
}

/// The digits of a token: the token without one leading `+`, if it has one.
pub open spec fn digits_of(tok: Seq<char>) -> Seq<char> {
    if tok.len() > 0 && tok[0] == '+' {
        tok.drop_first()
    } else {
        tok
    }
}

/// The byte that `tok` denotes as an unsigned decimal integer (an optional
/// `+` then at least one digit), or `None` when it is not one or exceeds 255.
pub open spec fn parse_byte(tok: Seq<char>) -> Option<u8> {
    let d = digits_of(tok);
    if d.len() > 0 && (forall|i: int| 0 <= i < d.len() ==> is_digit(d[i])) && decimal_value(d)
        <= 255 {
        Some(decimal_value(d) as u8)
    } else {
        None
    }
}

/// Reads `tok` as an unsigned decimal byte.
pub fn parse_byte_token(tok: &Vec<char>) -> (r: Option<u8>)
    ensures
        r == parse_byte(tok@),
{
    let n = tok.len();
    let mut start: usize = 0;
    if n > 0 && tok[0] == '+' {
        start = 1;
    }
    let ghost d = digits_of(tok@);
    assert(d =~= tok@.subrange(start as int, n as int));
    if start == n {
        return None;
    }
    // `acc` is the value of the digits read so far, capped at 256.
    let mut acc: u32 = 0;
    let mut i: usize = start;
    while i < n
        invariant
            start <= i <= n,
            n == tok.len(),
            d == tok@.subrange(start as int, n as int),
            d == digits_of(tok@),
            forall|k: int| 0 <= k < i - start ==> is_digit(d[k]),
            acc as int == if decimal_value(d.take(i - start)) < 256 {
                decimal_value(d.take(i - start))
            } else {
                256
            },
            decimal_value(d.take(i - start)) >= 0,
        decreases n - i,
    {
        let c = tok[i];
        if !('0' <= c && c <= '9') {
            assert(d[i - start] == c);
            assert(!(forall|k: int| 0 <= k < d.len() ==> is_digit(d[k])));
            return None;
        }
        let ghost j = i - start;
        assert(d.take(j + 1).drop_last() =~= d.take(j));
        let digit = (c as u32) - ('0' as u32);
        if acc * 10 + digit > 256 {
            acc = 256;
        } else {
            acc = acc * 10 + digit;
        }
        i += 1;
    }
    assert(d.take(n - start) =~= d);
    if acc <= 255 {
        Some(acc as u8)
    } else {
        None
    }
}

// ---------------------------------------------------------------------------
// Resolving tokens into keys
// ---------------------------------------------------------------------------

/// Why a token was replaced by a random key.
#[derive(Clone, Copy, Debug, PartialEq, Eq, Structural)]
pub enum Reason {
    /// The token is not a decimal byte.
    InvalidFormat,
    /// The token is the byte 0, which leaves data unchanged under XOR.
    ZeroValue,
}

/// A token that was replaced, and the key put in its place.
#[derive(Clone, Debug)]
pub struct Substitution {
    pub token: String,
    pub key: u8,
    pub reason: Reason,
}

impl View for Substitution {
    type V = (Seq<char>, u8, Reason);

    open spec fn view(&self) -> (Seq<char>, u8, Reason) {
        (self.token@, self.key, self.reason)
    }
}

/// The key sequence resolved from a key specification, and the report of
/// the tokens that were replaced, in token order.
#[derive(Clone, Debug)]
pub struct SanitizedKeys {
    pub keys: Vec<u8>,
    pub report: Vec<Substitution>,
}

/// The key that `tok` gives as it stands: its value when it is a non-zero byte.
pub open spec fn fixed_key(tok: Seq<char>) -> Option<u8> {
    match parse_byte(tok) {
        Some(v) => if v != 0 {
            Some(v)
        } else {
            None
        },
        None => None,
    }
}

/// Why `tok` is replaced, when it has no fixed key.
pub open spec fn reason_for(tok: Seq<char>) -> Reason {
    if parse_byte(tok) is None {
        Reason::InvalidFormat
    } else {
        Reason::ZeroValue
    }
}

/// The key for `tok` when `draw` is the random key at hand, and the report
/// entry that the token produces, if any.
pub open spec fn resolve(tok: Seq<char>, draw: u8) -> (u8, Option<(Seq<char>, u8, Reason)>) {
    match fixed_key(tok) {
        Some(v) => (v, None),
        None => (draw, Some((tok, draw, reason_for(tok)))),
    }
}

/// Whether `keys` is a resolution of `toks`: one non-zero key per token,
/// and each token with a fixed key resolved to that key.
pub open spec fn resolves(toks: Seq<Seq<char>>, keys: Seq<u8>) -> bool {
    &&& keys.len() == toks.len()
    &&& forall|i: int|
        0 <= i < toks.len() ==> #[trigger] keys[i] != 0 && (fixed_key(toks[i]) is Some
            ==> keys[i] == fixed_key(toks[i])->0)
}

/// The report entries of `toks` resolved to `keys`: one per token without a
/// fixed key, in token order.
pub open spec fn report_of(toks: Seq<Seq<char>>, keys: Seq<u8>) -> Seq<(Seq<char>, u8, Reason)>
    decreases toks.len(),
{
    if toks.len() == 0 {
        Seq::empty()
    } else {
        let n = toks.len() - 1;
        let prev = report_of(toks.drop_last(), keys);
        match resolve(toks[n], keys[n]).1 {
            Some(e) => prev.push(e),
            None => prev,
        }
    }
}

/// The views of a sequence of report entries.
pub open spec fn report_views(v: Seq<Substitution>) -> Seq<(Seq<char>, u8, Reason)> {
    Seq::new(v.len(), |i: int| v[i]@)
}

/// Relies on `rand::thread_rng().gen_range(lo..=hi)`: a value in the
/// inclusive range `lo..=hi`. `gen_range` panics only on an empty range,
/// which `lo <= hi` rules out; `thread_rng` panics only when the operating
/// system's entropy source fails, which no argument can cause.
#[verifier::external_body]
fn random_in(lo: u8, hi: u8) -> (r: u8)
    requires
        lo <= hi,
    ensures
        lo <= r <= hi,
{
    rand::thread_rng().gen_range(lo..=hi)
}

/// The characters of `s`, in order.
fn chars_of(s: &str) -> (r: Vec<char>)
    ensures
        r@ == s@,
{
    let mut r: Vec<char> = Vec::new();
    for c in it: s.chars()
        invariant
            r@ == it.seq().take(it.index() as int),
    {
        r.push(c);
    }
    r
}

/// Relies on `String`'s `FromIterator<&char>`: the string of the given characters.
#[verifier::external_body]
fn string_of(c: &Vec<char>) -> (r: String)
    ensures
        r@ == c@,
{
    c.iter().collect()
}

/// The key for `token` given the random key `draw`: the token's own value
/// when it is a non-zero byte, else `draw`, with a report entry that says why.
pub fn resolve_token(token: &Vec<char>, draw: u8) -> (r: (u8, Option<Substitution>))
    requires
        draw != 0,
    ensures
        r.0 == resolve(token@, draw).0,
        r.1 is Some <==> resolve(token@, draw).1 is Some,
        r.1 is Some ==> r.1->0@ == resolve(token@, draw).1->0,
{
    match parse_byte_token(token) {
        Some(v) => {
            if v != 0 {
                (v, None)
            } else {
                (draw, Some(Substitution { token: string_of(token), key: draw, reason: Reason::ZeroValue }))
            }
        },
        None => {
            (draw, Some(Substitution { token: string_of(token), key: draw, reason: Reason::InvalidFormat }))
        },
    }
}

/// Report entries depend only on the keys of the tokens they describe.
proof fn lemma_report_same_keys(toks: Seq<Seq<char>>, k1: Seq<u8>, k2: Seq<u8>)
    requires
        forall|j: int| 0 <= j < toks.len() ==> k1[j] == k2[j],
    ensures
        report_of(toks, k1) == report_of(toks, k2),
    decreases toks.len(),
{
    if toks.len() > 0 {
        lemma_report_same_keys(toks.drop_last(), k1, k2);
    }
}

/// Splits `key_string` on whitespace and resolves each token to a key: a
/// token that is a non-zero decimal byte keeps its value; any other token is
/// replaced by a random key in 1..=255 and recorded in the report, in token
/// order. Never fails; an empty or blank specification gives no keys.
pub fn process_key_string(key_string: &str) -> (r: SanitizedKeys)
    ensures
        resolves(tokens(key_string@), r.keys@),
        report_views(r.report@) == report_of(tokens(key_string@), r.keys@),
{
    let chars = chars_of(key_string);
    let toks = split_tokens(&chars);
    let ghost all = char_views(toks@);
    let mut keys: Vec<u8> = Vec::new();
    let mut report: Vec<Substitution> = Vec::new();
    let mut i: usize = 0;
    while i < toks.len()
        invariant
            i <= toks.len(),
            all == char_views(toks@),
            resolves(all.take(i as int), keys@),
            report_views(report@) == report_of(all.take(i as int), keys@),
        decreases toks.len() - i,
    {
        let draw = random_in(1, 255);
        let (key, entry) = resolve_token(&toks[i], draw);
        let ghost old_keys = keys@;
        let ghost old_report = report@;
        let ghost tok = all[i as int];
        assert(toks@[i as int]@ == tok);
        keys.push(key);
        proof {
            let next = all.take(i + 1);
            assert(next.drop_last() =~= all.take(i as int));
            lemma_report_same_keys(all.take(i as int), old_keys, keys@);
            assert(resolve(tok, key).1 == resolve(tok, draw).1);
        }
        match entry {
            Some(e) => {
                report.push(e);
                assert(report_views(report@) =~= report_views(old_report).push(e@));
            },
            None => {},
        }
        i += 1;
    }
    assert(all.take(toks.len() as int) =~= all);
    SanitizedKeys { keys, report }
}

// ---------------------------------------------------------------------------
// Laws
// ---------------------------------------------------------------------------

/// Every token without a fixed key has its entry in the report.
proof fn lemma_report_records(toks: Seq<Seq<char>>, keys: Seq<u8>, i: int)
    requires
        0 <= i < toks.len(),
        fixed_key(toks[i]) is None,
    ensures
        report_of(toks, keys).contains((toks[i], keys[i], reason_for(toks[i]))),
    decreases toks.len(),
{
    let n = toks.len() - 1;
    let e = (toks[i], keys[i], reason_for(toks[i]));
    let prev = report_of(toks.drop_last(), keys);
    if i == n {
        assert(report_of(toks, keys) == prev.push(e));
        assert(prev.push(e)[prev.len() as int] == e);
    } else {
        lemma_report_records(toks.drop_last(), keys, i);
        let j = choose|j: int| 0 <= j < prev.len() && prev[j] == e;
        match resolve(toks[n], keys[n]).1 {
            Some(x) => assert(prev.push(x)[j] == e),
            None => {},
        }
    }
}

/// A token that reads as the byte 0 never stays 0: its key is non-zero and
/// the report records it, with that key, as replaced for a zero value.
pub proof fn lemma_zero_token_replaced(spec: Seq<char>, keys: Seq<u8>, i: int)
    requires
        resolves(tokens(spec), keys),
        0 <= i < tokens(spec).len(),
        parse_byte(tokens(spec)[i]) == Some(0u8),
    ensures
        keys[i] != 0,
        report_of(tokens(spec), keys).contains((tokens(spec)[i], keys[i], Reason::ZeroValue)),
{
    lemma_report_records(tokens(spec), keys, i);
}

} // verus!
