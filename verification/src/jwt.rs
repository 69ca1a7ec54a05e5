use vstd::prelude::*;
use crate::text::{chars_of, string_from_chars};

verus! {

/// What a session token carries: the user it was issued to and when it expires
/// (seconds since the Unix epoch).
pub struct Claims {
    pub user_id: i32,
    exp: usize,
}

/// A verified session token.
pub struct JWT {
    pub claims: Claims,
}

/// How long a session token lasts: 26 weeks (26 × 7 × 24 × 3600 seconds).
pub open spec fn token_lifetime() -> int {
    15_724_800
}

/// Times (seconds since the Unix epoch) that chrono represents together with the
/// time 26 weeks later: chrono's dates run from January 1 of year -262143 to
/// December 31 of year 262142 (`NaiveDate::MIN`, `NaiveDate::MAX`), which these
/// 8 × 10^12 seconds (about 253,500 years) on either side of 1970 stay well inside.
pub open spec fn representable_time(now: int) -> bool {
    -8_000_000_000_000 <= now <= 8_000_000_000_000
}

/// The time `now` plus 26 weeks, in seconds since the Unix epoch (chrono's
/// `DateTime::from_timestamp`, `checked_add_signed` of `Duration::weeks(26)`,
/// `timestamp`). It is `Some` for every representable time (see
/// `representable_time`); `None` only when chrono cannot represent either date,
/// and where exactly that range ends is left unsaid.
#[verifier::external_body]
fn half_year_later(now: i64) -> (later: Option<i64>)
    ensures
        later matches Some(t) ==> t == now + token_lifetime(),
        representable_time(now as int) ==> later is Some,
{
    match chrono::DateTime::from_timestamp(now, 0) {
        Some(start) => match start.checked_add_signed(chrono::Duration::weeks(26)) {
            Some(end) => Some(end.timestamp()),
            None => None,
        },
        None => None,
    }
}

impl Claims {
    /// Claims for `user_id` that expire at `exp`.
    pub fn new(user_id: i32, exp: usize) -> (c: Claims)
        ensures
            c.user() == user_id,
            c.exp() == exp,
    {
        Claims { user_id, exp }
    }

    /// When the claims expire, in seconds since the Unix epoch.
    pub closed spec fn exp(&self) -> usize {
        self.exp
    }

    /// The user the claims were issued to.
    pub closed spec fn user(&self) -> i32 {
        self.user_id
    }

    /// When the claims expire, in seconds since the Unix epoch.
    pub fn expiration(&self) -> (e: usize)
        ensures
            e == self.exp(),
    {
        self.exp
    }

    /// The claims of a token issued to `user_id` at time `now` (seconds since the
    /// Unix epoch): they expire 26 weeks later (the time as a `usize`). They exist
    /// for every representable time; `None` only when chrono cannot represent that date.
    pub fn issued_at(user_id: i32, now: i64) -> (c: Option<Claims>)
        ensures
            c matches Some(claims) ==> claims.user() == user_id && claims.exp() == (now + token_lifetime()) as usize,
            representable_time(now as int) ==> c is Some,
    {
        match half_year_later(now) {
            Some(t) => Some(Claims { user_id, exp: t as usize }),
            None => None,
        }
    }
}

/// Whether `c` has the Unicode `White_Space` property (what `char::is_whitespace` tests).
pub open spec fn is_white_space(c: char) -> bool {
    ||| '\u{9}' <= c <= '\u{d}'
    ||| c == ' '
    ||| c == '\u{85}'
    ||| c == '\u{a0}'
    ||| c == '\u{1680}'
    ||| '\u{2000}' <= c <= '\u{200a}'
    ||| c == '\u{2028}'
    ||| c == '\u{2029}'
    ||| c == '\u{202f}'
    ||| c == '\u{205f}'
    ||| c == '\u{3000}'
}

/// Whether `c` has the Unicode `White_Space` property.
pub fn white_space(c: char) -> (b: bool)
    ensures
        b == is_white_space(c),
{
    ('\u{9}' <= c && c <= '\u{d}') || c == ' ' || c == '\u{85}' || c == '\u{a0}' || c == '\u{1680}'
        || ('\u{2000}' <= c && c <= '\u{200a}') || c == '\u{2028}' || c == '\u{2029}' || c == '\u{202f}'
        || c == '\u{205f}' || c == '\u{3000}'
}

/// The word `Bearer`.
pub open spec fn bearer_word() -> Seq<char> {
    seq!['B', 'e', 'a', 'r', 'e', 'r']
}

/// `s` with every leading occurrence of `Bearer` removed.
pub open spec fn strip_bearer_words(s: Seq<char>) -> Seq<char>
    decreases s.len(),
{
    if s.len() >= 6 && s.take(6) == bearer_word() {
        strip_bearer_words(s.skip(6))
    } else {
        s
    }
}

/// `s` without its leading white space.
pub open spec fn trim_start_white(s: Seq<char>) -> Seq<char>
    decreases s.len(),
{
    if s.len() > 0 && is_white_space(s[0]) {
        trim_start_white(s.skip(1))
    } else {
        s
    }
}

/// `s` without its trailing white space.
pub open spec fn trim_end_white(s: Seq<char>) -> Seq<char>
    decreases s.len(),
{
    if s.len() > 0 && is_white_space(s.last()) {
        trim_end_white(s.drop_last())
    } else {
        s
    }
}

/// The token of an `authorization` header: the header without its leading
/// `Bearer` words, then without white space at either end.
pub open spec fn bearer_token_of(header: Seq<char>) -> Seq<char> {
    trim_end_white(trim_start_white(strip_bearer_words(header)))
}

proof fn lemma_trim_start_shape(s: Seq<char>)
    ensures
        trim_start_white(s).len() > 0 ==> !is_white_space(trim_start_white(s)[0]),
    decreases s.len(),
{
    if s.len() > 0 && is_white_space(s[0]) {
        lemma_trim_start_shape(s.skip(1));
    }
}

proof fn lemma_trim_end_shape(s: Seq<char>)
    ensures
        trim_end_white(s).len() <= s.len(),
        trim_end_white(s) == s.take(trim_end_white(s).len() as int),
        trim_end_white(s).len() > 0 ==> !is_white_space(trim_end_white(s).last()),
    decreases s.len(),
{
    if s.len() > 0 && is_white_space(s.last()) {
        lemma_trim_end_shape(s.drop_last());
        let t = trim_end_white(s.drop_last());
        assert(s.drop_last().take(t.len() as int) =~= s.take(t.len() as int));
    } else {
        assert(s.take(s.len() as int) =~= s);
    }
}

/// A bearer token has no white space at either end.
pub proof fn lemma_bearer_token_trimmed(header: Seq<char>)
    ensures
        bearer_token_of(header).len() > 0 ==> {
            &&& !is_white_space(bearer_token_of(header)[0])
            &&& !is_white_space(bearer_token_of(header).last())
        },
{
    let started = trim_start_white(strip_bearer_words(header));
    lemma_trim_start_shape(strip_bearer_words(header));
    lemma_trim_end_shape(started);
    let t = trim_end_white(started);
    if t.len() > 0 {
        assert(t[0] == started.take(t.len() as int)[0]);
    }
}

/// Every character of `w` is white space.
pub open spec fn all_white(w: Seq<char>) -> bool {
    forall|i: int| 0 <= i < w.len() ==> is_white_space(#[trigger] w[i])
}

proof fn lemma_trim_start_white_prefix(w: Seq<char>, x: Seq<char>)
    requires
        all_white(w),
        x.len() > 0,
        !is_white_space(x[0]),
    ensures
        trim_start_white(w + x) == x,
    decreases w.len(),
{
    if w.len() == 0 {
        assert(w + x =~= x);
    } else {
        assert((w + x)[0] == w[0]);
        assert((w + x).skip(1) =~= w.skip(1) + x);
        assert(all_white(w.skip(1))) by {
            assert forall|i: int| 0 <= i < w.skip(1).len() implies is_white_space(#[trigger] w.skip(1)[i]) by {
                assert(w.skip(1)[i] == w[i + 1]);
            }
        }
        lemma_trim_start_white_prefix(w.skip(1), x);
    }
}

proof fn lemma_trim_end_white_suffix(x: Seq<char>, w: Seq<char>)
    requires
        all_white(w),
        x.len() > 0,
        !is_white_space(x.last()),
    ensures
        trim_end_white(x + w) == x,
    decreases w.len(),
{
    if w.len() == 0 {
        assert(x + w =~= x);
    } else {
        assert((x + w).last() == w.last());
        assert(is_white_space(w[w.len() - 1]));
        assert((x + w).drop_last() =~= x + w.drop_last());
        assert(all_white(w.drop_last())) by {
            assert forall|i: int| 0 <= i < w.drop_last().len() implies is_white_space(#[trigger] w.drop_last()[i]) by {
                assert(w.drop_last()[i] == w[i]);
            }
        }
        lemma_trim_end_white_suffix(x, w.drop_last());
    }
}

/// A header made of the word `Bearer`, white space, a token without white space
/// at its ends, and white space gives back that token.
pub proof fn lemma_bearer_token_round_trip(w1: Seq<char>, token: Seq<char>, w2: Seq<char>)
    requires
        w1.len() > 0,
        all_white(w1),
        all_white(w2),
        token.len() > 0,
        !is_white_space(token[0]),
        !is_white_space(token.last()),
    ensures
        bearer_token_of(bearer_word() + w1 + token + w2) == token,
{
    let h = bearer_word() + w1 + token + w2;
    let rest = w1 + (token + w2);
    assert(h.take(6) =~= bearer_word());
    assert(h.skip(6) =~= rest);
    assert(rest[0] == w1[0]);
    assert(is_white_space(w1[0]));
    assert(!(rest.len() >= 6 && rest.take(6) == bearer_word())) by {
        if rest.len() >= 6 && rest.take(6) == bearer_word() {
            assert(rest.take(6)[0] == rest[0]);
            assert(bearer_word()[0] == 'B');
        }
    }
    assert(strip_bearer_words(rest) == rest);
    assert(strip_bearer_words(h) == rest);
    assert((token + w2)[0] == token[0]);
    lemma_trim_start_white_prefix(w1, token + w2);
    lemma_trim_end_white_suffix(token, w2);
}

fn starts_with_bearer(chars: &Vec<char>, at: usize) -> (b: bool)
    requires
        at <= chars.len(),
    ensures
        b == (chars@.skip(at as int).len() >= 6 && chars@.skip(at as int).take(6) == bearer_word()),
{
    let ghost rest = chars@.skip(at as int);
    if chars.len() - at < 6 {
        return false;
    }
    let b = chars[at] == 'B' && chars[at + 1] == 'e' && chars[at + 2] == 'a' && chars[at + 3] == 'r'
        && chars[at + 4] == 'e' && chars[at + 5] == 'r';
    if b {
        assert(rest.take(6) =~= bearer_word());
    } else {
        assert(rest.take(6) != bearer_word()) by {
            if rest.take(6) == bearer_word() {
                assert(rest.take(6)[0] == 'B' && rest.take(6)[1] == 'e' && rest.take(6)[2] == 'a');
                assert(rest.take(6)[3] == 'r' && rest.take(6)[4] == 'e' && rest.take(6)[5] == 'r');
            }
        }
    }
    b
}

/// The token carried by an `authorization` header: without the leading `Bearer`
/// words and the white space around it.
pub fn bearer_token(header: &str) -> (token: String)
    ensures
        token@ == bearer_token_of(header@),
{
    let chars = chars_of(header);
    let ghost s = chars@;
    let mut start: usize = 0;
    assert(s.skip(0) =~= s);
    while starts_with_bearer(&chars, start)
        invariant
            start <= chars.len(),
            s == chars@,
            strip_bearer_words(s) == strip_bearer_words(s.skip(start as int)),
        decreases chars.len() - start,
    {
        assert(s.skip(start as int).skip(6) =~= s.skip(start as int + 6));
        start = start + 6;
    }
    let mut a: usize = start;
    while a < chars.len() && white_space(chars[a])
        invariant
            start <= a <= chars.len(),
            s == chars@,
            trim_start_white(strip_bearer_words(s)) == trim_start_white(s.skip(a as int)),
        decreases chars.len() - a,
    {
        assert(s.skip(a as int).skip(1) =~= s.skip(a as int + 1));
        a = a + 1;
    }
    assert(s.skip(a as int) =~= s.subrange(a as int, s.len() as int));
    let mut b: usize = chars.len();
    while b > a && white_space(chars[b - 1])
        invariant
            a <= b <= chars.len(),
            s == chars@,
            bearer_token_of(s) == trim_end_white(s.subrange(a as int, b as int)),
        decreases b,
    {
        assert(s.subrange(a as int, b as int).drop_last() =~= s.subrange(a as int, b as int - 1));
        b = b - 1;
    }
    let mut kept: Vec<char> = Vec::new();
    let mut i: usize = a;
    while i < b
        invariant
            a <= i <= b <= chars.len(),
            s == chars@,
            kept@ == s.subrange(a as int, i as int),
        decreases b - i,
    {
        kept.push(chars[i]);
        assert(s.subrange(a as int, i as int + 1) =~= s.subrange(a as int, i as int).push(s[i as int]));
        i = i + 1;
    }
    string_from_chars(&kept)
}

} // verus!
