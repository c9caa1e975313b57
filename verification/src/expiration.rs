//! How long a session may stay unused, and how that is configured.

use vstd::prelude::*;

verus! {

/// Default session expiration (2 hours).
pub const DEFAULT_SESSION_EXPIRATION_SECS: u64 = 7200;

/// Environment variable to override the session expiration (in seconds).
pub const SESSION_EXPIRATION_ENV: &'static str = "VLLM_ROUTER_SLL_SESSION_EXPIRATION_IN_S";

/// Minimum interval between full expiration sweeps to bound per-request cost.
pub const SWEEP_INTERVAL_SECS: u64 = 60;

/// Nanoseconds in a second; time points are counted in nanoseconds.
pub const NANOS_PER_SEC: u128 = 1_000_000_000;

/// Time from `earlier` to `now`, zero where `now` is not later.
pub open spec fn time_between(earlier: int, now: int) -> int {
    if earlier <= now {
        now - earlier
    } else {
        0
    }
}

/// At least `secs` seconds lie between `earlier` and `now`.
pub open spec fn has_elapsed(secs: int, earlier: int, now: int) -> bool {
    time_between(earlier, now) >= secs * NANOS_PER_SEC
}

/// Whether at least `secs` seconds lie between `earlier` and `now`.
pub fn elapsed(secs: u64, earlier: u128, now: u128) -> (result: bool)
    ensures
        result == has_elapsed(secs as int, earlier as int, now as int),
        result <==> now - earlier >= secs * 1_000_000_000 || secs == 0,
{
    let passed: u128 = if earlier <= now {
        now - earlier
    } else {
        0
    };
    passed >= secs as u128 * NANOS_PER_SEC
}

/// The characters with the Unicode property `White_Space`.
pub open spec fn is_white_space(c: char) -> bool {
    let code = c as u32;
    ||| 0x9 <= code <= 0xd
    ||| code == 0x20
    ||| code == 0x85
    ||| code == 0xa0
    ||| code == 0x1680
    ||| 0x2000 <= code <= 0x200a
    ||| code == 0x2028
    ||| code == 0x2029
    ||| code == 0x202f
    ||| code == 0x205f
    ||| code == 0x3000
}

/// `s` without its leading white space.
pub open spec fn trim_start(s: Seq<char>) -> Seq<char>
    decreases s.len(),
{
    if s.len() > 0 && is_white_space(s.first()) {
        trim_start(s.drop_first())
    } else {
        s
    }
}

/// `s` without its trailing white space.
pub open spec fn trim_end(s: Seq<char>) -> Seq<char>
    decreases s.len(),
{
    if s.len() > 0 && is_white_space(s.last()) {
        trim_end(s.drop_last())
    } else {
        s
    }
}

/// A decimal digit.
pub open spec fn is_digit(c: char) -> bool {
    '0' <= c <= '9'
}

/// The number that a sequence of decimal digits denotes.
pub open spec fn decimal_value(digits: Seq<char>) -> nat
    decreases digits.len(),
{
    if digits.len() == 0 {
        0
    } else {
        decimal_value(digits.drop_last()) * 10 + (digits.last() as nat - '0' as nat) as nat
    }
}

/// `s` without its leading plus sign, if it has one.
pub open spec fn without_plus(s: Seq<char>) -> Seq<char> {
    if s.len() > 0 && s.first() == '+' {
        s.drop_first()
    } else {
        s
    }
}

/// One or more decimal digits with a value below 2^64.
pub open spec fn is_u64_literal(digits: Seq<char>) -> bool {
    &&& digits.len() > 0
    &&& forall|i: int| 0 <= i < digits.len() ==> is_digit(#[trigger] digits[i])
    &&& decimal_value(digits) <= u64::MAX
}

/// The number that `s` denotes: an optional plus sign and one or more decimal digits, with a value
/// below 2^64.
pub open spec fn parsed_u64(s: Seq<char>) -> Option<u64> {
    if is_u64_literal(without_plus(s)) {
        Some(decimal_value(without_plus(s)) as u64)
    } else {
        None
    }
}

/// The session expiration that a value of [`SESSION_EXPIRATION_ENV`] stands for.
pub open spec fn configured_expiration(value: Option<Seq<char>>) -> u64 {
    match value {
        Some(text) => match parsed_u64(trim_end(trim_start(text))) {
            Some(secs) => secs,
            None => DEFAULT_SESSION_EXPIRATION_SECS,
        },
        None => DEFAULT_SESSION_EXPIRATION_SECS,
    }
}

/// A prefix of a digit sequence denotes no greater number.
proof fn lemma_decimal_value_prefix(digits: Seq<char>, n: int)
    requires
        0 <= n <= digits.len(),
    ensures
        decimal_value(digits.take(n)) <= decimal_value(digits),
    decreases digits.len(),
{
    if n == digits.len() {
        assert(digits.take(n) =~= digits);
    } else {
        assert(digits.drop_last().take(n) =~= digits.take(n));
        lemma_decimal_value_prefix(digits.drop_last(), n);
    }
}

/// The characters of a string.
fn chars_of(s: &str) -> (result: Vec<char>)
    ensures
        result@ == s@,
{
    let mut result: Vec<char> = Vec::new();
    for c in it: s.chars()
        invariant
            it.seq() == s@,
            result@ == s@.take(it.index() as int),
    {
        result.push(c);
    }
    assert(s@.take(s@.len() as int) =~= s@);
    result
}

/// Whether a character is white space.
fn white_space(c: char) -> (result: bool)
    ensures
        result == is_white_space(c),
{
    let code: u32 = c as u32;
    (0x9 <= code && code <= 0xd) || code == 0x20 || code == 0x85 || code == 0xa0 || code == 0x1680
        || (0x2000 <= code && code <= 0x200a) || code == 0x2028 || code == 0x2029 || code == 0x202f
        || code == 0x205f || code == 0x3000
}

/// The bounds of what is left of `text` without leading and trailing white space.
fn trim_bounds(text: &Vec<char>) -> (result: (usize, usize))
    ensures
        result.0 <= result.1 <= text@.len(),
        text@.subrange(result.0 as int, result.1 as int) == trim_end(trim_start(text@)),
{
    let mut start: usize = 0;
    assert(text@.subrange(0, text@.len() as int) =~= text@);
    while start < text.len() && white_space(text[start])
        invariant
            start <= text@.len(),
            trim_start(text@.subrange(start as int, text@.len() as int)) == trim_start(text@),
        decreases text@.len() - start,
    {
        proof {
            assert(text@.subrange(start as int, text@.len() as int).drop_first() =~= text@.subrange(
                start + 1,
                text@.len() as int,
            ));
        }
        start += 1;
    }
    let ghost left = trim_start(text@);
    assert(left == text@.subrange(start as int, text@.len() as int));
    let mut end: usize = text.len();
    while end > start && white_space(text[end - 1])
        invariant
            start <= end <= text@.len(),
            trim_end(text@.subrange(start as int, end as int)) == trim_end(left),
        decreases end,
    {
        proof {
            assert(text@.subrange(start as int, end as int).drop_last() =~= text@.subrange(
                start as int,
                end - 1,
            ));
        }
        end -= 1;
    }
    (start, end)
}

/// Parse `text` between two positions as an unsigned decimal number.
fn parse_u64(text: &Vec<char>, start: usize, end: usize) -> (result: Option<u64>)
    requires
        start <= end <= text@.len(),
    ensures
        result == parsed_u64(text@.subrange(start as int, end as int)),
{
    let ghost s = text@.subrange(start as int, end as int);
    let first: usize = if start < end && text[start] == '+' {
        start + 1
    } else {
        start
    };
    let ghost digits = text@.subrange(first as int, end as int);
    assert(digits =~= without_plus(s));
    if first == end {
        return None;
    }
    let mut value: u64 = 0;
    let mut i: usize = first;
    assert(digits.take(0) =~= Seq::<char>::empty());
    while i < end
        invariant
            first <= i <= end <= text@.len(),
            digits == text@.subrange(first as int, end as int),
            digits == without_plus(s),
            s == text@.subrange(start as int, end as int),
            forall|k: int| 0 <= k < i - first ==> is_digit(#[trigger] digits[k]),
            value == decimal_value(digits.take(i - first)),
        decreases end - i,
    {
        let c: char = text[i];
        assert(c == digits[i - first]);
        if c < '0' || '9' < c {
            return None;
        }
        let digit: u64 = c as u64 - '0' as u64;
        proof {
            let n = i - first;
            assert(digits.take(n + 1).drop_last() =~= digits.take(n));
            assert(decimal_value(digits.take(n + 1)) == value * 10 + digit);
            lemma_decimal_value_prefix(digits, n + 1);
        }
        if value > (u64::MAX - digit) / 10 {
            return None;
        }
        value = value * 10 + digit;
        i += 1;
    }
    assert(digits.take(digits.len() as int) =~= digits);
    Some(value)
}

/// The number of seconds that a value of [`SESSION_EXPIRATION_ENV`] spells out, white space around
/// it aside; `None` where it is no number.
pub fn parse_expiration_secs(text: &str) -> (result: Option<u64>)
    ensures
        result == parsed_u64(trim_end(trim_start(text@))),
{
    let chars = chars_of(text);
    let (start, end) = trim_bounds(&chars);
    parse_u64(&chars, start, end)
}

/// The session expiration in seconds, given the value of [`SESSION_EXPIRATION_ENV`] (`None` where
/// the variable is not set). Anything that is no number falls back to
/// [`DEFAULT_SESSION_EXPIRATION_SECS`].
pub fn expiration_secs_from_env(value: Option<&str>) -> (result: u64)
    ensures
        result == configured_expiration(
            match value {
                Some(text) => Some(text@),
                None => None,
            },
        ),
        value is None ==> result == 7200,
{
    match value {
        Some(text) => match parse_expiration_secs(text) {
            Some(secs) => secs,
            None => DEFAULT_SESSION_EXPIRATION_SECS,
        },
        None => DEFAULT_SESSION_EXPIRATION_SECS,
    }
}

} // verus!
