//! How the expiration setting spells a number: what every text means, stated from the number to
//! the text.

use vstd::prelude::*;

#[allow(unused_imports)]
use crate::expiration::{
    configured_expiration, decimal_value, is_digit, is_u64_literal, is_white_space, parsed_u64,
    trim_end, trim_start, without_plus,
};

verus! {

/// The decimal digit for a number below ten.
pub open spec fn digit_for(d: nat) -> char {
    seq!['0', '1', '2', '3', '4', '5', '6', '7', '8', '9'][d as int]
}

/// The decimal notation of a number, without leading zeros.
pub open spec fn decimal_notation(v: nat) -> Seq<char>
    decreases v,
{
    if v < 10 {
        seq![digit_for(v)]
    } else {
        decimal_notation(v / 10).push(digit_for(v % 10))
    }
}

/// A number of zeros.
pub open spec fn zeros(n: nat) -> Seq<char> {
    Seq::new(n, |i: int| '0')
}

/// Every character is white space.
pub open spec fn blank(s: Seq<char>) -> bool {
    forall|i: int| 0 <= i < s.len() ==> is_white_space(#[trigger] s[i])
}

/// `text` is the decimal notation of `v`, behind `n` leading zeros and possibly a plus sign, with
/// white space around it.
pub open spec fn spells(
    text: Seq<char>,
    before: Seq<char>,
    plus: bool,
    n: nat,
    v: nat,
    behind: Seq<char>,
) -> bool {
    &&& blank(before)
    &&& blank(behind)
    &&& text == before + ((if plus {
        seq!['+']
    } else {
        Seq::<char>::empty()
    }) + (zeros(n) + decimal_notation(v))) + behind
}

/// The white space characters are the 25 code points of the Unicode property.
pub proof fn law_white_space_code_points(c: char)
    ensures
        is_white_space(c) <==> seq![
            0x9u32, 0xa, 0xb, 0xc, 0xd, 0x20, 0x85, 0xa0, 0x1680, 0x2000, 0x2001, 0x2002, 0x2003,
            0x2004, 0x2005, 0x2006, 0x2007, 0x2008, 0x2009, 0x200a, 0x2028, 0x2029, 0x202f, 0x205f,
            0x3000,
        ].contains(c as u32),
{
    let codes = seq![
        0x9u32, 0xa, 0xb, 0xc, 0xd, 0x20, 0x85, 0xa0, 0x1680, 0x2000, 0x2001, 0x2002, 0x2003,
        0x2004, 0x2005, 0x2006, 0x2007, 0x2008, 0x2009, 0x200a, 0x2028, 0x2029, 0x202f, 0x205f,
        0x3000,
    ];
    let code = c as u32;
    if 0x9 <= code <= 0xd {
        assert(codes[code - 0x9] == code);
    }
    if 0x2000 <= code <= 0x200a {
        assert(codes[code - 0x2000 + 9] == code);
    }
    assert(codes[5] == 0x20 && codes[6] == 0x85 && codes[7] == 0xa0 && codes[8] == 0x1680);
    assert(codes[20] == 0x2028 && codes[21] == 0x2029 && codes[22] == 0x202f);
    assert(codes[23] == 0x205f && codes[24] == 0x3000);
}

/// A setting that spells a number configures that number of seconds, up to the largest that 64
/// bits hold; one that spells a greater number configures the default of two hours.
pub proof fn law_number_is_configured(
    text: Seq<char>,
    before: Seq<char>,
    plus: bool,
    n: nat,
    v: nat,
    behind: Seq<char>,
)
    requires
        spells(text, before, plus, n, v, behind),
    ensures
        v <= 0xffff_ffff_ffff_ffff ==> configured_expiration(Some(text)) == v,
        v > 0xffff_ffff_ffff_ffff ==> configured_expiration(Some(text)) == 7200,
        v <= 0xffff_ffff_ffff_ffff ==> parsed_u64(trim_end(trim_start(text))) == Some(v as u64),
        v > 0xffff_ffff_ffff_ffff ==> parsed_u64(trim_end(trim_start(text))) == None::<u64>,
{
    let digits = zeros(n) + decimal_notation(v);
    let sign = if plus {
        seq!['+']
    } else {
        Seq::<char>::empty()
    };
    let core = sign + digits;
    lemma_decimal_notation(v);
    lemma_leading_zeros(n, decimal_notation(v));
    assert forall|i: int| 0 <= i < digits.len() implies is_digit(#[trigger] digits[i]) by {
        if i >= n {
            assert(digits[i] == decimal_notation(v)[i - n]);
        }
    }
    assert(core.last() == digits.last());
    assert(is_digit(digits.last()));
    assert(is_digit(digits[0]));
    assert(core.first() == if plus {
        '+'
    } else {
        digits[0]
    });
    lemma_trim(before, core, behind);
    assert(without_plus(core) =~= digits);
}

/// A setting that is missing or spells no number configures the default of two hours: whatever
/// else comes out was spelled.
pub proof fn law_default_unless_spelled(text: Seq<char>)
    ensures
        configured_expiration(None) == 7200,
        configured_expiration(Some(text)) == 7200 || exists|
            before: Seq<char>,
            plus: bool,
            n: nat,
            behind: Seq<char>,
        | #[trigger]
            spells(text, before, plus, n, configured_expiration(Some(text)) as nat, behind),
        match parsed_u64(trim_end(trim_start(text))) {
            Some(v) => exists|before: Seq<char>, plus: bool, n: nat, behind: Seq<char>| #[trigger]
                spells(text, before, plus, n, v as nat, behind),
            None => true,
        },
{
    let core = trim_end(trim_start(text));
    if let Some(v) = parsed_u64(core) {
        lemma_trim_start_splits(text);
        lemma_trim_end_splits(trim_start(text));
        let before = text.take(text.len() - trim_start(text).len());
        let behind = trim_start(text).skip(core.len() as int);
        let digits = without_plus(core);
        let plus = core.len() > 0 && core.first() == '+';
        let sign = if plus {
            seq!['+']
        } else {
            Seq::<char>::empty()
        };
        let n = lemma_digits_are_notation(digits);
        assert(core =~= sign + digits);
        assert(text =~= before + (sign + (zeros(n) + decimal_notation(v as nat))) + behind);
        assert(spells(text, before, plus, n, v as nat, behind));
    }
}

/// One more digit makes a number ten times as great plus that digit.
pub proof fn law_digit_appended(text: Seq<char>, v: u64, d: nat)
    requires
        parsed_u64(text) == Some(v),
        d < 10,
    ensures
        10 * v + d <= 0xffff_ffff_ffff_ffff ==> parsed_u64(text.push(digit_for(d))) == Some(
            (10 * v + d) as u64,
        ),
        10 * v + d > 0xffff_ffff_ffff_ffff ==> parsed_u64(text.push(digit_for(d))) == None::<u64>,
{
    let digits = without_plus(text);
    let longer = without_plus(text.push(digit_for(d)));
    assert(text.len() > 0);
    assert(longer =~= digits.push(digit_for(d)));
    assert(longer.drop_last() =~= digits);
    assert forall|i: int| 0 <= i < longer.len() implies is_digit(#[trigger] longer[i]) by {
        if i < digits.len() {
            assert(longer[i] == digits[i]);
        }
    }
}

/// A decimal notation is made of digits and denotes its number.
proof fn lemma_decimal_notation(v: nat)
    ensures
        decimal_notation(v).len() > 0,
        forall|i: int|
            0 <= i < decimal_notation(v).len() ==> is_digit(#[trigger] decimal_notation(v)[i]),
        decimal_value(decimal_notation(v)) == v,
    decreases v,
{
    let s = decimal_notation(v);
    if v < 10 {
        assert(s.drop_last() =~= Seq::<char>::empty());
        assert(decimal_value(s.drop_last()) == 0);
    } else {
        lemma_decimal_notation(v / 10);
        assert(s.drop_last() =~= decimal_notation(v / 10));
    }
}

/// Leading zeros do not change what digits denote.
proof fn lemma_leading_zeros(n: nat, digits: Seq<char>)
    ensures
        decimal_value(zeros(n) + digits) == decimal_value(digits),
    decreases n + digits.len(),
{
    let s = zeros(n) + digits;
    if digits.len() > 0 {
        assert(s.drop_last() =~= zeros(n) + digits.drop_last());
        lemma_leading_zeros(n, digits.drop_last());
    } else if n > 0 {
        let m = (n - 1) as nat;
        assert(s.drop_last() =~= zeros(m) + digits);
        lemma_leading_zeros(m, digits);
        assert(s.last() == '0');
    } else {
        assert(s =~= digits);
    }
}

/// Digits are the decimal notation of what they denote, behind some zeros.
proof fn lemma_digits_are_notation(digits: Seq<char>) -> (n: nat)
    requires
        digits.len() > 0,
        forall|i: int| 0 <= i < digits.len() ==> is_digit(#[trigger] digits[i]),
    ensures
        digits == zeros(n) + decimal_notation(decimal_value(digits)),
    decreases digits.len(),
{
    let d = (digits.last() as nat - '0' as nat) as nat;
    assert(is_digit(digits[digits.len() - 1]));
    assert(digit_for(d) == digits.last());
    let rest = digits.drop_last();
    if rest.len() == 0 {
        assert(decimal_value(rest) == 0);
        assert(decimal_value(digits) == d);
        assert(digits =~= zeros(0) + decimal_notation(d));
        0
    } else {
        assert(forall|i: int| 0 <= i < rest.len() ==> #[trigger] rest[i] == digits[i]);
        let m = lemma_digits_are_notation(rest);
        let v = decimal_value(rest);
        assert(digits =~= rest.push(digit_for(d)));
        if v == 0 {
            assert(decimal_notation(0) == seq!['0']);
            assert(decimal_notation(d) == seq![digit_for(d)]);
            assert(rest =~= zeros(m + 1)) by {
                assert(rest == zeros(m) + seq!['0']);
            }
            assert(digits =~= zeros(m + 1) + decimal_notation(d));
            m + 1
        } else {
            let w = v * 10 + d;
            assert(w / 10 == v && w % 10 == d);
            assert(decimal_notation(w) == decimal_notation(v).push(digit_for(d)));
            assert(rest.push(digit_for(d)) =~= zeros(m) + decimal_notation(v).push(digit_for(d)));
            assert(digits =~= zeros(m) + decimal_notation(w));
            m
        }
    }
}

/// Trimming takes off exactly the white space around a core that neither starts nor ends with any.
proof fn lemma_trim(before: Seq<char>, core: Seq<char>, behind: Seq<char>)
    requires
        blank(before),
        blank(behind),
        core.len() > 0,
        !is_white_space(core.first()),
        !is_white_space(core.last()),
    ensures
        trim_end(trim_start(before + core + behind)) == core,
    decreases before.len() + behind.len(),
{
    let s = before + core + behind;
    if before.len() > 0 {
        let rest = before.drop_first();
        assert(s.first() == before[0]);
        assert(s.drop_first() =~= rest + core + behind);
        assert(forall|i: int| 0 <= i < rest.len() ==> #[trigger] rest[i] == before[i + 1]);
        lemma_trim(rest, core, behind);
    } else {
        assert(s =~= core + behind);
        assert(s.first() == core.first());
        lemma_trim_behind(core, behind);
    }
}

/// Trimming the end takes off exactly the white space behind the core.
proof fn lemma_trim_behind(core: Seq<char>, behind: Seq<char>)
    requires
        blank(behind),
        core.len() > 0,
        !is_white_space(core.last()),
    ensures
        trim_end(core + behind) == core,
    decreases behind.len(),
{
    let s = core + behind;
    if behind.len() > 0 {
        let rest = behind.drop_last();
        assert(s.last() == behind[behind.len() - 1]);
        assert(s.drop_last() =~= core + rest);
        assert(forall|i: int| 0 <= i < rest.len() ==> #[trigger] rest[i] == behind[i]);
        lemma_trim_behind(core, rest);
    } else {
        assert(s =~= core);
    }
}

/// What trimming the start takes off is white space.
proof fn lemma_trim_start_splits(s: Seq<char>)
    ensures
        trim_start(s).len() <= s.len(),
        blank(s.take(s.len() - trim_start(s).len())),
        s == s.take(s.len() - trim_start(s).len()) + trim_start(s),
    decreases s.len(),
{
    if s.len() > 0 && is_white_space(s.first()) {
        let rest = s.drop_first();
        lemma_trim_start_splits(rest);
        let taken = s.take(s.len() - trim_start(s).len());
        let taken_rest = rest.take(rest.len() - trim_start(rest).len());
        assert forall|i: int| 0 <= i < taken.len() implies is_white_space(#[trigger] taken[i]) by {
            if i > 0 {
                assert(taken[i] == taken_rest[i - 1]);
            }
        }
        assert(taken =~= seq![s.first()] + taken_rest);
        assert(s =~= seq![s.first()] + rest);
        assert(s =~= taken + trim_start(s));
    } else {
        assert(s =~= s.take(0) + s);
    }
}

/// What trimming the end takes off is white space.
proof fn lemma_trim_end_splits(s: Seq<char>)
    ensures
        trim_end(s).len() <= s.len(),
        blank(s.skip(trim_end(s).len() as int)),
        s == trim_end(s) + s.skip(trim_end(s).len() as int),
    decreases s.len(),
{
    if s.len() > 0 && is_white_space(s.last()) {
        let rest = s.drop_last();
        lemma_trim_end_splits(rest);
        let n = trim_end(s).len() as int;
        let gone = s.skip(n);
        assert forall|i: int| 0 <= i < gone.len() implies is_white_space(#[trigger] gone[i]) by {
            if i < gone.len() - 1 {
                assert(gone[i] == rest.skip(n)[i]);
            }
        }
        assert(rest =~= trim_end(s) + rest.skip(n));
        assert forall|i: int| 0 <= i < s.len() implies s[i] == (trim_end(s) + gone)[i] by {
            if i < n {
                assert(rest[i] == (trim_end(s) + rest.skip(n))[i]);
            }
        }
        assert(s =~= trim_end(s) + gone);
    } else {
        assert(s =~= s + s.skip(s.len() as int));
    }
}

} // verus!
