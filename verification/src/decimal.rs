//! Decimal text for fixed-point amounts.
//!
//! An amount is a `u64` scaled by 10,000, i.e. four decimal digits after the
//! dot.  This module owns the textual side: parsing decimal text into the
//! scaled integer and rendering the scaled integer back as text with exactly
//! four, zero-padded, fractional digits.

use vstd::prelude::*;
use vstd::string::StringExecFns;

use crate::types::LedgerError;

verus! {

/// Amounts carry four decimal digits: a scaled value is the numeric value
/// multiplied by this constant.
pub const DECIMAL_MULTIPLIER: u64 = 10000;

/// A decimal digit character.
pub open spec fn is_dec_digit(c: char) -> bool {
    48 <= c as u32 && c as u32 <= 57
}

/// The numeric value of a decimal digit character.
pub open spec fn digit_val(c: char) -> nat {
    (c as u32 - 48) as nat
}

/// The character of a decimal digit value below ten.
pub open spec fn digit_char(d: nat) -> char {
    if d == 0 {
        '0'
    } else if d == 1 {
        '1'
    } else if d == 2 {
        '2'
    } else if d == 3 {
        '3'
    } else if d == 4 {
        '4'
    } else if d == 5 {
        '5'
    } else if d == 6 {
        '6'
    } else if d == 7 {
        '7'
    } else if d == 8 {
        '8'
    } else {
        '9'
    }
}

/// Every character of `s` is a decimal digit.
pub open spec fn all_digits(s: Seq<char>) -> bool {
    forall|i: int| 0 <= i < s.len() ==> is_dec_digit(#[trigger] s[i])
}

/// The value of a digit string read in base ten.
pub open spec fn digits_value(s: Seq<char>) -> nat
    decreases s.len(),
{
    if s.len() == 0 {
        0
    } else {
        digits_value(s.drop_last()) * 10 + digit_val(s.last())
    }
}

/// The canonical decimal digits of `n`: no leading zero except for zero itself.
pub open spec fn dec_digits(n: nat) -> Seq<char>
    decreases n,
{
    if n < 10 {
        seq![digit_char(n)]
    } else {
        dec_digits(n / 10).push(digit_char(n % 10))
    }
}

/// Ten to the `k`.
pub open spec fn pow10(k: nat) -> nat
    decreases k,
{
    if k == 0 {
        1
    } else {
        10 * pow10((k - 1) as nat)
    }
}

/// The four zero-padded fractional digits of a value below 10,000.
pub open spec fn frac_digits(f: nat) -> Seq<char> {
    seq![
        digit_char(f / 1000),
        digit_char((f / 100) % 10),
        digit_char((f / 10) % 10),
        digit_char(f % 10),
    ]
}

/// The text of a scaled amount: the integer part, a dot, and exactly four
/// fractional digits.
pub open spec fn amount_text(v: u64) -> Seq<char> {
    dec_digits((v / 10000) as nat) + seq!['.'] + frac_digits((v % 10000) as nat)
}

/// The index of the first dot of `s`, if any.
pub open spec fn first_dot(s: Seq<char>) -> Option<int>
    decreases s.len(),
{
    if s.len() == 0 {
        None
    } else if s[0] == '.' {
        Some(0)
    } else {
        match first_dot(s.drop_first()) {
            Some(d) => Some(d + 1),
            None => None,
        }
    }
}

/// Acceptable amount text: digits, or digits, one dot, and one to four
/// further digits.  Text where the dot comes first or last, where more than
/// four digits follow the dot, or with any non-digit elsewhere is rejected.
pub open spec fn valid_amount_text(s: Seq<char>) -> bool {
    match first_dot(s) {
        None => s.len() > 0 && all_digits(s),
        Some(d) => {
            &&& 1 <= d
            &&& d + 2 <= s.len()
            &&& s.len() - d - 1 <= 4
            &&& all_digits(s.subrange(0, d))
            &&& all_digits(s.subrange(d + 1, s.len() as int))
        },
    }
}

/// The scaled value of acceptable amount text: the integer part times 10,000
/// plus the fractional digits scaled up to fill four digit positions.
pub open spec fn text_value(s: Seq<char>) -> nat {
    match first_dot(s) {
        None => digits_value(s) * 10000,
        Some(d) => {
            let frac = s.subrange(d + 1, s.len() as int);
            digits_value(s.subrange(0, d)) * 10000 + digits_value(frac) * pow10(
                (4 - frac.len()) as nat,
            )
        },
    }
}

/// Parsing succeeds exactly on acceptable text whose scaled value fits.
pub open spec fn parses(s: Seq<char>) -> bool {
    valid_amount_text(s) && text_value(s) <= u64::MAX
}

proof fn lemma_first_dot_none(s: Seq<char>)
    requires
        forall|j: int| 0 <= j < s.len() ==> s[j] != '.',
    ensures
        first_dot(s) is None,
    decreases s.len(),
{
    if s.len() > 0 {
        lemma_first_dot_none(s.drop_first());
    }
}

proof fn lemma_first_dot_at(s: Seq<char>, d: int)
    requires
        0 <= d < s.len(),
        s[d] == '.',
        forall|j: int| 0 <= j < d ==> s[j] != '.',
    ensures
        first_dot(s) == Some(d),
    decreases d,
{
    if d > 0 {
        lemma_first_dot_at(s.drop_first(), d - 1);
    }
}

proof fn lemma_digits_value_take_le(s: Seq<char>, i: int)
    requires
        0 <= i <= s.len(),
    ensures
        digits_value(s.take(i)) <= digits_value(s),
    decreases s.len(),
{
    if i < s.len() {
        assert(s.drop_last().take(i) =~= s.take(i));
        lemma_digits_value_take_le(s.drop_last(), i);
    } else {
        assert(s.take(i) =~= s);
    }
}

proof fn lemma_digit_char_val(d: nat)
    requires
        d < 10,
    ensures
        is_dec_digit(digit_char(d)),
        digit_val(digit_char(d)) == d,
        digit_char(d) != '.',
{
}

proof fn lemma_dec_digits_props(n: nat)
    ensures
        dec_digits(n).len() >= 1,
        all_digits(dec_digits(n)),
        digits_value(dec_digits(n)) == n,
    decreases n,
{
    reveal_with_fuel(digits_value, 3);
    if n < 10 {
        lemma_digit_char_val(n);
        let s = seq![digit_char(n)];
        assert(dec_digits(n) == s);
        assert(s.drop_last() =~= Seq::<char>::empty());
        assert(digits_value(s) == digit_val(digit_char(n)));
    } else {
        lemma_dec_digits_props(n / 10);
        lemma_digit_char_val(n % 10);
        let s = dec_digits(n / 10).push(digit_char(n % 10));
        assert(s.drop_last() =~= dec_digits(n / 10));
        assert(digits_value(s) == (n / 10) * 10 + n % 10);
    }
}

proof fn lemma_digits_value_four(a: char, b: char, c: char, d: char)
    ensures
        digits_value(seq![a, b, c, d]) == ((digit_val(a) * 10 + digit_val(b)) * 10 + digit_val(c))
            * 10 + digit_val(d),
{
    reveal_with_fuel(digits_value, 6);
    let s = seq![a, b, c, d];
    assert(s.drop_last() =~= seq![a, b, c]);
    assert(seq![a, b, c].drop_last() =~= seq![a, b]);
    assert(seq![a, b].drop_last() =~= seq![a]);
    assert(seq![a].drop_last() =~= Seq::<char>::empty());
}

/// Splitting off the decimal digit above divisor `k`:
/// `f mod (k 10) = k ((f div k) mod 10) + f mod k`.
proof fn lemma_split_digit(f: int, k: int)
    requires
        0 <= f,
        1 <= k,
    ensures
        f % (k * 10) == k * ((f / k) % 10) + f % k,
{
    vstd::arithmetic::div_mod::lemma_breakdown(f, k, 10);
}

proof fn lemma_frac_digits_value(f: nat)
    requires
        f < 10000,
    ensures
        all_digits(frac_digits(f)),
        digits_value(frac_digits(f)) == f,
{
    let d3 = f / 1000;
    let d2 = (f / 100) % 10;
    let d1 = (f / 10) % 10;
    let d0 = f % 10;
    lemma_digit_char_val(d3);
    lemma_digit_char_val(d2);
    lemma_digit_char_val(d1);
    lemma_digit_char_val(d0);
    lemma_digits_value_four(digit_char(d3), digit_char(d2), digit_char(d1), digit_char(d0));
    assert(frac_digits(f) == seq![
        digit_char(d3),
        digit_char(d2),
        digit_char(d1),
        digit_char(d0),
    ]);
    assert(f % 10000 == 1000 * ((f / 1000) % 10) + f % 1000) by {
        lemma_split_digit(f as int, 1000);
    };
    assert(f % 1000 == 100 * ((f / 100) % 10) + f % 100) by {
        lemma_split_digit(f as int, 100);
    };
    assert(f % 100 == 10 * ((f / 10) % 10) + f % 10) by {
        lemma_split_digit(f as int, 10);
    };
    assert(f % 10000 == f);
    assert((f / 1000) % 10 == f / 1000);
    assert(digits_value(frac_digits(f)) == ((d3 * 10 + d2) * 10 + d1) * 10 + d0);
}

/// Rendering an amount and reading the text back is the identity: the text is
/// acceptable and its scaled value is the amount itself.
pub proof fn lemma_format_round_trip(v: u64)
    ensures
        valid_amount_text(amount_text(v)),
        text_value(amount_text(v)) == v,
{
    let q = (v / 10000) as nat;
    let f = (v % 10000) as nat;
    let ds = dec_digits(q);
    let fs = frac_digits(f);
    let s = amount_text(v);
    lemma_dec_digits_props(q);
    lemma_frac_digits_value(f);
    let d = ds.len() as int;
    assert(s[d] == '.');
    assert(forall|j: int| 0 <= j < d ==> s[j] == ds[j] && is_dec_digit(#[trigger] s[j]));
    assert(forall|j: int| 0 <= j < d ==> s[j] != '.');
    lemma_first_dot_at(s, d);
    assert(s.subrange(0, d) =~= ds);
    let frac = s.subrange(d + 1, s.len() as int);
    assert(frac =~= fs);
    assert(pow10((4 - frac.len()) as nat) == 1);
    assert(digits_value(frac) * pow10((4 - frac.len()) as nat) == digits_value(frac) * 1);
    assert(text_value(s) == q * 10000 + f);
}

fn digit_str(d: u64) -> (r: &'static str)
    requires
        d < 10,
    ensures
        r@ == seq![digit_char(d as nat)],
{
    if d == 0 {
        proof {
            reveal_strlit("0");
            assert("0"@ =~= seq![digit_char(0nat)]);
        }
        "0"
    } else if d == 1 {
        proof {
            reveal_strlit("1");
            assert("1"@ =~= seq![digit_char(1nat)]);
        }
        "1"
    } else if d == 2 {
        proof {
            reveal_strlit("2");
            assert("2"@ =~= seq![digit_char(2nat)]);
        }
        "2"
    } else if d == 3 {
        proof {
            reveal_strlit("3");
            assert("3"@ =~= seq![digit_char(3nat)]);
        }
        "3"
    } else if d == 4 {
        proof {
            reveal_strlit("4");
            assert("4"@ =~= seq![digit_char(4nat)]);
        }
        "4"
    } else if d == 5 {
        proof {
            reveal_strlit("5");
            assert("5"@ =~= seq![digit_char(5nat)]);
        }
        "5"
    } else if d == 6 {
        proof {
            reveal_strlit("6");
            assert("6"@ =~= seq![digit_char(6nat)]);
        }
        "6"
    } else if d == 7 {
        proof {
            reveal_strlit("7");
            assert("7"@ =~= seq![digit_char(7nat)]);
        }
        "7"
    } else if d == 8 {
        proof {
            reveal_strlit("8");
            assert("8"@ =~= seq![digit_char(8nat)]);
        }
        "8"
    } else {
        proof {
            reveal_strlit("9");
            assert("9"@ =~= seq![digit_char(9nat)]);
        }
        "9"
    }
}

/// Renders an unscaled integer as plain decimal text.
pub(crate) fn dec_string(n: u64) -> (r: String)
    ensures
        r@ == dec_digits(n as nat),
    decreases n,
{
    if n < 10 {
        String::from_str(digit_str(n))
    } else {
        let mut s = dec_string(n / 10);
        s.append(digit_str(n % 10));
        proof {
            assert(s@ =~= dec_digits((n / 10) as nat).push(digit_char((n % 10) as nat)));
        }
        s
    }
}

/// Renders a scaled value as decimal text with exactly four, zero-padded,
/// digits after the dot.
pub fn u64_to_string(input: u64) -> (r: String)
    ensures
        r@ == amount_text(input),
{
    let int_part = input / DECIMAL_MULTIPLIER;
    let frac = input % DECIMAL_MULTIPLIER;
    let mut s = dec_string(int_part);
    proof {
        reveal_strlit(".");
    }
    s.append(".");
    s.append(digit_str(frac / 1000));
    s.append(digit_str((frac / 100) % 10));
    s.append(digit_str((frac / 10) % 10));
    s.append(digit_str(frac % 10));
    proof {
        assert(s@ =~= amount_text(input));
    }
    s
}

fn find_first_dot(s: &str) -> (r: Option<usize>)
    ensures
        match r {
            Some(d) => d < s@.len() && s@[d as int] == '.' && first_dot(s@) == Some(d as int),
            None => first_dot(s@) is None,
        },
{
    let n = s.unicode_len();
    let mut i: usize = 0;
    while i < n
        invariant
            i <= n == s@.len(),
            forall|j: int| 0 <= j < i ==> s@[j] != '.',
        decreases n - i,
    {
        let c = s.get_char(i);
        if c == '.' {
            proof {
                lemma_first_dot_at(s@, i as int);
            }
            return Some(i);
        }
        i += 1;
    }
    proof {
        lemma_first_dot_none(s@);
    }
    None
}

fn parse_digits(s: &str, from: usize, to: usize) -> (r: Option<u64>)
    requires
        from <= to <= s@.len(),
    ensures
        ({
            let sub = s@.subrange(from as int, to as int);
            match r {
                Some(v) => all_digits(sub) && digits_value(sub) <= u64::MAX && v == digits_value(
                    sub,
                ),
                None => !(all_digits(sub) && digits_value(sub) <= u64::MAX),
            }
        }),
{
    let ghost sub = s@.subrange(from as int, to as int);
    let mut acc: u64 = 0;
    let mut i: usize = from;
    while i < to
        invariant
            from <= i <= to <= s@.len(),
            sub == s@.subrange(from as int, to as int),
            all_digits(s@.subrange(from as int, i as int)),
            acc == digits_value(s@.subrange(from as int, i as int)),
        decreases to - i,
    {
        let c = s.get_char(i);
        let u = c as u32;
        if u < 48 || u > 57 {
            proof {
                assert(sub[i - from] == s@[i as int]);
                assert(!is_dec_digit(sub[i - from]));
            }
            return None;
        }
        let d = (u - 48) as u64;
        let ghost prefix = s@.subrange(from as int, i as int);
        let ghost extended = s@.subrange(from as int, i + 1);
        proof {
            assert(extended.drop_last() =~= prefix);
            assert(extended.last() == s@[i as int]);
            assert(digits_value(extended) == acc * 10 + d);
        }
        let next = match acc.checked_mul(10) {
            Some(x) => x.checked_add(d),
            None => None,
        };
        match next {
            Some(x) => {
                acc = x;
                i += 1;
            },
            None => {
                proof {
                    assert(digits_value(extended) > u64::MAX);
                    if all_digits(sub) {
                        assert(sub.take(i + 1 - from) =~= extended);
                        lemma_digits_value_take_le(sub, i + 1 - from);
                    }
                }
                return None;
            },
        }
    }
    proof {
        assert(s@.subrange(from as int, i as int) =~= sub);
    }
    Some(acc)
}

/// Parses decimal text into a scaled value: the integer part times 10,000
/// plus the fractional digits scaled up to four digit positions.  Fails on
/// anything but digits around at most one dot that is neither first nor
/// last, on more than four fractional digits, and on values that do not fit.
pub fn str_to_u64(input: &str) -> (r: Result<u64, LedgerError>)
    ensures
        match r {
            Ok(v) => parses(input@) && v == text_value(input@),
            Err(e) => e == LedgerError::MalformedAmount && !parses(input@),
        },
{
    let n = input.unicode_len();
    match find_first_dot(input) {
        None => {
            if n == 0 {
                return Err(LedgerError::MalformedAmount);
            }
            proof {
                assert(input@.subrange(0, n as int) =~= input@);
            }
            match parse_digits(input, 0, n) {
                None => Err(LedgerError::MalformedAmount),
                Some(v) => match v.checked_mul(DECIMAL_MULTIPLIER) {
                    Some(x) => Ok(x),
                    None => Err(LedgerError::MalformedAmount),
                },
            }
        },
        Some(d) => {
            if d == 0 || d + 1 == n {
                return Err(LedgerError::MalformedAmount);
            }
            let frac_len = n - d - 1;
            if frac_len > 4 {
                return Err(LedgerError::MalformedAmount);
            }
            let int_v = match parse_digits(input, 0, d) {
                Some(v) => v,
                None => {
                    proof {
                        if valid_amount_text(input@) {
                            assert(text_value(input@) >= digits_value(
                                input@.subrange(0, d as int),
                            ) * 10000);
                        }
                    }
                    return Err(LedgerError::MalformedAmount);
                },
            };
            let ghost frac_seq = input@.subrange(d + 1, n as int);
            let ghost scale_spec = pow10((4 - frac_seq.len()) as nat);
            proof {
                reveal_with_fuel(pow10, 5);
            }
            let frac_v = match parse_digits(input, d + 1, n) {
                Some(v) => v,
                None => {
                    proof {
                        if valid_amount_text(input@) {
                            assert(scale_spec >= 1);
                            assert(digits_value(frac_seq) * scale_spec >= digits_value(frac_seq))
                                by (nonlinear_arith)
                                requires scale_spec >= 1;
                        }
                    }
                    return Err(LedgerError::MalformedAmount);
                },
            };
            let scale: u64 = if frac_len == 1 {
                1000
            } else if frac_len == 2 {
                100
            } else if frac_len == 3 {
                10
            } else {
                1
            };
            proof {
                assert(scale == scale_spec);
            }
            let scaled_int = match int_v.checked_mul(DECIMAL_MULTIPLIER) {
                Some(x) => x,
                None => {
                    return Err(LedgerError::MalformedAmount);
                },
            };
            let scaled_frac = match frac_v.checked_mul(scale) {
                Some(x) => x,
                None => {
                    return Err(LedgerError::MalformedAmount);
                },
            };
            match scaled_int.checked_add(scaled_frac) {
                Some(x) => Ok(x),
                None => Err(LedgerError::MalformedAmount),
            }
        },
    }
}

} // verus!
