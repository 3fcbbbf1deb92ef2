//! Decimal text for the integers that cross the wire: exact specifications
//! of the decimal representation and value of a digit string, with executable
//! formatting and parsing proved against them.

use vstd::prelude::*;

verus! {

/// The decimal digit character for `d` (0 through 9).
pub open spec fn digit_char(d: int) -> char {
    if d == 0 {
        '0'
    } else if d == 1 {
        '1'
    } else if d == 2 {
        '2'
    } else if d == 3 {
        '3'
    } else if d == 4 {
        '4'
    } else if d == 5 {
        '5'
    } else if d == 6 {
        '6'
    } else if d == 7 {
        '7'
    } else if d == 8 {
        '8'
    } else {
        '9'
    }
}

/// Whether `c` is a decimal digit.
pub open spec fn is_digit(c: char) -> bool {
    48 <= c as int <= 57
}

/// Numeric value of a digit character (0 for non-digits).
pub open spec fn digit_val(c: char) -> nat {
    if is_digit(c) {
        (c as int - 48) as nat
    } else {
        0
    }
}

/// The canonical decimal representation of `n`: no sign, no leading zeros.
pub open spec fn dec_rep(n: nat) -> Seq<char>
    decreases n,
{
    if n < 10 {
        seq![digit_char(n as int)]
    } else {
        dec_rep(n / 10).push(digit_char((n % 10) as int))
    }
}

/// The decimal representation of a possibly negative value.
pub open spec fn dec_rep_signed(n: int) -> Seq<char> {
    if n < 0 {
        seq!['-'] + dec_rep((-n) as nat)
    } else {
        dec_rep(n as nat)
    }
}

/// Whether `s` is a non-empty, all-digit string.
pub open spec fn is_dec(s: Seq<char>) -> bool {
    s.len() > 0 && forall|i: int| 0 <= i < s.len() ==> is_digit(#[trigger] s[i])
}

/// The value of a digit string read most-significant first.
pub open spec fn dec_val(s: Seq<char>) -> nat
    decreases s.len(),
{
    if s.len() == 0 {
        0
    } else {
        dec_val(s.drop_last()) * 10 + digit_val(s.last())
    }
}

/// A value parsed from an unsigned decimal token, or nothing when the token
/// is empty, holds a non-digit, or overflows `u64`.
pub open spec fn parse_u64_spec(s: Seq<char>) -> Option<u64> {
    if is_dec(s) && dec_val(s) <= u64::MAX {
        Some(dec_val(s) as u64)
    } else {
        None
    }
}

/// As `parse_u64_spec`, but admitting one leading `-` and the `i64` range.
pub open spec fn parse_i64_spec(s: Seq<char>) -> Option<i64> {
    if s.len() > 0 && s[0] == '-' {
        if is_dec(s.subrange(1, s.len() as int)) && dec_val(s.subrange(1, s.len() as int))
            <= 0x8000_0000_0000_0000 {
            Some((-(dec_val(s.subrange(1, s.len() as int)) as int)) as i64)
        } else {
            None
        }
    } else {
        if is_dec(s) && dec_val(s) <= i64::MAX {
            Some(dec_val(s) as i64)
        } else {
            None
        }
    }
}

/// A digit string's value never shrinks when more digits follow.
pub proof fn lemma_dec_val_prefix(s: Seq<char>, j: int)
    requires
        0 <= j <= s.len(),
    ensures
        dec_val(s.take(j)) <= dec_val(s),
    decreases s.len(),
{
    if j < s.len() {
        assert(s.drop_last().take(j) =~= s.take(j));
        lemma_dec_val_prefix(s.drop_last(), j);
    } else {
        assert(s.take(j) =~= s);
    }
}

/// The canonical representation is all digits and reads back to its value.
pub proof fn lemma_dec_roundtrip(n: nat)
    ensures
        is_dec(dec_rep(n)),
        dec_val(dec_rep(n)) == n,
    decreases n,
{
    if n < 10 {
        lemma_digit_char_val(n as int);
        assert(dec_rep(n) =~= seq![digit_char(n as int)]);
        assert(dec_rep(n).drop_last() =~= Seq::<char>::empty());
        assert(dec_val(Seq::<char>::empty()) == 0);
        assert(dec_rep(n).last() == digit_char(n as int));
        assert(dec_val(dec_rep(n)) == digit_val(digit_char(n as int)));
    } else {
        lemma_digit_char_val((n % 10) as int);
        lemma_dec_roundtrip(n / 10);
        let r = dec_rep(n / 10);
        let c = digit_char((n % 10) as int);
        assert(r.push(c).drop_last() =~= r);
        assert(r.push(c).last() == c);
        assert forall|i: int| 0 <= i < r.push(c).len() implies is_digit(#[trigger] r.push(c)[i]) by {
            if i < r.len() {
                assert(r.push(c)[i] == r[i]);
            } else {
                assert(r.push(c)[i] == c);
            }
        }
        assert(dec_val(r.push(c)) == dec_val(r) * 10 + digit_val(c));
        assert(dec_val(r) == n / 10);
        assert(digit_val(c) == n % 10);
        vstd::arithmetic::div_mod::lemma_fundamental_div_mod(n as int, 10);
        assert(dec_val(dec_rep(n)) == (n / 10) * 10 + n % 10);
    }
}

/// The digit character of a digit value is a digit and reads back.
pub proof fn lemma_digit_char_val(d: int)
    requires
        0 <= d < 10,
    ensures
        is_digit(digit_char(d)),
        digit_val(digit_char(d)) == d,
{
}

/// A fixed-point score (millionths) written with two decimal places:
/// sign, whole part, `.`, and two fraction digits.
pub open spec fn score_text(v: i64) -> Seq<char> {
    let m = if v < 0 {
        -(v as int)
    } else {
        v as int
    };
    let sign: Seq<char> = if v < 0 {
        seq!['-']
    } else {
        Seq::<char>::empty()
    };
    let frac2 = (m % 1000000) / 10000;
    sign + dec_rep((m / 1000000) as nat) + seq!['.', digit_char(frac2 / 10), digit_char(
        frac2 % 10,
    )]
}

/// Formats a fixed-point score with two decimal places.
pub fn format_score(v: i64) -> (s: String)
    ensures
        s@ == score_text(v),
{
    let m: u64 = if v < 0 {
        (-(v as i128)) as u64
    } else {
        v as u64
    };
    let frac2: u64 = (m % 1000000) / 10000;
    let mut s: String = if v < 0 {
        String::from_str("-")
    } else {
        String::new()
    };
    proof {
        reveal_strlit("-");
        if v < 0 {
            assert(s@ =~= seq!['-']);
        }
    }
    s.append(u64_to_dec(m / 1000000).as_str());
    s.append(".");
    s.append(digit_str(frac2 / 10));
    s.append(digit_str(frac2 % 10));
    proof {
        reveal_strlit(".");
        assert("."@ =~= seq!['.']);
        assert(s@ =~= score_text(v));
    }
    s
}

/// The string slice of one decimal digit.
fn digit_str(d: u64) -> (r: &'static str)
    requires
        d < 10,
    ensures
        r@ =~= seq![digit_char(d as int)],
{
    proof {
        reveal_strlit("0");
        reveal_strlit("1");
        reveal_strlit("2");
        reveal_strlit("3");
        reveal_strlit("4");
        reveal_strlit("5");
        reveal_strlit("6");
        reveal_strlit("7");
        reveal_strlit("8");
        reveal_strlit("9");
    }
    if d == 0 {
        "0"
    } else if d == 1 {
        "1"
    } else if d == 2 {
        "2"
    } else if d == 3 {
        "3"
    } else if d == 4 {
        "4"
    } else if d == 5 {
        "5"
    } else if d == 6 {
        "6"
    } else if d == 7 {
        "7"
    } else if d == 8 {
        "8"
    } else {
        "9"
    }
}

/// Formats `n` in canonical decimal.
pub fn u64_to_dec(n: u64) -> (s: String)
    ensures
        s@ == dec_rep(n as nat),
    decreases n,
{
    if n < 10 {
        String::from_str(digit_str(n))
    } else {
        let mut s = u64_to_dec(n / 10);
        s.append(digit_str(n % 10));
        proof {
            assert(dec_rep((n / 10) as nat).push(digit_char((n % 10) as int)) =~= dec_rep(
                (n / 10) as nat,
            ) + seq![digit_char((n % 10) as int)]);
        }
        s
    }
}

/// Formats `n` in canonical decimal with a leading `-` when negative.
pub fn i64_to_dec(n: i64) -> (s: String)
    ensures
        s@ == dec_rep_signed(n as int),
{
    if n < 0 {
        let magnitude: u64 = (-(n as i128)) as u64;
        let mut s = String::from_str("-");
        proof {
            reveal_strlit("-");
            assert(s@ =~= seq!['-']);
        }
        s.append(u64_to_dec(magnitude).as_str());
        s
    } else {
        u64_to_dec(n as u64)
    }
}

/// Parses the character range `[from, to)` of `s` as unsigned decimal.
pub fn parse_u64_range(s: &str, from: usize, to: usize) -> (r: Option<u64>)
    requires
        from <= to <= s@.len(),
    ensures
        r == parse_u64_spec(s@.subrange(from as int, to as int)),
{
    let ghost sub = s@.subrange(from as int, to as int);
    if from == to {
        return None;
    }
    let mut acc: u64 = 0;
    let mut i: usize = from;
    while i < to
        invariant
            from <= i <= to <= s@.len(),
            sub == s@.subrange(from as int, to as int),
            sub.len() == to - from,
            forall|j: int| 0 <= j < i - from ==> is_digit(#[trigger] sub[j]),
            acc as nat == dec_val(sub.take(i - from)),
        decreases to - i,
    {
        let c: char = s.get_char(i);
        let u: u32 = c as u32;
        proof {
            assert(sub[i - from] == s@[i as int]);
            assert(sub.take(i + 1 - from).drop_last() =~= sub.take(i - from));
        }
        if u < 48 || u > 57 {
            return None;
        }
        let d: u64 = (u - 48) as u64;
        let limit: u64 = (u64::MAX - d) / 10;
        proof {
            vstd::arithmetic::div_mod::lemma_fundamental_div_mod((u64::MAX - d) as int, 10);
            assert(dec_val(sub.take(i + 1 - from)) == (acc as nat) * 10 + d);
        }
        if acc > limit {
            proof {
                assert((acc as nat) * 10 + d > u64::MAX) by (nonlinear_arith)
                    requires
                        acc as int > limit as int,
                        (u64::MAX - d) as int == 10 * (limit as int) + ((u64::MAX - d) as int)
                            % 10,
                        0 <= ((u64::MAX - d) as int) % 10 < 10,
                        d <= 9,
                ;
                lemma_dec_val_prefix(sub, i + 1 - from);
            }
            return None;
        }
        proof {
            assert((acc as nat) * 10 + d <= u64::MAX) by (nonlinear_arith)
                requires
                    acc as int <= limit as int,
                    (u64::MAX - d) as int == 10 * (limit as int) + ((u64::MAX - d) as int) % 10,
                    0 <= ((u64::MAX - d) as int) % 10 < 10,
                    d <= 9,
            ;
        }
        acc = acc * 10 + d;
        i = i + 1;
    }
    proof {
        assert(sub.take(to - from) =~= sub);
    }
    Some(acc)
}

/// Parses the character range `[from, to)` of `s` as signed decimal.
pub fn parse_i64_range(s: &str, from: usize, to: usize) -> (r: Option<i64>)
    requires
        from <= to <= s@.len(),
    ensures
        r == parse_i64_spec(s@.subrange(from as int, to as int)),
{
    let ghost sub = s@.subrange(from as int, to as int);
    if from < to && s.get_char(from) == '-' {
        proof {
            assert(sub[0] == s@[from as int]);
            assert(sub.subrange(1, sub.len() as int) =~= s@.subrange(from + 1, to as int));
        }
        match parse_u64_range(s, from + 1, to) {
            Some(v) => {
                if v <= 0x8000_0000_0000_0000 {
                    Some((-(v as i128)) as i64)
                } else {
                    None
                }
            },
            None => None,
        }
    } else {
        proof {
            if sub.len() > 0 {
                assert(sub[0] == s@[from as int]);
            }
        }
        match parse_u64_range(s, from, to) {
            Some(v) => {
                if v <= i64::MAX as u64 {
                    Some(v as i64)
                } else {
                    None
                }
            },
            None => None,
        }
    }
}

} // verus!
