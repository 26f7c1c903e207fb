//! Decimal text of signed 32-bit integers.
//!
//! The spec side models which character sequences denote an `i32` (an
//! optional `+` or `-` sign followed by one or more decimal digits, value in
//! range) and what integer they denote; the exec side parses a slice of a
//! string against that model.

use vstd::prelude::*;

verus! {

/// The decimal digits.
pub open spec fn is_dec_digit(c: char) -> bool {
    '0' <= c && c <= '9'
}

/// Numeric value of a decimal digit character.
pub open spec fn digit_value(c: char) -> int {
    c as int - '0' as int
}

/// Every character of `s` is a decimal digit.
pub open spec fn all_dec_digits(s: Seq<char>) -> bool {
    forall|i: int| 0 <= i < s.len() ==> is_dec_digit(#[trigger] s[i])
}

/// Value of a digit string read most significant digit first
/// (leading zeros allowed).
pub open spec fn digits_value(s: Seq<char>) -> int
    decreases s.len(),
{
    if s.len() == 0 {
        0
    } else {
        digits_value(s.drop_last()) * 10 + digit_value(s.last())
    }
}

/// `s` starts with an explicit sign character.
pub open spec fn has_sign(s: Seq<char>) -> bool {
    s.len() > 0 && (s[0] == '-' || s[0] == '+')
}

/// The digits of `s`, with a leading sign stripped.
pub open spec fn digits_part(s: Seq<char>) -> Seq<char> {
    if has_sign(s) {
        s.skip(1)
    } else {
        s
    }
}

/// `s` has the shape of a signed decimal integer: an optional sign
/// followed by at least one digit, and nothing else.
pub open spec fn int_text_shape_ok(s: Seq<char>) -> bool {
    digits_part(s).len() > 0 && all_dec_digits(digits_part(s))
}

/// The integer `s` denotes (meaningful when the shape is ok): the value of
/// its digits, negated when `s` carries a leading `-`.
pub open spec fn int_text_value(s: Seq<char>) -> int {
    if s.len() > 0 && s[0] == '-' {
        -digits_value(digits_part(s))
    } else {
        digits_value(digits_part(s))
    }
}

/// `s` is the decimal text of some `i32`: well shaped and in range.
pub open spec fn valid_i32_text(s: Seq<char>) -> bool {
    &&& int_text_shape_ok(s)
    &&& i32::MIN <= int_text_value(s) <= i32::MAX
}

/// The digit character of `d` (meaningful for `0 <= d <= 9`).
pub open spec fn digit_char(d: int) -> char {
    if d == 0 {
        '0'
    } else if d == 1 {
        '1'
    } else if d == 2 {
        '2'
    } else if d == 3 {
        '3'
    } else if d == 4 {
        '4'
    } else if d == 5 {
        '5'
    } else if d == 6 {
        '6'
    } else if d == 7 {
        '7'
    } else if d == 8 {
        '8'
    } else {
        '9'
    }
}

/// The canonical digit string of a nonnegative integer: most significant
/// digit first, no leading zeros.
pub open spec fn dec_digits(n: int) -> Seq<char>
    decreases n,
{
    if n < 10 {
        seq![digit_char(n)]
    } else {
        dec_digits(n / 10).push(digit_char(n % 10))
    }
}

/// The decimal text of an integer: its digits, with a leading `-` when it
/// is negative.
pub open spec fn dec_text(n: int) -> Seq<char> {
    if n < 0 {
        seq!['-'] + dec_digits(-n)
    } else {
        dec_digits(n)
    }
}

/// The text `a-b`: the decimal texts of two integers joined by the range
/// separator.
pub open spec fn range_text(a: int, b: int) -> Seq<char> {
    dec_text(a) + seq!['-'] + dec_text(b)
}

/// The canonical digit string of `n >= 0` is one or more decimal digits.
pub proof fn lemma_dec_digits_shape(n: int)
    requires
        n >= 0,
    ensures
        dec_digits(n).len() >= 1,
        all_dec_digits(dec_digits(n)),
    decreases n,
{
    if n < 10 {
        assert(is_dec_digit(digit_char(n)));
        assert(all_dec_digits(seq![digit_char(n)]));
    } else {
        lemma_dec_digits_shape(n / 10);
        let prev = dec_digits(n / 10);
        let c = digit_char(n % 10);
        assert(is_dec_digit(c));
        assert forall|i: int| 0 <= i < prev.push(c).len() implies is_dec_digit(
            #[trigger] prev.push(c)[i],
        ) by {
            if i < prev.len() {
                assert(prev.push(c)[i] == prev[i]);
            } else {
                assert(prev.push(c)[i] == c);
            }
        }
    }
}

/// Reading back the canonical digit string of `n >= 0` yields `n`.
pub proof fn lemma_dec_digits_value(n: int)
    requires
        n >= 0,
    ensures
        digits_value(dec_digits(n)) == n,
    decreases n,
{
    if n < 10 {
        let s = seq![digit_char(n)];
        assert(s.drop_last() =~= Seq::<char>::empty());
        assert(digits_value(Seq::<char>::empty()) == 0);
        assert(s.last() == digit_char(n));
        assert(digit_value(digit_char(n)) == n);
        assert(digits_value(s) == digits_value(s.drop_last()) * 10 + digit_value(s.last()));
    } else {
        lemma_dec_digits_value(n / 10);
        lemma_digits_value_push(dec_digits(n / 10), digit_char(n % 10));
        assert(digit_value(digit_char(n % 10)) == n % 10);
    }
}

/// A digit string has a nonnegative value.
pub proof fn lemma_digits_value_nonneg(s: Seq<char>)
    requires
        all_dec_digits(s),
    ensures
        digits_value(s) >= 0,
    decreases s.len(),
{
    if s.len() > 0 {
        assert(all_dec_digits(s.drop_last()));
        lemma_digits_value_nonneg(s.drop_last());
    }
}

/// Extending a digit string on the right multiplies its value by ten and
/// adds the new digit.
pub proof fn lemma_digits_value_push(s: Seq<char>, c: char)
    ensures
        digits_value(s.push(c)) == digits_value(s) * 10 + digit_value(c),
{
    assert(s.push(c).drop_last() =~= s);
    assert(s.push(c).last() == c);
}

/// The value of a digit string is at least the value of any of its prefixes.
pub proof fn lemma_digits_value_prefix_le(s: Seq<char>, n: int)
    requires
        all_dec_digits(s),
        0 <= n <= s.len(),
    ensures
        digits_value(s.take(n)) <= digits_value(s),
    decreases s.len() - n,
{
    if n < s.len() {
        lemma_digits_value_prefix_le(s, n + 1);
        assert(s.take(n + 1).drop_last() =~= s.take(n));
        assert(s.take(n + 1).last() == s[n]);
        lemma_digits_value_nonneg(s.take(n));
        assert(digits_value(s.take(n)) <= digits_value(s.take(n)) * 10 + digit_value(s[n]));
    } else {
        assert(s.take(n) =~= s);
    }
}

/// Parses the characters of `s` between `from` (inclusive) and `to`
/// (exclusive) as an unsigned digit string. Returns the magnitude, or `None`
/// when the span is empty, holds a non-digit, or denotes a number too large
/// for any 32-bit integer.
fn parse_digits_span(s: &str, from: usize, to: usize) -> (r: Option<u64>)
    requires
        from <= to <= s@.len(),
    ensures
        r matches Some(v) ==> {
            &&& from < to
            &&& all_dec_digits(s@.subrange(from as int, to as int))
            &&& v as int == digits_value(s@.subrange(from as int, to as int))
        },
        r is None ==> {
            ||| from == to
            ||| !all_dec_digits(s@.subrange(from as int, to as int))
            ||| digits_value(s@.subrange(from as int, to as int)) > u32::MAX as int
        },
{
    let ghost sub = s@.subrange(from as int, to as int);
    if from == to {
        return None;
    }
    let mut acc: u64 = 0;
    let mut i: usize = from;
    while i < to
        invariant
            from <= i <= to <= s@.len(),
            sub == s@.subrange(from as int, to as int),
            all_dec_digits(sub.take(i - from)),
            acc as int == digits_value(sub.take(i - from)),
            acc <= u32::MAX as u64,
        decreases to - i,
    {
        let c = s.get_char(i);
        proof {
            assert(sub[i - from] == s@[i as int]);
        }
        if !('0' <= c && c <= '9') {
            assert(!is_dec_digit(sub[i - from]));
            return None;
        }
        let d: u64 = ((c as u32) - ('0' as u32)) as u64;
        let next: u64 = acc * 10 + d;
        proof {
            assert(sub.take(i - from + 1).drop_last() =~= sub.take(i - from));
            assert(sub.take(i - from + 1).last() == sub[i - from]);
        }
        if next > u32::MAX as u64 {
            proof {
                if all_dec_digits(sub) {
                    lemma_digits_value_prefix_le(sub, i - from + 1);
                }
            }
            return None;
        }
        acc = next;
        i = i + 1;
    }
    proof {
        assert(sub.take(to - from) =~= sub);
    }
    Some(acc)
}

/// Parses the characters of `s` between `from` (inclusive) and `to`
/// (exclusive) as a signed decimal integer. Succeeds exactly when that span
/// is the decimal text of an `i32`, and then returns the integer it denotes.
pub fn parse_i32_span(s: &str, from: usize, to: usize) -> (r: Option<i32>)
    requires
        from <= to <= s@.len(),
    ensures
        (r is Some) == valid_i32_text(s@.subrange(from as int, to as int)),
        r matches Some(v) ==> v as int == int_text_value(s@.subrange(from as int, to as int)),
{
    let ghost sub = s@.subrange(from as int, to as int);
    if from == to {
        return None;
    }
    let c0 = s.get_char(from);
    proof {
        assert(sub[0] == s@[from as int]);
    }
    let neg = c0 == '-';
    let signed = neg || c0 == '+';
    let dfrom = if signed {
        from + 1
    } else {
        from
    };
    proof {
        assert(digits_part(sub) =~= s@.subrange(dfrom as int, to as int));
    }
    match parse_digits_span(s, dfrom, to) {
        None => {
            proof {
                if int_text_shape_ok(sub) {
                    lemma_digits_value_nonneg(digits_part(sub));
                }
                assert(!valid_i32_text(sub));
            }
            None
        },
        Some(v) => {
            proof {
                assert(int_text_shape_ok(sub));
                assert(digits_value(digits_part(sub)) == v as int);
            }
            if neg {
                proof {
                    assert(int_text_value(sub) == -(v as int));
                }
                if v <= 0x8000_0000u64 {
                    let w: i64 = -(v as i64);
                    assert(valid_i32_text(sub));
                    assert(w as i32 as int == int_text_value(sub));
                    Some(w as i32)
                } else {
                    assert(!valid_i32_text(sub));
                    None
                }
            } else {
                proof {
                    assert(int_text_value(sub) == v as int);
                }
                if v <= 0x7FFF_FFFFu64 {
                    assert(valid_i32_text(sub));
                    assert(v as i32 as int == int_text_value(sub));
                    Some(v as i32)
                } else {
                    assert(!valid_i32_text(sub));
                    None
                }
            }
        },
    }
}

} // verus!
