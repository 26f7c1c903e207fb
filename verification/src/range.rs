//! A rule field that is either a single value or an inclusive range.

use core::cmp::Ordering;
use vstd::prelude::*;
use vstd::std_specs::cmp::{PartialEqSpec, PartialOrdSpec};

use crate::int_text::{
    all_dec_digits, dec_text, digits_part, has_sign, int_text_shape_ok, int_text_value,
    is_dec_digit, lemma_dec_digits_shape, lemma_dec_digits_value, parse_i32_span, range_text,
    valid_i32_text,
};

verus! {

/// Why a piece of text is not a `RangeOrValue`.
#[derive(Debug, Clone, Copy, PartialEq, Eq, Structural)]
pub enum RangeParseError {
    /// Once scalar parsing has failed, the text does not split into exactly
    /// two non-empty `-`-separated parts.
    InvalidRangeFormat,
    /// The part before the separator is not a valid scalar.
    InvalidRangeStart,
    /// The part after the separator is not a valid scalar.
    InvalidRangeEnd,
    /// Both parts are valid scalars, but the start is not strictly less
    /// than the end.
    InvalidRangeOrder,
}

impl RangeParseError {
    /// The text of the condition.
    pub open spec fn message_spec(&self) -> Seq<char> {
        match self {
            RangeParseError::InvalidRangeFormat => "Invalid range format"@,
            RangeParseError::InvalidRangeStart => "Invalid range start value"@,
            RangeParseError::InvalidRangeEnd => "Invalid range end value"@,
            RangeParseError::InvalidRangeOrder => {
                "Invalid range: start value must be less than end value"@
            },
        }
    }

    /// A short description of the condition.
    pub fn message(&self) -> (r: &'static str)
        ensures
            r@ == self.message_spec(),
    {
        match self {
            RangeParseError::InvalidRangeFormat => "Invalid range format",
            RangeParseError::InvalidRangeStart => "Invalid range start value",
            RangeParseError::InvalidRangeEnd => "Invalid range end value",
            RangeParseError::InvalidRangeOrder => {
                "Invalid range: start value must be less than end value"
            },
        }
    }
}

/// A range of values or a single value.
#[derive(Debug)]
pub enum RangeOrValue<T> {
    /// A range of values. Both the start value and end value are inclusive.
    Range(T, T),
    /// A single value.
    Value(T),
}

impl<T> RangeOrValue<T> {
    /// Returns `true` if the value is a range, not a single value.
    pub fn is_range(&self) -> (r: bool)
        ensures
            r == (self is Range),
    {
        matches!(self, RangeOrValue::Range(_, _))
    }

    /// Returns `true` if the value is a single value, not a range.
    pub fn is_value(&self) -> (r: bool)
        ensures
            r == (self is Value),
    {
        matches!(self, RangeOrValue::Value(_))
    }
}

/// What `==` means on `RangeOrValue<T>`, in terms of what `==` means on `T`:
/// two ranges are equal iff their bounds are pairwise equal, two values are
/// equal iff their scalars are equal, and a range never equals a value.
pub open spec fn rov_eq_spec<T: PartialEq>(a: &RangeOrValue<T>, b: &RangeOrValue<T>) -> bool {
    match (a, b) {
        (RangeOrValue::Range(start1, end1), RangeOrValue::Range(start2, end2)) => {
            start1.eq_spec(start2) && end1.eq_spec(end2)
        },
        (RangeOrValue::Value(val1), RangeOrValue::Value(val2)) => val1.eq_spec(val2),
        _ => false,
    }
}

impl<T: PartialEq> PartialEq for RangeOrValue<T> {
    fn eq(&self, other: &Self) -> (r: bool) {
        match (self, other) {
            (RangeOrValue::Range(start1, end1), RangeOrValue::Range(start2, end2)) => {
                *start1 == *start2 && *end1 == *end2
            },
            (RangeOrValue::Value(val1), RangeOrValue::Value(val2)) => *val1 == *val2,
            _ => false,
        }
    }
}

impl<T: PartialEq> vstd::std_specs::cmp::PartialEqSpecImpl for RangeOrValue<T> {
    open spec fn obeys_eq_spec() -> bool {
        T::obeys_eq_spec()
    }

    open spec fn eq_spec(&self, other: &Self) -> bool {
        rov_eq_spec(self, other)
    }
}

/// Membership: a range contains every candidate between its bounds,
/// inclusive at both ends; a single value contains exactly itself.
pub open spec fn rov_contains_spec<T: PartialOrd>(rov: &RangeOrValue<T>, value: &T) -> bool {
    match rov {
        RangeOrValue::Range(start, end) => {
            &&& value.partial_cmp_spec(start) matches Some(Ordering::Greater | Ordering::Equal)
            &&& value.partial_cmp_spec(end) matches Some(Ordering::Less | Ordering::Equal)
        },
        RangeOrValue::Value(val) => val.eq_spec(value),
    }
}

impl<T: PartialOrd> RangeOrValue<T> {
    /// Check if the value is contained in the range or is equal to the value.
    pub fn contains(&self, value: &T) -> (r: bool)
        ensures
            T::obeys_partial_cmp_spec() && T::obeys_eq_spec() ==> r == rov_contains_spec(
                self,
                value,
            ),
    {
        match self {
            RangeOrValue::Range(start, end) => *value >= *start && *value <= *end,
            RangeOrValue::Value(val) => *val == *value,
        }
    }
}

/// On integer fields, membership is exactly the inclusive-bounds test:
/// `Range(s, e)` contains `c` iff `s <= c <= e`, and `Value(v)` contains `c`
/// iff `c == v`.
pub proof fn lemma_contains_semantics(rov: RangeOrValue<i32>, c: i32)
    ensures
        rov matches RangeOrValue::Range(s, e) ==> (rov_contains_spec(&rov, &c) <==> s <= c && c
            <= e),
        rov matches RangeOrValue::Value(v) ==> (rov_contains_spec(&rov, &c) <==> c == v),
{
}

/// Equality on `RangeOrValue<T>` is reflexive and symmetric whenever
/// equality on `T` is, and it never holds between a `Range` and a `Value`,
/// whatever their contents.
pub proof fn lemma_eq_laws<T: PartialEq>(a: &RangeOrValue<T>, b: &RangeOrValue<T>)
    requires
        forall|x: T| #[trigger] x.eq_spec(&x),
        forall|x: T, y: T| #[trigger] x.eq_spec(&y) == y.eq_spec(&x),
    ensures
        rov_eq_spec(a, a),
        rov_eq_spec(a, b) == rov_eq_spec(b, a),
        a is Range && b is Value ==> !rov_eq_spec(a, b) && !rov_eq_spec(b, a),
{
}

/// No position of `s` other than `i` holds the range separator `-`.
pub open spec fn sep_only_at(s: Seq<char>, i: int) -> bool {
    forall|j: int| 0 <= j < s.len() && j != i ==> #[trigger] s[j] != '-'
}

/// Position `i` holds the one and only `-` of `s`.
pub open spec fn lone_sep_at(s: Seq<char>, i: int) -> bool {
    &&& 0 <= i < s.len()
    &&& s[i] == '-'
    &&& sep_only_at(s, i)
}

/// `s` splits on `-` into exactly two non-empty parts: it holds exactly one
/// separator, with at least one character on each side.
pub open spec fn range_format_ok(s: Seq<char>) -> bool {
    exists|i: int| #![auto] lone_sep_at(s, i) && 1 <= i && i + 2 <= s.len()
}

/// The position of the one separator of `s` (meaningful when
/// `range_format_ok(s)` holds; the position is then unique).
pub open spec fn sep_index(s: Seq<char>) -> int {
    choose|i: int| lone_sep_at(s, i)
}

/// What parsing a piece of text yields. A whole-text scalar parse is tried
/// first, so a negative scalar such as `-5` is a `Value`, never a range with
/// an empty start. Only then is the text split on its `-` separator into a
/// start part and an end part, which must each be a scalar, in strictly
/// increasing order.
pub open spec fn parse_spec(s: Seq<char>) -> Result<RangeOrValue<i32>, RangeParseError> {
    if valid_i32_text(s) {
        Ok(RangeOrValue::Value(int_text_value(s) as i32))
    } else if !range_format_ok(s) {
        Err(RangeParseError::InvalidRangeFormat)
    } else {
        let start_text = s.subrange(0, sep_index(s));
        let end_text = s.subrange(sep_index(s) + 1, s.len() as int);
        if !valid_i32_text(start_text) {
            Err(RangeParseError::InvalidRangeStart)
        } else if !valid_i32_text(end_text) {
            Err(RangeParseError::InvalidRangeEnd)
        } else if int_text_value(start_text) >= int_text_value(end_text) {
            Err(RangeParseError::InvalidRangeOrder)
        } else {
            Ok(
                RangeOrValue::Range(
                    int_text_value(start_text) as i32,
                    int_text_value(end_text) as i32,
                ),
            )
        }
    }
}

impl RangeOrValue<i32> {
    /// Parses `s`, first as a single scalar and, failing that, as an
    /// inclusive `start-end` range.
    pub fn parse(s: &str) -> (r: Result<RangeOrValue<i32>, RangeParseError>)
        ensures
            r == parse_spec(s@),
    {
        let len = s.unicode_len();
        if let Some(v) = parse_i32_span(s, 0, len) {
            proof {
                assert(s@.subrange(0, len as int) =~= s@);
            }
            return Ok(RangeOrValue::Value(v));
        }
        proof {
            assert(s@.subrange(0, len as int) =~= s@);
            assert(!valid_i32_text(s@));
        }
        // Find the one separator, if there is exactly one.
        let mut i: usize = 0;
        let mut sep: Option<usize> = None;
        let mut multi: bool = false;
        let ghost mut second: int = 0;
        while i < len
            invariant
                i <= len == s@.len(),
                sep is None ==> !multi && forall|j: int| 0 <= j < i ==> #[trigger] s@[j] != '-',
                sep matches Some(k) ==> k < i && s@[k as int] == '-',
                sep matches Some(k) ==> (!multi ==> forall|j: int|
                    0 <= j < i && j != k ==> #[trigger] s@[j] != '-'),
                multi ==> (sep matches Some(k) && k < second < i && s@[second] == '-'),
            decreases len - i,
        {
            let c = s.get_char(i);
            if c == '-' {
                match sep {
                    None => {
                        sep = Some(i);
                    },
                    Some(_) => {
                        if !multi {
                            multi = true;
                            proof {
                                second = i as int;
                            }
                        }
                    },
                }
            }
            i = i + 1;
        }
        let k = match sep {
            None => {
                proof {
                    assert(!range_format_ok(s@));
                }
                return Err(RangeParseError::InvalidRangeFormat);
            },
            Some(k) => k,
        };
        if multi {
            proof {
                assert forall|i0: int| !lone_sep_at(s@, i0) by {
                    if s@[i0 as int] == '-' {
                        if i0 != k {
                            assert(!sep_only_at(s@, i0)) by {
                                assert(s@[k as int] == '-');
                            }
                        } else {
                            assert(!sep_only_at(s@, i0)) by {
                                assert(s@[second] == '-');
                                assert(second != i0);
                            }
                        }
                    }
                }
                assert(!range_format_ok(s@));
            }
            return Err(RangeParseError::InvalidRangeFormat);
        }
        proof {
            assert(lone_sep_at(s@, k as int));
        }
        if k == 0 || k + 1 == len {
            proof {
                assert forall|i0: int|
                    !(lone_sep_at(s@, i0) && 1 <= i0 && i0 + 2 <= s@.len()) by {
                    if lone_sep_at(s@, i0) && i0 != k {
                        assert(s@[i0] != '-');
                    }
                }
                assert(!range_format_ok(s@));
            }
            return Err(RangeParseError::InvalidRangeFormat);
        }
        proof {
            assert(range_format_ok(s@)) by {
                assert(lone_sep_at(s@, k as int) && 1 <= k as int && k as int + 2 <= s@.len());
            }
            assert(sep_index(s@) == k as int) by {
                let c = sep_index(s@);
                assert(lone_sep_at(s@, c));
                if c != k {
                    assert(s@[c] != '-');
                }
            }
        }
        let sv = match parse_i32_span(s, 0, k) {
            None => {
                return Err(RangeParseError::InvalidRangeStart);
            },
            Some(v) => v,
        };
        let ev = match parse_i32_span(s, k + 1, len) {
            None => {
                return Err(RangeParseError::InvalidRangeEnd);
            },
            Some(v) => v,
        };
        if sv >= ev {
            return Err(RangeParseError::InvalidRangeOrder);
        }
        Ok(RangeOrValue::Range(sv, ev))
    }
}

impl core::str::FromStr for RangeOrValue<i32> {
    type Err = &'static str;

    /// The parse of [`RangeOrValue::parse`], under the standard parsing
    /// trait, with each error condition reported as its text.
    fn from_str(s: &str) -> (r: Result<Self, Self::Err>)
        ensures
            parse_spec(s@) matches Ok(v) ==> (r matches Ok(w) && w == v),
            parse_spec(s@) matches Err(e) ==> (r matches Err(m) && m@ == e.message_spec()),
    {
        match RangeOrValue::parse(s) {
            Ok(v) => Ok(v),
            Err(e) => Err(e.message()),
        }
    }
}

/// Parsing the decimal text of any integer yields that integer as a single
/// value — negative integers included: the whole-text scalar parse comes
/// first, so the leading `-` of a negative number is never taken for a
/// range separator.
pub proof fn lemma_parse_decimal_value(n: i32)
    ensures
        parse_spec(dec_text(n as int)) == Ok::<RangeOrValue<i32>, RangeParseError>(RangeOrValue::Value(n)),
{
    let s = dec_text(n as int);
    if n >= 0 {
        lemma_dec_digits_shape(n as int);
        lemma_dec_digits_value(n as int);
        assert(is_dec_digit(s[0]));
        assert(!has_sign(s));
        assert(digits_part(s) == s);
        assert(valid_i32_text(s));
        assert(int_text_value(s) == n as int);
    } else {
        lemma_dec_digits_shape(-(n as int));
        lemma_dec_digits_value(-(n as int));
        assert(s[0] == '-');
        assert(digits_part(s) =~= crate::int_text::dec_digits(-(n as int)));
        assert(valid_i32_text(s));
        assert(int_text_value(s) == n as int);
    }
}

/// The common ground of the two range-text laws: for nonnegative bounds,
/// the text `a-b` parses to `Range(a, b)` exactly when `a < b`, and fails
/// with the order condition otherwise.
proof fn lemma_parse_range_text_general(a: i32, b: i32)
    requires
        0 <= a,
        0 <= b,
    ensures
        parse_spec(range_text(a as int, b as int)) == if a < b {
            Ok::<RangeOrValue<i32>, RangeParseError>(RangeOrValue::Range(a, b))
        } else {
            Err(RangeParseError::InvalidRangeOrder)
        },
{
    let ai = a as int;
    let bi = b as int;
    let da = crate::int_text::dec_digits(ai);
    let db = crate::int_text::dec_digits(bi);
    lemma_dec_digits_shape(ai);
    lemma_dec_digits_value(ai);
    lemma_dec_digits_shape(bi);
    lemma_dec_digits_value(bi);
    let s = range_text(ai, bi);
    let la = da.len() as int;
    assert(s == da + seq!['-'] + db);
    assert(s.len() == la + 1 + db.len());
    assert(s[la] == '-');
    assert forall|j: int| 0 <= j < s.len() && j != la implies #[trigger] s[j] != '-' by {
        if j < la {
            assert(s[j] == da[j]);
            assert(is_dec_digit(da[j]));
        } else {
            assert(s[j] == db[j - la - 1]);
            assert(is_dec_digit(db[j - la - 1]));
        }
    }
    assert(lone_sep_at(s, la));
    assert(range_format_ok(s)) by {
        assert(lone_sep_at(s, la) && 1 <= la && la + 2 <= s.len());
    }
    assert(s[0] == da[0]);
    assert(is_dec_digit(s[0]));
    assert(!has_sign(s));
    assert(!all_dec_digits(s)) by {
        assert(!is_dec_digit(s[la]));
    }
    assert(!valid_i32_text(s));
    assert(sep_index(s) == la) by {
        let c = sep_index(s);
        assert(lone_sep_at(s, c));
        if c != la {
            assert(s[c] != '-');
        }
    }
    assert(s.subrange(0, la) =~= da);
    assert(s.subrange(la + 1, s.len() as int) =~= db);
    assert(digits_part(da) == da);
    assert(digits_part(db) == db);
    assert(valid_i32_text(da));
    assert(valid_i32_text(db));
    assert(int_text_value(da) == ai);
    assert(int_text_value(db) == bi);
}

/// For all nonnegative integers `a < b`, parsing the text `a-b` yields
/// `Range(a, b)`. (A negative bound cannot be written this way: its own
/// `-` would make a second separator, and the text fails with the format
/// condition instead.)
pub proof fn lemma_parse_range_round_trip(a: i32, b: i32)
    requires
        0 <= a < b,
    ensures
        parse_spec(range_text(a as int, b as int)) == Ok::<RangeOrValue<i32>, RangeParseError>(RangeOrValue::Range(a, b)),
{
    lemma_parse_range_text_general(a, b);
}

/// For all nonnegative integers `a >= b`, parsing the text `a-b` fails with
/// the order-violation condition: a degenerate or reversed range is
/// rejected.
pub proof fn lemma_parse_range_order_violation(a: i32, b: i32)
    requires
        0 <= b <= a,
    ensures
        parse_spec(range_text(a as int, b as int)) == Err::<RangeOrValue<i32>, RangeParseError>(RangeParseError::InvalidRangeOrder),
{
    lemma_parse_range_text_general(a, b);
}

/// Text holding two or more separators never parses and fails with the
/// format condition — no silent partial parse: it is not a scalar, and it
/// does not split into exactly two parts.
pub proof fn lemma_multi_sep_is_format_error(s: Seq<char>, i: int, j: int)
    requires
        0 <= i < j < s.len(),
        s[i] == '-',
        s[j] == '-',
    ensures
        parse_spec(s) == Err::<RangeOrValue<i32>, RangeParseError>(RangeParseError::InvalidRangeFormat),
{
    assert(!int_text_shape_ok(s)) by {
        if has_sign(s) {
            assert(digits_part(s)[j - 1] == s[j]);
            assert(!is_dec_digit(digits_part(s)[j - 1]));
        } else {
            assert(digits_part(s) == s);
            assert(!is_dec_digit(s[j]));
        }
    }
    assert(!valid_i32_text(s));
    assert forall|i0: int| !lone_sep_at(s, i0) by {
        if lone_sep_at(s, i0) {
            if i0 != i {
                assert(s[i] != '-');
            } else {
                assert(s[j] != '-');
            }
        }
    }
    assert(!range_format_ok(s));
}

/// The construction invariant of the parsing path: every `Range` that
/// parsing yields has its start strictly below its end. (Direct programmatic
/// construction of a `Range` is not separately validated.)
pub proof fn lemma_parsed_range_ordered(s: Seq<char>, a: i32, b: i32)
    requires
        parse_spec(s) == Ok::<RangeOrValue<i32>, RangeParseError>(RangeOrValue::Range(a, b)),
    ensures
        a < b,
{
}

/// The equality laws at the integer instantiation, with no hypotheses:
/// reflexive, symmetric, and never across the two variants.
pub proof fn lemma_eq_laws_i32(a: &RangeOrValue<i32>, b: &RangeOrValue<i32>)
    ensures
        rov_eq_spec(a, a),
        rov_eq_spec(a, b) == rov_eq_spec(b, a),
        a is Range && b is Value ==> !rov_eq_spec(a, b) && !rov_eq_spec(b, a),
{
}

} // verus!

