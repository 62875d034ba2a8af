use vstd::arithmetic::div_mod::{
    lemma_div_denominator, lemma_div_pos_is_pos, lemma_fundamental_div_mod,
};
use vstd::prelude::*;

verus! {

/// A point in time together with the fixed UTC offset it was recorded
/// with. The offset is preserved verbatim, never normalized to UTC.
#[derive(Clone, Copy, PartialEq, Eq, Structural, Debug)]
pub struct Timestamp {
    /// Calendar year, 0 through 9999.
    pub year: u16,
    /// Calendar month, 1 through 12.
    pub month: u8,
    /// Day of the month, 1 through the month's length.
    pub day: u8,
    /// Hour, 0 through 23.
    pub hour: u8,
    /// Minute, 0 through 59.
    pub minute: u8,
    /// Second, 0 through 60; 60 only within an inserted leap second.
    pub second: u8,
    /// Sub-second part in nanoseconds, 0 through 999,999,999.
    pub nanosecond: u32,
    /// UTC offset in minutes east, strictly between -1440 and 1440.
    pub offset_minutes: i16,
}

pub open spec fn leap_year(y: int) -> bool {
    y % 4 == 0 && (y % 100 != 0 || y % 400 == 0)
}

pub open spec fn days_in_month(y: int, m: int) -> int {
    if m == 2 {
        if leap_year(y) {
            29
        } else {
            28
        }
    } else if m == 4 || m == 6 || m == 9 || m == 11 {
        30
    } else {
        31
    }
}

impl Timestamp {
    /// The fields form a real calendar date and time with a legal offset.
    pub open spec fn well_formed(self) -> bool {
        &&& self.year <= 9999
        &&& 1 <= self.month <= 12
        &&& 1 <= self.day <= days_in_month(self.year as int, self.month as int)
        &&& self.hour <= 23
        &&& self.minute <= 59
        &&& self.second <= 60
        &&& self.nanosecond <= 999_999_999
        &&& -1439 <= self.offset_minutes <= 1439
    }

    /// Runtime check of `well_formed`.
    pub fn is_valid(&self) -> (r: bool)
        ensures
            r == self.well_formed(),
    {
        let months_ok = self.year <= 9999 && 1 <= self.month && self.month <= 12;
        if !months_ok {
            return false;
        }
        let dim = days_in_month_exec(self.year, self.month);
        1 <= self.day && self.day as u32 <= dim as u32 && self.hour <= 23 && self.minute <= 59
            && self.second <= 60 && self.nanosecond <= 999_999_999 && -1439 <= self.offset_minutes
            && self.offset_minutes <= 1439
    }
}

/// Runtime month length, matching `days_in_month`.
pub fn days_in_month_exec(year: u16, month: u8) -> (r: u8)
    ensures
        r as int == days_in_month(year as int, month as int),
{
    if month == 2 {
        if year % 4 == 0 && (year % 100 != 0 || year % 400 == 0) {
            29
        } else {
            28
        }
    } else if month == 4 || month == 6 || month == 9 || month == 11 {
        30
    } else {
        31
    }
}

// ---------------------------------------------------------------------------
// Rendering: the canonical RFC 3339 form of a timestamp.
// ---------------------------------------------------------------------------

pub open spec fn digit_char(d: int) -> char {
    (48 + d) as char
}

pub open spec fn dec2(n: int) -> Seq<char> {
    seq![digit_char(n / 10 % 10), digit_char(n % 10)]
}

pub open spec fn dec4(n: int) -> Seq<char> {
    seq![
        digit_char(n / 1000 % 10),
        digit_char(n / 100 % 10),
        digit_char(n / 10 % 10),
        digit_char(n % 10),
    ]
}

pub open spec fn dec9(n: int) -> Seq<char> {
    seq![
        digit_char(n / 100_000_000 % 10),
        digit_char(n / 10_000_000 % 10),
        digit_char(n / 1_000_000 % 10),
        digit_char(n / 100_000 % 10),
        digit_char(n / 10_000 % 10),
        digit_char(n / 1000 % 10),
        digit_char(n / 100 % 10),
        digit_char(n / 10 % 10),
        digit_char(n % 10),
    ]
}

/// The rendered offset: a sign, two hour digits, a colon, two minute digits.
pub open spec fn offset_chars(off: int) -> Seq<char> {
    let a = if off < 0 {
        -off
    } else {
        off
    };
    seq![
        if off < 0 {
            '-'
        } else {
            '+'
        },
    ] + dec2(a / 60) + seq![':'] + dec2(a % 60)
}

/// The rendered date and time of day, without fraction or offset.
pub open spec fn date_time_head(t: Timestamp) -> Seq<char> {
    dec4(t.year as int) + seq!['-'] + dec2(t.month as int) + seq!['-'] + dec2(t.day as int)
        + seq!['T'] + dec2(t.hour as int) + seq![':'] + dec2(t.minute as int) + seq![':'] + dec2(
        t.second as int,
    )
}

/// The rendered fraction: empty when the sub-second part is zero, else a
/// point and nine digits.
pub open spec fn frac_chars(t: Timestamp) -> Seq<char> {
    if t.nanosecond == 0 {
        Seq::<char>::empty()
    } else {
        seq!['.'] + dec9(t.nanosecond as int)
    }
}

/// The canonical RFC 3339 rendering: date, 'T', time, a nine-digit
/// fraction only when the sub-second part is nonzero, then the offset.
pub open spec fn rfc3339_chars(t: Timestamp) -> Seq<char> {
    date_time_head(t) + frac_chars(t) + offset_chars(t.offset_minutes as int)
}

// ---------------------------------------------------------------------------
// Parsing: strict RFC 3339.
// ---------------------------------------------------------------------------

pub open spec fn is_digit(c: char) -> bool {
    48 <= c as int <= 57
}

pub open spec fn digit_val(c: char) -> int {
    c as int - 48
}

pub open spec fn two_digit_val(s: Seq<char>, i: int) -> int {
    digit_val(s[i]) * 10 + digit_val(s[i + 1])
}

pub open spec fn digits2_at(s: Seq<char>, i: int) -> bool {
    is_digit(s[i]) && is_digit(s[i + 1])
}

/// The first position at or after `i` that does not hold a decimal digit.
pub open spec fn digits_end(s: Seq<char>, i: int) -> int
    decreases s.len() - i,
{
    if i < s.len() && is_digit(s[i]) {
        digits_end(s, i + 1)
    } else {
        i
    }
}

/// The nanosecond value denoted by the fraction digits `s[i..j]`: the
/// first nine digits weighted from 10^8 down, later digits ignored.
pub open spec fn nanos_val(s: Seq<char>, i: int, j: int, mult: int) -> int
    decreases j - i,
{
    if i >= j || mult <= 0 {
        0
    } else {
        digit_val(s[i]) * mult + nanos_val(s, i + 1, j, mult / 10)
    }
}

/// The offset denoted by `s[i..]`, in minutes east, provided it reaches
/// exactly to the end of `s`: 'Z' (or 'z'), or a signed hour:minute pair.
pub open spec fn parse_offset(s: Seq<char>, i: int) -> Option<int> {
    if i == s.len() - 1 && (s[i] == 'Z' || s[i] == 'z') {
        Some(0)
    } else if i == s.len() - 6 && (s[i] == '+' || s[i] == '-') && digits2_at(s, i + 1) && s[i + 3]
        == ':' && digits2_at(s, i + 4) {
        let h = two_digit_val(s, i + 1);
        let m = two_digit_val(s, i + 4);
        if h <= 23 && m <= 59 {
            Some(
                if s[i] == '-' {
                    -(h * 60 + m)
                } else {
                    h * 60 + m
                },
            )
        } else {
            None
        }
    } else {
        None
    }
}

/// The fixed-position part of the grammar: `DDDD-DD-DDTDD:DD:DD`, with a
/// lowercase 't' accepted for the separator.
pub open spec fn date_time_shape(s: Seq<char>) -> bool {
    &&& s.len() >= 20
    &&& is_digit(s[0]) && is_digit(s[1]) && is_digit(s[2]) && is_digit(s[3])
    &&& s[4] == '-' && digits2_at(s, 5) && s[7] == '-' && digits2_at(s, 8)
    &&& (s[10] == 'T' || s[10] == 't')
    &&& digits2_at(s, 11) && s[13] == ':' && digits2_at(s, 14) && s[16] == ':' && digits2_at(s, 17)
}

/// Strict RFC 3339 parsing: the fixed date-time shape, an optional
/// fraction of at least one digit, and an offset reaching the end.
/// Out-of-range calendar or clock values are rejected; a second of 60,
/// which the grammar admits for a leap second, is kept as it stands.
pub open spec fn parse_rfc3339(s: Seq<char>) -> Option<Timestamp> {
    if !date_time_shape(s) {
        None
    } else {
        let year = digit_val(s[0]) * 1000 + digit_val(s[1]) * 100 + digit_val(s[2]) * 10
            + digit_val(s[3]);
        let month = two_digit_val(s, 5);
        let day = two_digit_val(s, 8);
        let hour = two_digit_val(s, 11);
        let minute = two_digit_val(s, 14);
        let second = two_digit_val(s, 17);
        let has_frac = s[19] == '.';
        let off_i = if has_frac {
            digits_end(s, 20)
        } else {
            19
        };
        let nanos = if has_frac {
            nanos_val(s, 20, off_i, 100_000_000)
        } else {
            0
        };
        if has_frac && off_i == 20 {
            None
        } else {
            match parse_offset(s, off_i) {
                Option::None => None,
                Option::Some(off) => {
                    if 1 <= month <= 12 && 1 <= day <= days_in_month(year, month) && hour <= 23
                        && minute <= 59 && second <= 60 {
                        Some(
                            Timestamp {
                                year: year as u16,
                                month: month as u8,
                                day: day as u8,
                                hour: hour as u8,
                                minute: minute as u8,
                                second: second as u8,
                                nanosecond: nanos as u32,
                                offset_minutes: off as i16,
                            },
                        )
                    } else {
                        None
                    }
                },
            }
        }
    }
}

// ---------------------------------------------------------------------------
// Arithmetic helpers for the digit decompositions.
// ---------------------------------------------------------------------------

proof fn lemma_place_split(n: int, p: int)
    requires
        0 <= n,
        1 <= p,
    ensures
        n / p == 10 * (n / (10 * p)) + (n / p) % 10,
        0 <= (n / p) % 10 < 10,
        0 <= n / (10 * p),
{
    lemma_div_denominator(n, p, 10);
    lemma_fundamental_div_mod(n / p, 10);
    lemma_div_pos_is_pos(n, p);
    lemma_div_pos_is_pos(n, 10 * p);
}

proof fn lemma_year_digits(y: int)
    requires
        0 <= y <= 9999,
    ensures
        (y / 1000 % 10) * 1000 + (y / 100 % 10) * 100 + (y / 10 % 10) * 10 + y % 10 == y,
        y / 1000 % 10 == y / 1000,
{
    lemma_fundamental_div_mod(y, 10);
    lemma_place_split(y, 10);
    lemma_place_split(y, 100);
    lemma_fundamental_div_mod(y, 1000);
    assert(y / 1000 <= 9);
}

proof fn lemma_nanos_digits(n: int)
    requires
        0 <= n <= 999_999_999,
    ensures
        (n / 100_000_000 % 10) * 100_000_000 + (n / 10_000_000 % 10) * 10_000_000 + (n / 1_000_000
            % 10) * 1_000_000 + (n / 100_000 % 10) * 100_000 + (n / 10_000 % 10) * 10_000 + (n
            / 1000 % 10) * 1000 + (n / 100 % 10) * 100 + (n / 10 % 10) * 10 + n % 10 == n,
        n / 100_000_000 % 10 == n / 100_000_000,
{
    lemma_fundamental_div_mod(n, 10);
    lemma_place_split(n, 10);
    lemma_place_split(n, 100);
    lemma_place_split(n, 1000);
    lemma_place_split(n, 10_000);
    lemma_place_split(n, 100_000);
    lemma_place_split(n, 1_000_000);
    lemma_place_split(n, 10_000_000);
    lemma_fundamental_div_mod(n, 100_000_000);
    assert(n / 100_000_000 <= 9);
}

/// Fraction digits denote a value within the nanosecond range.
proof fn lemma_nanos_val_bound(s: Seq<char>, i: int, j: int, mult: int)
    requires
        0 <= mult,
        forall|k: int| i <= k < j ==> is_digit(#[trigger] s[k]),
    ensures
        0 <= nanos_val(s, i, j, mult),
        1 <= mult ==> nanos_val(s, i, j, mult) <= 10 * mult - 1,
    decreases j - i,
{
    if i >= j || mult <= 0 {
    } else {
        assert(is_digit(s[i]));
        let d = digit_val(s[i]);
        lemma_fundamental_div_mod(mult, 10);
        lemma_nanos_val_bound(s, i + 1, j, mult / 10);
        assert(0 <= d * mult <= 9 * mult) by (nonlinear_arith)
            requires
                0 <= d <= 9,
                1 <= mult,
        ;
    }
}

// ---------------------------------------------------------------------------
// Executable rendering.
// ---------------------------------------------------------------------------

fn digit_to_char(d: u32) -> (c: char)
    requires
        d <= 9,
    ensures
        c == digit_char(d as int),
{
    (48 + d as u8) as char
}

fn push_dec2(v: &mut Vec<char>, n: u32)
    requires
        n <= 99,
    ensures
        final(v)@ == old(v)@ + dec2(n as int),
{
    v.push(digit_to_char(n / 10 % 10));
    v.push(digit_to_char(n % 10));
    proof {
        assert(v@ =~= old(v)@ + dec2(n as int));
    }
}

impl Timestamp {
    /// The canonical RFC 3339 rendering of this timestamp as characters.
    #[verifier::rlimit(100)]
    pub fn to_chars(&self) -> (v: Vec<char>)
        requires
            self.well_formed(),
        ensures
            v@ == rfc3339_chars(*self),
    {
        let mut v: Vec<char> = Vec::new();
        let y = self.year as u32;
        v.push(digit_to_char(y / 1000 % 10));
        v.push(digit_to_char(y / 100 % 10));
        v.push(digit_to_char(y / 10 % 10));
        v.push(digit_to_char(y % 10));
        v.push('-');
        push_dec2(&mut v, self.month as u32);
        v.push('-');
        push_dec2(&mut v, self.day as u32);
        v.push('T');
        push_dec2(&mut v, self.hour as u32);
        v.push(':');
        push_dec2(&mut v, self.minute as u32);
        v.push(':');
        push_dec2(&mut v, self.second as u32);
        proof {
            assert(v@ =~= date_time_head(*self));
        }
        let ghost head = v@;
        if self.nanosecond != 0 {
            let ns = self.nanosecond;
            v.push('.');
            v.push(digit_to_char(ns / 100_000_000 % 10));
            v.push(digit_to_char(ns / 10_000_000 % 10));
            v.push(digit_to_char(ns / 1_000_000 % 10));
            v.push(digit_to_char(ns / 100_000 % 10));
            v.push(digit_to_char(ns / 10_000 % 10));
            v.push(digit_to_char(ns / 1000 % 10));
            v.push(digit_to_char(ns / 100 % 10));
            v.push(digit_to_char(ns / 10 % 10));
            v.push(digit_to_char(ns % 10));
            proof {
                assert(v@ =~= head + (seq!['.'] + dec9(self.nanosecond as int)));
            }
        }
        proof {
            assert(v@ =~= head + frac_chars(*self));
        }
        let ghost mid = v@;
        let off = self.offset_minutes;
        let a: u32 = if off < 0 {
            (-(off as i32)) as u32
        } else {
            off as u32
        };
        v.push(
            if off < 0 {
                '-'
            } else {
                '+'
            },
        );
        push_dec2(&mut v, a / 60);
        v.push(':');
        push_dec2(&mut v, a % 60);
        proof {
            assert(v@ =~= mid + offset_chars(self.offset_minutes as int));
            assert(v@ =~= rfc3339_chars(*self));
        }
        v
    }
}

// ---------------------------------------------------------------------------
// Executable parsing.
// ---------------------------------------------------------------------------

fn is_digit_char(c: char) -> (r: bool)
    ensures
        r == is_digit(c),
{
    let u = c as u32;
    48 <= u && u <= 57
}

fn digit_value(c: char) -> (r: u32)
    requires
        is_digit(c),
    ensures
        r as int == digit_val(c),
{
    c as u32 - 48
}

fn two_digits_at(s: &Vec<char>, i: usize) -> (r: Option<u32>)
    requires
        i + 2 <= s@.len(),
    ensures
        match r {
            Option::Some(n) => digits2_at(s@, i as int) && n as int == two_digit_val(s@, i as int)
                && n <= 99,
            Option::None => !digits2_at(s@, i as int),
        },
{
    let n = s.len();
    let a = s[i];
    let b = s[i + 1];
    if is_digit_char(a) && is_digit_char(b) {
        Some(digit_value(a) * 10 + digit_value(b))
    } else {
        None
    }
}

/// Parse the offset tail `s[i..]`, as `parse_offset` describes it.
fn parse_offset_chars(s: &Vec<char>, i: usize) -> (r: Option<i16>)
    requires
        i <= s@.len(),
    ensures
        match r {
            Option::Some(o) => parse_offset(s@, i as int) == Some(o as int) && -1439 <= o <= 1439,
            Option::None => parse_offset(s@, i as int) is None,
        },
{
    let n = s.len();
    if i < n && n - i == 1 && (s[i] == 'Z' || s[i] == 'z') {
        return Some(0);
    }
    if i < n && n - i == 6 && (s[i] == '+' || s[i] == '-') && s[i + 3] == ':' {
        let h = match two_digits_at(s, i + 1) {
            Option::Some(h) => h,
            Option::None => {
                return None;
            },
        };
        let m = match two_digits_at(s, i + 4) {
            Option::Some(m) => m,
            Option::None => {
                return None;
            },
        };
        if h <= 23 && m <= 59 {
            let total = (h * 60 + m) as i16;
            if s[i] == '-' {
                return Some(-total);
            } else {
                return Some(total);
            }
        } else {
            return None;
        }
    }
    None
}

/// Strict RFC 3339 parsing of a whole field, as `parse_rfc3339`
/// describes it.
pub fn parse_rfc3339_chars(s: &Vec<char>) -> (r: Option<Timestamp>)
    ensures
        r == parse_rfc3339(s@),
{
    let n = s.len();
    if n < 20 {
        return None;
    }
    if !(is_digit_char(s[0]) && is_digit_char(s[1]) && is_digit_char(s[2]) && is_digit_char(s[3])) {
        return None;
    }
    if !(s[4] == '-' && s[7] == '-' && (s[10] == 'T' || s[10] == 't') && s[13] == ':' && s[16]
        == ':') {
        return None;
    }
    let year = digit_value(s[0]) * 1000 + digit_value(s[1]) * 100 + digit_value(s[2]) * 10
        + digit_value(s[3]);
    let month = match two_digits_at(s, 5) {
        Option::Some(v) => v,
        Option::None => {
            return None;
        },
    };
    let day = match two_digits_at(s, 8) {
        Option::Some(v) => v,
        Option::None => {
            return None;
        },
    };
    let hour = match two_digits_at(s, 11) {
        Option::Some(v) => v,
        Option::None => {
            return None;
        },
    };
    let minute = match two_digits_at(s, 14) {
        Option::Some(v) => v,
        Option::None => {
            return None;
        },
    };
    let second = match two_digits_at(s, 17) {
        Option::Some(v) => v,
        Option::None => {
            return None;
        },
    };
    proof {
        assert(date_time_shape(s@));
    }
    let has_frac = s[19] == '.';
    let mut off_i: usize = 19;
    let mut nanos: u32 = 0;
    if has_frac {
        let ghost de = digits_end(s@, 20);
        let mut j: usize = 20;
        let mut mult: u32 = 100_000_000;
        let mut acc: u32 = 0;
        proof {
            lemma_digits_end_digits(s@, 20);
            lemma_nanos_val_bound(s@, 20, de, 100_000_000);
        }
        while j < n && is_digit_char(s[j])
            invariant
                20 <= j <= n,
                n == s@.len(),
                de == digits_end(s@, 20),
                de == digits_end(s@, j as int),
                j <= de,
                mult <= 100_000_000,
                acc + nanos_val(s@, j as int, de, mult as int) == nanos_val(
                    s@,
                    20,
                    de,
                    100_000_000,
                ),
                nanos_val(s@, 20, de, 100_000_000) <= 999_999_999,
                acc <= 999_999_999,
            decreases n - j,
        {
            proof {
                lemma_digits_end_digits(s@, 20);
                assert(digits_end(s@, j as int) == digits_end(s@, j + 1));
                lemma_digits_end_digits(s@, j + 1);
                assert(j < de);
                lemma_nanos_val_bound(s@, j as int, de, mult as int);
                lemma_nanos_val_bound(s@, j + 1, de, mult as int / 10);
                assert(is_digit(s@[j as int]));
                assert(0 <= digit_val(s@[j as int]) * (mult as int) <= 900_000_000)
                    by (nonlinear_arith)
                    requires
                        0 <= digit_val(s@[j as int]) <= 9,
                        0 <= mult <= 100_000_000,
                ;
                if mult == 0 {
                    assert(nanos_val(s@, j as int, de, mult as int) == 0);
                    assert(nanos_val(s@, j + 1, de, mult as int / 10) == 0);
                    assert(digit_val(s@[j as int]) * (mult as int) == 0) by (nonlinear_arith)
                        requires
                            mult == 0,
                    ;
                }
                assert(nanos_val(s@, j as int, de, mult as int) == digit_val(
                    s@[j as int],
                ) * (mult as int) + nanos_val(s@, j + 1, de, mult as int / 10));
            }
            let d = digit_value(s[j]);
            acc = acc + d * mult;
            mult = mult / 10;
            j = j + 1;
        }
        proof {
            assert(digits_end(s@, j as int) == j as int);
            assert(nanos_val(s@, j as int, j as int, mult as int) == 0);
        }
        if j == 20 {
            proof {
                assert(parse_rfc3339(s@) is None);
            }
            return None;
        }
        off_i = j;
        nanos = acc;
    }
    let off = match parse_offset_chars(s, off_i) {
        Option::Some(o) => o,
        Option::None => {
            return None;
        },
    };
    if !(1 <= month && month <= 12) {
        return None;
    }
    if year > 9999 {
        return None;
    }
    let dim = days_in_month_exec(year as u16, month as u8);
    if !(1 <= day && day <= dim as u32) {
        return None;
    }
    if !(hour <= 23 && minute <= 59 && second <= 60) {
        return None;
    }
    Some(
        Timestamp {
            year: year as u16,
            month: month as u8,
            day: day as u8,
            hour: hour as u8,
            minute: minute as u8,
            second: second as u8,
            nanosecond: nanos,
            offset_minutes: off,
        },
    )
}

/// Whatever parses is a well-formed timestamp.
pub proof fn lemma_parse_well_formed(s: Seq<char>)
    ensures
        parse_rfc3339(s) matches Some(t) ==> t.well_formed(),
{
    if parse_rfc3339(s) is Some {
        if date_time_shape(s) && s[19] == '.' {
            let j = digits_end(s, 20);
            lemma_digits_end_digits(s, 20);
            lemma_nanos_val_bound(s, 20, j, 100_000_000);
        }
    }
}

/// Every position before `digits_end` holds a digit.
proof fn lemma_digits_end_digits(s: Seq<char>, i: int)
    ensures
        forall|k: int| i <= k < digits_end(s, i) ==> is_digit(#[trigger] s[k]),
        digits_end(s, i) >= i,
    decreases s.len() - i,
{
    if i < s.len() && is_digit(s[i]) {
        lemma_digits_end_digits(s, i + 1);
    }
}

// ---------------------------------------------------------------------------
// The round trip: parsing the canonical rendering restores the value.
// ---------------------------------------------------------------------------

/// Rendering a well-formed timestamp and parsing the result restores it
/// exactly, offset included.
/// Any digit renders as a digit character that reads back as itself.
proof fn lemma_digit_char_facts()
    ensures
        forall|d: int|
            0 <= d <= 9 ==> is_digit(#[trigger] digit_char(d)) && digit_val(digit_char(d)) == d,
{
}

/// The date-time head of a rendering, spelled out character by character.
proof fn lemma_head_literal(t: Timestamp)
    ensures
        date_time_head(t) =~= seq![
            digit_char(t.year as int / 1000 % 10),
            digit_char(t.year as int / 100 % 10),
            digit_char(t.year as int / 10 % 10),
            digit_char(t.year as int % 10),
            '-',
            digit_char(t.month as int / 10 % 10),
            digit_char(t.month as int % 10),
            '-',
            digit_char(t.day as int / 10 % 10),
            digit_char(t.day as int % 10),
            'T',
            digit_char(t.hour as int / 10 % 10),
            digit_char(t.hour as int % 10),
            ':',
            digit_char(t.minute as int / 10 % 10),
            digit_char(t.minute as int % 10),
            ':',
            digit_char(t.second as int / 10 % 10),
            digit_char(t.second as int % 10),
        ],
{
}

/// The rendered offset, spelled out character by character.
proof fn lemma_offset_literal(off: int)
    ensures
        offset_chars(off) =~= seq![
            if off < 0 {
                '-'
            } else {
                '+'
            },
            digit_char((if off < 0 {
                -off
            } else {
                off
            }) / 60 / 10 % 10),
            digit_char((if off < 0 {
                -off
            } else {
                off
            }) / 60 % 10),
            ':',
            digit_char((if off < 0 {
                -off
            } else {
                off
            }) % 60 / 10 % 10),
            digit_char((if off < 0 {
                -off
            } else {
                off
            }) % 60 % 10),
        ],
{
}

/// Rendering a well-formed timestamp and parsing the result restores it
/// exactly, offset included.
#[verifier::rlimit(100)]
pub proof fn lemma_rfc3339_round_trip(t: Timestamp)
    requires
        t.well_formed(),
    ensures
        parse_rfc3339(rfc3339_chars(t)) == Some(t),
{
    let s = rfc3339_chars(t);
    let y = t.year as int;
    let ns = t.nanosecond as int;
    let off = t.offset_minutes as int;
    let a = if off < 0 {
        -off
    } else {
        off
    };
    lemma_digit_char_facts();
    lemma_head_literal(t);
    lemma_offset_literal(off);
    lemma_year_digits(y);
    lemma_fundamental_div_mod(a, 60);
    assert(a / 60 <= 23) by {
        lemma_div_pos_is_pos(a, 60);
    };
    if t.nanosecond == 0 {
        assert(s =~= seq![
            digit_char(y / 1000 % 10),
            digit_char(y / 100 % 10),
            digit_char(y / 10 % 10),
            digit_char(y % 10),
            '-',
            digit_char(t.month as int / 10 % 10),
            digit_char(t.month as int % 10),
            '-',
            digit_char(t.day as int / 10 % 10),
            digit_char(t.day as int % 10),
            'T',
            digit_char(t.hour as int / 10 % 10),
            digit_char(t.hour as int % 10),
            ':',
            digit_char(t.minute as int / 10 % 10),
            digit_char(t.minute as int % 10),
            ':',
            digit_char(t.second as int / 10 % 10),
            digit_char(t.second as int % 10),
            if off < 0 {
                '-'
            } else {
                '+'
            },
            digit_char(a / 60 / 10 % 10),
            digit_char(a / 60 % 10),
            ':',
            digit_char(a % 60 / 10 % 10),
            digit_char(a % 60 % 10),
        ]);
        assert(date_time_shape(s));
        assert(parse_offset(s, 19) == Some(off)) by {
            lemma_two_digit_round(s, 20, a / 60);
            lemma_two_digit_round(s, 23, a % 60);
        };
        lemma_fixed_fields(s, t);
    } else {
        lemma_nanos_digits(ns);
        assert(s =~= seq![
            digit_char(y / 1000 % 10),
            digit_char(y / 100 % 10),
            digit_char(y / 10 % 10),
            digit_char(y % 10),
            '-',
            digit_char(t.month as int / 10 % 10),
            digit_char(t.month as int % 10),
            '-',
            digit_char(t.day as int / 10 % 10),
            digit_char(t.day as int % 10),
            'T',
            digit_char(t.hour as int / 10 % 10),
            digit_char(t.hour as int % 10),
            ':',
            digit_char(t.minute as int / 10 % 10),
            digit_char(t.minute as int % 10),
            ':',
            digit_char(t.second as int / 10 % 10),
            digit_char(t.second as int % 10),
            '.',
            digit_char(ns / 100_000_000 % 10),
            digit_char(ns / 10_000_000 % 10),
            digit_char(ns / 1_000_000 % 10),
            digit_char(ns / 100_000 % 10),
            digit_char(ns / 10_000 % 10),
            digit_char(ns / 1000 % 10),
            digit_char(ns / 100 % 10),
            digit_char(ns / 10 % 10),
            digit_char(ns % 10),
            if off < 0 {
                '-'
            } else {
                '+'
            },
            digit_char(a / 60 / 10 % 10),
            digit_char(a / 60 % 10),
            ':',
            digit_char(a % 60 / 10 % 10),
            digit_char(a % 60 % 10),
        ]);
        assert(date_time_shape(s));
        assert(digits_end(s, 29) == 29);
        assert(digits_end(s, 28) == 29);
        assert(digits_end(s, 27) == 29);
        assert(digits_end(s, 26) == 29);
        assert(digits_end(s, 25) == 29);
        assert(digits_end(s, 24) == 29);
        assert(digits_end(s, 23) == 29);
        assert(digits_end(s, 22) == 29);
        assert(digits_end(s, 21) == 29);
        assert(digits_end(s, 20) == 29);
        assert(nanos_val(s, 20, 29, 100_000_000) == ns) by {
            lemma_nanos_unroll(s, ns);
        };
        assert(parse_offset(s, 29) == Some(off)) by {
            lemma_two_digit_round(s, 30, a / 60);
            lemma_two_digit_round(s, 33, a % 60);
        };
        lemma_fixed_fields(s, t);
    }
}

/// Two rendered digits at `i` read back as the rendered value.
proof fn lemma_two_digit_round(s: Seq<char>, i: int, n: int)
    requires
        0 <= n <= 99,
        0 <= i,
        i + 2 <= s.len(),
        s[i] == digit_char(n / 10 % 10),
        s[i + 1] == digit_char(n % 10),
    ensures
        digits2_at(s, i),
        two_digit_val(s, i) == n,
{
    lemma_fundamental_div_mod(n, 10);
    assert(n / 10 <= 9);
}

/// The date and time digits of a rendering read back as the fields.
proof fn lemma_fixed_fields(s: Seq<char>, t: Timestamp)
    requires
        t.well_formed(),
        date_time_shape(s),
        s[0] == digit_char(t.year as int / 1000 % 10),
        s[1] == digit_char(t.year as int / 100 % 10),
        s[2] == digit_char(t.year as int / 10 % 10),
        s[3] == digit_char(t.year as int % 10),
        s[5] == digit_char(t.month as int / 10 % 10),
        s[6] == digit_char(t.month as int % 10),
        s[8] == digit_char(t.day as int / 10 % 10),
        s[9] == digit_char(t.day as int % 10),
        s[11] == digit_char(t.hour as int / 10 % 10),
        s[12] == digit_char(t.hour as int % 10),
        s[14] == digit_char(t.minute as int / 10 % 10),
        s[15] == digit_char(t.minute as int % 10),
        s[17] == digit_char(t.second as int / 10 % 10),
        s[18] == digit_char(t.second as int % 10),
    ensures
        digit_val(s[0]) * 1000 + digit_val(s[1]) * 100 + digit_val(s[2]) * 10 + digit_val(s[3])
            == t.year as int,
        two_digit_val(s, 5) == t.month as int,
        two_digit_val(s, 8) == t.day as int,
        two_digit_val(s, 11) == t.hour as int,
        two_digit_val(s, 14) == t.minute as int,
        two_digit_val(s, 17) == t.second as int,
{
    lemma_year_digits(t.year as int);
    lemma_two_digit_round(s, 5, t.month as int);
    lemma_two_digit_round(s, 8, t.day as int);
    lemma_two_digit_round(s, 11, t.hour as int);
    lemma_two_digit_round(s, 14, t.minute as int);
    lemma_two_digit_round(s, 17, t.second as int);
}

/// The nine rendered fraction digits read back as the value.
proof fn lemma_nanos_unroll(s: Seq<char>, ns: int)
    requires
        0 <= ns <= 999_999_999,
        s.len() >= 29,
        s[20] == digit_char(ns / 100_000_000 % 10),
        s[21] == digit_char(ns / 10_000_000 % 10),
        s[22] == digit_char(ns / 1_000_000 % 10),
        s[23] == digit_char(ns / 100_000 % 10),
        s[24] == digit_char(ns / 10_000 % 10),
        s[25] == digit_char(ns / 1000 % 10),
        s[26] == digit_char(ns / 100 % 10),
        s[27] == digit_char(ns / 10 % 10),
        s[28] == digit_char(ns % 10),
    ensures
        nanos_val(s, 20, 29, 100_000_000) == ns,
{
    lemma_nanos_digits(ns);
    assert(nanos_val(s, 29, 29, 0) == 0);
    assert(nanos_val(s, 28, 29, 1) == digit_val(s[28]) * 1);
    assert(nanos_val(s, 27, 29, 10) == digit_val(s[27]) * 10 + nanos_val(s, 28, 29, 1));
    assert(nanos_val(s, 26, 29, 100) == digit_val(s[26]) * 100 + nanos_val(s, 27, 29, 10));
    assert(nanos_val(s, 25, 29, 1000) == digit_val(s[25]) * 1000 + nanos_val(s, 26, 29, 100));
    assert(nanos_val(s, 24, 29, 10_000) == digit_val(s[24]) * 10_000 + nanos_val(s, 25, 29, 1000));
    assert(nanos_val(s, 23, 29, 100_000) == digit_val(s[23]) * 100_000 + nanos_val(
        s,
        24,
        29,
        10_000,
    ));
    assert(nanos_val(s, 22, 29, 1_000_000) == digit_val(s[22]) * 1_000_000 + nanos_val(
        s,
        23,
        29,
        100_000,
    ));
    assert(nanos_val(s, 21, 29, 10_000_000) == digit_val(s[21]) * 10_000_000 + nanos_val(
        s,
        22,
        29,
        1_000_000,
    ));
    assert(nanos_val(s, 20, 29, 100_000_000) == digit_val(s[20]) * 100_000_000 + nanos_val(
        s,
        21,
        29,
        10_000_000,
    ));
}

/// No character of a rendering needs CSV quoting: every character is a
/// digit or one of the fixed separators, never a comma, a quote or a
/// line break.
#[verifier::rlimit(60)]
pub proof fn lemma_rfc3339_no_specials(t: Timestamp)
    requires
        t.well_formed(),
    ensures
        forall|k: int|
            0 <= k < rfc3339_chars(t).len() ==> rfc3339_chars(t)[k] != ','
                && rfc3339_chars(t)[k] != '"' && #[trigger] rfc3339_chars(t)[k] != '\n'
                && rfc3339_chars(t)[k] != '\r',
{
    let s = rfc3339_chars(t);
    let h = date_time_head(t);
    let fr = frac_chars(t);
    let off = offset_chars(t.offset_minutes as int);
    lemma_digit_char_facts();
    lemma_head_literal(t);
    lemma_offset_literal(t.offset_minutes as int);
    let ns = t.nanosecond as int;
    if t.nanosecond != 0 {
        assert(fr =~= seq![
            '.',
            digit_char(ns / 100_000_000 % 10),
            digit_char(ns / 10_000_000 % 10),
            digit_char(ns / 1_000_000 % 10),
            digit_char(ns / 100_000 % 10),
            digit_char(ns / 10_000 % 10),
            digit_char(ns / 1000 % 10),
            digit_char(ns / 100 % 10),
            digit_char(ns / 10 % 10),
            digit_char(ns % 10),
        ]);
    }
    assert(h.len() == 19 && off.len() == 6);
    assert forall|k: int|
        0 <= k < s.len() implies s[k] != ',' && s[k] != '"' && #[trigger] s[k] != '\n' && s[k]
        != '\r' by {
        if k < 19 {
            assert(s[k] == h[k]);
        } else if k < 19 + fr.len() {
            assert(s[k] == fr[k - 19]);
        } else {
            assert(s[k] == off[k - 19 - fr.len()]);
        }
    }
}

} // verus!
