//! Calendar dates: validity, strict `YYYY-MM-DD` parsing, and small text
//! helpers.
//!
//! A `CalendarDate` is a plain (year, month, day) triple in the proleptic
//! Gregorian calendar, valid only for real dates within the year range
//! -9999..=9999.

use vstd::prelude::*;
use vstd::string::StringExecFns;

verus! {

/// A proleptic Gregorian calendar date.
#[derive(Clone, Copy, PartialEq, Eq, Structural, Debug)]
pub struct CalendarDate {
    pub year: i32,
    pub month: u8,
    pub day: u8,
}

/// Gregorian leap-year rule.
pub open spec fn is_leap_year(y: int) -> bool {
    y % 4 == 0 && (y % 100 != 0 || y % 400 == 0)
}

/// Number of days in the given month of the given year.
pub open spec fn days_in_month_spec(y: int, m: int) -> int {
    if m == 2 {
        if is_leap_year(y) {
            29
        } else {
            28
        }
    } else if m == 4 || m == 6 || m == 9 || m == 11 {
        30
    } else {
        31
    }
}

/// A real calendar date within the supported year range.
pub open spec fn valid_date(y: int, m: int, d: int) -> bool {
    &&& -9999 <= y <= 9999
    &&& 1 <= m <= 12
    &&& 1 <= d <= days_in_month_spec(y, m)
}

impl CalendarDate {
    /// Well-formedness of the triple as a real calendar date.
    pub open spec fn valid(self) -> bool {
        valid_date(self.year as int, self.month as int, self.day as int)
    }
}

/// Leap-year test over the supported year range.
pub fn is_leap_year_exec(y: i32) -> (r: bool)
    requires
        -9999 <= y <= 9999,
    ensures
        r == is_leap_year(y as int),
{
    // Shift by a multiple of the 400-year cycle to stay in unsigned range.
    let n: u32 = (y + 10000) as u32;
    proof {
        vstd::arithmetic::div_mod::lemma_mod_add_multiples_vanish(y as int, 4);
        vstd::arithmetic::div_mod::lemma_mod_add_multiples_vanish(y as int, 100);
        vstd::arithmetic::div_mod::lemma_mod_add_multiples_vanish(y as int, 400);
        assert(n as int == y as int + 2500 * 4);
        assert(n as int == y as int + 100 * 100);
        assert(n as int == y as int + 25 * 400);
    }
    n % 4 == 0 && (n % 100 != 0 || n % 400 == 0)
}

/// Number of days in the given month.
pub fn days_in_month(y: i32, m: u8) -> (r: u8)
    requires
        -9999 <= y <= 9999,
        1 <= m <= 12,
    ensures
        r == days_in_month_spec(y as int, m as int),
{
    if m == 2 {
        if is_leap_year_exec(y) {
            29
        } else {
            28
        }
    } else if m == 4 || m == 6 || m == 9 || m == 11 {
        30
    } else {
        31
    }
}

/// First character of a string, or a default when it is empty.
pub fn first_char(s: &str, default: char) -> (r: char)
    ensures
        r == if s@.len() == 0 {
            default
        } else {
            s@[0]
        },
{
    if s.unicode_len() == 0 {
        default
    } else {
        s.get_char(0)
    }
}

/// An ASCII decimal digit.
pub open spec fn is_digit(c: char) -> bool {
    48 <= c as u32 <= 57
}

/// The value of an ASCII decimal digit.
pub open spec fn digit_val(c: char) -> int {
    c as u32 - 48
}

/// Every character of the sequence is a decimal digit.
pub open spec fn all_digits(f: Seq<char>) -> bool {
    forall|t: int| 0 <= t < f.len() ==> is_digit(#[trigger] f[t])
}

/// An unsigned integer field as the standard integer parser accepts it: an
/// optional leading plus sign followed by at least one decimal digit.
pub open spec fn uint_field_ok(f: Seq<char>) -> bool {
    if f.len() == 0 {
        false
    } else if f[0] == '+' {
        f.len() >= 2 && all_digits(f.skip(1))
    } else {
        all_digits(f)
    }
}

/// The value of a sequence of decimal digits.
pub open spec fn digits_val(f: Seq<char>) -> int
    decreases f.len(),
{
    if f.len() == 0 {
        0
    } else {
        10 * digits_val(f.drop_last()) + digit_val(f.last())
    }
}

/// The value of an unsigned integer field, sign included.
pub open spec fn uint_field_val(f: Seq<char>) -> int {
    if f.len() > 0 && f[0] == '+' {
        digits_val(f.skip(1))
    } else {
        digits_val(f)
    }
}

/// The number of '-' separators in the text.
pub open spec fn count_dashes(s: Seq<char>) -> int
    decreases s.len(),
{
    if s.len() == 0 {
        0
    } else {
        count_dashes(s.drop_last()) + if s.last() == '-' {
            1int
        } else {
            0int
        }
    }
}

/// Index of the first '-' in the text, or its length when there is none.
pub open spec fn first_dash(s: Seq<char>) -> int
    decreases s.len(),
{
    if s.len() == 0 {
        0
    } else if s[0] == '-' {
        0
    } else {
        1 + first_dash(s.skip(1))
    }
}

/// The text is shaped like three '-'-separated fields.
pub open spec fn ymd_shape_ok(s: Seq<char>) -> bool {
    count_dashes(s) == 2
}

/// The year field: everything before the first dash.
pub open spec fn year_field(s: Seq<char>) -> Seq<char> {
    s.take(first_dash(s))
}

/// The month field: everything between the two dashes.
pub open spec fn month_field(s: Seq<char>) -> Seq<char> {
    let d1 = first_dash(s);
    let d2 = d1 + 1 + first_dash(s.skip(d1 + 1));
    s.subrange(d1 + 1, d2)
}

/// The day field: everything after the second dash.
pub open spec fn day_field(s: Seq<char>) -> Seq<char> {
    let d1 = first_dash(s);
    let d2 = d1 + 1 + first_dash(s.skip(d1 + 1));
    s.skip(d2 + 1)
}

/// The year field parses as a 32-bit integer.
pub open spec fn year_ok(s: Seq<char>) -> bool {
    uint_field_ok(year_field(s)) && uint_field_val(year_field(s)) <= 2147483647
}

/// The month field parses as an 8-bit integer.
pub open spec fn month_ok(s: Seq<char>) -> bool {
    uint_field_ok(month_field(s)) && uint_field_val(month_field(s)) <= 255
}

/// The day field parses as an 8-bit integer.
pub open spec fn day_ok(s: Seq<char>) -> bool {
    uint_field_ok(day_field(s)) && uint_field_val(day_field(s)) <= 255
}

/// The month value is a real month number.
pub open spec fn month_in_range(s: Seq<char>) -> bool {
    1 <= uint_field_val(month_field(s)) <= 12
}

/// The three field values name a real calendar date.
pub open spec fn text_date_valid(s: Seq<char>) -> bool {
    valid_date(uint_field_val(year_field(s)), uint_field_val(month_field(s)), uint_field_val(day_field(s)))
}

/// The whole text parses as a valid date.
pub open spec fn parse_ok(s: Seq<char>) -> bool {
    &&& ymd_shape_ok(s)
    &&& year_ok(s)
    &&& month_ok(s)
    &&& day_ok(s)
    &&& month_in_range(s)
    &&& text_date_valid(s)
}

/// The first index with no earlier dash that holds a dash is the first dash.
proof fn lemma_first_dash_at(s: Seq<char>, j: int)
    requires
        0 <= j < s.len(),
        s[j] == '-',
        forall|k: int| 0 <= k < j ==> s[k] != '-',
    ensures
        first_dash(s) == j,
    decreases j,
{
    if j > 0 {
        lemma_first_dash_at(s.skip(1), j - 1);
    }
}

/// Appending one character to a digit run multiplies its value by ten.
proof fn lemma_digits_val_step(f: Seq<char>, t: int)
    requires
        0 <= t < f.len(),
    ensures
        digits_val(f.take(t + 1)) == 10 * digits_val(f.take(t)) + digit_val(f[t]),
{
    assert(f.take(t + 1).drop_last() =~= f.take(t));
    assert(f.take(t + 1).last() == f[t]);
}

/// Parse the characters of `s` between `lo` and `hi` as an unsigned integer
/// of at most `max`, as the standard parser would: an optional '+' sign,
/// then decimal digits, rejecting values above `max`.
fn parse_uint_field(s: &str, lo: usize, hi: usize, max: u64) -> (r: Option<u64>)
    requires
        lo <= hi <= s@.len(),
        s@.len() < usize::MAX,
        max <= 2147483647,
    ensures
        r is Some <==> (uint_field_ok(s@.subrange(lo as int, hi as int)) && uint_field_val(
            s@.subrange(lo as int, hi as int),
        ) <= max),
        r matches Some(v) ==> v == uint_field_val(s@.subrange(lo as int, hi as int)),
{
    let ghost sub = s@.subrange(lo as int, hi as int);
    if lo == hi {
        return None;
    }
    let first: char = s.get_char(lo);
    let plus: bool = first == '+';
    let start: usize = if plus {
        lo + 1
    } else {
        lo
    };
    if plus && start == hi {
        return None;
    }
    let ghost dseq = if plus {
        sub.skip(1)
    } else {
        sub
    };
    proof {
        assert(dseq.len() == hi - start);
        assert(forall|k: int| 0 <= k < dseq.len() ==> dseq[k] == s@[start + k]);
    }
    let mut acc: u64 = 0;
    let mut t: usize = start;
    while t < hi
        invariant
            lo <= start <= t <= hi <= s@.len(),
            lo < hi,
            s@.len() < usize::MAX,
            max <= 2147483647,
            sub == s@.subrange(lo as int, hi as int),
            plus == (sub[0] == '+'),
            dseq == if plus {
                sub.skip(1)
            } else {
                sub
            },
            dseq.len() == hi - start,
            forall|k: int| 0 <= k < dseq.len() ==> dseq[k] == s@[start + k],
            all_digits(dseq.take(t - start)),
            acc <= 4_000_000_000,
            digits_val(dseq.take(t - start)) <= max ==> acc == digits_val(dseq.take(t - start)),
            digits_val(dseq.take(t - start)) > max ==> acc > max,
        decreases hi - t,
    {
        let c: char = s.get_char(t);
        let u: u32 = c as u32;
        if u < 48 || u > 57 {
            proof {
                let idx = t - start;
                assert(dseq[idx] == c);
                assert(!is_digit(dseq[idx]));
                assert(!all_digits(dseq));
                if plus {
                    assert(sub[0] == '+');
                }
                assert(!uint_field_ok(sub));
            }
            return None;
        }
        let d: u64 = (u - 48) as u64;
        let grow: u64 = acc * 10 + d;
        let clamped: u64 = if grow > 4_000_000_000 {
            4_000_000_000
        } else {
            grow
        };
        proof {
            let idx = t - start;
            lemma_digits_val_step(dseq, idx);
            assert(dseq[idx] == c);
            assert(is_digit(dseq[idx]));
            assert(dseq.take(idx + 1) =~= dseq.take(idx).push(dseq[idx]));
            let v0 = digits_val(dseq.take(idx));
            let v1 = digits_val(dseq.take(idx + 1));
            assert(v1 == 10 * v0 + digit_val(c));
            assert(0 <= digit_val(c) <= 9);
            if v1 <= max {
                assert(0 <= v0);
                assert(v0 <= max);
                assert(acc == v0);
                assert(grow == v1);
                assert(clamped == v1);
            } else {
                if v0 <= max {
                    assert(acc == v0);
                    assert(grow == v1);
                    assert(clamped > max);
                } else {
                    assert(acc > max);
                    assert(grow >= 10 * acc);
                    assert(clamped > max);
                }
            }
        }
        acc = clamped;
        t = t + 1;
    }
    proof {
        assert(dseq.take(hi - start) =~= dseq);
        assert(all_digits(dseq));
        if plus {
            assert(sub[0] == '+');
            assert(sub.len() >= 2);
        } else {
            assert(sub.len() > 0);
            assert(sub[0] == s@[lo as int]);
            assert(sub[0] != '+');
        }
        assert(uint_field_ok(sub));
        assert(uint_field_val(sub) == digits_val(dseq));
    }
    if acc > max {
        None
    } else {
        Some(acc)
    }
}

/// Parse a strict `YYYY-MM-DD` text into a calendar date: three
/// '-'-separated unsigned integer fields (so the standard parser's leeway,
/// unpadded digits and a leading '+', is accepted), checked for full
/// calendar validity. Each failure names the first field that broke, in the
/// order the fields are read.
pub fn parse_date_ymd(s: &str) -> (r: Result<CalendarDate, String>)
    requires
        s@.len() < usize::MAX,
    ensures
        r is Ok <==> parse_ok(s@),
        r matches Ok(d) ==> {
            &&& d.year == uint_field_val(year_field(s@))
            &&& d.month == uint_field_val(month_field(s@))
            &&& d.day == uint_field_val(day_field(s@))
            &&& d.valid()
        },
        !ymd_shape_ok(s@) ==> (r matches Err(e) && e@ == "expected YYYY-MM-DD"@),
        ymd_shape_ok(s@) && !year_ok(s@) ==> (r matches Err(e) && e@ == "invalid year"@),
        ymd_shape_ok(s@) && year_ok(s@) && !month_ok(s@) ==> (r matches Err(e) && e@
            == "invalid month"@),
        ymd_shape_ok(s@) && year_ok(s@) && month_ok(s@) && !day_ok(s@) ==> (r matches Err(e) && e@
            == "invalid day"@),
        ymd_shape_ok(s@) && year_ok(s@) && month_ok(s@) && day_ok(s@) && !month_in_range(s@) ==> (
        r matches Err(e) && e@ == "month out of range"@),
        ymd_shape_ok(s@) && year_ok(s@) && month_ok(s@) && day_ok(s@) && month_in_range(s@)
            && !text_date_valid(s@) ==> (r matches Err(e) && e@ == "invalid date"@),
{
    let n: usize = s.unicode_len();
    let mut count: usize = 0;
    let mut d1: usize = 0;
    let mut d2: usize = 0;
    let mut i: usize = 0;
    while i < n
        invariant
            i <= n,
            n == s@.len(),
            n < usize::MAX,
            count <= i,
            count as int == count_dashes(s@.take(i as int)),
            count == 0 ==> forall|k: int| 0 <= k < i ==> s@[k] != '-',
            count >= 1 ==> d1 < i && s@[d1 as int] == '-' && (forall|k: int|
                0 <= k < d1 ==> s@[k] != '-'),
            count == 1 ==> forall|k: int| d1 < k < i ==> s@[k] != '-',
            count >= 2 ==> d1 < d2 < i && s@[d2 as int] == '-' && (forall|k: int|
                d1 < k < d2 ==> s@[k] != '-'),
        decreases n - i,
    {
        let c: char = s.get_char(i);
        proof {
            assert(s@.take(i + 1).drop_last() =~= s@.take(i as int));
            assert(s@.take(i + 1).last() == s@[i as int]);
        }
        if c == '-' {
            if count == 0 {
                d1 = i;
            } else if count == 1 {
                d2 = i;
            }
            count = count + 1;
        }
        i = i + 1;
    }
    proof {
        assert(s@.take(n as int) =~= s@);
    }
    if count != 2 {
        return Err(String::from_str("expected YYYY-MM-DD"));
    }
    proof {
        lemma_first_dash_at(s@, d1 as int);
        let rest = s@.skip(d1 as int + 1);
        assert(rest[d2 - d1 - 1] == s@[d2 as int]);
        assert(forall|k: int| 0 <= k < d2 - d1 - 1 ==> rest[k] == s@[d1 + 1 + k]);
        lemma_first_dash_at(rest, d2 as int - d1 as int - 1);
        assert(year_field(s@) =~= s@.subrange(0, d1 as int));
        assert(month_field(s@) =~= s@.subrange(d1 as int + 1, d2 as int));
        assert(day_field(s@) =~= s@.subrange(d2 as int + 1, n as int));
    }
    let y_parsed = parse_uint_field(s, 0, d1, 2147483647);
    let yv: u64 = match y_parsed {
        Some(v) => v,
        None => {
            return Err(String::from_str("invalid year"));
        },
    };
    let m_parsed = parse_uint_field(s, d1 + 1, d2, 255);
    let mv: u64 = match m_parsed {
        Some(v) => v,
        None => {
            return Err(String::from_str("invalid month"));
        },
    };
    let d_parsed = parse_uint_field(s, d2 + 1, n, 255);
    let dv: u64 = match d_parsed {
        Some(v) => v,
        None => {
            return Err(String::from_str("invalid day"));
        },
    };
    let month: u8 = mv as u8;
    if month < 1 || month > 12 {
        return Err(String::from_str("month out of range"));
    }
    let day: u8 = dv as u8;
    if yv > 9999 {
        return Err(String::from_str("invalid date"));
    }
    let year: i32 = yv as i32;
    if day < 1 || day > days_in_month(year, month) {
        return Err(String::from_str("invalid date"));
    }
    Ok(CalendarDate { year, month, day })
}

} // verus!
