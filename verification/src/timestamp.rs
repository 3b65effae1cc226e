//! The timestamp normalizer: raw wire string to canonical UTC instant.
//!
//! The upstream service emits the same logical field in several
//! serializations: timezone-aware (`2025-11-20T05:28:45Z`,
//! `2025-11-20T05:28:45+03:00`), naive with fractional seconds
//! (`2025-11-20T05:28:45.444128`), and naive without.  The normalizer
//! tries those strategies in that order, first match wins: an explicit
//! offset or `Z` is honored by converting to UTC, and a naive string
//! is, by contract with the service, UTC already.  Anything else fails
//! with `TimestampUnparseable`; no wrong timezone is ever substituted.

use vstd::prelude::*;

use crate::codec::chars_of_str;
use crate::errors::TimestampUnparseable;

verus! {

/// A timezone-aware point in time, normalized to UTC: seconds since the
/// Unix epoch and nanoseconds within the second.  Once produced it is
/// comparable and formattable without re-parsing.
#[derive(Clone, Copy, Debug, PartialEq, Eq, Structural)]
pub struct CanonicalTimestamp {
    /// Seconds since 1970-01-01T00:00:00Z; negative before the epoch.
    pub secs: i64,
    /// Nanoseconds within the second.
    pub nanos: u32,
}

impl CanonicalTimestamp {
    /// A canonical timestamp keeps its nanoseconds within one second.
    pub open spec fn wf(&self) -> bool {
        self.nanos < 1000000000
    }

    /// Whether this instant is no later than `other`.
    pub fn le(&self, other: &CanonicalTimestamp) -> (r: bool)
        ensures
            r == (self.secs < other.secs || (self.secs == other.secs && self.nanos
                <= other.nanos)),
    {
        self.secs < other.secs || (self.secs == other.secs && self.nanos <= other.nanos)
    }
}

/// An ASCII decimal digit.
pub open spec fn is_digit(c: char) -> bool {
    48 <= c as u32 <= 57
}

/// Value of one digit character.
pub open spec fn digit_val(c: char) -> int {
    c as u32 - 48
}

/// Two digit characters at positions `i`, `i + 1`.
pub open spec fn two_digits(s: Seq<char>, i: int) -> bool {
    is_digit(s[i]) && is_digit(s[i + 1])
}

/// The number written by two digits at position `i`.
pub open spec fn num2(s: Seq<char>, i: int) -> int {
    digit_val(s[i]) * 10 + digit_val(s[i + 1])
}

/// The number written by four digits at position `i`.
pub open spec fn num4(s: Seq<char>, i: int) -> int {
    digit_val(s[i]) * 1000 + digit_val(s[i + 1]) * 100 + digit_val(s[i + 2]) * 10 + digit_val(
        s[i + 3],
    )
}

/// The fixed `YYYY-MM-DDTHH:MM:SS` skeleton that every accepted form
/// begins with.
pub open spec fn core_shape(s: Seq<char>) -> bool {
    &&& s.len() >= 19
    &&& is_digit(s[0]) && is_digit(s[1]) && is_digit(s[2]) && is_digit(s[3])
    &&& s[4] == '-'
    &&& two_digits(s, 5)
    &&& s[7] == '-'
    &&& two_digits(s, 8)
    &&& s[10] == 'T'
    &&& two_digits(s, 11)
    &&& s[13] == ':'
    &&& two_digits(s, 14)
    &&& s[16] == ':'
    &&& two_digits(s, 17)
}

/// Gregorian leap year.
pub open spec fn is_leap(y: int) -> bool {
    (y % 4 == 0 && y % 100 != 0) || y % 400 == 0
}

/// Days in a month of the proleptic Gregorian calendar.
pub open spec fn days_in_month(y: int, m: int) -> int {
    if m == 4 || m == 6 || m == 9 || m == 11 {
        30
    } else if m == 2 {
        if is_leap(y) {
            29
        } else {
            28
        }
    } else {
        31
    }
}

/// A calendar date the normalizer accepts: four-digit year, real month
/// and day.
pub open spec fn valid_civil(y: int, m: int, d: int) -> bool {
    0 <= y <= 9999 && 1 <= m <= 12 && 1 <= d <= days_in_month(y, m)
}

/// Days from the reference point 400 years before the civil epoch to
/// the given date, counted so that every intermediate value is
/// nonnegative.  March starts the counting year, which puts the leap
/// day last.
pub open spec fn days_shifted(y: int, m: int, d: int) -> int {
    let yy = if m <= 2 {
        y + 399
    } else {
        y + 400
    };
    let era = yy / 400;
    let yoe = yy - era * 400;
    let mp = if m > 2 {
        m - 3
    } else {
        m + 9
    };
    let doy = (153 * mp + 2) / 5 + d - 1;
    let doe = yoe * 365 + yoe / 4 - yoe / 100 + doy;
    era * 146097 + doe
}

/// Seconds since the Unix epoch of the given UTC civil time; the
/// constant is the shifted day count of 1970-01-01 times 86400.
pub open spec fn epoch_secs(y: int, m: int, d: int, h: int, mi: int, sec: int) -> int {
    days_shifted(y, m, d) * 86400 + h * 3600 + mi * 60 + sec - 74784816000
}

/// Length of the run of digits starting at position `i`.
pub open spec fn digit_run(s: Seq<char>, i: int) -> nat
    decreases s.len() - i,
{
    if i < 0 || i >= s.len() || !is_digit(s[i]) {
        0
    } else {
        1 + digit_run(s, i + 1)
    }
}

/// The number written by `k` digits starting at position `i`.
pub open spec fn digits_val(s: Seq<char>, i: int, k: int) -> int
    decreases k,
{
    if k <= 0 {
        0
    } else {
        digits_val(s, i, k - 1) * 10 + digit_val(s[i + k - 1])
    }
}

/// Ten to the `k`.
pub open spec fn pow10(k: int) -> int
    decreases k,
{
    if k <= 0 {
        1
    } else {
        10 * pow10(k - 1)
    }
}

/// Nanoseconds written by a fraction of `k` digits at position `i`:
/// the digits, padded with zeros to nine places.
pub open spec fn frac_nanos(s: Seq<char>, i: int, k: int) -> int {
    digits_val(s, i, k) * pow10(9 - k)
}

/// The optional timezone suffix at position `j`: nothing (naive, taken
/// as UTC), `Z`/`z`, or `+HH:MM` / `-HH:MM` applied to reach UTC.
pub open spec fn offset_suffix(s: Seq<char>, j: int, base: int, nanos: int) -> Option<(int, int)> {
    if j == s.len() {
        Some((base, nanos))
    } else if s[j] == 'Z' || s[j] == 'z' {
        if j + 1 == s.len() {
            Some((base, nanos))
        } else {
            None
        }
    } else if s[j] == '+' || s[j] == '-' {
        if j + 6 == s.len() && two_digits(s, j + 1) && s[j + 3] == ':' && two_digits(s, j + 4) {
            let oh = num2(s, j + 1);
            let om = num2(s, j + 4);
            if oh <= 23 && om <= 59 {
                let off = oh * 3600 + om * 60;
                if s[j] == '+' {
                    Some((base - off, nanos))
                } else {
                    Some((base + off, nanos))
                }
            } else {
                None
            }
        } else {
            None
        }
    } else {
        None
    }
}

fn num2_exec(v: &Vec<char>, i: usize) -> (r: Option<u32>)
    requires
        i + 2 <= v@.len(),
    ensures
        r is Some <==> two_digits(v@, i as int),
        r matches Some(x) ==> x == num2(v@, i as int) && x <= 99,
{
    let l = v.len();
    proof {
        assert(l == v@.len());
    }
    let a = v[i] as u32;
    let b = v[i + 1] as u32;
    if 48 <= a && a <= 57 && 48 <= b && b <= 57 {
        Some((a - 48) * 10 + (b - 48))
    } else {
        None
    }
}

fn num4_exec(v: &Vec<char>, i: usize) -> (r: Option<u32>)
    requires
        i + 4 <= v@.len(),
    ensures
        r is Some <==> (is_digit(v@[i as int]) && is_digit(v@[i as int + 1]) && is_digit(
            v@[i as int + 2],
        ) && is_digit(v@[i as int + 3])),
        r matches Some(x) ==> x == num4(v@, i as int) && x <= 9999,
{
    let l = v.len();
    proof {
        assert(l == v@.len());
    }
    let a = v[i] as u32;
    let b = v[i + 1] as u32;
    let c = v[i + 2] as u32;
    let d = v[i + 3] as u32;
    if 48 <= a && a <= 57 && 48 <= b && b <= 57 && 48 <= c && c <= 57 && 48 <= d && d <= 57 {
        Some((a - 48) * 1000 + (b - 48) * 100 + (c - 48) * 10 + (d - 48))
    } else {
        None
    }
}

fn days_in_month_exec(y: u32, m: u32) -> (r: u32)
    requires
        1 <= m <= 12,
    ensures
        r == days_in_month(y as int, m as int),
        28 <= r <= 31,
{
    if m == 4 || m == 6 || m == 9 || m == 11 {
        30
    } else if m == 2 {
        if (y % 4 == 0 && y % 100 != 0) || y % 400 == 0 {
            29
        } else {
            28
        }
    } else {
        31
    }
}

fn days_shifted_exec(y: u32, m: u32, d: u32) -> (r: u64)
    requires
        y <= 9999,
        1 <= m <= 12,
        1 <= d <= 31,
    ensures
        r == days_shifted(y as int, m as int, d as int),
        r <= 4000000,
{
    let yy: u64 = if m <= 2 {
        y as u64 + 399
    } else {
        y as u64 + 400
    };
    let era: u64 = yy / 400;
    proof {
        assert(era * 400 <= yy) by (nonlinear_arith)
            requires
                era == yy / 400,
                yy <= 10399,
        ;
        assert(yy - era * 400 < 400) by (nonlinear_arith)
            requires
                era == yy / 400,
                yy <= 10399,
        ;
    }
    let yoe: u64 = yy - era * 400;
    let mp: u64 = if m > 2 {
        (m - 3) as u64
    } else {
        (m + 9) as u64
    };
    let doy: u64 = (153 * mp + 2) / 5 + d as u64 - 1;
    let doe: u64 = yoe * 365 + yoe / 4 - yoe / 100 + doy;
    era * 146097 + doe
}

fn epoch_secs_exec(y: u32, m: u32, d: u32, h: u32, mi: u32, sec: u32) -> (r: i64)
    requires
        y <= 9999,
        1 <= m <= 12,
        1 <= d <= 31,
        h <= 23,
        mi <= 59,
        sec <= 59,
    ensures
        r == epoch_secs(y as int, m as int, d as int, h as int, mi as int, sec as int),
        -74784816000 <= r <= 400000000000,
{
    let days = days_shifted_exec(y, m, d);
    let total: u64 = days * 86400 + (h as u64) * 3600 + (mi as u64) * 60 + sec as u64;
    (total as i64) - 74784816000i64
}

fn digit_run_exec(v: &Vec<char>, i: usize) -> (n: usize)
    requires
        i <= v@.len(),
    ensures
        n == digit_run(v@, i as int),
        i + n <= v@.len(),
        forall|j: int| i <= j < i + n ==> is_digit(v@[j]),
    decreases v@.len() - i,
{
    if i >= v.len() {
        0
    } else {
        let u = v[i] as u32;
        if 48 <= u && u <= 57 {
            let m = digit_run_exec(v, i + 1);
            1 + m
        } else {
            0
        }
    }
}

proof fn lemma_pow10_values()
    ensures
        pow10(0) == 1,
        pow10(1) == 10,
        pow10(2) == 100,
        pow10(3) == 1000,
        pow10(4) == 10000,
        pow10(5) == 100000,
        pow10(6) == 1000000,
        pow10(7) == 10000000,
        pow10(8) == 100000000,
        pow10(9) == 1000000000,
{
    assert(pow10(0) == 1);
    assert(pow10(1) == 10);
    assert(pow10(2) == 100);
    assert(pow10(3) == 1000);
    assert(pow10(4) == 10000);
    assert(pow10(5) == 100000);
    assert(pow10(6) == 1000000);
    assert(pow10(7) == 10000000);
    assert(pow10(8) == 100000000);
    assert(pow10(9) == 1000000000);
}

fn pow10_exec(e: usize) -> (r: u32)
    requires
        e <= 9,
    ensures
        r == pow10(e as int),
{
    proof {
        lemma_pow10_values();
    }
    if e == 0 {
        1
    } else if e == 1 {
        10
    } else if e == 2 {
        100
    } else if e == 3 {
        1000
    } else if e == 4 {
        10000
    } else if e == 5 {
        100000
    } else if e == 6 {
        1000000
    } else if e == 7 {
        10000000
    } else if e == 8 {
        100000000
    } else {
        1000000000
    }
}

fn frac_nanos_exec(v: &Vec<char>, i: usize, k: usize) -> (r: u32)
    requires
        i + k <= v@.len(),
        1 <= k <= 9,
        forall|j: int| i <= j < i + k ==> is_digit(v@[j]),
    ensures
        r == frac_nanos(v@, i as int, k as int),
        r < 1000000000,
{
    proof {
        lemma_pow10_values();
    }
    let l = v.len();
    proof {
        assert(l == v@.len());
    }
    let mut val: u32 = 0;
    let mut j: usize = 0;
    while j < k
        invariant
            j <= k <= 9,
            l == v@.len(),
            i + k <= v@.len(),
            forall|q: int| i <= q < i + k ==> is_digit(v@[q]),
            val == digits_val(v@, i as int, j as int),
            val < pow10(j as int),
        decreases k - j,
    {
        proof {
            lemma_pow10_values();
            assert(pow10(j as int) <= pow10(8)) by {
                lemma_pow10_monotone(j as int, 8);
            }
        }
        proof {
            assert(i + j < l);
        }
        let dch = v[i + j] as u32;
        val = val * 10 + (dch - 48);
        j += 1;
    }
    let scale = pow10_exec(9 - k);
    proof {
        lemma_pow10_values();
        lemma_pow10_add(k as int, 9 - k as int);
        assert(val * pow10(9 - k as int) < pow10(k as int) * pow10(9 - k as int))
            by (nonlinear_arith)
            requires
                val < pow10(k as int),
                pow10(9 - k as int) >= 1,
        ;
    }
    val * scale
}

proof fn lemma_pow10_monotone(a: int, b: int)
    requires
        0 <= a <= b,
    ensures
        pow10(a) <= pow10(b),
        pow10(a) >= 1,
    decreases b,
{
    if a < b {
        lemma_pow10_monotone(a, b - 1);
    } else {
        if a > 0 {
            lemma_pow10_monotone(a - 1, a - 1);
        }
    }
}

proof fn lemma_pow10_add(a: int, b: int)
    requires
        0 <= a,
        0 <= b,
    ensures
        pow10(a + b) == pow10(a) * pow10(b),
    decreases a,
{
    if a == 0 {
    } else {
        lemma_pow10_add(a - 1, b);
        assert(pow10(a + b) == 10 * pow10(a - 1 + b));
        assert(10 * (pow10(a - 1) * pow10(b)) == (10 * pow10(a - 1)) * pow10(b))
            by (nonlinear_arith);
    }
}

/// Normalize a raw wire timestamp into a canonical UTC instant.  The
/// strategies are tried in order, first match winning: a timezone-aware
/// string is converted to UTC through its offset; a naive string, with
/// or without fractional seconds, is taken as UTC.  When no strategy
/// matches the whole raw string comes back inside the error.
pub fn normalize(raw: &str) -> (r: Result<CanonicalTimestamp, TimestampUnparseable>)
    ensures
        match r {
            Ok(t) => spec_normalize(raw@) == Some((t.secs as int, t.nanos as int)) && t.wf(),
            Err(e) => spec_normalize(raw@) is None && e.raw@ == raw@,
        },
{
    let v = chars_of_str(raw);
    let n = v.len();
    if n < 19 {
        return Err(TimestampUnparseable { raw: raw.to_owned() });
    }
    let y = match num4_exec(&v, 0) {
        Some(x) => x,
        None => {
            return Err(TimestampUnparseable { raw: raw.to_owned() });
        },
    };
    if !(v[4] == '-' && v[7] == '-' && v[10] == 'T' && v[13] == ':' && v[16] == ':') {
        return Err(TimestampUnparseable { raw: raw.to_owned() });
    }
    let parts = (
        num2_exec(&v, 5),
        num2_exec(&v, 8),
        num2_exec(&v, 11),
        num2_exec(&v, 14),
        num2_exec(&v, 17),
    );
    let (mo, d, h, mi, sec) = match parts {
        (Some(a), Some(b), Some(c), Some(dd), Some(e)) => (a, b, c, dd, e),
        _ => {
            return Err(TimestampUnparseable { raw: raw.to_owned() });
        },
    };
    if !(1 <= mo && mo <= 12) {
        return Err(TimestampUnparseable { raw: raw.to_owned() });
    }
    let dim = days_in_month_exec(y, mo);
    if !(1 <= d && d <= dim) || h > 23 || mi > 59 || sec > 59 {
        return Err(TimestampUnparseable { raw: raw.to_owned() });
    }
    let base = epoch_secs_exec(y, mo, d, h, mi, sec);
    let (nanos, j): (u32, usize) = if n > 19 && v[19] == '.' {
        let k = digit_run_exec(&v, 20);
        if k < 1 || k > 9 {
            return Err(TimestampUnparseable { raw: raw.to_owned() });
        }
        (frac_nanos_exec(&v, 20, k), 20 + k)
    } else {
        (0, 19)
    };
    if j == n {
        return Ok(CanonicalTimestamp { secs: base, nanos });
    }
    let cj = v[j];
    if cj == 'Z' || cj == 'z' {
        if j + 1 == n {
            Ok(CanonicalTimestamp { secs: base, nanos })
        } else {
            Err(TimestampUnparseable { raw: raw.to_owned() })
        }
    } else if cj == '+' || cj == '-' {
        if j + 6 != n {
            return Err(TimestampUnparseable { raw: raw.to_owned() });
        }
        let oh = match num2_exec(&v, j + 1) {
            Some(x) => x,
            None => {
                return Err(TimestampUnparseable { raw: raw.to_owned() });
            },
        };
        if v[j + 3] != ':' {
            return Err(TimestampUnparseable { raw: raw.to_owned() });
        }
        let om = match num2_exec(&v, j + 4) {
            Some(x) => x,
            None => {
                return Err(TimestampUnparseable { raw: raw.to_owned() });
            },
        };
        if oh > 23 || om > 59 {
            return Err(TimestampUnparseable { raw: raw.to_owned() });
        }
        let off: i64 = (oh as i64) * 3600 + (om as i64) * 60;
        let secs = if cj == '+' {
            base - off
        } else {
            base + off
        };
        Ok(CanonicalTimestamp { secs, nanos })
    } else {
        Err(TimestampUnparseable { raw: raw.to_owned() })
    }
}

/// What normalizing a raw wire string yields: UTC seconds since the
/// epoch and nanoseconds, or nothing when no strategy matches.  The
/// fallback chain — timezone-aware first, then naive with fraction,
/// then naive without — is folded into one reading: the skeleton, an
/// optional fraction of one to nine digits, an optional offset.
pub open spec fn spec_normalize(s: Seq<char>) -> Option<(int, int)> {
    if !core_shape(s) {
        None
    } else {
        let y = num4(s, 0);
        let mo = num2(s, 5);
        let d = num2(s, 8);
        let h = num2(s, 11);
        let mi = num2(s, 14);
        let sec = num2(s, 17);
        if !(valid_civil(y, mo, d) && h <= 23 && mi <= 59 && sec <= 59) {
            None
        } else {
            let base = epoch_secs(y, mo, d, h, mi, sec);
            if s.len() > 19 && s[19] == '.' {
                let k = digit_run(s, 20) as int;
                if k < 1 || k > 9 {
                    None
                } else {
                    offset_suffix(s, 20 + k, base, frac_nanos(s, 20, k))
                }
            } else {
                offset_suffix(s, 19, base, 0)
            }
        }
    }
}

} // verus!
