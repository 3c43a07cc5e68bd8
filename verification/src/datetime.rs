//! Date/time normalizer: resolves one raw `DTSTART`/`DTEND` property line to
//! a UTC instant (epoch seconds). Four encodings are understood: a named
//! timezone qualified local time, an all-day date, a `Z`-suffixed UTC
//! timestamp, and a bare floating local time read as UTC. Any parse failure
//! yields "unresolved" (`None`).

use vstd::prelude::*;
use vstd::slice::slice_subrange;
use vstd::utf8::encode_utf8;

use crate::bytes::{
    bytes_eq, find_byte, find_byte_x, find_sub, find_sub_x, lemma_find_byte, lemma_find_sub,
};
use crate::civil::{
    days_in_month, epoch_secs, epoch_secs_utc, month_length, valid_date, valid_time,
};

verus! {

/// View of an `Option<i64>` as a mathematical optional integer.
pub open spec fn opt_as_int(r: Option<i64>) -> Option<int> {
    match r {
        Some(t) => Some(t as int),
        None => None,
    }
}

pub open spec fn is_digit(b: u8) -> bool {
    48 <= b <= 57
}

pub open spec fn all_digits(s: Seq<u8>) -> bool {
    forall|i: int| 0 <= i < s.len() ==> is_digit(#[trigger] s[i])
}

/// Numeric value of a run of decimal digit bytes, most significant first.
pub open spec fn digits_val(s: Seq<u8>) -> int
    decreases s.len(),
{
    if s.len() == 0 {
        0
    } else {
        digits_val(s.drop_last()) * 10 + (s.last() - 48)
    }
}

pub open spec fn nd_year(v: Seq<u8>) -> int {
    digits_val(v.subrange(0, 4))
}

pub open spec fn nd_month(v: Seq<u8>) -> int {
    digits_val(v.subrange(4, 6))
}

pub open spec fn nd_day(v: Seq<u8>) -> int {
    digits_val(v.subrange(6, 8))
}

pub open spec fn nd_hour(v: Seq<u8>) -> int {
    digits_val(v.subrange(9, 11))
}

pub open spec fn nd_min(v: Seq<u8>) -> int {
    digits_val(v.subrange(11, 13))
}

pub open spec fn nd_sec(v: Seq<u8>) -> int {
    digits_val(v.subrange(13, 15))
}

/// A local naive date-time value: `YYYYMMDDTHHMMSS`, naming a real calendar
/// date and time of day.
pub open spec fn is_naive_datetime(v: Seq<u8>) -> bool {
    &&& v.len() == 15
    &&& all_digits(v.subrange(0, 8))
    &&& v[8] == 84
    &&& all_digits(v.subrange(9, 15))
    &&& valid_date(nd_year(v), nd_month(v), nd_day(v))
    &&& valid_time(nd_hour(v), nd_min(v), nd_sec(v))
}

/// The naive date-time read directly as UTC (floating-time reading).
pub open spec fn parse_naive_utc(v: Seq<u8>) -> Option<int> {
    if is_naive_datetime(v) {
        Some(epoch_secs(nd_year(v), nd_month(v), nd_day(v), nd_hour(v), nd_min(v), nd_sec(v)))
    } else {
        None
    }
}

/// An all-day date value: `YYYYMMDD`, naming a real calendar date.
pub open spec fn is_date_only(v: Seq<u8>) -> bool {
    &&& v.len() == 8
    &&& all_digits(v)
    &&& valid_date(nd_year(v), nd_month(v), nd_day(v))
}

/// Midnight UTC on the given all-day date.
pub open spec fn parse_date_only(v: Seq<u8>) -> Option<int> {
    if is_date_only(v) {
        Some(epoch_secs(nd_year(v), nd_month(v), nd_day(v), 0, 0, 0))
    } else {
        None
    }
}

pub open spec fn tag_tzid() -> Seq<u8> {
    encode_utf8(";TZID="@)
}

pub open spec fn tag_value_param() -> Seq<u8> {
    encode_utf8(";VALUE="@)
}

pub open spec fn date_word() -> Seq<u8> {
    encode_utf8("DATE"@)
}

/// The timezone name in a parameter head: the text after the first `;TZID=`,
/// up to the next `;` or the end of the head.
pub open spec fn tz_name_of(head: Seq<u8>) -> Seq<u8>
    recommends
        find_sub(head, tag_tzid()) >= 0,
{
    let rest = head.subrange(find_sub(head, tag_tzid()) + tag_tzid().len(), head.len() as int);
    rest.subrange(0, find_byte(rest, 59))
}

/// The text after the first `;VALUE=`, up to the next `;` or the end of the
/// head.
pub open spec fn value_param_of(head: Seq<u8>) -> Seq<u8>
    recommends
        find_sub(head, tag_value_param()) >= 0,
{
    let rest = head.subrange(
        find_sub(head, tag_value_param()) + tag_value_param().len(),
        head.len() as int,
    );
    rest.subrange(0, find_byte(rest, 59))
}

/// What a named timezone resolves a local civil time to: `None` when the
/// name is unknown or the local time is ambiguous or nonexistent, otherwise
/// the UTC instant. The timezone database is fixed at build time, so this
/// depends on the arguments alone. Stated only through the trusted
/// resolver below.
pub uninterp spec fn tz_instant(
    name: Seq<u8>,
    y: int,
    mo: int,
    d: int,
    h: int,
    mi: int,
    s: int,
) -> Option<int>;

/// What the strict RFC 3339 timestamp grammar parses a value to, as a UTC
/// instant. Stated only through the trusted parser below.
pub uninterp spec fn rfc3339_instant(v: Seq<u8>) -> Option<int>;

/// What the permissive ISO 8601 grammar parses a value to, read as a naive
/// instant in UTC. Stated only through the trusted parser below.
pub uninterp spec fn iso8601_instant(v: Seq<u8>) -> Option<int>;

/// Relies on chrono-tz (`Tz::from_str`, `TimeZone::from_local_datetime`) and
/// chrono (`NaiveDate::from_ymd_opt`, `and_hms_opt`, `timestamp`): parses an
/// IANA timezone name and resolves the local civil time in that zone to a
/// UTC instant; `None` for an unknown name, an invalid civil time, or a
/// local time that is ambiguous or nonexistent across a DST transition.
#[verifier::external_body]
fn tz_local_to_utc(name: &[u8], y: i32, mo: u32, d: u32, h: u32, mi: u32, s: u32) -> (r: Option<
    i64,
>)
    ensures
        opt_as_int(r) == tz_instant(
            name@,
            y as int,
            mo as int,
            d as int,
            h as int,
            mi as int,
            s as int,
        ),
{
    let name = core::str::from_utf8(name).ok()?;
    let tz: chrono_tz::Tz = name.parse().ok()?;
    let ndt = chrono::NaiveDate::from_ymd_opt(y, mo, d)?.and_hms_opt(h, mi, s)?;
    let dt = chrono::TimeZone::from_local_datetime(&tz, &ndt).single()?;
    Some(dt.with_timezone(&chrono::Utc).timestamp())
}

/// Relies on chrono's `DateTime::parse_from_rfc3339` and `timestamp`: parses
/// the strict `Z`-suffixed (or offset-qualified) timestamp grammar to a UTC
/// instant.
#[verifier::external_body]
fn parse_rfc3339_utc(v: &[u8]) -> (r: Option<i64>)
    ensures
        opt_as_int(r) == rfc3339_instant(v@),
{
    let s = core::str::from_utf8(v).ok()?;
    let dt = chrono::DateTime::parse_from_rfc3339(s).ok()?;
    Some(dt.with_timezone(&chrono::Utc).timestamp())
}

/// Relies on the iso8601 crate's `datetime` parser and its chrono conversion
/// `into_naive`: parses a permissive ISO 8601 date-time and reads the
/// resulting naive instant as UTC.
#[verifier::external_body]
fn parse_iso8601_utc(v: &[u8]) -> (r: Option<i64>)
    ensures
        opt_as_int(r) == iso8601_instant(v@),
{
    let s = core::str::from_utf8(v).ok()?;
    let dt = iso8601::datetime(s).ok()?;
    Some(dt.into_naive()?.and_utc().timestamp())
}

/// A parameterless value: a `Z`-suffixed timestamp is parsed by the strict
/// grammar, falling back to the permissive ISO 8601 grammar; anything else
/// is read as a floating local time in UTC.
pub open spec fn parse_value_plain(v: Seq<u8>) -> Option<int> {
    if v.len() > 0 && v.last() == 90 {
        match rfc3339_instant(v) {
            Some(t) => Some(t),
            None => iso8601_instant(v),
        }
    } else {
        parse_naive_utc(v)
    }
}

/// Resolution of one raw `DTSTART`/`DTEND` property line, per the recognized
/// encodings, in order: named timezone, all-day date, `Z`-suffixed
/// timestamp, floating local time.
pub open spec fn spec_parse_datetime(line: Seq<u8>) -> Option<int> {
    let c = find_byte(line, 58);
    if c < line.len() {
        let head = line.subrange(0, c);
        let value = line.subrange(c + 1, line.len() as int);
        if find_sub(head, tag_tzid()) >= 0 {
            if is_naive_datetime(value) {
                tz_instant(
                    tz_name_of(head),
                    nd_year(value),
                    nd_month(value),
                    nd_day(value),
                    nd_hour(value),
                    nd_min(value),
                    nd_sec(value),
                )
            } else {
                None
            }
        } else if find_sub(head, tag_value_param()) >= 0 {
            if value_param_of(head) == date_word() {
                parse_date_only(value)
            } else {
                None
            }
        } else {
            parse_value_plain(value)
        }
    } else {
        parse_value_plain(line)
    }
}

pub open spec fn pow10(n: nat) -> int
    decreases n,
{
    if n == 0 {
        1
    } else {
        10 * pow10((n - 1) as nat)
    }
}

pub proof fn lemma_digits_val_bound(s: Seq<u8>)
    requires
        all_digits(s),
    ensures
        0 <= digits_val(s) < pow10(s.len()),
    decreases s.len(),
{
    if s.len() > 0 {
        assert(forall|i: int| 0 <= i < s.len() - 1 ==> s.drop_last()[i] == s[i]);
        lemma_digits_val_bound(s.drop_last());
        assert(is_digit(s.last()));
    }
}

/// Value of a fixed run of at most four decimal digit bytes.
fn read_digits(v: &[u8], from: usize, to: usize) -> (r: Option<u32>)
    requires
        from <= to <= v@.len(),
        to - from <= 4,
    ensures
        match r {
            Some(x) => all_digits(v@.subrange(from as int, to as int)) && x == digits_val(
                v@.subrange(from as int, to as int),
            ) && x <= 9999,
            None => !all_digits(v@.subrange(from as int, to as int)),
        },
{
    let mut acc: u32 = 0;
    let mut j: usize = from;
    proof {
        assert(v@.subrange(from as int, from as int) =~= Seq::<u8>::empty());
    }
    while j < to
        invariant
            from <= j <= to <= v@.len(),
            to - from <= 4,
            all_digits(v@.subrange(from as int, j as int)),
            acc == digits_val(v@.subrange(from as int, j as int)),
        decreases to - j,
    {
        let b = v[j];
        if b < 48 || b > 57 {
            proof {
                assert(v@.subrange(from as int, to as int)[j - from] == b);
            }
            return None;
        }
        proof {
            let cur = v@.subrange(from as int, j + 1);
            assert(cur.drop_last() =~= v@.subrange(from as int, j as int));
            assert(cur.last() == v@[j as int]);
            lemma_digits_val_bound(v@.subrange(from as int, j as int));
            reveal_with_fuel(pow10, 5);
        }
        acc = acc * 10 + (b - 48) as u32;
        j = j + 1;
    }
    proof {
        lemma_digits_val_bound(v@.subrange(from as int, to as int));
        reveal_with_fuel(pow10, 5);
    }
    Some(acc)
}

/// The civil fields of a naive `YYYYMMDDTHHMMSS` value, when well-formed.
fn parse_naive_fields(v: &[u8]) -> (r: Option<(i32, u32, u32, u32, u32, u32)>)
    ensures
        match r {
            Some(f) => is_naive_datetime(v@) && f.0 == nd_year(v@) && f.1 == nd_month(v@)
                && f.2 == nd_day(v@) && f.3 == nd_hour(v@) && f.4 == nd_min(v@) && f.5 == nd_sec(
                v@,
            ),
            None => !is_naive_datetime(v@),
        },
{
    if v.len() != 15 {
        return None;
    }
    if v[8] != 84 {
        return None;
    }
    let y = match read_digits(v, 0, 4) {
        Some(x) => x,
        None => {
            proof {
                lemma_digit_block(v@, 0, 4, 0, 8);
            }
            return None;
        },
    };
    let mo = match read_digits(v, 4, 6) {
        Some(x) => x,
        None => {
            proof {
                lemma_digit_block(v@, 4, 6, 0, 8);
            }
            return None;
        },
    };
    let d = match read_digits(v, 6, 8) {
        Some(x) => x,
        None => {
            proof {
                lemma_digit_block(v@, 6, 8, 0, 8);
            }
            return None;
        },
    };
    let h = match read_digits(v, 9, 11) {
        Some(x) => x,
        None => {
            proof {
                lemma_digit_block(v@, 9, 11, 9, 15);
            }
            return None;
        },
    };
    let mi = match read_digits(v, 11, 13) {
        Some(x) => x,
        None => {
            proof {
                lemma_digit_block(v@, 11, 13, 9, 15);
            }
            return None;
        },
    };
    let s = match read_digits(v, 13, 15) {
        Some(x) => x,
        None => {
            proof {
                lemma_digit_block(v@, 13, 15, 9, 15);
            }
            return None;
        },
    };
    proof {
        lemma_digits_join(v@, 0, 4, 6, 8);
        lemma_digits_join(v@, 9, 11, 13, 15);
    }
    if mo < 1 || mo > 12 {
        return None;
    }
    let yi: i32 = y as i32;
    if d < 1 || d > month_length(yi, mo) {
        return None;
    }
    if h > 23 || mi > 59 || s > 59 {
        return None;
    }
    Some((yi, mo, d, h, mi, s))
}

/// Digits over a sub-block follow from digits over the enclosing block, so a
/// failed sub-block read refutes the enclosing block.
proof fn lemma_digit_block(v: Seq<u8>, from: int, to: int, lo: int, hi: int)
    requires
        0 <= lo <= from <= to <= hi <= v.len(),
        !all_digits(v.subrange(from, to)),
    ensures
        !all_digits(v.subrange(lo, hi)),
{
    let sub = v.subrange(from, to);
    let blk = v.subrange(lo, hi);
    assert(!all_digits(sub));
    let i = choose|i: int| 0 <= i < sub.len() && !is_digit(sub[i]);
    assert(blk[from - lo + i] == sub[i]);
}

/// Digits over two adjacent sub-blocks and the byte runs between them give
/// digits over the enclosing block.
proof fn lemma_digits_join(v: Seq<u8>, a: int, b: int, c: int, d: int)
    requires
        0 <= a <= b <= c <= d <= v.len(),
        all_digits(v.subrange(a, b)),
        all_digits(v.subrange(b, c)),
        all_digits(v.subrange(c, d)),
    ensures
        all_digits(v.subrange(a, d)),
{
    let blk = v.subrange(a, d);
    assert forall|i: int| 0 <= i < blk.len() implies is_digit(blk[i]) by {
        if i < b - a {
            assert(v.subrange(a, b)[i] == blk[i]);
        } else if i < c - a {
            assert(v.subrange(b, c)[i - (b - a)] == blk[i]);
        } else {
            assert(v.subrange(c, d)[i - (c - a)] == blk[i]);
        }
    }
}

fn parse_naive_utc_x(v: &[u8]) -> (r: Option<i64>)
    ensures
        opt_as_int(r) == parse_naive_utc(v@),
{
    match parse_naive_fields(v) {
        Some((y, mo, d, h, mi, s)) => Some(epoch_secs_utc(y, mo, d, h, mi, s)),
        None => None,
    }
}

fn parse_value_plain_x(v: &[u8]) -> (r: Option<i64>)
    ensures
        opt_as_int(r) == parse_value_plain(v@),
{
    let n = v.len();
    if n > 0 && v[n - 1] == 90 {
        match parse_rfc3339_utc(v) {
            Some(t) => Some(t),
            None => parse_iso8601_utc(v),
        }
    } else {
        parse_naive_utc_x(v)
    }
}

fn parse_date_only_x(v: &[u8]) -> (r: Option<i64>)
    ensures
        opt_as_int(r) == parse_date_only(v@),
{
    if v.len() != 8 {
        return None;
    }
    let y = match read_digits(v, 0, 4) {
        Some(x) => x,
        None => {
            proof {
                lemma_digit_block(v@, 0, 4, 0, 8);
                assert(v@.subrange(0, 8) =~= v@);
            }
            return None;
        },
    };
    let mo = match read_digits(v, 4, 6) {
        Some(x) => x,
        None => {
            proof {
                lemma_digit_block(v@, 4, 6, 0, 8);
                assert(v@.subrange(0, 8) =~= v@);
            }
            return None;
        },
    };
    let d = match read_digits(v, 6, 8) {
        Some(x) => x,
        None => {
            proof {
                lemma_digit_block(v@, 6, 8, 0, 8);
                assert(v@.subrange(0, 8) =~= v@);
            }
            return None;
        },
    };
    proof {
        lemma_digits_join(v@, 0, 4, 6, 8);
        assert(v@.subrange(0, 8) =~= v@);
    }
    if mo < 1 || mo > 12 {
        return None;
    }
    let yi: i32 = y as i32;
    if d < 1 || d > month_length(yi, mo) {
        return None;
    }
    Some(epoch_secs_utc(yi, mo, d, 0, 0, 0))
}

/// Resolves one raw `DTSTART`/`DTEND` property line to a UTC instant, or
/// `None` when the line does not resolve.
pub fn parse_datetime(line: &[u8]) -> (r: Option<i64>)
    ensures
        opt_as_int(r) == spec_parse_datetime(line@),
{
    let n = line.len();
    let c = find_byte_x(line, 58);
    proof {
        lemma_find_byte(line@, 58);
    }
    if c < n {
        let head = slice_subrange(line, 0, c);
        let value = slice_subrange(line, c + 1, n);
        let tzid_pat = ";TZID=".as_bytes();
        let value_pat = ";VALUE=".as_bytes();
        if let Some(t) = find_sub_x(head, tzid_pat) {
            proof {
                lemma_find_sub(head@, tag_tzid());
            }
            let rest = slice_subrange(head, t + tzid_pat.len(), head.len());
            let e = find_byte_x(rest, 59);
            proof {
                lemma_find_byte(rest@, 59);
            }
            let name = slice_subrange(rest, 0, e);
            match parse_naive_fields(value) {
                Some((y, mo, d, h, mi, s)) => tz_local_to_utc(name, y, mo, d, h, mi, s),
                None => None,
            }
        } else if let Some(t) = find_sub_x(head, value_pat) {
            proof {
                lemma_find_sub(head@, tag_value_param());
            }
            let rest = slice_subrange(head, t + value_pat.len(), head.len());
            let e = find_byte_x(rest, 59);
            proof {
                lemma_find_byte(rest@, 59);
            }
            let param = slice_subrange(rest, 0, e);
            if bytes_eq(param, "DATE".as_bytes()) {
                parse_date_only_x(value)
            } else {
                None
            }
        } else {
            parse_value_plain_x(value)
        }
    } else {
        proof {
            assert(c == line@.len());
        }
        parse_value_plain_x(line)
    }
}

} // verus!
