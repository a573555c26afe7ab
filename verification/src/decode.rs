//! The query-parameter decoder: splits and validates the target, date,
//! time and output-format parameters, resolves the civil date and time at
//! the fixed UTC+7 reference offset to an absolute instant, and computes
//! the previous instant exactly 24 hours earlier in absolute time.

use crate::errors::ApiError;
use crate::numeric::{parses_to_u32, u32_val};
use vstd::prelude::*;

verus! {

/// Which separator set a parameter is split on.
#[derive(Clone, Copy, PartialEq, Eq, Structural, Debug)]
pub enum SepKind {
    /// Date components are delimited by dots or dashes.
    Date,
    /// Time components are delimited by colons.
    Time,
}

/// The separator characters of each kind.
pub open spec fn is_sep(kind: SepKind, c: char) -> bool {
    match kind {
        SepKind::Date => c == '-' || c == '.',
        SepKind::Time => c == ':',
    }
}

/// Splitting on separators, keeping empty pieces: the empty string has one
/// empty piece, and every separator ends the piece before it.
pub open spec fn split_parts(kind: SepKind, s: Seq<char>) -> Seq<Seq<char>>
    decreases s.len(),
{
    if s.len() == 0 {
        seq![Seq::<char>::empty()]
    } else if is_sep(kind, s.last()) {
        split_parts(kind, s.drop_last()).push(Seq::<char>::empty())
    } else {
        let r = split_parts(kind, s.drop_last());
        r.update(r.len() - 1, r.last().push(s.last()))
    }
}

fn is_sep_exec(kind: SepKind, c: char) -> (b: bool)
    ensures
        b == is_sep(kind, c),
{
    match kind {
        SepKind::Date => c == '-' || c == '.',
        SepKind::Time => c == ':',
    }
}

/// Splits a string on the separators of the kind, keeping empty pieces,
/// exactly as `split_parts` describes.
pub fn split_string(s: &str, kind: SepKind) -> (r: Vec<String>)
    ensures
        r.deep_view() == split_parts(kind, s@),
{
    let n = s.unicode_len();
    let mut parts: Vec<String> = Vec::new();
    let mut start: usize = 0;
    let mut j: usize = 0;
    proof {
        assert(s@.take(0) =~= Seq::<char>::empty());
        assert(parts.deep_view().push(s@.subrange(0, 0)) =~= split_parts(kind, s@.take(0)));
    }
    while j < n
        invariant
            0 <= start <= j <= n,
            n == s@.len(),
            parts.deep_view().push(s@.subrange(start as int, j as int)) == split_parts(
                kind,
                s@.take(j as int),
            ),
        decreases n - j,
    {
        let ghost pre = parts.deep_view();
        let ghost piece_pre = s@.subrange(start as int, j as int);
        let c = s.get_char(j);
        proof {
            assert(s@.take(j + 1).drop_last() =~= s@.take(j as int));
            assert(s@.take(j + 1).last() == s@[j as int]);
        }
        if is_sep_exec(kind, c) {
            let piece = String::from_str(s.substring_char(start, j));
            parts.push(piece);
            start = j + 1;
            proof {
                assert(parts.deep_view() =~= pre.push(piece_pre));
                assert(s@.subrange(start as int, j + 1) =~= Seq::<char>::empty());
                assert(parts.deep_view().push(s@.subrange(start as int, j + 1)) =~= split_parts(
                    kind,
                    s@.take(j as int),
                ).push(Seq::<char>::empty()));
            }
        } else {
            proof {
                let r = split_parts(kind, s@.take(j as int));
                assert(r == pre.push(piece_pre));
                assert(r.len() == pre.len() + 1);
                assert(r.last() == piece_pre);
                assert(s@.subrange(start as int, j + 1) =~= piece_pre.push(s@[j as int]));
                assert(pre.push(s@.subrange(start as int, j + 1)) =~= r.update(
                    r.len() - 1,
                    piece_pre.push(s@[j as int]),
                ));
            }
        }
        j = j + 1;
    }
    let piece = String::from_str(s.substring_char(start, n));
    let ghost pre = parts.deep_view();
    parts.push(piece);
    proof {
        assert(s@.take(n as int) =~= s@);
        assert(parts.deep_view() =~= pre.push(s@.subrange(start as int, n as int)));
    }
    parts
}

/// A leap year of the proleptic Gregorian calendar.
pub open spec fn is_leap_year(y: int) -> bool {
    (y % 4 == 0 && y % 100 != 0) || y % 400 == 0
}

/// Days of a month of the proleptic Gregorian calendar.
pub open spec fn days_in_month(y: int, m: int) -> int {
    if m == 2 {
        if is_leap_year(y) {
            29
        } else {
            28
        }
    } else if m == 4 || m == 6 || m == 9 || m == 11 {
        30
    } else {
        31
    }
}

/// The years the calendar library can represent.
pub open spec fn in_year_range(y: int) -> bool {
    -262143 <= y <= 262142
}

/// A representable, valid civil date and time with seconds at zero.
pub open spec fn valid_civil(y: int, mo: int, d: int, h: int, mi: int) -> bool {
    &&& in_year_range(y)
    &&& 1 <= mo <= 12
    &&& 1 <= d <= days_in_month(y, mo)
    &&& 0 <= h <= 23
    &&& 0 <= mi <= 59
}

/// The first representable civil day, at hours the UTC+7 shift pushes
/// below the representable range.
pub open spec fn below_epoch_floor(y: int, mo: int, d: int, h: int) -> bool {
    y == -262143 && mo == 1 && d == 1 && h < 7
}

/// Seconds since the Unix epoch of the civil time read at UTC+7.
pub uninterp spec fn epoch_of_utc7(y: int, mo: int, d: int, h: int, mi: int) -> int;

/// Relies on chrono: `FixedOffset::east_opt` accepts the fixed +7 h
/// offset, which lies within its documented one-day bound, so the offset
/// construction never fails; `NaiveDate::from_ymd_opt` accepts exactly
/// the valid in-range calendar dates; `NaiveDateTime::and_hms_opt`
/// accepts exactly hours below 24 and minutes below 60; the fixed-offset
/// local mapping is single everywhere except below the representable
/// floor; and `timestamp` returns the seconds since the Unix epoch,
/// bounded by the representable year range.
#[verifier::external_body]
fn civil_to_epoch_utc7(y: i32, mo: u32, d: u32, h: u32, mi: u32) -> (r: Result<i64, ApiError>)
    ensures
        r matches Ok(v) ==> valid_civil(y as int, mo as int, d as int, h as int, mi as int) && v
            == epoch_of_utc7(y as int, mo as int, d as int, h as int, mi as int)
            && -10_000_000_000_000 <= v <= 10_000_000_000_000,
        r matches Err(e) ==> e == ApiError::BadRequest && (!valid_civil(
            y as int,
            mo as int,
            d as int,
            h as int,
            mi as int,
        ) || below_epoch_floor(y as int, mo as int, d as int, h as int)),
        valid_civil(y as int, mo as int, d as int, h as int, mi as int) && !below_epoch_floor(
            y as int,
            mo as int,
            d as int,
            h as int,
        ) ==> r is Ok,
{
    let tz = match chrono::FixedOffset::east_opt(7 * 3600) {
        Some(t) => t,
        None => return Err(ApiError::Internal),
    };
    let dt = match chrono::NaiveDate::from_ymd_opt(y, mo, d).and_then(|nd| nd.and_hms_opt(h, mi, 0))
    {
        Some(v) => v,
        None => return Err(ApiError::BadRequest),
    };
    match dt.and_local_timezone(tz).single() {
        Some(z) => Ok(z.timestamp()),
        None => Err(ApiError::BadRequest),
    }
}

/// A decoded request: the target pattern, the absolute instant of the
/// requested moment, the instant exactly 24 hours earlier, and the
/// output-format flag.
pub struct UsageQuery {
    pub target: String,
    pub instant: i64,
    pub prev_instant: i64,
    pub want_csv: bool,
}

impl UsageQuery {
    /// The previous instant is exactly 24 hours before the requested one,
    /// in absolute seconds.
    pub open spec fn wf(self) -> bool {
        &&& -10_000_000_000_000 <= self.instant <= 10_000_000_000_000
        &&& self.prev_instant == self.instant - 86400
    }
}

/// The date parameter splits into exactly three numeric components.
pub open spec fn date_syntax_ok(d: Seq<char>) -> bool {
    let ps = split_parts(SepKind::Date, d);
    ps.len() == 3 && parses_to_u32(ps[0]) && parses_to_u32(ps[1]) && parses_to_u32(ps[2])
}

/// The time parameter splits into exactly two numeric components.
pub open spec fn time_syntax_ok(t: Seq<char>) -> bool {
    let ps = split_parts(SepKind::Time, t);
    ps.len() == 2 && parses_to_u32(ps[0]) && parses_to_u32(ps[1])
}

/// The year component, read as the 32-bit decoder reads it: an unsigned
/// value reinterpreted as a signed 32-bit year.
pub open spec fn spec_year(d: Seq<char>) -> int {
    ((u32_val(split_parts(SepKind::Date, d)[0]) as u32) as i32) as int
}

pub open spec fn spec_month(d: Seq<char>) -> int {
    u32_val(split_parts(SepKind::Date, d)[1])
}

pub open spec fn spec_day(d: Seq<char>) -> int {
    u32_val(split_parts(SepKind::Date, d)[2])
}

pub open spec fn spec_hour(t: Seq<char>) -> int {
    u32_val(split_parts(SepKind::Time, t)[0])
}

pub open spec fn spec_minute(t: Seq<char>) -> int {
    u32_val(split_parts(SepKind::Time, t)[1])
}

/// All parameters are present and well-shaped: a non-empty target, a
/// three-component numeric date, a two-component numeric time.
pub open spec fn syntax_ok(
    target: Option<Seq<char>>,
    date: Option<Seq<char>>,
    time: Option<Seq<char>>,
) -> bool {
    &&& target matches Some(t) && t.len() > 0
    &&& date matches Some(d) && date_syntax_ok(d)
    &&& time matches Some(tm) && time_syntax_ok(tm)
}

/// The components name a valid civil date and time.
pub open spec fn civil_ok(date: Seq<char>, time: Seq<char>) -> bool {
    valid_civil(spec_year(date), spec_month(date), spec_day(date), spec_hour(time), spec_minute(time))
}

/// The view of an optional borrowed parameter.
pub open spec fn opt_view(o: Option<&String>) -> Option<Seq<char>> {
    match o {
        Some(s) => Some(s@),
        None => None,
    }
}

fn parse_component(parts: &Vec<String>, i: usize) -> (r: Option<u32>)
    requires
        i < parts@.len(),
    ensures
        r is Some <==> parses_to_u32(parts.deep_view()[i as int]),
        r matches Some(v) ==> v == u32_val(parts.deep_view()[i as int]),
{
    let p = crate::numeric::parse_u32(parts[i].as_str());
    proof {
        assert(parts.deep_view()[i as int] == parts@[i as int]@);
    }
    p
}

/// Decodes the four query parameters into a `UsageQuery`.
///
/// Every missing or malformed parameter, and every invalid calendar
/// combination, is answered with the one undifferentiated `BadRequest`,
/// and a request whose parameters are well-shaped and name a valid,
/// representable civil time is accepted. On success the query carries the
/// target verbatim, the absolute instant of the decoded civil time at
/// UTC+7, and the instant exactly 86400 seconds earlier.
pub fn decode_params(
    target: Option<&String>,
    date: Option<&String>,
    time: Option<&String>,
    csv: Option<&String>,
) -> (r: Result<UsageQuery, ApiError>)
    ensures
        !(syntax_ok(opt_view(target), opt_view(date), opt_view(time)) && civil_ok(
            date->0@,
            time->0@,
        ) && !below_epoch_floor(
            spec_year(date->0@),
            spec_month(date->0@),
            spec_day(date->0@),
            spec_hour(time->0@),
        )) ==> r == Result::<UsageQuery, ApiError>::Err(ApiError::BadRequest),
        syntax_ok(opt_view(target), opt_view(date), opt_view(time)) && civil_ok(
            date->0@,
            time->0@,
        ) && !below_epoch_floor(
            spec_year(date->0@),
            spec_month(date->0@),
            spec_day(date->0@),
            spec_hour(time->0@),
        ) ==> r is Ok,
        r matches Ok(q) ==> ({
            &&& syntax_ok(opt_view(target), opt_view(date), opt_view(time))
            &&& civil_ok(date->0@, time->0@)
            &&& q.target@ == target->0@
            &&& q.want_csv == (csv matches Some(c) && c@ == "true"@)
            &&& q.instant == epoch_of_utc7(
                spec_year(date->0@),
                spec_month(date->0@),
                spec_day(date->0@),
                spec_hour(time->0@),
                spec_minute(time->0@),
            )
            &&& q.prev_instant == q.instant - 86400
            &&& q.wf()
        }),
{
    let t = match target {
        Some(t) => t,
        None => return Err(ApiError::BadRequest),
    };
    if t.as_str().unicode_len() == 0 {
        return Err(ApiError::BadRequest);
    }
    let d = match date {
        Some(d) => d,
        None => return Err(ApiError::BadRequest),
    };
    let tm = match time {
        Some(tm) => tm,
        None => return Err(ApiError::BadRequest),
    };
    let date_parts = split_string(d.as_str(), SepKind::Date);
    if date_parts.len() != 3 {
        return Err(ApiError::BadRequest);
    }
    let y_u = match parse_component(&date_parts, 0) {
        Some(v) => v,
        None => return Err(ApiError::BadRequest),
    };
    let mo = match parse_component(&date_parts, 1) {
        Some(v) => v,
        None => return Err(ApiError::BadRequest),
    };
    let dd = match parse_component(&date_parts, 2) {
        Some(v) => v,
        None => return Err(ApiError::BadRequest),
    };
    let time_parts = split_string(tm.as_str(), SepKind::Time);
    if time_parts.len() != 2 {
        return Err(ApiError::BadRequest);
    }
    let h = match parse_component(&time_parts, 0) {
        Some(v) => v,
        None => return Err(ApiError::BadRequest),
    };
    let mi = match parse_component(&time_parts, 1) {
        Some(v) => v,
        None => return Err(ApiError::BadRequest),
    };
    let truth = String::from_str("true");
    let want_csv = match csv {
        Some(c) => c.eq(&truth),
        None => false,
    };
    let y: i32 = #[verifier::truncate] (y_u as i32);
    if y == -262143 && mo == 1 && dd == 1 && h < 7 {
        // below the representable floor the offset shift cannot resolve
        return Err(ApiError::BadRequest);
    }
    let instant = match civil_to_epoch_utc7(y, mo, dd, h, mi) {
        Ok(v) => v,
        Err(e) => return Err(e),
    };
    Ok(UsageQuery { target: t.clone(), instant, prev_instant: instant - 86400, want_csv })
}

} // verus!
