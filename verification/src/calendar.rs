//! Dates and durations: month names, the in-game date of a round, and readable
//! durations.

use vstd::prelude::*;
use crate::text::{decimal, join, push_decimal, push_signed_decimal, signed_decimal, str_eq};

verus! {

/// English name of month `m` (1 for January), empty outside 1 to 12.
pub open spec fn month_name(m: u32) -> Seq<char> {
    if m == 1 { "January"@ }
    else if m == 2 { "February"@ }
    else if m == 3 { "March"@ }
    else if m == 4 { "April"@ }
    else if m == 5 { "May"@ }
    else if m == 6 { "June"@ }
    else if m == 7 { "July"@ }
    else if m == 8 { "August"@ }
    else if m == 9 { "September"@ }
    else if m == 10 { "October"@ }
    else if m == 11 { "November"@ }
    else if m == 12 { "December"@ }
    else { ""@ }
}

/// The number (1 for January) of the month named `s`, if any.
pub open spec fn month_number(s: Seq<char>) -> Option<u32> {
    if s == "January"@ { Some(1u32) }
    else if s == "February"@ { Some(2u32) }
    else if s == "March"@ { Some(3u32) }
    else if s == "April"@ { Some(4u32) }
    else if s == "May"@ { Some(5u32) }
    else if s == "June"@ { Some(6u32) }
    else if s == "July"@ { Some(7u32) }
    else if s == "August"@ { Some(8u32) }
    else if s == "September"@ { Some(9u32) }
    else if s == "October"@ { Some(10u32) }
    else if s == "November"@ { Some(11u32) }
    else if s == "December"@ { Some(12u32) }
    else { None }
}

/// The number of the month named `m` ("January" is 1), or `None` for any other text.
pub fn month_to_num(m: &str) -> (r: Option<u32>)
    ensures
        r == month_number(m@),
{
    if str_eq(m, "January") { Some(1) }
    else if str_eq(m, "February") { Some(2) }
    else if str_eq(m, "March") { Some(3) }
    else if str_eq(m, "April") { Some(4) }
    else if str_eq(m, "May") { Some(5) }
    else if str_eq(m, "June") { Some(6) }
    else if str_eq(m, "July") { Some(7) }
    else if str_eq(m, "August") { Some(8) }
    else if str_eq(m, "September") { Some(9) }
    else if str_eq(m, "October") { Some(10) }
    else if str_eq(m, "November") { Some(11) }
    else if str_eq(m, "December") { Some(12) }
    else { None }
}

/// The name of month `m` (1 is "January"), or the empty string outside 1 to 12.
pub fn num_to_month(m: u32) -> (r: &'static str)
    ensures
        r@ == month_name(m),
{
    if m == 1 { "January" }
    else if m == 2 { "February" }
    else if m == 3 { "March" }
    else if m == 4 { "April" }
    else if m == 5 { "May" }
    else if m == 6 { "June" }
    else if m == 7 { "July" }
    else if m == 8 { "August" }
    else if m == 9 { "September" }
    else if m == 10 { "October" }
    else if m == 11 { "November" }
    else if m == 12 { "December" }
    else { "" }
}

/// Rust's integer division, rounding toward zero.
pub open spec fn div_toward_zero(a: int, b: int) -> int {
    if a >= 0 { a / b } else { -((-a) / b) }
}

/// Rust's remainder, with the sign of the dividend.
pub open spec fn rem_toward_zero(a: int, b: int) -> int {
    a - b * div_toward_zero(a, b)
}

/// Months since year 0 of the month reached `epoch` rounds after the initial month.
pub open spec fn month_index(epoch: usize, initial_month: u32, initial_year: i32) -> int {
    initial_year * 12 + (initial_month - 1) + epoch
}

/// "<Month> <year>" for month index `t`, with "Unknown" when the remainder is negative.
pub open spec fn date_text(t: int) -> Seq<char> {
    let month = rem_toward_zero(t, 12) + 1;
    let name = if 1 <= month <= 12 { month_name(month as u32) } else { "Unknown"@ };
    name + " "@ + signed_decimal(div_toward_zero(t, 12))
}

/// The in-game date of round `epoch`: one round per month after `initial_month` of
/// `initial_year`, written "<Month> <year>".
pub fn epoch_to_date(epoch: usize, initial_month: u32, initial_year: i32) -> (s: String)
    requires
        epoch <= i64::MAX,
        month_index(epoch, initial_month, initial_year) <= i64::MAX,
    ensures
        s@ == date_text(month_index(epoch, initial_month, initial_year)),
{
    let months_elapsed = epoch as i64;
    let total_months = (initial_year as i64) * 12 + (initial_month as i64 - 1) + months_elapsed;
    let year = total_months / 12;
    let rem = total_months % 12;
    let name: &str = if rem < 0 {
        "Unknown"
    } else {
        num_to_month((rem + 1) as u32)
    };
    let mut s = name.to_owned();
    s.append(" ");
    push_signed_decimal(&mut s, year);
    proof {
        let t = month_index(epoch, initial_month, initial_year);
        assert(total_months == t);
        assert(year == div_toward_zero(t, 12));
        assert(rem == rem_toward_zero(t, 12));
    }
    s
}

/// "<n> <unit>" with an "s" appended unless `n` is 1.
pub open spec fn count_text(n: nat, unit: Seq<char>) -> Seq<char> {
    decimal(n) + " "@ + unit + (if n == 1 { Seq::<char>::empty() } else { "s"@ })
}

/// The parts, in order, of a readable duration of `secs` seconds.
pub open spec fn duration_parts(secs: u64) -> Seq<Seq<char>> {
    let h = secs / 3600;
    let m = (secs % 3600) / 60;
    let s = secs % 60;
    let hp = if h > 0 { seq![count_text(h as nat, "hour"@)] } else { Seq::empty() };
    let mp = if m > 0 { seq![count_text(m as nat, "minute"@)] } else { Seq::empty() };
    let before = hp + mp;
    before + (if s > 0 || before.len() == 0 { seq![count_text(s as nat, "second"@)] } else { Seq::empty() })
}

/// Appends "<n> <unit>", pluralised unless `n` is 1, to `out`.
fn push_count(out: &mut String, n: u64, unit: &str)
    ensures
        final(out)@ == old(out)@ + count_text(n as nat, unit@),
{
    push_decimal(out, n);
    out.append(" ");
    out.append(unit);
    if n != 1 {
        out.append("s");
    }
    assert(final(out)@ =~= old(out)@ + count_text(n as nat, unit@));
}

/// Appends a part to `out`, which holds the join of `parts`, keeping it the join of
/// `parts` followed by the new part.
fn push_part(out: &mut String, n: u64, unit: &str, Ghost(parts): Ghost<Seq<Seq<char>>>)
    requires
        old(out)@ == join(parts, ", "@),
        old(out)@.len() == 0 <==> parts.len() == 0,
    ensures
        final(out)@ == join(parts.push(count_text(n as nat, unit@)), ", "@),
        final(out)@.len() > 0,
{
    let empty = out.as_str().unicode_len() == 0;
    if !empty {
        out.append(", ");
    }
    push_count(out, n, unit);
    proof {
        let np = parts.push(count_text(n as nat, unit@));
        assert(np.drop_last() =~= parts);
        reveal_strlit(" ");
        assert(count_text(n as nat, unit@).len() > 0);
        if parts.len() == 0 {
            assert(join(np, ", "@) == np[0]);
        }
    }
}

/// A duration in hours, minutes and seconds, such as "1 hour, 2 minutes, 5 seconds";
/// zero parts are left out, and "0 seconds" stands for no time.
pub fn format_duration(secs: u64) -> (text: String)
    ensures
        text@ == join(duration_parts(secs), ", "@),
{
    let hours = secs / 3600;
    let mins = (secs % 3600) / 60;
    let s = secs % 60;
    let mut out = String::new();
    let ghost mut parts: Seq<Seq<char>> = Seq::empty();
    assert(out@ == join(parts, ", "@));
    if hours > 0 {
        push_part(&mut out, hours, "hour", Ghost(parts));
        proof { parts = parts.push(count_text(hours as nat, "hour"@)); }
    }
    if mins > 0 {
        push_part(&mut out, mins, "minute", Ghost(parts));
        proof { parts = parts.push(count_text(mins as nat, "minute"@)); }
    }
    if s > 0 || out.as_str().unicode_len() == 0 {
        push_part(&mut out, s, "second", Ghost(parts));
        proof { parts = parts.push(count_text(s as nat, "second"@)); }
    }
    proof {
        assert(parts =~= duration_parts(secs));
    }
    out
}

/// The parts, in order, of a readable count of days and hours.
pub open spec fn days_hours_parts(days: u64, hours: u64) -> Seq<Seq<char>> {
    let dp = if days > 0 { seq![count_text(days as nat, "day"@)] } else { Seq::empty() };
    let hp = if hours > 0 { seq![count_text(hours as nat, "hour"@)] } else { Seq::empty() };
    if dp.len() + hp.len() == 0 { seq!["less than 1 hour"@] } else { dp + hp }
}

/// Remaining gameplay time as whole days and hours, such as "3 days, 1 hour", or
/// "less than 1 hour" when both are zero.
pub fn days_hours_text(days: u64, hours: u64) -> (text: String)
    ensures
        text@ == join(days_hours_parts(days, hours), ", "@),
{
    let mut out = String::new();
    let ghost mut parts: Seq<Seq<char>> = Seq::empty();
    assert(out@ == join(parts, ", "@));
    if days > 0 {
        push_part(&mut out, days, "day", Ghost(parts));
        proof { parts = parts.push(count_text(days as nat, "day"@)); }
    }
    if hours > 0 {
        push_part(&mut out, hours, "hour", Ghost(parts));
        proof { parts = parts.push(count_text(hours as nat, "hour"@)); }
    }
    if days == 0 && hours == 0 {
        out.append("less than 1 hour");
        proof {
            assert(out@ =~= join(seq!["less than 1 hour"@], ", "@));
        }
    } else {
        proof {
            assert(parts =~= days_hours_parts(days, hours));
        }
    }
    out
}

} // verus!
