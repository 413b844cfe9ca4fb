//! Agent preferences (self-managed through `PREFERENCES.toml`) and the
//! clock line the agent reads its local time from.

use vstd::prelude::*;
use crate::paths::{join, join_str};
use crate::text::{push_str, string_of, trim, trimmed_chars};
use std::fmt::Write;

verus! {

/// Agent preferences.
#[derive(Debug)]
pub struct Preferences {
    pub time: TimePreferences,
    pub identity: IdentityPreferences,
    pub schedule: SchedulePreferences,
}

#[derive(Debug)]
pub struct TimePreferences {
    pub timezone: Option<String>,
}

#[derive(Debug)]
pub struct IdentityPreferences {
    pub preferred_name: Option<String>,
}

#[derive(Debug)]
pub struct SchedulePreferences {
    pub working_hours: Option<String>,
}

impl Default for TimePreferences {
    fn default() -> (r: Self)
        ensures
            r.timezone is None,
    {
        TimePreferences { timezone: None }
    }
}

impl Default for IdentityPreferences {
    fn default() -> (r: Self)
        ensures
            r.preferred_name is None,
    {
        IdentityPreferences { preferred_name: None }
    }
}

impl Default for SchedulePreferences {
    fn default() -> (r: Self)
        ensures
            r.working_hours is None,
    {
        SchedulePreferences { working_hours: None }
    }
}

impl Default for Preferences {
    fn default() -> (r: Self)
        ensures
            r.time.timezone is None,
            r.identity.preferred_name is None,
            r.schedule.working_hours is None,
    {
        Preferences {
            time: TimePreferences { timezone: None },
            identity: IdentityPreferences { preferred_name: None },
            schedule: SchedulePreferences { working_hours: None },
        }
    }
}

impl Preferences {
    /// The timezone, `UTC` unless one is set.
    pub fn timezone(&self) -> (r: &str)
        ensures
            r@ == (match self.time.timezone {
                Some(tz) => tz@,
                None => "UTC"@,
            }),
    {
        match &self.time.timezone {
            Some(tz) => tz.as_str(),
            None => "UTC",
        }
    }

    /// The preferred name, if set.
    pub fn preferred_name(&self) -> (r: Option<&str>)
        ensures
            match r {
                Some(n) => self.identity.preferred_name matches Some(p) && n@ == p@,
                None => self.identity.preferred_name is None,
            },
    {
        match &self.identity.preferred_name {
            Some(n) => Some(n.as_str()),
            None => None,
        }
    }
}

/// `workspace/PREFERENCES.toml`.
pub fn preferences_path(workspace: &str) -> (r: String)
    ensures
        r@ == join(workspace@, "PREFERENCES.toml"@),
{
    join_str(workspace, "PREFERENCES.toml")
}

/// Whether a name is a timezone of the IANA database as `chrono-tz`
/// knows it.
pub uninterp spec fn tz_valid(name: Seq<char>) -> bool;

/// The `chrono` format the clock is read in: `Weekday, Month D, YYYY at
/// H:MM AM`, with the padding `%e` and `%l` leave.
pub const CLOCK_FORMAT: &'static str = "%A, %B %e, %Y at %l:%M %p";

/// The current time in the named zone, by `chrono` and `chrono-tz`,
/// rendered with `format`; `None` when `chrono-tz` knows no such zone.
///
/// Trusted: the contract claims only when a reading comes back; what it
/// reads depends on the clock and is left unsaid.
#[verifier::external_body]
fn clock_in_zone(tz_name: &str, format: &str) -> (r: Option<String>)
    ensures
        r is Some <==> tz_valid(tz_name@),
{
    match tz_name.parse::<chrono_tz::Tz>() {
        Ok(tz) => {
            let mut out = String::new();
            let now = chrono::DateTime::<chrono::Utc>::from(std::time::SystemTime::now());
            let _ = write!(out, "{}", now.with_timezone(&tz).format(format));
            Some(out)
        },
        Err(_) => None,
    }
}

/// The current UTC time by `chrono`, rendered with `format`.
///
/// Trusted, with no contract: the reading depends on the clock.
#[verifier::external_body]
fn clock_utc(format: &str) -> String {
    let mut out = String::new();
    let now = chrono::DateTime::<chrono::Utc>::from(std::time::SystemTime::now());
    let _ = write!(out, "{}", now.format(format));
    out
}

/// The clock line: the zone's reading trimmed and followed by the zone
/// name in parentheses, or the UTC reading trimmed and followed by `UTC`
/// when there is no zone reading.
pub open spec fn time_line_spec(tz_name: Seq<char>, zoned: Option<Seq<char>>, utc: Seq<char>) -> Seq<char> {
    match zoned {
        Some(t) => trim(t) + " ("@ + tz_name + ")"@,
        None => trim(utc) + " UTC"@,
    }
}

pub open spec fn opt_view(o: Option<&str>) -> Option<Seq<char>> {
    match o {
        Some(s) => Some(s@),
        None => None,
    }
}

/// The clock line from the clock's readings.
pub fn time_line(tz_name: &str, zoned: Option<&str>, utc: &str) -> (r: String)
    ensures
        r@ == time_line_spec(tz_name@, opt_view(zoned), utc@),
{
    match zoned {
        Some(t) => {
            let mut out = trimmed_chars(t);
            push_str(&mut out, " (");
            push_str(&mut out, tz_name);
            push_str(&mut out, ")");
            string_of(&out)
        },
        None => {
            let mut out = trimmed_chars(utc);
            push_str(&mut out, " UTC");
            string_of(&out)
        },
    }
}

/// The current time in the given timezone, read in `CLOCK_FORMAT`; an
/// unknown zone falls back to UTC.
pub fn format_current_time(tz_name: &str) -> (r: String)
    ensures
        tz_valid(tz_name@) ==> exists|t: Seq<char>| r@ == trim(t) + " ("@ + tz_name@ + ")"@,
        !tz_valid(tz_name@) ==> exists|t: Seq<char>| r@ == trim(t) + " UTC"@,
{
    match clock_in_zone(tz_name, CLOCK_FORMAT) {
        Some(local) => time_line(tz_name, Some(local.as_str()), ""),
        None => {
            let u = clock_utc(CLOCK_FORMAT);
            time_line(tz_name, None, u.as_str())
        },
    }
}

} // verus!
