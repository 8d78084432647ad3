//! The wall clock, reduced to plain calendar fields.
//!
//! Broadcast payloads carry a `YYYY:MM:DD HH:MM:SS` stamp in the server's
//! local time. Only the reading of the clock is trusted; everything done
//! with the fields afterwards is verified.

use vstd::prelude::*;

verus! {

/// One reading of the clock, split into calendar fields.
#[derive(Clone, Copy, Debug, PartialEq, Eq, Structural)]
pub struct TimeParts {
    pub year: u16,
    pub month: u8,
    pub day: u8,
    pub hour: u8,
    pub minute: u8,
    pub second: u8,
}

impl TimeParts {
    /// Every field fits the calendar and the four- or two-digit rendering.
    pub open spec fn wf(self) -> bool {
        self.year <= 9999 && 1 <= self.month <= 12 && 1 <= self.day <= 31 && self.hour < 24
            && self.minute < 60 && self.second < 60
    }

    /// Read the clock now, in the local offset when it can be determined.
    ///
    /// Years outside the four-digit range are pinned to its nearest end, so
    /// the stamp always renders in four digits.
    pub fn now() -> (t: TimeParts)
        ensures
            t.wf(),
    {
        let (y, mo, d, h, mi, s) = now_components();
        let year: u16 = if y < 0 {
            0
        } else if y > 9999 {
            9999
        } else {
            y as u16
        };
        TimeParts { year, month: mo, day: d, hour: h, minute: mi, second: s }
    }
}

/// Relies on time::OffsetDateTime::now_local / now_utc and the component
/// accessors: month is 1..=12, day 1..=31, hour below 24, minute and second
/// below 60, as the crate documents. Nothing is assumed of the year.
#[verifier::external_body]
fn now_components() -> (r: (i32, u8, u8, u8, u8, u8))
    ensures
        1 <= r.1 <= 12,
        1 <= r.2 <= 31,
        r.3 < 24,
        r.4 < 60,
        r.5 < 60,
{
    let t = time::OffsetDateTime::now_local().unwrap_or_else(|_| time::OffsetDateTime::now_utc());
    (t.year(), u8::from(t.month()), t.day(), t.hour(), t.minute(), t.second())
}

} // verus!
