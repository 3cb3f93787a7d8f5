//! Replay of a recording: where it stands and how it moves.

use crate::clock;
use crate::clock::{parse_rfc3339_ms, utc_time};
use crate::number::{Number, SIGN_BIT};
use crate::rounding;
use crate::rounding::ratio_of;
use vstd::prelude::*;

verus! {

/// The bits of one thousandth: how far a position must move to be shown anew, in seconds.
pub const REFRESH_GAP: u64 = 0x3F50_624D_D2F1_A9FC;

/// Why a file is no recording.
#[derive(Clone, Copy, Debug, PartialEq, Eq, Structural)]
pub enum ReplayError {
    /// It holds no sample table.
    NoTable,
    /// Its sample table is empty.
    Empty,
}

impl ReplayError {
    /// The message that describes the error.
    pub open spec fn text(self) -> Seq<char> {
        match self {
            ReplayError::NoTable =>
                "No 'signal_samples' table found. This may not be a telemetry database."@,
            ReplayError::Empty => "signal_samples table is empty — no data recorded yet"@,
        }
    }

    /// The message that describes the error.
    pub fn message(self) -> (s: &'static str)
        ensures
            s@ == self.text(),
    {
        match self {
            ReplayError::NoTable =>
                "No 'signal_samples' table found. This may not be a telemetry database.",
            ReplayError::Empty => "signal_samples table is empty — no data recorded yet",
        }
    }
}

/// Whether a file holds a recording, by how many sample tables it has.
pub fn check_tables(tables: i64) -> (result: Result<(), ReplayError>)
    ensures
        result == (if tables > 0 {
            Ok::<(), ReplayError>(())
        } else {
            Err::<(), ReplayError>(ReplayError::NoTable)
        }),
{
    if tables > 0 {
        Ok(())
    } else {
        Err(ReplayError::NoTable)
    }
}

/// The first and the last time of a recording in seconds, by the least and the greatest time of
/// its samples in milliseconds; an empty table has neither.
pub fn recorded_range(first: Option<i64>, last: Option<i64>) -> (result: Result<
    (Number, Number),
    ReplayError,
>)
    ensures
        result == match (first, last) {
            (None, _) => Err::<(Number, Number), ReplayError>(ReplayError::Empty),
            (Some(a), None) => Ok((seconds(a as int), seconds(a as int))),
            (Some(a), Some(b)) => Ok((seconds(a as int), seconds(b as int))),
        },
{
    if first.is_none() {
        return Err(ReplayError::Empty);
    }
    let start = or_epoch(first);
    match last {
        Some(_) => Ok((start, or_epoch(last))),
        None => Ok((start, start)),
    }
}

/// A position in a recording. Times are in seconds since the epoch.
#[derive(Debug)]
pub struct ReplayController {
    pub start_ts: Number,
    pub end_ts: Number,
    pub current_ts: Number,
    pub playing: bool,
    /// The position that was shown last; none where the next showing is forced.
    pub last_rendered: Option<Number>,
}

/// The lesser of two times, the other one where one is no number.
pub open spec fn lesser(a: Number, b: Number) -> Number {
    if a.is_nan() {
        b
    } else if b.less(a) {
        b
    } else {
        a
    }
}

/// A time kept between two others.
pub open spec fn kept_between(ts: Number, low: Number, high: Number) -> Number {
    if ts.less(low) {
        low
    } else if high.less(ts) {
        high
    } else {
        ts
    }
}

impl ReplayController {
    /// What every position keeps: it lies in the recording.
    pub open spec fn wf(self) -> bool {
        &&& self.start_ts.at_most(self.end_ts)
        &&& self.start_ts.at_most(self.current_ts)
        &&& self.current_ts.at_most(self.end_ts)
    }

    /// The beginning of a recording, paused.
    pub fn new(start_ts: Number, end_ts: Number) -> (r: Self)
        ensures
            r.wf() == start_ts.at_most(end_ts),
            r == (ReplayController {
                start_ts,
                end_ts,
                current_ts: start_ts,
                playing: false,
                last_rendered: None,
            }),
    {
        Self { start_ts, end_ts, current_ts: start_ts, playing: false, last_rendered: None }
    }

    /// Moves a playing recording to the time it has reached by now, no further than its end,
    /// where it stops. Tells whether the position changed.
    pub fn tick(&mut self, reached: Number) -> (moved: bool)
        requires
            old(self).start_ts.at_most(old(self).end_ts),
        ensures
            old(self).playing ==> final(self).wf() == !reached.less(old(self).start_ts),
            if old(self).playing {
                let now = lesser(reached, old(self).end_ts);
                &&& *final(self) == (ReplayController {
                    current_ts: now,
                    playing: now.less(old(self).end_ts),
                    ..*old(self)
                })
                &&& moved == (old(self).current_ts.is_nan() || now.rank()
                    != old(self).current_ts.rank())
            } else {
                *final(self) == *old(self) && !moved
            },
    {
        if !self.playing {
            return false;
        }
        let before = self.current_ts;
        let now = if reached.not_a_number() || self.end_ts.lt(reached) {
            self.end_ts
        } else {
            reached
        };
        self.current_ts = now;
        self.playing = now.lt(self.end_ts);
        before.not_a_number() || before.lt(now) || now.lt(before)
    }

    /// Jumps to a time, kept inside the recording, and forces the next showing.
    pub fn seek(&mut self, ts: Number)
        requires
            old(self).start_ts.at_most(old(self).end_ts),
        ensures
            final(self).wf() == !ts.is_nan(),
            *final(self) == (ReplayController {
                current_ts: kept_between(ts, old(self).start_ts, old(self).end_ts),
                last_rendered: None,
                ..*old(self)
            }),
    {
        self.current_ts = if ts.lt(self.start_ts) {
            self.start_ts
        } else if self.end_ts.lt(ts) {
            self.end_ts
        } else {
            ts
        };
        self.last_rendered = None;
    }

    /// Jumps to the beginning and pauses.
    pub fn reset(&mut self)
        requires
            old(self).start_ts.at_most(old(self).end_ts),
        ensures
            final(self).wf(),
            *final(self) == (ReplayController {
                current_ts: old(self).start_ts,
                playing: false,
                last_rendered: None,
                ..*old(self)
            }),
    {
        let start = self.start_ts;
        self.seek(start);
        self.playing = false;
    }

    /// Whether the position is to be shown anew, where `gap` is how far it lies from the one
    /// shown last.
    pub fn needs_refresh(&self, gap: Number) -> (yes: bool)
        ensures
            yes == (self.last_rendered is None || (Number { bits: REFRESH_GAP }).less(gap)),
    {
        match self.last_rendered {
            None => true,
            Some(_) => Number { bits: REFRESH_GAP }.lt(gap),
        }
    }

    /// The position is shown now.
    pub fn rendered(&mut self)
        ensures
            final(self).wf() == old(self).wf(),
            *final(self) == (ReplayController {
                last_rendered: Some(old(self).current_ts),
                ..*old(self)
            }),
    {
        self.last_rendered = Some(self.current_ts);
    }

    /// The time of day of the position.
    pub fn format_current(&self) -> (out: String)
        ensures
            out@ == time_text(self.current_ts),
    {
        format_ts_display(self.current_ts)
    }

    /// The time of day of the end.
    pub fn format_end(&self) -> (out: String)
        ensures
            out@ == time_text(self.end_ts),
    {
        format_ts_display(self.end_ts)
    }

    /// The time of day of the beginning.
    pub fn format_start(&self) -> (out: String)
        ensures
            out@ == time_text(self.start_ts),
    {
        format_ts_display(self.start_ts)
    }
}

/// What a time is shown as: the time of day, or dashes where it has no date.
pub open spec fn time_text(unix: Number) -> Seq<char> {
    if clock::has_date(unix.truncated()) {
        clock::time_of_day(unix.truncated())
    } else {
        "--:--:--"@
    }
}

/// What a time is shown as: the time of day, or dashes where it has no date.
pub fn format_ts_display(unix: Number) -> (out: String)
    ensures
        out@ == time_text(unix),
{
    match utc_time(unix.trunc()) {
        Some(s) => s,
        None => "--:--:--".to_owned(),
    }
}

/// A time in milliseconds as seconds.
pub open spec fn seconds(ms: int) -> Number {
    if ms == 0 {
        Number { bits: 0 }
    } else if ms > 0 {
        rounding::ratio(ms as nat, 1000)
    } else {
        Number { bits: (SIGN_BIT + rounding::ratio((-ms) as nat, 1000).bits) as u64 }
    }
}

/// The seconds of a time that was read in milliseconds, zero where it could not be read.
pub fn or_epoch(ms: Option<i64>) -> (secs: Number)
    ensures
        secs == match ms {
            Some(n) => seconds(n as int),
            None => seconds(0),
        },
{
    match ms {
        None => Number { bits: 0 },
        Some(n) => {
            if n == 0 {
                Number { bits: 0 }
            } else if n > 0 {
                ratio_of(n as u64, 1000)
            } else {
                let opposite: u64 = (-(n + 1)) as u64 + 1;
                Number { bits: SIGN_BIT + ratio_of(opposite, 1000).bits }
            }
        },
    }
}

/// The second since the epoch of a calendar time as of RFC 3339, to the millisecond, zero where
/// the text is none.
pub fn parse_ts(s: &str) -> (secs: Number)
    ensures
        secs == match clock::rfc3339_ms(s@) {
            Some(ms) => seconds(ms as int),
            None => seconds(0),
        },
{
    or_epoch(parse_rfc3339_ms(s))
}

/// A recording that plays stops at its end and nowhere else.
pub proof fn law_replay_stops_at_the_end(r: ReplayController, reached: Number)
    requires
        r.start_ts.at_most(r.end_ts),
        r.playing,
    ensures
        lesser(reached, r.end_ts).less(r.end_ts) <==> reached.less(r.end_ts),
        !reached.less(r.end_ts) ==> lesser(reached, r.end_ts).rank() == r.end_ts.rank(),
{
}

/// A time sought for is kept where it lies within the recording, and moved to the nearer end
/// where it does not.
pub proof fn law_seek_stays_within(ts: Number, low: Number, high: Number)
    requires
        low.at_most(high),
        !ts.is_nan(),
    ensures
        low.at_most(kept_between(ts, low, high)),
        kept_between(ts, low, high).at_most(high),
        low.at_most(ts) && ts.at_most(high) ==> kept_between(ts, low, high) == ts,
        ts.less(low) ==> kept_between(ts, low, high) == low,
        high.less(ts) ==> kept_between(ts, low, high) == high,
{
}

/// Of two times the lesser is the one that the other is not below; what is no number gives way.
pub proof fn law_lesser_is_below_both(a: Number, b: Number)
    ensures
        lesser(a, b) == a || lesser(a, b) == b,
        !a.is_nan() ==> lesser(a, b).at_most(a),
        !a.is_nan() && !b.is_nan() ==> lesser(a, b).at_most(b),
        a.is_nan() ==> lesser(a, b) == b,
{
}

/// A time is a thousandth of its milliseconds; one before the epoch mirrors the one after it.
pub proof fn law_times_are_thousandths(ms: i64)
    requires
        ms > 0,
    ensures
        seconds(ms as int) == rounding::ratio(ms as nat, 1000),
        seconds(ms as int).bits < SIGN_BIT ==> seconds(-(ms as int)).rank() == -seconds(
            ms as int,
        ).rank(),
        seconds(0).is_zero(),
        seconds(0).bits == 0,
{
}

/// A time without a date is shown by dashes.
pub proof fn law_dateless_times_are_dashes(unix: Number)
    ensures
        unix.truncated() < -8_334_601_228_800 || unix.truncated() > 8_210_266_876_799 ==> time_text(
            unix,
        ) == "--:--:--"@,
        -8_334_601_228_800 <= unix.truncated() <= 8_210_266_876_799 ==> time_text(unix)
            == clock::time_of_day(unix.truncated()),
{
}

} // verus!
