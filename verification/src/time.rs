//! Dates and times as directory entries hold them.
//!
//! A date is a 16-bit number: the day in the low five bits, the month in the
//! next four and the years since 1980 in the upper seven. A time is a 16-bit
//! number: the seconds, halved, in the low five bits, the minutes in the
//! next six and the hours in the upper five. The creation time has a third
//! part that counts hundredths of a second, up to 199, and so restores the
//! second that the halving lost.
use vstd::prelude::*;

verus! {

/// A point in time, as a clock gives it.
#[derive(Debug, PartialEq, Eq, Clone, Copy, Structural)]
pub struct DateTime {
    /// The year, from 1980 to 2107.
    pub year: u16,
    /// The month, from 1 to 12.
    pub month: u8,
    /// The day of the month, from 1 to 31.
    pub day: u8,
    /// The hour, from 0 to 23.
    pub hour: u8,
    /// The minute, from 0 to 59.
    pub minute: u8,
    /// The second, from 0 to 59.
    pub second: u8,
    /// The milliseconds, from 0 to 999.
    pub millis: u16,
}

/// A point in time, as a directory entry holds it.
#[derive(Debug, PartialEq, Eq, Clone, Copy, Structural)]
pub struct Stamp {
    /// The date.
    pub date: u16,
    /// The time, to two seconds.
    pub time: u16,
    /// The hundredths of a second that lie above the time, up to 199.
    pub tenths: u8,
}

impl DateTime {
    /// Whether every part lies in its range.
    pub open spec fn wf(self) -> bool {
        &&& 1980 <= self.year <= 2107
        &&& 1 <= self.month <= 12
        &&& 1 <= self.day <= 31
        &&& self.hour <= 23
        &&& self.minute <= 59
        &&& self.second <= 59
        &&& self.millis <= 999
    }

    /// Tells whether every part lies in its range.
    pub fn check(self) -> (ok: bool)
        ensures
            ok == self.wf(),
    {
        1980 <= self.year && self.year <= 2107 && 1 <= self.month && self.month <= 12 && 1
            <= self.day && self.day <= 31 && self.hour <= 23 && self.minute <= 59 && self.second
            <= 59 && self.millis <= 999
    }

    /// The stamp of this point in time.
    pub open spec fn spec_encode(self) -> Stamp {
        Stamp {
            date: ((self.year - 1980) * 512 + self.month * 32 + self.day) as u16,
            time: (self.hour * 2048 + self.minute * 32 + self.second / 2) as u16,
            tenths: ((self.second % 2) * 100 + self.millis / 10) as u8,
        }
    }

    /// Writes the point in time as a directory entry holds it.
    #[verifier::when_used_as_spec(spec_encode)]
    pub fn encode(self) -> (stamp: Stamp)
        requires
            self.wf(),
        ensures
            stamp == self.spec_encode(),
    {
        Stamp {
            date: (self.year - 1980) * 512 + self.month as u16 * 32 + self.day as u16,
            time: self.hour as u16 * 2048 + self.minute as u16 * 32 + (self.second / 2) as u16,
            tenths: (self.second % 2) * 100 + (self.millis / 10) as u8,
        }
    }
}

impl Stamp {
    /// The point in time that the stamp stands for, to a hundredth of a
    /// second.
    pub open spec fn spec_decode(self) -> DateTime {
        DateTime {
            year: (1980 + self.date / 512) as u16,
            month: (self.date / 32 % 16) as u8,
            day: (self.date % 32) as u8,
            hour: (self.time / 2048) as u8,
            minute: (self.time / 32 % 64) as u8,
            second: (self.time % 32 * 2 + self.tenths / 100) as u8,
            millis: (self.tenths % 100 * 10) as u16,
        }
    }

    /// Reads the point in time that the stamp stands for. The parts are
    /// read as they stand: a stamp that no clock has written may give a month
    /// 0 or 15, or a second 63.
    #[verifier::when_used_as_spec(spec_decode)]
    pub fn decode(self) -> (at: DateTime)
        ensures
            at == self.spec_decode(),
    {
        DateTime {
            year: 1980 + self.date / 512,
            month: (self.date / 32 % 16) as u8,
            day: (self.date % 32) as u8,
            hour: (self.time / 2048) as u8,
            minute: (self.time / 32 % 64) as u8,
            second: (self.time % 32 * 2) as u8 + self.tenths / 100,
            millis: (self.tenths % 100) as u16 * 10,
        }
    }
}

/// A point in time that has been written as a stamp is read back as it was,
/// with its milliseconds cut down to whole hundredths of a second.
pub proof fn lemma_stamp_round_trip(at: DateTime)
    requires
        at.wf(),
    ensures
        at.spec_encode().spec_decode() == (DateTime {
            millis: (at.millis / 10 * 10) as u16,
            ..at
        }),
{
    let y = at.year - 1980;
    let low = at.month * 32 + at.day;
    let date = y * 512 + low;
    assert(0 <= low < 512);
    assert(date / 512 == y);
    assert(date / 32 == y * 16 + at.month);
    assert((y * 16 + at.month) % 16 == at.month);
    assert(date % 32 == at.day);
    let half = at.second / 2;
    let rest = at.minute * 32 + half;
    let time = at.hour * 2048 + rest;
    assert(0 <= rest < 2048);
    assert(time / 2048 == at.hour);
    assert(time / 32 == at.hour * 64 + at.minute);
    assert((at.hour * 64 + at.minute) % 64 == at.minute);
    assert(time % 32 == half);
    let hundredths = at.millis / 10;
    let tenths = (at.second % 2) * 100 + hundredths;
    assert(0 <= hundredths < 100);
    assert(tenths / 100 == at.second % 2);
    assert(tenths % 100 == hundredths);
    assert(half * 2 + at.second % 2 == at.second);
    let stamp = at.spec_encode();
    assert(stamp.date == date);
    assert(stamp.time == time);
    assert(stamp.tenths == tenths);
}

} // verus!
