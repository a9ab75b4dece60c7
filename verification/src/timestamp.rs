//! Wall-clock timestamps with a fixed offset from UTC, held as plain values.

use vstd::prelude::*;

verus! {

/// The moment an article was added: local wall-clock fields together with
/// the offset of that wall clock from UTC, in minutes.
#[derive(Clone, Copy, PartialEq, Eq, Structural, Debug)]
pub struct Timestamp {
    pub year: u16,
    pub month: u8,
    pub day: u8,
    pub hour: u8,
    pub minute: u8,
    pub second: u8,
    /// Offset of the wall clock from UTC, in minutes; negative is west.
    pub offset_minutes: i32,
}

impl Timestamp {
    /// Field ranges of a well-formed timestamp. Offsets run strictly within
    /// one day on either side, as a sign, two hour digits and two minute
    /// digits can express.
    pub open spec fn wf(self) -> bool {
        &&& self.year <= 9999
        &&& 1 <= self.month <= 12
        &&& 1 <= self.day <= 31
        &&& self.hour <= 23
        &&& self.minute <= 59
        &&& self.second <= 59
        &&& -1439 <= self.offset_minutes <= 1439
    }

    /// The same wall-clock moment with the offset dropped: the naive local
    /// time of the stamp.
    pub fn naive_local(&self) -> (r: Timestamp)
        ensures
            r == (Timestamp { offset_minutes: 0, ..*self }),
            self.wf() ==> r.wf(),
    {
        Timestamp { offset_minutes: 0, ..*self }
    }

    /// Range check matching [`Timestamp::wf`].
    pub fn check_wf(&self) -> (r: bool)
        ensures
            r == self.wf(),
    {
        self.year <= 9999 && 1 <= self.month && self.month <= 12 && 1 <= self.day && self.day
            <= 31 && self.hour <= 23 && self.minute <= 59 && self.second <= 59 && -1439
            <= self.offset_minutes && self.offset_minutes <= 1439
    }
}

} // verus!
