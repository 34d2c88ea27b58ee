//! One wallpaper and the time of day at which it goes on display.

use vstd::prelude::*;
use crate::clock::{minute_of_day, minutes_since_midnight};

verus! {

/// The mathematical content of a [`Wallpaper`]: where the image is and when
/// it is due.
pub struct Slot {
    pub path: Seq<char>,
    pub hour: int,
    pub min: int,
}

impl Slot {
    /// Minutes since midnight at which the slot begins.
    pub open spec fn minute_of_day(self) -> int {
        minute_of_day(self.hour, self.min)
    }
}

/// An image file together with the wall-clock time from which it is shown.
#[derive(Debug, Clone, PartialEq, Eq)]
pub struct Wallpaper {
    pub path: String,
    pub hour: u32,
    pub min: u32,
}

impl View for Wallpaper {
    type V = Slot;

    open spec fn view(&self) -> Slot {
        Slot { path: self.path@, hour: self.hour as int, min: self.min as int }
    }
}

/// The slots of a list of wallpapers, in the same order.
pub open spec fn slots(entries: Seq<Wallpaper>) -> Seq<Slot> {
    entries.map_values(|w: Wallpaper| w@)
}

impl Wallpaper {
    /// A wallpaper for the image at `path`, due at 01:00 until a time is set.
    pub fn new(path: String) -> (w: Self)
        ensures
            w.path == path,
            w.hour == 1,
            w.min == 0,
    {
        Wallpaper { path, hour: 1, min: 0 }
    }

    /// Moves the wallpaper to `hour`:`min` and leaves its path alone.
    pub fn set_time(&mut self, hour: u32, min: u32)
        ensures
            final(self).path == old(self).path,
            final(self).hour == hour,
            final(self).min == min,
    {
        self.hour = hour;
        self.min = min;
    }

    /// Minutes since midnight at which the wallpaper is due.
    pub fn minute_of_day(&self) -> (m: u64)
        ensures
            m == self@.minute_of_day(),
    {
        minutes_since_midnight(self.hour, self.min)
    }
}

} // verus!
