//! What can keep a timetable from being built.

use vstd::prelude::*;

verus! {

/// Why no timetable came out of the wallpapers that were handed in.
#[derive(Debug, Clone, Copy, PartialEq, Eq, Structural)]
pub enum ScheduleError {
    /// The configuration has no list of images.
    NoImageTable,
    /// There is no wallpaper to show.
    Empty,
}

impl ScheduleError {
    /// The error in words.
    pub fn message(&self) -> (text: String)
        ensures
            text@ == match *self {
                ScheduleError::NoImageTable => "the configuration holds no image table"@,
                ScheduleError::Empty => "no wallpaper to schedule"@,
            },
    {
        match self {
            ScheduleError::NoImageTable => String::from_str("the configuration holds no image table"),
            ScheduleError::Empty => String::from_str("no wallpaper to schedule"),
        }
    }
}

} // verus!
