//! Time-of-day wallpaper rotation.
//!
//! A timetable assigns each wallpaper a minute of the day. The crate builds
//! such timetables, finds the entry that is on display at a given time, and
//! steps a cursor through the table as the day goes by. Every function is
//! verified against a model of the timetable as a sequence of [`entry::Slot`]s.
//!
//! - [`entry`]: a wallpaper and its slot.
//! - [`clock`]: minutes of the day, and the even division of the day.
//! - [`text`] and [`order`]: the order of paths, and stable sorting by path
//!   or by time.
//! - [`schedule`]: building a timetable and finding the wallpaper on display.
//! - [`scheduler`]: the cursor and the poll that moves it.
//! - [`now`]: the wall clock.
//! - [`flags`] and [`error`]: the command line, and why no timetable came
//!   about.
//!
//! Setting the desktop background, reading directories and files and
//! sleeping are the caller's business.

pub mod clock;
pub mod entry;
pub mod error;
pub mod flags;
pub mod now;
pub mod order;
pub mod schedule;
pub mod scheduler;
pub mod text;
