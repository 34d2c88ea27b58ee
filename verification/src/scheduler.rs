//! The rotation: a cursor that walks through the timetable as the day goes
//! by, one poll of the clock at a time.
//!
//! The caller owns the loop. It reads the clock, hands the minute of the day
//! to [`Scheduler::poll`], and does what the returned [`Action`] says.

use vstd::prelude::*;
use crate::entry::Slot;
use crate::schedule::{active_index, is_timetable, lemma_active_slot, Schedule};

verus! {

/// What the caller is to do after a poll.
#[derive(Debug, Clone, Copy, PartialEq, Eq, Structural)]
pub enum Action {
    /// Put the wallpaper at this index of the timetable on display.
    Apply(usize),
    /// The cursor stands on the first wallpaper of the day and the clock has
    /// not passed the time of the last one: keep waiting.
    WaitForMorning,
    /// The next wallpaper is not due yet.
    Idle,
}

/// The state of a rotation: the timetable and the index of the slot that
/// comes next.
pub struct Rotation {
    pub slots: Seq<Slot>,
    pub cursor: int,
}

impl Rotation {
    /// The cursor points into a timetable.
    pub open spec fn well_formed(self) -> bool {
        is_timetable(self.slots) && 0 <= self.cursor < self.slots.len()
    }
}

/// The index after `cursor` in a cycle of `len` indices.
pub open spec fn next_cursor(cursor: int, len: int) -> int {
    (cursor + 1) % len
}

/// `cursor` moved on `steps` times in a cycle of `len` indices.
pub open spec fn advanced(cursor: int, len: int, steps: nat) -> int
    decreases steps,
{
    if steps == 0 {
        cursor
    } else {
        next_cursor(advanced(cursor, len, (steps - 1) as nat), len)
    }
}

/// The rotation right after the wallpaper on display at minute `t` was
/// found: the cursor stands on the slot behind it.
pub open spec fn started(slots: Seq<Slot>, t: int) -> Rotation {
    Rotation { slots, cursor: next_cursor(active_index(slots, t), slots.len() as int) }
}

/// One poll at minute `t`. With the cursor on the first slot, nothing
/// happens while `t` has not passed the last slot's time. Otherwise the slot
/// under the cursor is applied once `t` has passed its time, and the cursor
/// moves on; until then nothing happens.
pub open spec fn step(r: Rotation, t: int) -> (Rotation, Action) {
    if r.cursor == 0 && t <= r.slots.last().minute_of_day() {
        (r, Action::WaitForMorning)
    } else if t > r.slots[r.cursor].minute_of_day() {
        (
            Rotation { slots: r.slots, cursor: next_cursor(r.cursor, r.slots.len() as int) },
            Action::Apply(r.cursor as usize),
        )
    } else {
        (r, Action::Idle)
    }
}

/// Moving on keeps the cursor inside the cycle.
pub proof fn lemma_next_cursor_in_cycle(cursor: int, len: int)
    requires
        0 <= cursor < len,
    ensures
        0 <= next_cursor(cursor, len) < len,
        next_cursor(cursor, len) == if cursor + 1 == len {
            0
        } else {
            cursor + 1
        },
{
    if cursor + 1 == len {
        assert((cursor + 1) % len == 0) by (nonlinear_arith)
            requires
                cursor + 1 == len,
                len > 0,
        ;
    } else {
        assert((cursor + 1) % len == cursor + 1) by (nonlinear_arith)
            requires
                0 <= cursor + 1 < len,
        ;
    }
}

/// Where the cursor stands after `steps` moves, counted from the start of
/// the cycle.
proof fn lemma_advanced_sum(cursor: int, len: int, steps: nat)
    requires
        0 <= cursor < len,
    ensures
        advanced(cursor, len, steps) == (cursor + steps) % len,
    decreases steps,
{
    if steps == 0 {
        assert(cursor % len == cursor) by (nonlinear_arith)
            requires
                0 <= cursor < len,
        ;
    } else {
        let before = (steps - 1) as nat;
        lemma_advanced_sum(cursor, len, before);
        let a = cursor + before;
        assert(((a % len) + 1) % len == (a + 1) % len) by (nonlinear_arith)
            requires
                len > 0,
                a >= 0,
        ;
    }
}

/// Moving the cursor on as many times as the timetable has slots brings it
/// back to where it was.
pub proof fn lemma_full_cycle(cursor: int, len: int)
    requires
        0 <= cursor < len,
    ensures
        advanced(cursor, len, len as nat) == cursor,
{
    lemma_advanced_sum(cursor, len, len as nat);
    assert((cursor + len) % len == cursor) by (nonlinear_arith)
        requires
            0 <= cursor < len,
    ;
}

/// A rotation starts well formed.
pub proof fn lemma_started_well_formed(slots: Seq<Slot>, t: int)
    requires
        is_timetable(slots),
    ensures
        started(slots, t).well_formed(),
{
    lemma_active_slot(slots, t);
    lemma_next_cursor_in_cycle(active_index(slots, t), slots.len() as int);
}

/// A poll keeps a rotation well formed and leaves its timetable alone; the
/// cursor moves, by one slot, exactly when a wallpaper is applied, and the
/// wallpaper applied is the one the cursor stood on.
pub proof fn lemma_step_well_formed(r: Rotation, t: int)
    requires
        r.well_formed(),
    ensures
        step(r, t).0.well_formed(),
        step(r, t).0.slots == r.slots,
        step(r, t).1 is Apply ==> step(r, t).1 == Action::Apply(r.cursor as usize) && step(
            r,
            t,
        ).0.cursor == next_cursor(r.cursor, r.slots.len() as int),
        !(step(r, t).1 is Apply) ==> step(r, t).0 == r,
{
    lemma_next_cursor_in_cycle(r.cursor, r.slots.len() as int);
}

/// With a single wallpaper the cursor never leaves it.
pub proof fn lemma_single_slot_rotation(r: Rotation, t: int)
    requires
        r.well_formed(),
        r.slots.len() == 1,
    ensures
        started(r.slots, t) == r,
        step(r, t).0 == r,
{
    lemma_active_slot(r.slots, t);
    lemma_next_cursor_in_cycle(0, 1);
}

/// A timetable with the cursor of a running rotation.
#[derive(Debug)]
pub struct Scheduler {
    schedule: Schedule,
    cursor: usize,
}

impl View for Scheduler {
    type V = Rotation;

    closed spec fn view(&self) -> Rotation {
        Rotation { slots: self.schedule@, cursor: self.cursor as int }
    }
}

impl Scheduler {
    #[verifier::type_invariant]
    spec fn well_formed(self) -> bool {
        self.cursor < self.schedule@.len()
    }

    /// Starts a rotation at minute `t` of the day. Returns it together with
    /// the index of the wallpaper that is on display at `t`, which the
    /// caller applies at once; the cursor stands on the slot behind it.
    pub fn start(schedule: Schedule, t: u32) -> (r: (Scheduler, usize))
        ensures
            r.0@ == started(schedule@, t as int),
            r.0@.well_formed(),
            r.1 == active_index(schedule@, t as int),
            r.1 < schedule@.len(),
    {
        let n: usize = schedule.len();
        let active: usize = schedule.locate(t);
        proof {
            lemma_next_cursor_in_cycle(active as int, n as int);
        }
        let cursor: usize = if active + 1 == n {
            0
        } else {
            active + 1
        };
        (Scheduler { schedule, cursor }, active)
    }

    /// One poll at minute `t` of the day: says what to do and moves the
    /// cursor on where a wallpaper is applied.
    pub fn poll(&mut self, t: u32) -> (action: Action)
        ensures
            (final(self)@, action) == step(old(self)@, t as int),
            final(self)@.well_formed(),
    {
        proof {
            use_type_invariant(&*self);
        }
        let n: usize = self.schedule.len();
        let now: u64 = t as u64;
        proof {
            lemma_next_cursor_in_cycle(self.cursor as int, n as int);
        }
        if self.cursor == 0 && now <= self.schedule.entry(n - 1).minute_of_day() {
            Action::WaitForMorning
        } else if now > self.schedule.entry(self.cursor).minute_of_day() {
            let due: usize = self.cursor;
            self.cursor = if due + 1 == n {
                0
            } else {
                due + 1
            };
            Action::Apply(due)
        } else {
            Action::Idle
        }
    }

    /// The index of the slot that comes next.
    pub fn cursor(&self) -> (c: usize)
        ensures
            c == self@.cursor,
            c < self@.slots.len(),
    {
        proof {
            use_type_invariant(self);
        }
        self.cursor
    }

    /// The timetable that the rotation walks through.
    pub fn schedule(&self) -> (s: &Schedule)
        ensures
            s@ == self@.slots,
    {
        &self.schedule
    }
}

} // verus!
