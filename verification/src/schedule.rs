//! The timetable: wallpapers in the order of their times, and the search
//! for the one that is on display at a given minute of the day.

use vstd::prelude::*;
use crate::clock::{
    auto_minute, is_even_gap, lemma_auto_minute_in_day, lemma_auto_minute_monotonic,
    lemma_auto_minute_spacing, lemma_auto_minute_wraps, to_hour_minutes,
};
use crate::entry::{slots, Slot, Wallpaper};
use crate::error::ScheduleError;
use crate::order::{
    lemma_sorted_ignores_order, lemma_sorted_of_ordered, ordered, same_rank, sort_entries, sorted,
    SortKey,
};
use crate::text::lemma_text_le_antisymmetric;

verus! {

/// A timetable has at least one slot, and its slots come in the order of
/// their times.
pub open spec fn is_timetable(s: Seq<Slot>) -> bool {
    s.len() > 0 && ordered(SortKey::Time, s)
}

/// One slot for each path, in the same order, each due at 01:00.
pub open spec fn fresh_slots(paths: Seq<String>) -> Seq<Slot> {
    paths.map_values(|p: String| Slot { path: p@, hour: 1, min: 0 })
}

/// The slots of `s` with new times: the day is shared evenly among them,
/// the first one due at midnight.
pub open spec fn evenly_timed(s: Seq<Slot>) -> Seq<Slot> {
    Seq::new(
        s.len(),
        |i: int|
            Slot {
                path: s[i].path,
                hour: auto_minute(i, s.len() as int) / 60,
                min: auto_minute(i, s.len() as int) % 60,
            },
    )
}

/// `relative` below the directory `base`.
pub open spec fn joined(base: Seq<char>, relative: Seq<char>) -> Seq<char> {
    base + seq!['/'] + relative
}

/// The slots of `s`, each path taken as relative to the directory `base`.
pub open spec fn resolved(base: Seq<char>, s: Seq<Slot>) -> Seq<Slot> {
    s.map_values(|e: Slot| Slot { path: joined(base, e.path), hour: e.hour, min: e.min })
}

/// The index of the first slot of `s` that is due after `t`, or the length
/// of `s` where none is.
pub open spec fn first_after(s: Seq<Slot>, t: int) -> int
    decreases s.len(),
{
    if s.len() == 0 || s[0].minute_of_day() > t {
        0
    } else {
        1 + first_after(s.drop_first(), t)
    }
}

/// The index of the slot that is on display at minute `t`: the one before
/// the first slot due after `t`. Before the first slot of the day, and after
/// the last, the last slot is on display.
pub open spec fn active_index(s: Seq<Slot>, t: int) -> int {
    let next = first_after(s, t);
    if next == 0 || next == s.len() {
        s.len() - 1
    } else {
        next - 1
    }
}

/// [`first_after`] stops at the first slot due after `t`.
pub proof fn lemma_first_after_fits(s: Seq<Slot>, t: int)
    ensures
        0 <= first_after(s, t) <= s.len(),
        forall|k: int| 0 <= k < first_after(s, t) ==> (#[trigger] s[k]).minute_of_day() <= t,
        first_after(s, t) < s.len() ==> s[first_after(s, t)].minute_of_day() > t,
    decreases s.len(),
{
    if !(s.len() == 0 || s[0].minute_of_day() > t) {
        let rest = s.drop_first();
        lemma_first_after_fits(rest, t);
        let next = first_after(rest, t);
        assert forall|k: int| 0 <= k < next + 1 implies (#[trigger] s[k]).minute_of_day() <= t by {
            if k > 0 {
                assert(s[k] == rest[k - 1]);
            }
        }
        if next < rest.len() {
            assert(s[next + 1] == rest[next]);
        }
    }
}

/// An index with only slots due by `t` before it and a slot due after `t`
/// at it is [`first_after`].
pub proof fn lemma_first_after_is(s: Seq<Slot>, t: int, next: int)
    requires
        0 <= next <= s.len(),
        forall|k: int| 0 <= k < next ==> (#[trigger] s[k]).minute_of_day() <= t,
        next < s.len() ==> s[next].minute_of_day() > t,
    ensures
        first_after(s, t) == next,
    decreases s.len(),
{
    if next > 0 {
        let rest = s.drop_first();
        assert(s[0].minute_of_day() <= t);
        assert forall|k: int| 0 <= k < next - 1 implies (#[trigger] rest[k]).minute_of_day()
            <= t by {
            assert(rest[k] == s[k + 1]);
        }
        if next - 1 < rest.len() {
            assert(rest[next - 1] == s[next]);
        }
        lemma_first_after_is(rest, t, next - 1);
    }
}

/// In a timetable exactly one slot is on display at any minute `t`. Where
/// some slot is due by `t`, it is the last such slot; where every slot is
/// due after `t`, it is the last slot of the table.
pub proof fn lemma_active_slot(s: Seq<Slot>, t: int)
    requires
        is_timetable(s),
    ensures
        0 <= active_index(s, t) < s.len(),
        (exists|i: int| 0 <= i < s.len() && (#[trigger] s[i]).minute_of_day() <= t) ==> {
            &&& s[active_index(s, t)].minute_of_day() <= t
            &&& forall|k: int|
                active_index(s, t) < k < s.len() ==> (#[trigger] s[k]).minute_of_day() > t
        },
        (forall|i: int| 0 <= i < s.len() ==> (#[trigger] s[i]).minute_of_day() > t)
            ==> active_index(s, t) == s.len() - 1,
{
    lemma_first_after_fits(s, t);
    let next = first_after(s, t);
    if next < s.len() {
        assert forall|k: int| next <= k < s.len() implies (#[trigger] s[k]).minute_of_day()
            > t by {
            if next < k {
                assert(s[next].minute_of_day() <= s[k].minute_of_day());
            }
        }
    }
    if next > 0 {
        assert(s[next - 1].minute_of_day() <= t);
    }
}

/// The slot on display depends on the times of the slots and on `t` alone:
/// two tables whose slots are due at the same minutes have the same index on
/// display at `t`. Asking one table twice about one minute therefore gives
/// one answer.
pub proof fn lemma_active_index_repeatable(one: Seq<Slot>, other: Seq<Slot>, t: int)
    requires
        one.len() == other.len(),
        forall|i: int|
            0 <= i < one.len() ==> (#[trigger] one[i]).minute_of_day() == other[i].minute_of_day(),
    ensures
        active_index(one, t) == active_index(other, t),
{
    lemma_first_after_fits(one, t);
    let next = first_after(one, t);
    assert forall|k: int| 0 <= k < next implies (#[trigger] other[k]).minute_of_day() <= t by {
        assert(one[k].minute_of_day() <= t);
    }
    if next < one.len() {
        assert(one[next].minute_of_day() == other[next].minute_of_day());
    }
    lemma_first_after_is(other, t, next);
}

/// A table of one slot has that slot on display at every minute.
pub proof fn lemma_single_slot_always_active(s: Seq<Slot>, t: int)
    requires
        s.len() == 1,
    ensures
        active_index(s, t) == 0,
{
    lemma_first_after_fits(s, t);
}

/// Evenly shared times make a timetable as they stand: slot after slot they
/// never go back, so sorting by time changes nothing.
pub proof fn lemma_evenly_timed_is_timetable(s: Seq<Slot>)
    requires
        s.len() > 0,
    ensures
        is_timetable(evenly_timed(s)),
        sorted(SortKey::Time, evenly_timed(s)) == evenly_timed(s),
        evenly_timed(s).len() == s.len(),
        forall|i: int|
            0 <= i < s.len() ==> (#[trigger] evenly_timed(s)[i]).minute_of_day() == auto_minute(
                i,
                s.len() as int,
            ),
{
    let e = evenly_timed(s);
    let n = s.len() as int;
    assert forall|i: int| 0 <= i < n implies (#[trigger] e[i]).minute_of_day() == auto_minute(
        i,
        n,
    ) by {
        lemma_auto_minute_in_day(i, n);
    }
    assert forall|i: int, j: int| 0 <= i < j < n implies e[i].minute_of_day()
        <= e[j].minute_of_day() by {
        lemma_auto_minute_monotonic(i, j, n);
    }
    lemma_sorted_of_ordered(SortKey::Time, e);
}

/// Evenly shared times span the day: there are as many slots as before with
/// the paths they had, the first is due at midnight, every time is a time of
/// day, no slot is due before an earlier one, and from each slot to the next,
/// as from the last to the next midnight, it is an even share of the day.
pub proof fn lemma_evenly_timed_spans_day(s: Seq<Slot>)
    requires
        s.len() > 0,
    ensures
        evenly_timed(s).len() == s.len(),
        evenly_timed(s)[0].hour == 0 && evenly_timed(s)[0].min == 0,
        forall|i: int|
            #![trigger evenly_timed(s)[i]]
            0 <= i < s.len() ==> {
                &&& evenly_timed(s)[i].path == s[i].path
                &&& 0 <= evenly_timed(s)[i].hour < 24
                &&& 0 <= evenly_timed(s)[i].min < 60
                &&& 0 <= evenly_timed(s)[i].minute_of_day() < 1440
            },
        forall|i: int, j: int|
            #![trigger evenly_timed(s)[i], evenly_timed(s)[j]]
            0 <= i <= j < s.len() ==> evenly_timed(s)[i].minute_of_day() <= evenly_timed(
                s,
            )[j].minute_of_day(),
        forall|i: int|
            #![trigger evenly_timed(s)[i]]
            0 <= i < s.len() - 1 ==> is_even_gap(
                evenly_timed(s)[i + 1].minute_of_day() - evenly_timed(s)[i].minute_of_day(),
                s.len() as int,
            ),
        is_even_gap(1440 - evenly_timed(s).last().minute_of_day(), s.len() as int),
{
    let e = evenly_timed(s);
    let n = s.len() as int;
    lemma_evenly_timed_is_timetable(s);
    lemma_auto_minute_wraps(n);
    assert forall|i: int| #![trigger e[i]] 0 <= i < n implies {
        &&& e[i].path == s[i].path
        &&& 0 <= e[i].hour < 24
        &&& 0 <= e[i].min < 60
        &&& 0 <= e[i].minute_of_day() < 1440
    } by {
        lemma_auto_minute_in_day(i, n);
    }
    assert forall|i: int, j: int| #![trigger e[i], e[j]] 0 <= i <= j < n implies e[i].minute_of_day()
        <= e[j].minute_of_day() by {
        lemma_auto_minute_monotonic(i, j, n);
        assert(e[i].minute_of_day() == auto_minute(i, n));
        assert(e[j].minute_of_day() == auto_minute(j, n));
    }
    assert forall|i: int| #![trigger e[i]] 0 <= i < n - 1 implies is_even_gap(
        e[i + 1].minute_of_day() - e[i].minute_of_day(),
        n,
    ) by {
        lemma_auto_minute_spacing(i, n);
        assert(e[i].minute_of_day() == auto_minute(i, n));
        assert(e[i + 1].minute_of_day() == auto_minute(i + 1, n));
    }
    lemma_auto_minute_spacing(n - 1, n);
    assert(e.last().minute_of_day() == auto_minute(n - 1, n));
}

/// Two listings of the same paths, in whatever order, give the same evenly
/// timed table.
pub proof fn lemma_auto_ignores_listing_order(one: Seq<String>, other: Seq<String>)
    requires
        fresh_slots(one).to_multiset() == fresh_slots(other).to_multiset(),
    ensures
        evenly_timed(sorted(SortKey::Path, fresh_slots(one))) == evenly_timed(
            sorted(SortKey::Path, fresh_slots(other)),
        ),
{
    let a = fresh_slots(one);
    assert forall|i: int, j: int|
        #![trigger a[i], a[j]]
        0 <= i < a.len() && 0 <= j < a.len() && same_rank(SortKey::Path, a[i], a[j]) implies a[i]
        == a[j] by {
        lemma_text_le_antisymmetric(a[i].path, a[j].path);
    }
    lemma_sorted_ignores_order(SortKey::Path, a, fresh_slots(other));
}

/// One wallpaper for each path, in the same order, each due at 01:00.
pub fn from_paths(paths: &Vec<String>) -> (entries: Vec<Wallpaper>)
    ensures
        slots(entries@) == fresh_slots(paths@),
{
    let mut entries: Vec<Wallpaper> = Vec::new();
    let mut i: usize = 0;
    while i < paths.len()
        invariant
            i <= paths@.len(),
            entries@.len() == i,
            forall|k: int| 0 <= k < i ==> (#[trigger] entries@[k])@ == fresh_slots(paths@)[k],
        decreases paths@.len() - i,
    {
        entries.push(Wallpaper::new(paths[i].clone()));
        i += 1;
    }
    assert(slots(entries@) =~= fresh_slots(paths@));
    entries
}

/// Shares the day evenly among `wallpapers`: the first is due at midnight,
/// and each one as many minutes later as its place in the list asks for.
/// Paths and order stay.
pub fn wallpapers_time_set(wallpapers: &mut Vec<Wallpaper>)
    ensures
        slots(final(wallpapers)@) == evenly_timed(slots(old(wallpapers)@)),
        final(wallpapers)@.len() == old(wallpapers)@.len(),
{
    let ghost before = slots(wallpapers@);
    let length: usize = wallpapers.len();
    let mut index: usize = 0;
    while index < length
        invariant
            index <= length,
            wallpapers@.len() == length,
            before.len() == length,
            forall|k: int|
                0 <= k < index ==> (#[trigger] wallpapers@[k])@ == evenly_timed(before)[k],
            forall|k: int| index <= k < length ==> (#[trigger] wallpapers@[k])@ == before[k],
        decreases length - index,
    {
        let (hours, minutes) = to_hour_minutes(index, length);
        wallpapers[index].set_time(hours, minutes);
        index += 1;
    }
    assert(slots(wallpapers@) =~= evenly_timed(before));
}

/// `relative` below the directory `base`: the two joined by a slash.
pub fn resolve_path(base: &str, relative: &str) -> (path: String)
    ensures
        path@ == joined(base@, relative@),
{
    proof {
        reveal_strlit("/");
        assert("/"@ =~= seq!['/']);
    }
    String::from_str(base).concat("/").concat(relative)
}

/// Takes every path in `entries` as relative to the directory `base`.
/// Times and order stay.
pub fn resolve_all(base: &str, entries: &mut Vec<Wallpaper>)
    ensures
        slots(final(entries)@) == resolved(base@, slots(old(entries)@)),
        final(entries)@.len() == old(entries)@.len(),
{
    let ghost before = slots(entries@);
    let n: usize = entries.len();
    let mut i: usize = 0;
    while i < n
        invariant
            i <= n,
            entries@.len() == n,
            before.len() == n,
            forall|k: int| 0 <= k < i ==> (#[trigger] entries@[k])@ == resolved(base@, before)[k],
            forall|k: int| i <= k < n ==> (#[trigger] entries@[k])@ == before[k],
        decreases n - i,
    {
        let path = resolve_path(base, entries[i].path.as_str());
        entries[i].path = path;
        i += 1;
    }
    assert(slots(entries@) =~= resolved(base@, before));
}

/// A timetable: at least one wallpaper, in the order of their times.
#[derive(Debug)]
pub struct Schedule {
    entries: Vec<Wallpaper>,
}

impl View for Schedule {
    type V = Seq<Slot>;

    closed spec fn view(&self) -> Seq<Slot> {
        slots(self.entries@)
    }
}

impl Schedule {
    #[verifier::type_invariant]
    spec fn well_formed(self) -> bool {
        is_timetable(slots(self.entries@))
    }

    /// The timetable of `entries` with the times they carry, sorted by time.
    /// Wallpapers due at the same minute stay in the order of the list.
    pub fn from_entries(entries: Vec<Wallpaper>) -> (r: Result<Schedule, ScheduleError>)
        ensures
            match r {
                Ok(schedule) => {
                    &&& entries@.len() > 0
                    &&& schedule@ == sorted(SortKey::Time, slots(entries@))
                    &&& is_timetable(schedule@)
                },
                Err(e) => entries@.len() == 0 && e == ScheduleError::Empty,
            },
    {
        if entries.len() == 0 {
            return Err(ScheduleError::Empty);
        }
        let mut entries = entries;
        sort_entries(&mut entries, SortKey::Time);
        Ok(Schedule { entries })
    }

    /// The timetable that shows the images at `paths` one after the other,
    /// in the dictionary order of their paths, each for an equal share of
    /// the day.
    pub fn auto(paths: &Vec<String>) -> (r: Result<Schedule, ScheduleError>)
        ensures
            match r {
                Ok(schedule) => {
                    &&& paths@.len() > 0
                    &&& schedule@ == evenly_timed(sorted(SortKey::Path, fresh_slots(paths@)))
                    &&& schedule@.len() == paths@.len()
                    &&& is_timetable(schedule@)
                },
                Err(e) => paths@.len() == 0 && e == ScheduleError::Empty,
            },
    {
        if paths.len() == 0 {
            return Err(ScheduleError::Empty);
        }
        let mut entries = from_paths(paths);
        sort_entries(&mut entries, SortKey::Path);
        wallpapers_time_set(&mut entries);
        proof {
            lemma_evenly_timed_is_timetable(sorted(SortKey::Path, fresh_slots(paths@)));
        }
        Ok(Schedule { entries })
    }

    /// The timetable of a configuration: the images it lists, their paths
    /// taken as relative to `base_dir`, sorted by the times they carry.
    pub fn from_config(base_dir: &str, images: Option<Vec<Wallpaper>>) -> (r: Result<
        Schedule,
        ScheduleError,
    >)
        ensures
            match r {
                Ok(schedule) => {
                    &&& images matches Some(list)
                    &&& list@.len() > 0
                    &&& schedule@ == sorted(SortKey::Time, resolved(base_dir@, slots(list@)))
                    &&& is_timetable(schedule@)
                },
                Err(e) => match images {
                    None => e == ScheduleError::NoImageTable,
                    Some(list) => list@.len() == 0 && e == ScheduleError::Empty,
                },
            },
    {
        match images {
            None => Err(ScheduleError::NoImageTable),
            Some(list) => {
                let mut entries = list;
                resolve_all(base_dir, &mut entries);
                Schedule::from_entries(entries)
            },
        }
    }

    /// The number of wallpapers, which is never zero.
    pub fn len(&self) -> (n: usize)
        ensures
            n == self@.len(),
            n > 0,
            is_timetable(self@),
    {
        proof {
            use_type_invariant(self);
        }
        self.entries.len()
    }

    /// The wallpaper at `index`, counted from zero in the order of the day.
    pub fn get(&self, index: usize) -> (entry: Option<&Wallpaper>)
        ensures
            match entry {
                Some(w) => index < self@.len() && w@ == self@[index as int],
                None => index >= self@.len(),
            },
    {
        if index < self.entries.len() {
            Some(&self.entries[index])
        } else {
            None
        }
    }

    /// The wallpaper at `index`, which must be one of the table.
    pub fn entry(&self, index: usize) -> (w: &Wallpaper)
        requires
            index < self@.len(),
        ensures
            w@ == self@[index as int],
    {
        &self.entries[index]
    }

    /// The index of the wallpaper that is on display at minute `t` of the
    /// day: the last one due by `t`, or the last of the table where `t` is
    /// before the first one of the day.
    pub fn locate(&self, t: u32) -> (index: usize)
        ensures
            index == active_index(self@, t as int),
            index < self@.len(),
            (exists|i: int| 0 <= i < self@.len() && (#[trigger] self@[i]).minute_of_day() <= t)
                ==> {
                &&& self@[index as int].minute_of_day() <= t
                &&& forall|k: int|
                    index < k < self@.len() ==> (#[trigger] self@[k]).minute_of_day() > t
            },
            (forall|i: int| 0 <= i < self@.len() ==> (#[trigger] self@[i]).minute_of_day() > t)
                ==> index == self@.len() - 1,
    {
        proof {
            use_type_invariant(self);
        }
        let n: usize = self.entries.len();
        let mut next: usize = 0;
        while next < n && self.entries[next].minute_of_day() <= t as u64
            invariant
                next <= n,
                n == self.entries@.len(),
                forall|k: int| 0 <= k < next ==> (#[trigger] self@[k]).minute_of_day() <= t,
            decreases n - next,
        {
            next += 1;
        }
        proof {
            lemma_first_after_is(self@, t as int, next as int);
            lemma_active_slot(self@, t as int);
        }
        if next == 0 || next == n {
            n - 1
        } else {
            next - 1
        }
    }
}

} // verus!
