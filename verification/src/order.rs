//! Ordering a list of wallpapers by path or by time of day.
//!
//! Sorting is stable: wallpapers that rank the same stay in the order in
//! which the list held them, so the outcome is the same on every run.

use vstd::prelude::*;
use crate::entry::{slots, Slot, Wallpaper};
use crate::text::{lemma_text_le_total, lemma_text_le_transitive, path_le, text_le};

verus! {

/// What a list of wallpapers is ordered by.
#[derive(Debug, Clone, Copy, PartialEq, Eq, Structural)]
pub enum SortKey {
    /// The path, in dictionary order.
    Path,
    /// The minute of the day.
    Time,
}

/// `a` ranks no higher than `b` under `key`.
pub open spec fn rank_le(key: SortKey, a: Slot, b: Slot) -> bool {
    match key {
        SortKey::Path => text_le(a.path, b.path),
        SortKey::Time => a.minute_of_day() <= b.minute_of_day(),
    }
}

/// `a` and `b` rank the same under `key`.
pub open spec fn same_rank(key: SortKey, a: Slot, b: Slot) -> bool {
    rank_le(key, a, b) && rank_le(key, b, a)
}

/// No slot of `s` ranks higher than a later one.
pub open spec fn ordered(key: SortKey, s: Seq<Slot>) -> bool {
    forall|i: int, j: int| #![trigger s[i], s[j]] 0 <= i < j < s.len() ==> rank_le(key, s[i], s[j])
}

/// The test "ranks the same as `x`".
pub open spec fn ranks_with(key: SortKey, x: Slot) -> spec_fn(Slot) -> bool {
    |y: Slot| same_rank(key, x, y)
}

/// The slots of `s` that rank the same as `x`, in the order in which `s`
/// holds them.
pub open spec fn peers(key: SortKey, s: Seq<Slot>, x: Slot) -> Seq<Slot> {
    s.filter(ranks_with(key, x))
}

/// `out` is `inp` sorted by `key` with ties left as they were: it is
/// ordered, it holds the same slots as often, and slots of one rank follow
/// each other as they do in `inp`.
pub open spec fn stable_sort_of(key: SortKey, out: Seq<Slot>, inp: Seq<Slot>) -> bool {
    &&& ordered(key, out)
    &&& out.to_multiset() == inp.to_multiset()
    &&& forall|x: Slot| #[trigger] peers(key, out, x) == peers(key, inp, x)
}

/// Where `x` goes into `s`: behind the last slot that ranks no higher than
/// `x`, or in front of all of them where every slot ranks higher.
pub open spec fn insert_point(key: SortKey, s: Seq<Slot>, x: Slot) -> int
    decreases s.len(),
{
    if s.len() == 0 {
        0
    } else if rank_le(key, s.last(), x) {
        s.len() as int
    } else {
        insert_point(key, s.drop_last(), x)
    }
}

/// `s` sorted by `key`, ties left as they were: each slot in turn goes into
/// the sorted list of those before it, behind the ones that rank no higher.
pub open spec fn sorted(key: SortKey, s: Seq<Slot>) -> Seq<Slot>
    decreases s.len(),
{
    if s.len() == 0 {
        s
    } else {
        let front = sorted(key, s.drop_last());
        front.insert(insert_point(key, front, s.last()), s.last())
    }
}

/// Of any two slots one ranks no higher than the other.
pub proof fn lemma_rank_le_total(key: SortKey, a: Slot, b: Slot)
    ensures
        rank_le(key, a, b) || rank_le(key, b, a),
{
    lemma_text_le_total(a.path, b.path);
}

/// Ranking is transitive.
pub proof fn lemma_rank_le_transitive(key: SortKey, a: Slot, b: Slot, c: Slot)
    requires
        rank_le(key, a, b),
        rank_le(key, b, c),
    ensures
        rank_le(key, a, c),
{
    if key == SortKey::Path {
        lemma_text_le_transitive(a.path, b.path, c.path);
    }
}

/// Putting `x` behind the last slot that ranks no higher than it keeps an
/// ordered list ordered.
proof fn lemma_insert_keeps_order(key: SortKey, s: Seq<Slot>, x: Slot, at: int)
    requires
        ordered(key, s),
        0 <= at <= s.len(),
        forall|k: int| at <= k < s.len() ==> !rank_le(key, #[trigger] s[k], x),
        at > 0 ==> rank_le(key, s[at - 1], x),
    ensures
        ordered(key, s.insert(at, x)),
{
    let t = s.insert(at, x);
    assert forall|i: int, j: int| 0 <= i < j < t.len() implies rank_le(key, t[i], t[j]) by {
        if j == at {
            assert(t[i] == s[i]);
            if i < at - 1 {
                assert(rank_le(key, s[i], s[at - 1]));
                lemma_rank_le_transitive(key, s[i], s[at - 1], x);
            }
        } else if i == at {
            assert(t[j] == s[j - 1]);
            assert(!rank_le(key, s[j - 1], x));
            lemma_rank_le_total(key, x, s[j - 1]);
        } else {
            let a = if i < at { i } else { i - 1 };
            let b = if j < at { j } else { j - 1 };
            assert(t[i] == s[a] && t[j] == s[b]);
            assert(rank_le(key, s[a], s[b]));
        }
    }
}

/// Putting `x` in front of slots that all rank higher than it adds `x` at
/// the end of its peers and changes no other rank's peers.
proof fn lemma_insert_appends_to_peers(key: SortKey, s: Seq<Slot>, x: Slot, at: int, y: Slot)
    requires
        0 <= at <= s.len(),
        forall|k: int| at <= k < s.len() ==> !rank_le(key, #[trigger] s[k], x),
    ensures
        peers(key, s.insert(at, x), y) == if same_rank(key, y, x) {
            peers(key, s, y).push(x)
        } else {
            peers(key, s, y)
        },
{
    let p = ranks_with(key, y);
    let head = s.take(at);
    let tail = s.skip(at);
    assert(s =~= head + tail);
    assert(s.insert(at, x) =~= head.push(x) + tail);
    Seq::filter_distributes_over_add(head, tail, p);
    Seq::filter_distributes_over_add(head.push(x), tail, p);
    head.lemma_filter_push(x, p);
    if same_rank(key, y, x) {
        let not_p = |e: Slot| !p(e);
        assert forall|k: int| 0 <= k < tail.len() implies #[trigger] not_p(tail[k]) by {
            let e = tail[k];
            assert(e == s[at + k]);
            if p(e) {
                lemma_rank_le_transitive(key, e, y, x);
            }
        }
        assert(tail.all(not_p));
        tail.lemma_all_neg_filter_empty(p);
        assert(tail.filter(p) =~= Seq::<Slot>::empty());
        assert(head.filter(p) + tail.filter(p) =~= head.filter(p));
        assert(head.filter(p).push(x) + tail.filter(p) =~= head.filter(p).push(x));
    }
}

/// One step of sorting by insertion: where `sorted` is `inp` sorted, `sorted`
/// with `x` put behind the last slot that ranks no higher is `inp` followed
/// by `x`, sorted.
pub proof fn lemma_insert_keeps_stable_sort(
    key: SortKey,
    sorted: Seq<Slot>,
    inp: Seq<Slot>,
    x: Slot,
    at: int,
)
    requires
        stable_sort_of(key, sorted, inp),
        0 <= at <= sorted.len(),
        forall|k: int| at <= k < sorted.len() ==> !rank_le(key, #[trigger] sorted[k], x),
        at > 0 ==> rank_le(key, sorted[at - 1], x),
    ensures
        stable_sort_of(key, sorted.insert(at, x), inp.push(x)),
{
    broadcast use vstd::seq_lib::group_to_multiset_ensures;

    lemma_insert_keeps_order(key, sorted, x, at);
    assert(sorted.insert(at, x).to_multiset() =~= inp.push(x).to_multiset());
    assert forall|y: Slot| #[trigger]
        peers(key, sorted.insert(at, x), y) == peers(key, inp.push(x), y) by {
        lemma_insert_appends_to_peers(key, sorted, x, at, y);
        inp.lemma_filter_push(x, ranks_with(key, y));
        assert(peers(key, sorted, y) == peers(key, inp, y));
    }
}

/// The insertion point of `x` has only higher-ranking slots behind it and,
/// unless it is the front, a slot that ranks no higher just before it.
proof fn lemma_insert_point_fits(key: SortKey, s: Seq<Slot>, x: Slot)
    ensures
        0 <= insert_point(key, s, x) <= s.len(),
        forall|k: int| insert_point(key, s, x) <= k < s.len() ==> !rank_le(key, #[trigger] s[k], x),
        insert_point(key, s, x) > 0 ==> rank_le(key, s[insert_point(key, s, x) - 1], x),
    decreases s.len(),
{
    if s.len() > 0 && !rank_le(key, s.last(), x) {
        let front = s.drop_last();
        lemma_insert_point_fits(key, front, x);
        let at = insert_point(key, front, x);
        assert forall|k: int| at <= k < s.len() implies !rank_le(key, #[trigger] s[k], x) by {
            if k < front.len() {
                assert(s[k] == front[k]);
            }
        }
        if at > 0 {
            assert(s[at - 1] == front[at - 1]);
        }
    }
}

/// [`sorted`] sorts: its result is ordered, holds the same slots as the
/// list it was given, and keeps slots of one rank in their order.
pub proof fn lemma_sorted_is_stable_sort(key: SortKey, s: Seq<Slot>)
    ensures
        stable_sort_of(key, sorted(key, s), s),
        sorted(key, s).len() == s.len(),
    decreases s.len(),
{
    if s.len() == 0 {
        assert(forall|x: Slot| #[trigger] peers(key, s, x) =~= s);
    } else {
        let front = sorted(key, s.drop_last());
        lemma_sorted_is_stable_sort(key, s.drop_last());
        lemma_insert_point_fits(key, front, s.last());
        lemma_insert_keeps_stable_sort(
            key,
            front,
            s.drop_last(),
            s.last(),
            insert_point(key, front, s.last()),
        );
        assert(s.drop_last().push(s.last()) =~= s);
    }
}

/// Two ordered lists of one length in which every rank has the same peers in
/// the same order are one list.
proof fn lemma_same_peers_same_list(key: SortKey, a: Seq<Slot>, b: Seq<Slot>)
    requires
        ordered(key, a),
        ordered(key, b),
        a.len() == b.len(),
        forall|x: Slot| #[trigger] peers(key, a, x) == peers(key, b, x),
    ensures
        a == b,
    decreases a.len(),
{
    if a.len() == 0 {
        assert(a =~= b);
    } else {
        let n = a.len() as int;
        let x = a.last();
        let y = b.last();
        let a0 = a.drop_last();
        let b0 = b.drop_last();
        let p = ranks_with(key, x);
        assert(a =~= a0.push(x));
        assert(b =~= b0.push(y));
        lemma_rank_le_total(key, x, x);
        lemma_rank_le_total(key, y, y);
        a0.lemma_filter_push(x, p);
        b0.lemma_filter_push(y, p);
        assert(peers(key, a, x) == peers(key, b, x));
        assert(peers(key, a, x).last() == x);
        if !p(y) {
            let f = peers(key, b, x);
            assert(f[f.len() - 1] == x);
            assert(f.contains(x));
            b.lemma_filter_contains_rev(p, x);
            let m = choose|m: int| 0 <= m < b.len() && b[m] == x;
            assert(m < n - 1);
            assert(rank_le(key, b[m], b[n - 1]));
            let q = ranks_with(key, y);
            b0.lemma_filter_push(y, q);
            assert(peers(key, a, y) == peers(key, b, y));
            let g = peers(key, a, y);
            assert(g[g.len() - 1] == y);
            assert(g.contains(y));
            a.lemma_filter_contains_rev(q, y);
            let k = choose|k: int| 0 <= k < a.len() && a[k] == y;
            if k < n - 1 {
                assert(rank_le(key, a[k], a[n - 1]));
            }
            assert(false);
        }
        assert(peers(key, b, x).last() == y);
        assert(x == y);
        assert forall|z: Slot| #[trigger] peers(key, a0, z) == peers(key, b0, z) by {
            let r = ranks_with(key, z);
            a0.lemma_filter_push(x, r);
            b0.lemma_filter_push(x, r);
            assert(peers(key, a, z) == peers(key, b, z));
            if r(x) {
                assert(a0.filter(r) =~= a0.filter(r).push(x).drop_last());
                assert(b0.filter(r) =~= b0.filter(r).push(x).drop_last());
            }
        }
        assert forall|i: int, j: int| 0 <= i < j < a0.len() implies rank_le(key, a0[i], a0[j]) by {
            assert(a0[i] == a[i] && a0[j] == a[j]);
        }
        assert forall|i: int, j: int| 0 <= i < j < b0.len() implies rank_le(key, b0[i], b0[j]) by {
            assert(b0[i] == b[i] && b0[j] == b[j]);
        }
        lemma_same_peers_same_list(key, a0, b0);
    }
}

/// A list has one stable sort only: whatever is ordered, holds the same
/// slots and keeps ties in their order is [`sorted`] of the list.
pub proof fn lemma_stable_sort_unique(key: SortKey, out: Seq<Slot>, inp: Seq<Slot>)
    requires
        stable_sort_of(key, out, inp),
    ensures
        out == sorted(key, inp),
{
    broadcast use vstd::seq_lib::group_to_multiset_ensures;

    lemma_sorted_is_stable_sort(key, inp);
    let other = sorted(key, inp);
    assert(out.len() == out.to_multiset().len());
    assert(other.len() == other.to_multiset().len());
    assert forall|x: Slot| #[trigger] peers(key, out, x) == peers(key, other, x) by {
        assert(peers(key, out, x) == peers(key, inp, x));
        assert(peers(key, other, x) == peers(key, inp, x));
    }
    lemma_same_peers_same_list(key, out, other);
}

/// Two ordered lists of the same slots are one list, where slots that rank
/// the same are the same slot.
proof fn lemma_ordered_unique(key: SortKey, a: Seq<Slot>, b: Seq<Slot>)
    requires
        ordered(key, a),
        ordered(key, b),
        a.to_multiset() == b.to_multiset(),
        forall|i: int, j: int|
            #![trigger a[i], a[j]]
            0 <= i < a.len() && 0 <= j < a.len() && same_rank(key, a[i], a[j]) ==> a[i] == a[j],
    ensures
        a == b,
    decreases a.len(),
{
    broadcast use vstd::seq_lib::group_to_multiset_ensures;
    broadcast use vstd::multiset::group_multiset_axioms;

    assert(a.len() == a.to_multiset().len());
    assert(b.len() == b.to_multiset().len());
    if a.len() == 0 {
        assert(a =~= b);
    } else {
        let n = a.len() as int;
        let x = a.last();
        let y = b.last();
        let a0 = a.drop_last();
        let b0 = b.drop_last();
        assert(a =~= a0.push(x));
        assert(b =~= b0.push(y));
        assert(b[n - 1] == y);
        assert(b.contains(y));
        vstd::seq_lib::to_multiset_contains(b, y);
        vstd::seq_lib::to_multiset_contains(a, y);
        assert(a.contains(y));
        let k = choose|k: int| 0 <= k < a.len() && a[k] == y;
        assert(a[n - 1] == x);
        assert(a.contains(x));
        vstd::seq_lib::to_multiset_contains(a, x);
        vstd::seq_lib::to_multiset_contains(b, x);
        assert(b.contains(x));
        let m = choose|m: int| 0 <= m < b.len() && b[m] == x;
        lemma_rank_le_total(key, x, x);
        if k < n - 1 {
            assert(rank_le(key, a[k], a[n - 1]));
        }
        if m < n - 1 {
            assert(rank_le(key, b[m], b[n - 1]));
        }
        assert(same_rank(key, a[k], a[n - 1]));
        assert(x == y);
        assert(a0.to_multiset() =~= a.to_multiset().remove(x));
        assert(b0.to_multiset() =~= b.to_multiset().remove(x));
        assert forall|i: int, j: int| 0 <= i < j < a0.len() implies rank_le(key, a0[i], a0[j]) by {
            assert(a0[i] == a[i] && a0[j] == a[j]);
        }
        assert forall|i: int, j: int| 0 <= i < j < b0.len() implies rank_le(key, b0[i], b0[j]) by {
            assert(b0[i] == b[i] && b0[j] == b[j]);
        }
        assert forall|i: int, j: int|
            #![trigger a0[i], a0[j]]
            0 <= i < a0.len() && 0 <= j < a0.len() && same_rank(
                key,
                a0[i],
                a0[j],
            ) implies a0[i] == a0[j] by {
            assert(a0[i] == a[i] && a0[j] == a[j]);
        }
        lemma_ordered_unique(key, a0, b0);
    }
}

/// Where slots that rank the same are the same slot, the sorted list depends
/// on which slots there are and how often, not on the order in which the
/// list holds them.
pub proof fn lemma_sorted_ignores_order(key: SortKey, a: Seq<Slot>, b: Seq<Slot>)
    requires
        a.to_multiset() == b.to_multiset(),
        forall|i: int, j: int|
            #![trigger a[i], a[j]]
            0 <= i < a.len() && 0 <= j < a.len() && same_rank(key, a[i], a[j]) ==> a[i] == a[j],
    ensures
        sorted(key, a) == sorted(key, b),
{
    broadcast use vstd::seq_lib::group_to_multiset_ensures;

    lemma_sorted_is_stable_sort(key, a);
    lemma_sorted_is_stable_sort(key, b);
    let sa = sorted(key, a);
    assert forall|i: int, j: int|
        #![trigger sa[i], sa[j]]
        0 <= i < sa.len() && 0 <= j < sa.len() && same_rank(key, sa[i], sa[j]) implies sa[i]
        == sa[j] by {
        assert(sa.contains(sa[i]));
        assert(sa.contains(sa[j]));
        vstd::seq_lib::to_multiset_contains(sa, sa[i]);
        vstd::seq_lib::to_multiset_contains(a, sa[i]);
        vstd::seq_lib::to_multiset_contains(sa, sa[j]);
        vstd::seq_lib::to_multiset_contains(a, sa[j]);
        assert(a.contains(sa[i]));
        assert(a.contains(sa[j]));
        let k = choose|k: int| 0 <= k < a.len() && a[k] == sa[i];
        let m = choose|m: int| 0 <= m < a.len() && a[m] == sa[j];
        assert(same_rank(key, a[k], a[m]));
    }
    lemma_ordered_unique(key, sa, sorted(key, b));
}

/// Sorting a list that is ordered already changes nothing.
pub proof fn lemma_sorted_of_ordered(key: SortKey, s: Seq<Slot>)
    requires
        ordered(key, s),
    ensures
        sorted(key, s) == s,
{
    lemma_stable_sort_unique(key, s, s);
}

/// Whether `a` ranks no higher than `b` under `key`.
pub fn entry_le(key: SortKey, a: &Wallpaper, b: &Wallpaper) -> (r: bool)
    ensures
        r == rank_le(key, a@, b@),
{
    match key {
        SortKey::Path => path_le(a.path.as_str(), b.path.as_str()),
        SortKey::Time => a.minute_of_day() <= b.minute_of_day(),
    }
}

/// Sorts `entries` by `key`, leaving wallpapers of one rank in the order in
/// which the list held them.
pub fn sort_entries(entries: &mut Vec<Wallpaper>, key: SortKey)
    ensures
        slots(final(entries)@) == sorted(key, slots(old(entries)@)),
        stable_sort_of(key, slots(final(entries)@), slots(old(entries)@)),
        final(entries)@.len() == old(entries)@.len(),
{
    let ghost inp = slots(entries@);
    let n: usize = entries.len();
    let mut i: usize = 0;
    proof {
        assert(inp.take(0) =~= Seq::<Slot>::empty());
        assert(forall|x: Slot| #[trigger]
            peers(key, Seq::<Slot>::empty(), x) =~= Seq::<Slot>::empty());
    }
    while i < n
        invariant
            i <= n,
            n == entries@.len(),
            inp.len() == n,
            slots(entries@).skip(i as int) == inp.skip(i as int),
            stable_sort_of(key, slots(entries@).take(i as int), inp.take(i as int)),
        decreases n - i,
    {
        let ghost cur = slots(entries@);
        let mut at: usize = i;
        while at > 0 && !entry_le(key, &entries[at - 1], &entries[i])
            invariant
                at <= i < n,
                n == entries@.len(),
                cur == slots(entries@),
                forall|k: int| at <= k < i ==> !rank_le(key, #[trigger] cur[k], cur[i as int]),
            decreases at,
        {
            at -= 1;
        }
        let moved = entries.remove(i);
        entries.insert(at, moved);
        proof {
            let x = cur[i as int];
            let next = slots(entries@);
            let sorted = cur.take(i as int);
            assert(x == inp.skip(i as int)[0]);
            assert(next =~= cur.remove(i as int).insert(at as int, x));
            assert(next.take(i + 1) =~= sorted.insert(at as int, x));
            assert(inp.take(i + 1) =~= inp.take(i as int).push(x));
            assert(next.skip(i + 1) =~= cur.skip(i as int).skip(1));
            assert(inp.skip(i + 1) =~= inp.skip(i as int).skip(1));
            assert forall|k: int| at <= k < sorted.len() implies !rank_le(
                key,
                #[trigger] sorted[k],
                x,
            ) by {
                assert(sorted[k] == cur[k]);
            }
            if at > 0 {
                assert(sorted[at - 1] == cur[at - 1]);
            }
            lemma_insert_keeps_stable_sort(key, sorted, inp.take(i as int), x, at as int);
        }
        i += 1;
    }
    proof {
        assert(slots(entries@).take(n as int) =~= slots(entries@));
        assert(inp.take(n as int) =~= inp);
        lemma_stable_sort_unique(key, slots(entries@), inp);
    }
}

} // verus!
