//! Note-level shuffles: each timeslice (the notes at one time) gets its own lane
//! mapping, and a lane that holds a long note keeps its mapping until the hold ends.

use vstd::prelude::*;

use rand::rngs::SmallRng;

use crate::model::note::{Note, PlayMode};
use crate::pattern::lane_shuffle::with_lane;
use crate::pattern::rng::random_range;
use crate::pattern::{get_keys, increasing, is_playable, keys_of, lanes_from, lemma_keys_of};

verus! {

/// Time given to a lane that has had no note yet.
pub const NEVER_US: i64 = -10_000_000;

/// Whether the notes from `i` to `j` all have the time of the note at `i`.
pub open spec fn same_slice(s: Seq<Note>, i: int, j: int) -> bool {
    forall|k: int| i <= k <= j ==> #[trigger] s[k].time_us == s[i].time_us
}

/// What a note shuffle keeps: the notes and everything in them but lanes; notes on
/// the key lanes stay on key lanes, other notes stay where they are; and notes of one
/// timeslice on one lane move together.
pub open spec fn note_shuffled(old: Seq<Note>, new: Seq<Note>, keys: Seq<usize>) -> bool {
    &&& new.len() == old.len()
    &&& forall|i: int| 0 <= i < old.len() ==> #[trigger] new[i] == with_lane(old[i], new[i].lane)
    &&& forall|i: int|
        0 <= i < old.len() && !keys.contains(old[i].lane) ==> #[trigger] new[i].lane == old[i].lane
    &&& forall|i: int|
        0 <= i < old.len() && keys.contains(old[i].lane) ==> keys.contains(#[trigger] new[i].lane)
    &&& forall|i: int, j: int|
        0 <= i < j < old.len() && #[trigger] same_slice(old, i, j) && old[i].lane == old[j].lane
            ==> new[i].lane == #[trigger] new[j].lane
}

/// The notes before `upto` are shuffled as `note_shuffled` says, the rest are as they
/// were.
pub open spec fn shuffled_upto(old: Seq<Note>, new: Seq<Note>, keys: Seq<usize>, upto: int) -> bool {
    &&& new.len() == old.len()
    &&& 0 <= upto <= old.len()
    &&& forall|i: int| 0 <= i < upto ==> #[trigger] new[i] == with_lane(old[i], new[i].lane)
    &&& forall|i: int|
        0 <= i < upto && !keys.contains(old[i].lane) ==> #[trigger] new[i].lane == old[i].lane
    &&& forall|i: int|
        0 <= i < upto && keys.contains(old[i].lane) ==> keys.contains(#[trigger] new[i].lane)
    &&& forall|i: int| upto <= i < old.len() ==> #[trigger] new[i] == old[i]
    &&& forall|i: int, j: int|
        0 <= i < j < upto && #[trigger] same_slice(old, i, j) && old[i].lane == old[j].lane
            ==> new[i].lane == #[trigger] new[j].lane
}

/// Whether a playable note of `notes[start..end]` is on `lane`.
pub open spec fn has_note_in(notes: Seq<Note>, start: int, end: int, lane: usize) -> bool {
    exists|k: int|
        start <= k < end && notes[k].lane == lane && (#[trigger] notes[k]).note_type.playable()
}

/// The lanes with a playable note in `notes[start..end]`.
pub open spec fn noted(notes: Seq<Note>, start: int, end: int) -> spec_fn(usize) -> bool {
    |lane: usize| has_note_in(notes, start, end, lane)
}

/// The lanes whose last note is more than `threshold` before `time`.
pub open spec fn rested(lnt: Seq<Option<i64>>, time: i64, threshold: i64) -> spec_fn(usize) -> bool {
    |lane: usize| time - last_time(lnt, lane) > threshold
}

/// The lanes that no long note holds.
pub open spec fn unheld(ln_active: Seq<Option<usize>>) -> spec_fn(usize) -> bool {
    |lane: usize| !(lane < ln_active.len() && ln_active[lane as int] is Some)
}

/// The lanes that a held long note was moved to.
pub open spec fn held_dest(ln_active: Seq<Option<usize>>) -> spec_fn(usize) -> bool {
    |lane: usize| exists|l: int| 0 <= l < ln_active.len() && ln_active[l] == Some(lane)
}

/// The lanes that no held long note was moved to.
pub open spec fn free_dest(ln_active: Seq<Option<usize>>) -> spec_fn(usize) -> bool {
    |lane: usize| !held_dest(ln_active)(lane)
}

/// Whether note `k` is playable and its lane goes to `dst` by `map`.
pub open spec fn lands_on(notes: Seq<Note>, map: Seq<Option<usize>>, k: int, dst: usize) -> bool {
    &&& notes[k].note_type.playable()
    &&& notes[k].lane < map.len()
    &&& map[notes[k].lane as int] == Some(dst)
}

/// A lane mapping of one timeslice: lanes that are mapped are key lanes, and go to key
/// lanes.
pub open spec fn maps_into(map: Seq<Option<usize>>, from: Seq<usize>, to: Seq<usize>) -> bool {
    forall|l: int|
        0 <= l < map.len() && (#[trigger] map[l]) is Some ==> from.contains(l as usize)
            && to.contains(map[l]->0)
}

/// Every lane of `s` is one of `t`.
pub open spec fn within(s: Seq<usize>, t: Seq<usize>) -> bool {
    forall|k: int| 0 <= k < s.len() ==> t.contains(#[trigger] s[k])
}

/// The lane a lane goes to under a mapping; unmapped lanes stay.
pub open spec fn moved(map: Seq<Option<usize>>, lane: usize) -> usize {
    if lane < map.len() && map[lane as int] is Some {
        map[lane as int]->0
    } else {
        lane
    }
}

/// Whether the long notes on a lane in a list of notes are odd in number: each starts
/// or ends a hold of the lane, so after them the lane is held.
pub open spec fn flips(s: Seq<Note>, lane: usize) -> bool
    decreases s.len(),
{
    if s.len() == 0 {
        false
    } else {
        let f = flips(s.drop_last(), lane);
        if s.last().lane == lane && s.last().note_type.long() {
            !f
        } else {
            f
        }
    }
}

/// The long notes of two lists together are odd in number when those of exactly one
/// of them are.
pub proof fn lemma_flips_concat(a: Seq<Note>, b: Seq<Note>, lane: usize)
    ensures
        flips(a + b, lane) == (flips(a, lane) != flips(b, lane)),
    decreases b.len(),
{
    if b.len() == 0 {
        assert(a + b =~= a);
    } else {
        lemma_flips_concat(a, b.drop_last(), lane);
        assert((a + b).drop_last() =~= a + b.drop_last());
    }
}

/// The timeslices of a list of notes: the maximal runs of notes with one time, in
/// order, each with its time.
pub open spec fn slices_of(notes: Seq<Note>, groups: Seq<(i64, core::ops::Range<usize>)>) -> bool {
    &&& notes.len() == 0 <==> groups.len() == 0
    &&& groups.len() > 0 ==> groups[0].1.start == 0 && groups.last().1.end == notes.len()
    &&& forall|g: int| 0 <= g < groups.len() - 1 ==> #[trigger] groups[g].1.end == groups[g + 1].1.start
    &&& forall|g: int|
        0 <= g < groups.len() ==> {
            let r = #[trigger] groups[g].1;
            &&& r.start < r.end <= notes.len()
            &&& forall|k: int| r.start <= k < r.end ==> #[trigger] notes[k].time_us == groups[g].0
            &&& r.start > 0 ==> notes[r.start - 1].time_us != notes[r.start as int].time_us
            &&& r.end < notes.len() ==> notes[r.end - 1].time_us != notes[r.end as int].time_us
        }
}

proof fn lemma_remove_index<A>(s: Seq<A>, i: int)
    requires
        0 <= i < s.len(),
    ensures
        s.remove(i).len() == s.len() - 1,
        forall|k: int| 0 <= k < s.len() - 1 ==> #[trigger] s.remove(i)[k] == s[if k < i {
            k
        } else {
            k + 1
        }],
{
}

/// Groups notes by time: the maximal runs of notes with one time, in order, each with
/// its time and range of indices.
pub fn group_notes_by_time(notes: &Vec<Note>) -> (r: Vec<(i64, core::ops::Range<usize>)>)
    ensures
        slices_of(notes@, r@),
{
    let mut groups: Vec<(i64, core::ops::Range<usize>)> = Vec::new();
    if notes.len() == 0 {
        return groups;
    }
    let mut start: usize = 0;
    let mut current_time = notes[0].time_us;
    let mut i: usize = 0;
    while i < notes.len()
        invariant
            notes@.len() > 0,
            start <= i <= notes@.len(),
            start < notes@.len(),
            current_time == notes@[start as int].time_us,
            forall|k: int| start <= k < i ==> #[trigger] notes@[k].time_us == current_time,
            start > 0 ==> notes@[start - 1].time_us != notes@[start as int].time_us,
            groups@.len() == 0 <==> start == 0,
            groups@.len() > 0 ==> groups@[0].1.start == 0 && groups@.last().1.end == start,
            forall|g: int|
                0 <= g < groups@.len() - 1 ==> #[trigger] groups@[g].1.end == groups@[g + 1].1.start,
            forall|g: int|
                0 <= g < groups@.len() ==> {
                    let r = #[trigger] groups@[g].1;
                    &&& r.start < r.end <= start
                    &&& forall|k: int|
                        r.start <= k < r.end ==> #[trigger] notes@[k].time_us == groups@[g].0
                    &&& r.start > 0 ==> notes@[r.start - 1].time_us != notes@[r.start as int].time_us
                    &&& r.end < notes@.len() ==> notes@[r.end - 1].time_us
                        != notes@[r.end as int].time_us
                },
        decreases notes@.len() - i,
    {
        if notes[i].time_us != current_time {
            groups.push((current_time, start..i));
            start = i;
            current_time = notes[i].time_us;
        }
        i = i + 1;
    }
    groups.push((current_time, start..notes.len()));
    groups
}

/// Applies the mapping of one timeslice to its notes, and tracks the long notes: a long
/// note on a lane without a hold starts one there (remembering where it went), and one
/// on a held lane ends the hold.
fn apply_timeslice_map(
    notes: &mut Vec<Note>,
    range: &core::ops::Range<usize>,
    map: &Vec<Option<usize>>,
    ln_active: &mut Vec<Option<usize>>,
    keys: Ghost<Seq<usize>>,
)
    requires
        range.start <= range.end <= old(notes)@.len(),
        old(ln_active)@.len() == map@.len(),
        maps_into(map@, keys@, keys@),
        maps_into(old(ln_active)@, keys@, keys@),
    ensures
        final(notes)@.len() == old(notes)@.len(),
        forall|k: int|
            0 <= k < old(notes)@.len() && !(range.start <= k < range.end)
                ==> #[trigger] final(notes)@[k] == old(notes)@[k],
        forall|k: int|
            range.start <= k < range.end ==> #[trigger] final(notes)@[k] == with_lane(
                old(notes)@[k],
                moved(map@, old(notes)@[k].lane),
            ),
        final(ln_active)@.len() == old(ln_active)@.len(),
        maps_into(final(ln_active)@, keys@, keys@),
        forall|l: int|
            0 <= l < old(ln_active)@.len() ==> (#[trigger] final(ln_active)@[l]) is Some == if map@[l] is Some {
                (old(ln_active)@[l] is Some) != flips(
                    old(notes)@.subrange(range.start as int, range.end as int),
                    l as usize,
                )
            } else {
                old(ln_active)@[l] is Some
            },
        forall|l: int|
            0 <= l < old(ln_active)@.len() && (#[trigger] final(ln_active)@[l]) is Some ==> final(ln_active)@[l]
                == map@[l] || final(ln_active)@[l] == old(ln_active)@[l],
{
    let mut k = range.start;
    assert(old(notes)@.subrange(range.start as int, range.start as int) =~= Seq::<Note>::empty());
    while k < range.end
        invariant
            range.start <= k <= range.end <= notes@.len(),
            notes@.len() == old(notes)@.len(),
            ln_active@.len() == map@.len(),
            ln_active@.len() == old(ln_active)@.len(),
            maps_into(map@, keys@, keys@),
            maps_into(ln_active@, keys@, keys@),
            forall|l: int|
                0 <= l < ln_active@.len() ==> (#[trigger] ln_active@[l]) is Some == if map@[l] is Some {
                    (old(ln_active)@[l] is Some) != flips(
                        old(notes)@.subrange(range.start as int, k as int),
                        l as usize,
                    )
                } else {
                    old(ln_active)@[l] is Some
                },
            forall|j: int|
                0 <= j < notes@.len() && !(range.start <= j < k)
                    ==> #[trigger] notes@[j] == old(notes)@[j],
            forall|j: int|
                range.start <= j < k ==> #[trigger] notes@[j] == with_lane(
                    old(notes)@[j],
                    moved(map@, old(notes)@[j].lane),
                ),
            forall|l: int|
                0 <= l < ln_active@.len() && (#[trigger] ln_active@[l]) is Some ==> ln_active@[l] == map@[l]
                    || ln_active@[l] == old(ln_active)@[l],
        decreases range.end - k,
    {
        let mut n = notes[k];
        let old_lane = n.lane;
        let ghost la0 = ln_active@;
        proof {
            let sub = old(notes)@.subrange(range.start as int, k + 1);
            assert(sub.drop_last() =~= old(notes)@.subrange(range.start as int, k as int));
            assert(sub.last() == old(notes)@[k as int]);
            assert(notes@[k as int] == old(notes)@[k as int]);
        }
        if old_lane < map.len() {
            if let Some(new_lane) = map[old_lane] {
                n.lane = new_lane;
                notes.set(k, n);
                if n.is_long_note() {
                    if ln_active[old_lane].is_none() {
                        ln_active.set(old_lane, Some(new_lane));
                    } else {
                        ln_active.set(old_lane, None);
                    }
                }
            }
        }
        k = k + 1;
    }
}

/// Records the time of the timeslice on the lanes that get one of its playable notes.
fn update_note_time(
    notes: &Vec<Note>,
    range: &core::ops::Range<usize>,
    map: &Vec<Option<usize>>,
    last_note_time: &mut Vec<Option<i64>>,
)
    requires
        range.start <= range.end <= notes@.len(),
        old(last_note_time)@.len() == map@.len(),
        forall|l: int| 0 <= l < map@.len() && (#[trigger] map@[l]) is Some ==> map@[l]->0 < map@.len(),
    ensures
        final(last_note_time)@.len() == old(last_note_time)@.len(),
        forall|d: int|
            0 <= d < map@.len() ==> if exists|k: int|
                range.start <= k < range.end && #[trigger] lands_on(notes@, map@, k, d as usize) {
                exists|k: int|
                    range.start <= k < range.end && #[trigger] lands_on(notes@, map@, k, d as usize)
                        && final(last_note_time)@[d] == Some(notes@[k].time_us)
            } else {
                #[trigger] final(last_note_time)@[d] == old(last_note_time)@[d]
            },
{
    let mut k = range.start;
    while k < range.end
        invariant
            range.start <= k <= range.end <= notes@.len(),
            last_note_time@.len() == map@.len(),
            forall|l: int|
                0 <= l < map@.len() && (#[trigger] map@[l]) is Some ==> map@[l]->0 < map@.len(),
            forall|d: int|
                0 <= d < map@.len() ==> if exists|j: int|
                    range.start <= j < k && #[trigger] lands_on(notes@, map@, j, d as usize) {
                    exists|j: int|
                        range.start <= j < k && #[trigger] lands_on(notes@, map@, j, d as usize)
                            && last_note_time@[d] == Some(notes@[j].time_us)
                } else {
                    #[trigger] last_note_time@[d] == old(last_note_time)@[d]
                },
        decreases range.end - k,
    {
        let n = notes[k];
        let ghost before = last_note_time@;
        if is_playable(n.note_type) && n.lane < map.len() {
            if let Some(dst) = map[n.lane] {
                last_note_time.set(dst, Some(n.time_us));
            }
        }
        proof {
            assert forall|d: int| 0 <= d < map@.len() implies if exists|j: int|
                range.start <= j < k + 1 && #[trigger] lands_on(notes@, map@, j, d as usize) {
                exists|j: int|
                    range.start <= j < k + 1 && #[trigger] lands_on(notes@, map@, j, d as usize)
                        && last_note_time@[d] == Some(notes@[j].time_us)
            } else {
                #[trigger] last_note_time@[d] == old(last_note_time)@[d]
            } by {
                if lands_on(notes@, map@, k as int, d as usize) {
                    assert(last_note_time@[d] == Some(notes@[k as int].time_us));
                } else {
                    assert(last_note_time@[d] == before[d]);
                    if exists|j: int| range.start <= j < k + 1 && #[trigger] lands_on(notes@, map@, j, d as usize) {
                        let j = choose|j: int| range.start <= j < k + 1 && #[trigger] lands_on(notes@, map@, j, d as usize);
                        assert(j < k);
                    }
                }
            }
        }
        k = k + 1;
    }
}

/// Whether a timeslice has a playable note on a lane.
fn has_playable_on(notes: &Vec<Note>, range: &core::ops::Range<usize>, lane: usize) -> (r: bool)
    requires
        range.start <= range.end <= notes@.len(),
    ensures
        r == has_note_in(notes@, range.start as int, range.end as int, lane),
{
    let mut k = range.start;
    while k < range.end
        invariant
            range.start <= k <= range.end <= notes@.len(),
            forall|j: int|
                range.start <= j < k ==> !(notes@[j].lane == lane
                    && (#[trigger] notes@[j]).note_type.playable()),
        decreases range.end - k,
    {
        if notes[k].lane == lane && is_playable(notes[k].note_type) {
            return true;
        }
        k = k + 1;
    }
    false
}

/// Whether `a` and `b` split a list of distinct lanes: between them they hold each of
/// its lanes once.
pub open spec fn splits(s: Seq<usize>, a: Seq<usize>, b: Seq<usize>) -> bool {
    &&& a.len() + b.len() == s.len()
    &&& a.no_duplicates()
    &&& b.no_duplicates()
    &&& forall|x: usize| #[trigger] s.contains(x) <==> (a.contains(x) || b.contains(x))
    &&& forall|p: int, q: int| 0 <= p < a.len() && 0 <= q < b.len() ==> #[trigger] a[p] != #[trigger] b[q]
}

/// Putting the next lane of a list of distinct lanes on one side keeps a split.
proof fn lemma_splits_push(s: Seq<usize>, a: Seq<usize>, b: Seq<usize>, i: int, first: bool)
    requires
        s.no_duplicates(),
        0 <= i < s.len(),
        splits(s.take(i), a, b),
    ensures
        first ==> splits(s.take(i + 1), a.push(s[i]), b),
        !first ==> splits(s.take(i + 1), a, b.push(s[i])),
{
    let t = s.take(i);
    let t1 = s.take(i + 1);
    assert(t1 =~= t.push(s[i]));
    assert(!t.contains(s[i])) by {
        if t.contains(s[i]) {
            let k = choose|k: int| 0 <= k < t.len() && t[k] == s[i];
            assert(s[k] == s[i]);
        }
    }
    let x = s[i];
    if first {
        let a1 = a.push(x);
        assert forall|y: usize| #[trigger] t1.contains(y) <==> (a1.contains(y) || b.contains(y)) by {
            if t1.contains(y) {
                let k = choose|k: int| 0 <= k < t1.len() && t1[k] == y;
                if k < i {
                    assert(t[k] == y);
                    assert(t.contains(y));
                    if a.contains(y) {
                        let m = choose|m: int| 0 <= m < a.len() && a[m] == y;
                        assert(a1[m] == y);
                    }
                } else {
                    assert(a1[a.len() as int] == y);
                }
            }
            if a1.contains(y) {
                let k = choose|k: int| 0 <= k < a1.len() && a1[k] == y;
                if k < a.len() {
                    assert(a.contains(y));
                    assert(t.contains(y));
                    let m = choose|m: int| 0 <= m < t.len() && t[m] == y;
                    assert(t1[m] == y);
                } else {
                    assert(t1[i] == y);
                }
            }
            if b.contains(y) {
                assert(t.contains(y));
                let m = choose|m: int| 0 <= m < t.len() && t[m] == y;
                assert(t1[m] == y);
            }
        }
        assert forall|p: int, q: int| 0 <= p < a1.len() && 0 <= q < b.len() implies #[trigger] a1[p] != #[trigger] b[q] by {
            if p == a.len() {
                assert(b.contains(b[q]));
                assert(t.contains(b[q]));
            } else {
                assert(a1[p] == a[p]);
            }
        }
        assert forall|p: int, q: int| 0 <= p < q < a1.len() implies a1[p] != a1[q] by {
            if q == a.len() {
                assert(a.contains(a[p]));
                assert(t.contains(a[p]));
            } else {
                assert(a1[p] == a[p] && a1[q] == a[q]);
            }
        }
    } else {
        let b1 = b.push(x);
        assert forall|y: usize| #[trigger] t1.contains(y) <==> (a.contains(y) || b1.contains(y)) by {
            if t1.contains(y) {
                let k = choose|k: int| 0 <= k < t1.len() && t1[k] == y;
                if k < i {
                    assert(t[k] == y);
                    assert(t.contains(y));
                    if b.contains(y) {
                        let m = choose|m: int| 0 <= m < b.len() && b[m] == y;
                        assert(b1[m] == y);
                    }
                } else {
                    assert(b1[b.len() as int] == y);
                }
            }
            if b1.contains(y) {
                let k = choose|k: int| 0 <= k < b1.len() && b1[k] == y;
                if k < b.len() {
                    assert(b.contains(y));
                    assert(t.contains(y));
                    let m = choose|m: int| 0 <= m < t.len() && t[m] == y;
                    assert(t1[m] == y);
                } else {
                    assert(t1[i] == y);
                }
            }
            if a.contains(y) {
                assert(t.contains(y));
                let m = choose|m: int| 0 <= m < t.len() && t[m] == y;
                assert(t1[m] == y);
            }
        }
        assert forall|p: int, q: int| 0 <= p < a.len() && 0 <= q < b1.len() implies #[trigger] a[p] != #[trigger] b1[q] by {
            if q == b.len() {
                assert(a.contains(a[p]));
                assert(t.contains(a[p]));
            } else {
                assert(b1[q] == b[q]);
            }
        }
        assert forall|p: int, q: int| 0 <= p < q < b1.len() implies b1[p] != b1[q] by {
            if q == b.len() {
                assert(b.contains(b[p]));
                assert(t.contains(b[p]));
            } else {
                assert(b1[p] == b[p] && b1[q] == b[q]);
            }
        }
    }
}

/// Splits the changeable lanes into those with a playable note in the timeslice and
/// those without, each in the order of `changeable`.
fn split_by_notes(
    notes: &Vec<Note>,
    range: &core::ops::Range<usize>,
    changeable: &Vec<usize>,
) -> (r: (Vec<usize>, Vec<usize>))
    requires
        range.start <= range.end <= notes@.len(),
    ensures
        within(r.0@, changeable@),
        within(r.1@, changeable@),
        changeable@.no_duplicates() ==> splits(changeable@, r.0@, r.1@),
        r.0@ == changeable@.filter(noted(notes@, range.start as int, range.end as int)),
{
    let mut note_lanes: Vec<usize> = Vec::new();
    let mut empty_lanes: Vec<usize> = Vec::new();
    let mut i: usize = 0;
    assert(changeable@.take(0) =~= Seq::<usize>::empty());
    while i < changeable.len()
        invariant
            range.start <= range.end <= notes@.len(),
            i <= changeable@.len(),
            within(note_lanes@, changeable@),
            within(empty_lanes@, changeable@),
            changeable@.no_duplicates() ==> splits(changeable@.take(i as int), note_lanes@, empty_lanes@),
            note_lanes@ == changeable@.take(i as int).filter(
                noted(notes@, range.start as int, range.end as int),
            ),
        decreases changeable@.len() - i,
    {
        let cl = changeable[i];
        assert(changeable@.contains(changeable@[i as int]));
        proof {
            assert(changeable@.take(i + 1) =~= changeable@.take(i as int).push(cl));
            changeable@.take(i as int).lemma_filter_push(
                cl,
                noted(notes@, range.start as int, range.end as int),
            );
        }
        if has_playable_on(notes, range, cl) {
            proof {
                if changeable@.no_duplicates() {
                    lemma_splits_push(changeable@, note_lanes@, empty_lanes@, i as int, true);
                }
            }
            note_lanes.push(cl);
        } else {
            proof {
                if changeable@.no_duplicates() {
                    lemma_splits_push(changeable@, note_lanes@, empty_lanes@, i as int, false);
                }
            }
            empty_lanes.push(cl);
        }
        i = i + 1;
    }
    assert(changeable@.take(changeable@.len() as int) =~= changeable@);
    (note_lanes, empty_lanes)
}

/// No two lanes go to the same lane.
pub open spec fn one_to_one(map: Seq<Option<usize>>) -> bool {
    forall|a: int, b: int|
        0 <= a < map.len() && 0 <= b < map.len() && a != b && (#[trigger] map[a]) is Some
            && (#[trigger] map[b]) is Some ==> map[a]->0 != map[b]->0
}

/// A pairing of source lanes with pool lanes can go on one to one: the sources are
/// distinct and have no lane yet, the pool lanes are distinct and not taken, and the
/// mapping so far is one to one.
pub open spec fn can_pair(map: Seq<Option<usize>>, srcs: Seq<usize>, pool: Seq<usize>) -> bool {
    &&& srcs.no_duplicates()
    &&& pool.no_duplicates()
    &&& forall|k: int|
        0 <= k < srcs.len() ==> #[trigger] srcs[k] < map.len() && map[srcs[k] as int] is None
    &&& one_to_one(map)
    &&& forall|l: int, k: int|
        0 <= l < map.len() && 0 <= k < pool.len() && (#[trigger] map[l]) is Some ==> map[l]->0
            != #[trigger] pool[k]
}

/// What pairing did: the first sources were paired, as many as pool lanes were used; it
/// stopped when either ran out; other lanes kept their mapping, the paired sources got
/// one, and only pool lanes left the pool. When it could go on one to one, it did, the
/// lanes used coming from the pool and leaving it.
pub open spec fn paired(
    old_map: Seq<Option<usize>>,
    old_srcs: Seq<usize>,
    old_pool: Seq<usize>,
    map: Seq<Option<usize>>,
    srcs: Seq<usize>,
    pool: Seq<usize>,
) -> bool {
    &&& map.len() == old_map.len()
    &&& srcs.len() <= old_srcs.len()
    &&& srcs == old_srcs.skip(old_srcs.len() - srcs.len())
    &&& old_srcs.len() - srcs.len() == old_pool.len() - pool.len()
    &&& srcs.len() == 0 || pool.len() == 0
    &&& forall|l: int|
        0 <= l < old_map.len() && !old_srcs.contains(l as usize) ==> #[trigger] map[l] == old_map[l]
    &&& forall|k: int|
        0 <= k < old_srcs.len() - srcs.len() ==> (#[trigger] map[old_srcs[k] as int]) is Some
    &&& forall|x: usize| #[trigger] pool.contains(x) ==> old_pool.contains(x)
    &&& can_pair(old_map, old_srcs, old_pool) ==> {
        &&& can_pair(map, srcs, pool)
        &&& forall|l: int|
            0 <= l < map.len() && (#[trigger] map[l]) is Some && old_map[l] is None
                ==> old_pool.contains(map[l]->0) && !pool.contains(map[l]->0)
    }
}

/// Pairs the source lanes, front first, with lanes drawn at random from the pool, while
/// both have lanes; a drawn lane leaves the pool.
fn assign_random(
    map: &mut Vec<Option<usize>>,
    srcs: &mut Vec<usize>,
    pool: &mut Vec<usize>,
    rng: &mut SmallRng,
    from: Ghost<Seq<usize>>,
    to: Ghost<Seq<usize>>,
)
    requires
        maps_into(old(map)@, from@, to@),
        within(old(srcs)@, from@),
        within(old(pool)@, to@),
        forall|k: int| 0 <= k < old(srcs)@.len() ==> #[trigger] old(srcs)@[k] < old(map)@.len(),
    ensures
        final(map)@.len() == old(map)@.len(),
        maps_into(final(map)@, from@, to@),
        within(final(srcs)@, from@),
        within(final(pool)@, to@),
        forall|k: int| 0 <= k < final(srcs)@.len() ==> #[trigger] final(srcs)@[k] < final(map)@.len(),
        paired(old(map)@, old(srcs)@, old(pool)@, final(map)@, final(srcs)@, final(pool)@),
{
    let ghost m0 = map@;
    let ghost s0 = srcs@;
    let ghost p0 = pool@;
    assert(s0.skip(0) =~= s0);
    while srcs.len() > 0 && pool.len() > 0
        invariant
            map@.len() == old(map)@.len(),
            maps_into(map@, from@, to@),
            within(srcs@, from@),
            within(pool@, to@),
            forall|k: int| 0 <= k < srcs@.len() ==> #[trigger] srcs@[k] < map@.len(),
            m0 == old(map)@,
            s0 == old(srcs)@,
            p0 == old(pool)@,
            forall|k: int| 0 <= k < s0.len() ==> #[trigger] s0[k] < m0.len(),
            srcs@.len() <= s0.len(),
            srcs@ == s0.skip(s0.len() - srcs@.len()),
            s0.len() - srcs@.len() == p0.len() - pool@.len(),
            forall|l: int| 0 <= l < m0.len() && !s0.contains(l as usize) ==> #[trigger] map@[l] == m0[l],
            forall|k: int| 0 <= k < s0.len() - srcs@.len() ==> (#[trigger] map@[s0[k] as int]) is Some,
            forall|x: usize| #[trigger] pool@.contains(x) ==> p0.contains(x),
            can_pair(m0, s0, p0) ==> {
                &&& can_pair(map@, srcs@, pool@)
                &&& forall|l: int|
                    0 <= l < map@.len() && (#[trigger] map@[l]) is Some && m0[l] is None
                        ==> p0.contains(map@[l]->0) && !pool@.contains(map@[l]->0)
            },
        decreases srcs@.len(),
    {
        let r = random_range(rng, 0, pool.len());
        proof {
            lemma_remove_index(srcs@, 0);
            lemma_remove_index(pool@, r as int);
        }
        let ghost sv = srcs@;
        let ghost pv = pool@;
        let ghost mv = map@;
        let src = srcs.remove(0);
        let dst = pool.remove(r);
        assert(from@.contains(sv[0]) && to@.contains(pv[r as int]));
        map.set(src, Some(dst));
        assert forall|k: int| 0 <= k < srcs@.len() implies from@.contains(#[trigger] srcs@[k]) by {
            assert(srcs@[k] == sv[k + 1]);
        }
        assert forall|k: int| 0 <= k < pool@.len() implies to@.contains(#[trigger] pool@[k]) by {
            assert(pool@[k] == pv[if k < r {
                k
            } else {
                k + 1
            }]);
        }
        assert forall|k: int| 0 <= k < srcs@.len() implies #[trigger] srcs@[k] < map@.len() by {
            assert(srcs@[k] == sv[k + 1]);
        }
        proof {
            let c = s0.len() - sv.len();
            assert(sv[0] == s0[c]);
            assert(srcs@ =~= s0.skip(s0.len() - srcs@.len()));
            assert forall|l: int| 0 <= l < m0.len() && !s0.contains(l as usize) implies #[trigger] map@[l]
                == m0[l] by {
                if l == src as int {
                    assert(s0.contains(s0[c]));
                }
            }
            assert(map@ == mv.update(src as int, Some(dst)));
            assert forall|k: int| 0 <= k < s0.len() - srcs@.len() implies (#[trigger] map@[s0[k] as int]) is Some by {
                if k < c {
                    assert(mv[s0[k] as int] is Some);
                    if s0[k] != src {
                        assert(map@[s0[k] as int] == mv[s0[k] as int]);
                    }
                } else {
                    assert(k == c);
                }
            }
            assert forall|x: usize| #[trigger] pool@.contains(x) implies p0.contains(x) by {
                let k = choose|k: int| 0 <= k < pool@.len() && pool@[k] == x;
                assert(pv.contains(pv[if k < r { k } else { k + 1 }]));
            }
            if can_pair(m0, s0, p0) {
                assert(can_pair(mv, sv, pv));
                assert(srcs@.no_duplicates()) by {
                    assert forall|a: int, b: int| 0 <= a < b < srcs@.len() implies srcs@[a] != srcs@[b] by {
                        assert(srcs@[a] == sv[a + 1] && srcs@[b] == sv[b + 1]);
                    }
                }
                assert(pool@.no_duplicates()) by {
                    assert forall|a: int, b: int| 0 <= a < b < pool@.len() implies pool@[a] != pool@[b] by {
                        let ia = if a < r { a } else { a + 1 };
                        let ib = if b < r { b } else { b + 1 };
                        assert(pool@[a] == pv[ia] && pool@[b] == pv[ib]);
                    }
                }
                assert forall|k: int| 0 <= k < srcs@.len() implies #[trigger] srcs@[k] < map@.len()
                    && map@[srcs@[k] as int] is None by {
                    assert(srcs@[k] == sv[k + 1]);
                    assert(sv[k + 1] != sv[0]);
                }
                assert(one_to_one(map@)) by {
                    assert forall|a: int, b: int|
                        0 <= a < map@.len() && 0 <= b < map@.len() && a != b && (#[trigger] map@[a]) is Some
                            && (#[trigger] map@[b]) is Some implies map@[a]->0 != map@[b]->0 by {
                        if a == src as int {
                            assert(mv[b] is Some);
                            assert(mv[b]->0 != pv[r as int]);
                        } else if b == src as int {
                            assert(mv[a] is Some);
                            assert(mv[a]->0 != pv[r as int]);
                        } else {
                            assert(mv[a] == map@[a] && mv[b] == map@[b]);
                        }
                    }
                }
                assert forall|l: int, k: int|
                    0 <= l < map@.len() && 0 <= k < pool@.len() && (#[trigger] map@[l]) is Some implies map@[l]->0
                        != #[trigger] pool@[k] by {
                    let ik = if k < r { k } else { k + 1 };
                    assert(pool@[k] == pv[ik]);
                    if l == src as int {
                        assert(ik != r);
                    } else {
                        assert(mv[l] == map@[l]);
                    }
                }
                assert forall|l: int|
                    0 <= l < map@.len() && (#[trigger] map@[l]) is Some && m0[l] is None
                        implies p0.contains(map@[l]->0) && !pool@.contains(map@[l]->0) by {
                    if l == src as int {
                        assert(pv.contains(pv[r as int]));
                        if pool@.contains(dst) {
                            let k = choose|k: int| 0 <= k < pool@.len() && pool@[k] == dst;
                            let ik = if k < r { k } else { k + 1 };
                            assert(pool@[k] == pv[ik]);
                        }
                    } else {
                        assert(mv[l] == map@[l]);
                        if pool@.contains(map@[l]->0) {
                            let k = choose|k: int| 0 <= k < pool@.len() && pool@[k] == map@[l]->0;
                            assert(pv.contains(pool@[k]));
                        }
                    }
                }
            }
        }
    }
}

/// The time recorded for a lane, `NEVER_US` when none is.
pub open spec fn last_time(lnt: Seq<Option<i64>>, lane: usize) -> i64 {
    if lane < lnt.len() && lnt[lane as int] is Some {
        lnt[lane as int]->0
    } else {
        NEVER_US
    }
}

fn last_time_of(lnt: &Vec<Option<i64>>, lane: usize) -> (r: i64)
    ensures
        r == last_time(lnt@, lane),
{
    if lane < lnt.len() {
        match lnt[lane] {
            Some(t) => t,
            None => NEVER_US,
        }
    } else {
        NEVER_US
    }
}

/// The lanes of `v` without `x`, in order.
fn without(v: &Vec<usize>, x: usize, to: Ghost<Seq<usize>>) -> (r: Vec<usize>)
    requires
        within(v@, to@),
    ensures
        within(r@, to@),
        !r@.contains(x),
        forall|k: int| 0 <= k < r@.len() ==> v@.contains(#[trigger] r@[k]),
        v@.no_duplicates() ==> r@.no_duplicates(),
        v@.no_duplicates() && v@.contains(x) ==> r@.len() + 1 == v@.len(),
        forall|y: usize| #[trigger] v@.contains(y) && y != x ==> r@.contains(y),
{
    let mut r: Vec<usize> = Vec::new();
    let mut i: usize = 0;
    while i < v.len()
        invariant
            within(v@, to@),
            i <= v@.len(),
            within(r@, to@),
            !r@.contains(x),
            forall|k: int| 0 <= k < r@.len() ==> v@.contains(#[trigger] r@[k]),
            forall|k: int| 0 <= k < r@.len() ==> exists|m: int| 0 <= m < i && #[trigger] v@[m] == #[trigger] r@[k],
            v@.no_duplicates() ==> r@.no_duplicates(),
            forall|m: int| 0 <= m < i && #[trigger] v@[m] != x ==> r@.contains(v@[m]),
            v@.no_duplicates() ==> r@.len() + (if v@.take(i as int).contains(x) {
                1int
            } else {
                0int
            }) == i,
        decreases v@.len() - i,
    {
        let ghost r0 = r@;
        assert(v@.take(i + 1) =~= v@.take(i as int).push(v@[i as int]));
        if v[i] != x {
            assert(to@.contains(v@[i as int]));
            assert(v@.contains(v@[i as int]));
            r.push(v[i]);
            proof {
                assert forall|m: int| 0 <= m < i + 1 && #[trigger] v@[m] != x implies r@.contains(
                    v@[m],
                ) by {
                    if m < i {
                        assert(r0.contains(v@[m]));
                        let q = choose|q: int| 0 <= q < r0.len() && r0[q] == v@[m];
                        assert(r@[q] == v@[m]);
                    } else {
                        assert(r@[r0.len() as int] == v@[m]);
                    }
                }
                if v@.no_duplicates() {
                    assert forall|a: int, b: int| 0 <= a < b < r@.len() implies r@[a] != r@[b] by {
                        if b == r0.len() {
                            let m = choose|m: int| 0 <= m < i && #[trigger] v@[m] == r0[a];
                            assert(m != i);
                        } else {
                            assert(r@[a] == r0[a] && r@[b] == r0[b]);
                        }
                    }
                    let t1 = v@.take(i + 1);
                    if t1.contains(x) {
                        let m = choose|m: int| 0 <= m < t1.len() && #[trigger] t1[m] == x;
                        assert(m != i);
                        assert(v@.take(i as int)[m] == x);
                    }
                }
            }
            assert forall|k: int| 0 <= k < r@.len() implies exists|m: int| 0 <= m < i + 1 && #[trigger] v@[m] == #[trigger] r@[k] by {
                if k < r0.len() {
                    let m = choose|m: int| 0 <= m < i && #[trigger] v@[m] == r0[k];
                    assert(v@[m] == r@[k]);
                } else {
                    assert(v@[i as int] == r@[k]);
                }
            }
        } else {
            proof {
                if v@.no_duplicates() {
                    assert(v@.take(i + 1).contains(x)) by {
                        assert(v@.take(i + 1)[i as int] == x);
                    }
                    let t0 = v@.take(i as int);
                    if t0.contains(x) {
                        let m = choose|m: int| 0 <= m < t0.len() && #[trigger] t0[m] == x;
                        assert(v@[m] == v@[i as int]);
                    }
                }
            }
            assert forall|k: int| 0 <= k < r@.len() implies exists|m: int| 0 <= m < i + 1 && #[trigger] v@[m] == #[trigger] r@[k] by {
                let m = choose|m: int| 0 <= m < i && #[trigger] v@[m] == r@[k];
                assert(v@[m] == r@[k]);
            }
        }
        i = i + 1;
    }
    proof {
        assert(v@.take(v@.len() as int) =~= v@);
        assert forall|y: usize| #[trigger] v@.contains(y) && y != x implies r@.contains(y) by {
            let m = choose|m: int| 0 <= m < v@.len() && v@[m] == y;
        }
    }
    r
}

/// What a pairing has done so far, when it could go on one to one: the first sources
/// were paired, as many as pool lanes were used; other lanes kept their mapping; the
/// mapping stays one to one with the pool left; the lanes used came from the pool and
/// left it.
spec fn pairing_upto(
    m0: Seq<Option<usize>>,
    s0: Seq<usize>,
    p0: Seq<usize>,
    map: Seq<Option<usize>>,
    srcs: Seq<usize>,
    pool: Seq<usize>,
) -> bool {
    can_pair(m0, s0, p0) ==> {
        &&& srcs.len() <= s0.len()
        &&& srcs == s0.skip(s0.len() - srcs.len())
        &&& s0.len() - srcs.len() == p0.len() - pool.len()
        &&& forall|l: int| 0 <= l < m0.len() && !s0.contains(l as usize) ==> #[trigger] map[l] == m0[l]
        &&& forall|k: int| 0 <= k < s0.len() - srcs.len() ==> (#[trigger] map[s0[k] as int]) is Some
        &&& forall|x: usize| #[trigger] pool.contains(x) ==> p0.contains(x)
        &&& can_pair(map, srcs, pool)
        &&& forall|l: int|
            0 <= l < map.len() && (#[trigger] map[l]) is Some && m0[l] is None ==> p0.contains(
                map[l]->0,
            ) && !pool.contains(map[l]->0)
    }
}

/// One step of a pairing: the first source lane goes to `chosen`, a lane of the pool,
/// which leaves the pool.
fn pair_with(
    map: &mut Vec<Option<usize>>,
    srcs: &mut Vec<usize>,
    pool: &mut Vec<usize>,
    chosen: usize,
    m0: Ghost<Seq<Option<usize>>>,
    s0: Ghost<Seq<usize>>,
    p0: Ghost<Seq<usize>>,
    from: Ghost<Seq<usize>>,
    to: Ghost<Seq<usize>>,
)
    requires
        old(srcs)@.len() > 0,
        old(pool)@.contains(chosen),
        maps_into(old(map)@, from@, to@),
        within(old(srcs)@, from@),
        within(old(pool)@, to@),
        forall|k: int| 0 <= k < old(srcs)@.len() ==> #[trigger] old(srcs)@[k] < old(map)@.len(),
        old(map)@.len() == m0@.len(),
        forall|k: int| 0 <= k < s0@.len() ==> #[trigger] s0@[k] < m0@.len(),
        pairing_upto(m0@, s0@, p0@, old(map)@, old(srcs)@, old(pool)@),
    ensures
        final(map)@.len() == old(map)@.len(),
        maps_into(final(map)@, from@, to@),
        within(final(srcs)@, from@),
        within(final(pool)@, to@),
        forall|k: int| 0 <= k < final(srcs)@.len() ==> #[trigger] final(srcs)@[k] < final(map)@.len(),
        final(srcs)@.len() + 1 == old(srcs)@.len(),
        forall|x: usize| #[trigger] final(pool)@.contains(x) ==> old(pool)@.contains(x),
        !final(pool)@.contains(chosen),
        pairing_upto(m0@, s0@, p0@, final(map)@, final(srcs)@, final(pool)@),
        final(map)@ == old(map)@.update(old(srcs)@[0] as int, Some(chosen)),
        final(srcs)@ == old(srcs)@.skip(1),
        forall|x: usize| #[trigger] old(pool)@.contains(x) && x != chosen ==> final(pool)@.contains(x),
{
    let ghost m0 = m0@;
    let ghost s0 = s0@;
    let ghost p0 = p0@;
    assert(to@.contains(chosen)) by {
        let k = choose|k: int| 0 <= k < pool@.len() && pool@[k] == chosen;
    }
    proof {
        lemma_remove_index(srcs@, 0);
    }
    let ghost sv = srcs@;
    let ghost pv = pool@;
    let ghost mv = map@;
    let src = srcs.remove(0);
    assert(from@.contains(sv[0]));
    map.set(src, Some(chosen));
    assert forall|k: int| 0 <= k < srcs@.len() implies from@.contains(#[trigger] srcs@[k]) by {
        assert(srcs@[k] == sv[k + 1]);
    }
    assert forall|k: int| 0 <= k < srcs@.len() implies #[trigger] srcs@[k] < map@.len() by {
        assert(srcs@[k] == sv[k + 1]);
    }
    let rest = without(pool, chosen, to);
    *pool = rest;
    assert forall|x: usize| #[trigger] pool@.contains(x) implies pv.contains(x) by {
        let k = choose|k: int| 0 <= k < pool@.len() && pool@[k] == x;
        assert(pv.contains(pool@[k]));
    }
    proof {
        if can_pair(m0, s0, p0) {
            let c = s0.len() - sv.len();
            assert(sv[0] == s0[c]);
            assert(srcs@ =~= s0.skip(s0.len() - srcs@.len()));
            assert(map@ == mv.update(src as int, Some(chosen)));
            assert forall|l: int| 0 <= l < m0.len() && !s0.contains(l as usize) implies #[trigger] map@[l]
                == m0[l] by {
                if l == src as int {
                    assert(s0.contains(s0[c]));
                }
            }
            assert forall|k: int| 0 <= k < s0.len() - srcs@.len() implies (#[trigger] map@[s0[k] as int]) is Some by {
                if k < c {
                    assert(mv[s0[k] as int] is Some);
                    if s0[k] != src {
                        assert(map@[s0[k] as int] == mv[s0[k] as int]);
                    }
                } else {
                    assert(k == c);
                }
            }
            assert forall|x: usize| #[trigger] pool@.contains(x) implies p0.contains(x) by {
                assert(pv.contains(x));
            }
            assert(can_pair(mv, sv, pv));
            assert(srcs@.no_duplicates()) by {
                assert forall|a: int, b: int| 0 <= a < b < srcs@.len() implies srcs@[a] != srcs@[b] by {
                    assert(srcs@[a] == sv[a + 1] && srcs@[b] == sv[b + 1]);
                }
            }
            assert forall|k: int| 0 <= k < srcs@.len() implies #[trigger] srcs@[k] < map@.len()
                && map@[srcs@[k] as int] is None by {
                assert(srcs@[k] == sv[k + 1]);
                assert(sv[k + 1] != sv[0]);
            }
            let ci = choose|k: int| 0 <= k < pv.len() && pv[k] == chosen;
            assert(one_to_one(map@)) by {
                assert forall|a: int, b: int|
                    0 <= a < map@.len() && 0 <= b < map@.len() && a != b && (#[trigger] map@[a]) is Some
                        && (#[trigger] map@[b]) is Some implies map@[a]->0 != map@[b]->0 by {
                    if a == src as int {
                        assert(mv[b] is Some);
                        assert(mv[b]->0 != pv[ci]);
                    } else if b == src as int {
                        assert(mv[a] is Some);
                        assert(mv[a]->0 != pv[ci]);
                    } else {
                        assert(mv[a] == map@[a] && mv[b] == map@[b]);
                    }
                }
            }
            assert forall|l: int, k: int|
                0 <= l < map@.len() && 0 <= k < pool@.len() && (#[trigger] map@[l]) is Some implies map@[l]->0
                    != #[trigger] pool@[k] by {
                assert(pool@.contains(pool@[k]));
                if l == src as int {
                } else {
                    assert(mv[l] == map@[l]);
                    assert(pv.contains(pool@[k]));
                    let kk = choose|kk: int| 0 <= kk < pv.len() && pv[kk] == pool@[k];
                    assert(mv[l]->0 != pv[kk]);
                }
            }
            assert forall|l: int|
                0 <= l < map@.len() && (#[trigger] map@[l]) is Some && m0[l] is None
                    implies p0.contains(map@[l]->0) && !pool@.contains(map@[l]->0) by {
                if l == src as int {
                    assert(pv.contains(chosen));
                } else {
                    assert(mv[l] == map@[l]);
                    if pool@.contains(map@[l]->0) {
                        let k = choose|k: int| 0 <= k < pool@.len() && pool@[k] == map@[l]->0;
                        assert(pv.contains(pool@[k]));
                    }
                }
            }
        }
    }
}

/// Each of the first `n` source lanes went to a lane of the pool whose last note is
/// oldest among the pool lanes that no earlier source lane took.
pub open spec fn least_recent(srcs: Seq<usize>, pool: Seq<usize>, lnt: Seq<Option<i64>>, map: Seq<Option<usize>>, n: int) -> bool {
    forall|k: int, x: usize|
        #![trigger srcs[k], pool.contains(x)]
        0 <= k < n && pool.contains(x) && !taken_by(srcs, map, k, x) ==> last_time(lnt, map[srcs[k] as int]->0)
            <= last_time(lnt, x)
}

/// One step of `assign_least_recent` keeps its invariant.
proof fn lemma_least_recent_step(
    s0: Seq<usize>,
    p0: Seq<usize>,
    lnt: Seq<Option<i64>>,
    m0: Seq<Option<usize>>,
    mv: Seq<Option<usize>>,
    m1: Seq<Option<usize>>,
    sv: Seq<usize>,
    pv: Seq<usize>,
    p1: Seq<usize>,
    n: int,
    chosen: usize,
)
    requires
        can_pair(m0, s0, p0),
        pairing_upto(m0, s0, p0, mv, sv, pv),
        sv.len() > 0,
        mv.len() == m0.len(),
        n == s0.len() - sv.len(),
        m1 == mv.update(sv[0] as int, Some(chosen)),
        pv.contains(chosen),
        forall|x: usize| #[trigger] p1.contains(x) ==> pv.contains(x),
        !p1.contains(chosen),
        forall|x: usize| #[trigger] pv.contains(x) && x != chosen ==> p1.contains(x),
        forall|x: usize| #[trigger] pv.contains(x) <==> (p0.contains(x) && !taken_by(s0, mv, n, x)),
        least_recent(s0, p0, lnt, mv, n),
        forall|q: int| 0 <= q < pv.len() ==> last_time(lnt, chosen) <= last_time(lnt, #[trigger] pv[q]),
    ensures
        forall|x: usize| #[trigger] p1.contains(x) <==> (p0.contains(x) && !taken_by(s0, m1, n + 1, x)),
        least_recent(s0, p0, lnt, m1, n + 1),
{
    assert(sv == s0.skip(n));
    assert(sv[0] == s0[n]);
    assert forall|j: int| 0 <= j < n implies #[trigger] m1[s0[j] as int] == mv[s0[j] as int] by {
        assert(s0[j] != s0[n]);
    }
    assert forall|x: usize, k: int| 0 <= k <= n implies #[trigger] taken_by(s0, m1, k, x) == taken_by(s0, mv, k, x) by {
        if taken_by(s0, m1, k, x) {
            let j = choose|j: int| 0 <= j < k && #[trigger] m1[s0[j] as int] == Some(x);
            assert(mv[s0[j] as int] == Some(x));
        }
        if taken_by(s0, mv, k, x) {
            let j = choose|j: int| 0 <= j < k && #[trigger] mv[s0[j] as int] == Some(x);
            assert(m1[s0[j] as int] == Some(x));
        }
    }
    assert forall|x: usize| #[trigger] taken_by(s0, m1, n + 1, x) == (taken_by(s0, mv, n, x) || x == chosen) by {
        assert(m1[s0[n] as int] == Some(chosen));
        if taken_by(s0, m1, n + 1, x) {
            let j = choose|j: int| 0 <= j < n + 1 && #[trigger] m1[s0[j] as int] == Some(x);
            if j < n {
                assert(taken_by(s0, m1, n, x));
            }
        }
        if taken_by(s0, mv, n, x) {
            assert(taken_by(s0, m1, n, x));
            let j = choose|j: int| 0 <= j < n && #[trigger] m1[s0[j] as int] == Some(x);
            assert(m1[s0[j] as int] == Some(x));
        }
    }
    assert(!taken_by(s0, mv, n, chosen));
    assert forall|x: usize| #[trigger] p1.contains(x) <==> (p0.contains(x) && !taken_by(s0, m1, n + 1, x)) by {
        if p1.contains(x) {
            assert(pv.contains(x));
            assert(x != chosen);
        }
        if p0.contains(x) && !taken_by(s0, m1, n + 1, x) {
            assert(pv.contains(x));
        }
    }
    assert forall|k: int, x: usize|
        #![trigger s0[k], p0.contains(x)]
        0 <= k < n + 1 && p0.contains(x) && !taken_by(s0, m1, k, x) implies last_time(lnt, m1[s0[k] as int]->0)
            <= last_time(lnt, x) by {
        if k < n {
            assert(m1[s0[k] as int] == mv[s0[k] as int]);
            assert(!taken_by(s0, mv, k, x));
        } else {
            assert(m1[s0[k] as int] == Some(chosen));
            assert(!taken_by(s0, mv, n, x));
            assert(pv.contains(x));
            let q = choose|q: int| 0 <= q < pv.len() && pv[q] == x;
            assert(last_time(lnt, chosen) <= last_time(lnt, pv[q]));
        }
    }
}

/// Pairs the source lanes, front first, with the pool lanes whose last note is oldest
/// (drawing at random among ties), while both have lanes.
fn assign_least_recent(
    map: &mut Vec<Option<usize>>,
    srcs: &mut Vec<usize>,
    pool: &mut Vec<usize>,
    last_note_time: &Vec<Option<i64>>,
    rng: &mut SmallRng,
    from: Ghost<Seq<usize>>,
    to: Ghost<Seq<usize>>,
)
    requires
        maps_into(old(map)@, from@, to@),
        within(old(srcs)@, from@),
        within(old(pool)@, to@),
        forall|k: int| 0 <= k < old(srcs)@.len() ==> #[trigger] old(srcs)@[k] < old(map)@.len(),
    ensures
        final(map)@.len() == old(map)@.len(),
        maps_into(final(map)@, from@, to@),
        within(final(srcs)@, from@),
        within(final(pool)@, to@),
        forall|k: int| 0 <= k < final(srcs)@.len() ==> #[trigger] final(srcs)@[k] < final(map)@.len(),
        can_pair(old(map)@, old(srcs)@, old(pool)@) ==> paired(
            old(map)@,
            old(srcs)@,
            old(pool)@,
            final(map)@,
            final(srcs)@,
            final(pool)@,
        ),
        can_pair(old(map)@, old(srcs)@, old(pool)@) ==> least_recent(
            old(srcs)@,
            old(pool)@,
            last_note_time@,
            final(map)@,
            old(srcs)@.len() - final(srcs)@.len(),
        ),
{
    let ghost m0 = map@;
    let ghost s0 = srcs@;
    let ghost p0 = pool@;
    let ghost cp = can_pair(m0, s0, p0);
    assert(s0.skip(0) =~= s0);
    while srcs.len() > 0 && pool.len() > 0
        invariant
            map@.len() == old(map)@.len(),
            maps_into(map@, from@, to@),
            within(srcs@, from@),
            within(pool@, to@),
            forall|k: int| 0 <= k < srcs@.len() ==> #[trigger] srcs@[k] < map@.len(),
            m0 == old(map)@,
            s0 == old(srcs)@,
            p0 == old(pool)@,
            forall|k: int| 0 <= k < s0.len() ==> #[trigger] s0[k] < m0.len(),
            pairing_upto(m0, s0, p0, map@, srcs@, pool@),
            cp == can_pair(m0, s0, p0),
            cp ==> forall|x: usize|
                #[trigger] pool@.contains(x) <==> (p0.contains(x) && !taken_by(
                    s0,
                    map@,
                    s0.len() - srcs@.len(),
                    x,
                )),
            cp ==> least_recent(s0, p0, last_note_time@, map@, s0.len() - srcs@.len()),
        decreases srcs@.len(),
    {
        let mut min_time = last_time_of(last_note_time, pool[0]);
        let ghost mut w: int = 0;
        let mut i: usize = 1;
        while i < pool.len()
            invariant
                1 <= i <= pool@.len(),
                0 <= w < i,
                last_time(last_note_time@, pool@[w]) == min_time,
                forall|q: int| 0 <= q < i ==> min_time <= last_time(last_note_time@, #[trigger] pool@[q]),
            decreases pool@.len() - i,
        {
            let t = last_time_of(last_note_time, pool[i]);
            if t < min_time {
                min_time = t;
                proof {
                    w = i as int;
                }
            }
            i = i + 1;
        }
        let mut min_lanes: Vec<usize> = Vec::new();
        let mut j: usize = 0;
        while j < pool.len()
            invariant
                j <= pool@.len(),
                0 <= w < pool@.len(),
                last_time(last_note_time@, pool@[w]) == min_time,
                within(pool@, to@),
                within(min_lanes@, to@),
                forall|k: int| 0 <= k < min_lanes@.len() ==> pool@.contains(#[trigger] min_lanes@[k]),
                j > w ==> min_lanes@.len() > 0,
                forall|q: int| 0 <= q < pool@.len() ==> min_time <= last_time(last_note_time@, #[trigger] pool@[q]),
                forall|k: int| 0 <= k < min_lanes@.len() ==> last_time(last_note_time@, #[trigger] min_lanes@[k]) == min_time,
            decreases pool@.len() - j,
        {
            if last_time_of(last_note_time, pool[j]) == min_time {
                assert(to@.contains(pool@[j as int]));
                assert(pool@.contains(pool@[j as int]));
                min_lanes.push(pool[j]);
            }
            j = j + 1;
        }
        let chosen = min_lanes[random_range(rng, 0, min_lanes.len())];
        assert(pool@.contains(chosen));
        let ghost mv = map@;
        let ghost sv = srcs@;
        let ghost pv = pool@;
        let ghost n = s0.len() - srcs@.len();
        pair_with(map, srcs, pool, chosen, Ghost(m0), Ghost(s0), Ghost(p0), from, to);
        proof {
            if cp {
                lemma_least_recent_step(s0, p0, last_note_time@, m0, mv, map@, sv, pv, pool@, n, chosen);
            }
        }
    }
}

proof fn lemma_slice_step(
    old: Seq<Note>,
    cur: Seq<Note>,
    next: Seq<Note>,
    keys: Seq<usize>,
    s: int,
    e: int,
    map: Seq<Option<usize>>,
)
    requires
        shuffled_upto(old, cur, keys, s),
        s < e <= old.len(),
        s > 0 ==> old[s - 1].time_us != old[s].time_us,
        next.len() == cur.len(),
        forall|k: int| 0 <= k < cur.len() && !(s <= k < e) ==> #[trigger] next[k] == cur[k],
        forall|k: int| s <= k < e ==> #[trigger] next[k] == with_lane(cur[k], moved(map, cur[k].lane)),
        maps_into(map, keys, keys),
    ensures
        shuffled_upto(old, next, keys, e),
{
    assert forall|i: int| 0 <= i < e implies #[trigger] next[i] == with_lane(old[i], next[i].lane) by {
        if i >= s {
            assert(cur[i] == old[i]);
        }
    }
    assert forall|i: int| 0 <= i < e && !keys.contains(old[i].lane) implies #[trigger] next[i].lane
        == old[i].lane by {
        if i >= s {
            assert(cur[i] == old[i]);
            let l = old[i].lane;
            if l < map.len() && map[l as int] is Some {
                assert(keys.contains(l));
            }
        }
    }
    assert forall|i: int| 0 <= i < e && keys.contains(old[i].lane) implies keys.contains(
        #[trigger] next[i].lane,
    ) by {
        if i >= s {
            assert(cur[i] == old[i]);
            let l = old[i].lane;
            if l < map.len() && map[l as int] is Some {
                assert(keys.contains(map[l as int]->0));
            }
        }
    }
    assert forall|i: int, j: int|
        0 <= i < j < e && #[trigger] same_slice(old, i, j) && old[i].lane == old[j].lane implies next[i].lane
        == #[trigger] next[j].lane by {
        if i < s && j >= s {
            assert(old[s - 1].time_us == old[i].time_us);
            assert(old[s].time_us == old[i].time_us);
        } else if i >= s {
            assert(cur[i] == old[i] && cur[j] == old[j]);
        }
    }
}

/// The start of the `g`-th timeslice, the number of notes past the last one.
pub open spec fn slice_start(groups: Seq<(i64, core::ops::Range<usize>)>, g: int, n: nat) -> int {
    if g < groups.len() {
        groups[g].1.start as int
    } else {
        n as int
    }
}

proof fn lemma_slices_start(notes: Seq<Note>, groups: Seq<(i64, core::ops::Range<usize>)>)
    requires
        slices_of(notes, groups),
    ensures
        slice_start(groups, 0, notes.len()) == 0,
        forall|g: int|
            0 <= g < groups.len() ==> #[trigger] groups[g].1.end == slice_start(
                groups,
                g + 1,
                notes.len(),
            ),
{
    assert forall|g: int| 0 <= g < groups.len() implies #[trigger] groups[g].1.end == slice_start(
        groups,
        g + 1,
        notes.len(),
    ) by {
        if g < groups.len() - 1 {
            assert(groups[g].1.end == groups[g + 1].1.start);
        }
    }
}

proof fn lemma_upto_done(old: Seq<Note>, new: Seq<Note>, keys: Seq<usize>)
    requires
        shuffled_upto(old, new, keys, old.len() as int),
    ensures
        note_shuffled(old, new, keys),
{
}

/// The key lanes that no held long note was moved to, in order.
fn assignable_lanes(keys: &Vec<usize>, ln_active: &Vec<Option<usize>>) -> (r: Vec<usize>)
    ensures
        r@ == keys@.filter(free_dest(ln_active@)),
{
    let mut r: Vec<usize> = Vec::new();
    let mut i: usize = 0;
    while i < keys.len()
        invariant
            i <= keys@.len(),
            r@ == keys@.take(i as int).filter(free_dest(ln_active@)),
        decreases keys@.len() - i,
    {
        let d = keys[i];
        let mut taken = false;
        let mut l: usize = 0;
        while l < ln_active.len()
            invariant
                l <= ln_active@.len(),
                taken == exists|m: int| 0 <= m < l && ln_active@[m] == Some(d),
            decreases ln_active@.len() - l,
        {
            match ln_active[l] {
                Some(x) => {
                    if x == d {
                        taken = true;
                    }
                },
                None => {},
            }
            l = l + 1;
        }
        proof {
            assert(keys@.take(i + 1) =~= keys@.take(i as int).push(d));
            keys@.take(i as int).lemma_filter_push(d, free_dest(ln_active@));
        }
        if !taken {
            r.push(d);
        }
        i = i + 1;
    }
    assert(keys@.take(keys@.len() as int) =~= keys@);
    r
}

/// The key lanes without a held long note, in order.
fn changeable_lanes(keys: &Vec<usize>, ln_active: &Vec<Option<usize>>) -> (r: Vec<usize>)
    ensures
        within(r@, keys@),
        forall|x: usize|
            #[trigger] r@.contains(x) <==> (keys@.contains(x) && !(x < ln_active@.len()
                && ln_active@[x as int] is Some)),
        increasing(keys@) ==> increasing(r@),
        r@ == keys@.filter(unheld(ln_active@)),
{
    let mut r: Vec<usize> = Vec::new();
    let mut i: usize = 0;
    while i < keys.len()
        invariant
            i <= keys@.len(),
            r@ == keys@.take(i as int).filter(unheld(ln_active@)),
            within(r@, keys@),
            forall|x: usize|
                #[trigger] r@.contains(x) <==> (keys@.take(i as int).contains(x) && !(x
                    < ln_active@.len() && ln_active@[x as int] is Some)),
            forall|a: int| 0 <= a < r@.len() ==> exists|m: int| 0 <= m < i && #[trigger] keys@[m] == #[trigger] r@[a],
            increasing(keys@) ==> increasing(r@),
        decreases keys@.len() - i,
    {
        let k = keys[i];
        let held = k < ln_active.len() && ln_active[k].is_some();
        let ghost r0 = r@;
        assert(keys@.take(i + 1) =~= keys@.take(i as int).push(k));
        proof {
            keys@.take(i as int).lemma_filter_push(k, unheld(ln_active@));
        }
        if !held {
            assert(keys@.contains(keys@[i as int]));
            r.push(k);
            proof {
                if increasing(keys@) {
                    assert forall|a: int, b: int| 0 <= a < b < r@.len() implies r@[a] < r@[b] by {
                        if b == r0.len() {
                            let m = choose|m: int| 0 <= m < i && #[trigger] keys@[m] == #[trigger] r0[a];
                            assert(keys@[m] < keys@[i as int]);
                        } else {
                            assert(r@[a] == r0[a] && r@[b] == r0[b]);
                        }
                    }
                }
            }
        }
        let ghost ti = keys@.take(i as int);
        let ghost ti1 = keys@.take(i + 1);
        assert forall|x: usize| #[trigger] r@.contains(x) <==> (ti1.contains(x) && !(x
            < ln_active@.len() && ln_active@[x as int] is Some)) by {
            if r@.contains(x) {
                let a = choose|a: int| 0 <= a < r@.len() && r@[a] == x;
                if a < r0.len() {
                    assert(r0[a] == x);
                    assert(r0.contains(x));
                    let m = choose|m: int| 0 <= m < ti.len() && #[trigger] ti[m] == x;
                    assert(ti1[m] == x);
                } else {
                    assert(ti1[i as int] == x);
                }
            }
            if ti1.contains(x) && !(x < ln_active@.len() && ln_active@[x as int] is Some) {
                let m = choose|m: int| 0 <= m < ti1.len() && #[trigger] ti1[m] == x;
                if m < i {
                    assert(ti[m] == x);
                    assert(r0.contains(x));
                    let a = choose|a: int| 0 <= a < r0.len() && r0[a] == x;
                    assert(r@[a] == x);
                } else {
                    assert(r@[r0.len() as int] == x);
                }
            }
        }
        assert forall|a: int| 0 <= a < r@.len() implies exists|m: int| 0 <= m < i + 1 && #[trigger] keys@[m] == #[trigger] r@[a] by {
            if a < r0.len() {
                let m = choose|m: int| 0 <= m < i && #[trigger] keys@[m] == #[trigger] r0[a];
                assert(keys@[m] == r@[a]);
            } else {
                assert(keys@[i as int] == r@[a]);
            }
        }
        i = i + 1;
    }
    assert(keys@.take(keys@.len() as int) =~= keys@);
    r
}

/// Held lanes keep the mapping they had when their hold started.
fn add_held(map: &mut Vec<Option<usize>>, ln_active: &Vec<Option<usize>>, keys: Ghost<Seq<usize>>)
    requires
        old(map)@.len() == ln_active@.len(),
        maps_into(old(map)@, keys@, keys@),
        maps_into(ln_active@, keys@, keys@),
        forall|k: int| 0 <= k < keys@.len() ==> #[trigger] keys@[k] < old(map)@.len(),
    ensures
        final(map)@.len() == old(map)@.len(),
        maps_into(final(map)@, keys@, keys@),
        forall|l: int|
            0 <= l < final(map)@.len() && (#[trigger] final(map)@[l]) is Some ==> final(map)@[l]->0
                < final(map)@.len(),
        forall|l: int|
            0 <= l < old(map)@.len() ==> #[trigger] final(map)@[l] == if ln_active@[l] is Some {
                ln_active@[l]
            } else {
                old(map)@[l]
            },
{
    let total = map.len();
    let mut src: usize = 0;
    while src < total
        invariant
            total == map@.len(),
            map@.len() == ln_active@.len(),
            maps_into(map@, keys@, keys@),
            maps_into(ln_active@, keys@, keys@),
            src <= total,
            forall|l: int|
                0 <= l < total ==> #[trigger] map@[l] == if l < src && ln_active@[l] is Some {
                    ln_active@[l]
                } else {
                    old(map)@[l]
                },
        decreases total - src,
    {
        if let Some(dst) = ln_active[src] {
            map.set(src, Some(dst));
        }
        src = src + 1;
    }
    assert forall|l: int| 0 <= l < map@.len() && (#[trigger] map@[l]) is Some implies map@[l]->0
        < map@.len() by {
        let d = map@[l]->0;
        assert(keys@.contains(d));
        let k = choose|k: int| 0 <= k < keys@.len() && keys@[k] == d;
    }
}

/// Ends a timeslice: held lanes keep their mapping, the lanes that get playable notes
/// record the time, and the mapping is applied.
fn close_slice(
    notes: &mut Vec<Note>,
    range: &core::ops::Range<usize>,
    map: &mut Vec<Option<usize>>,
    ln_active: &mut Vec<Option<usize>>,
    last_note_time: &mut Vec<Option<i64>>,
    keys: Ghost<Seq<usize>>,
)
    requires
        range.start <= range.end <= old(notes)@.len(),
        old(map)@.len() == old(ln_active)@.len(),
        old(last_note_time)@.len() == old(map)@.len(),
        maps_into(old(map)@, keys@, keys@),
        maps_into(old(ln_active)@, keys@, keys@),
        forall|k: int| 0 <= k < keys@.len() ==> #[trigger] keys@[k] < old(map)@.len(),
    ensures
        final(notes)@.len() == old(notes)@.len(),
        forall|k: int|
            0 <= k < old(notes)@.len() && !(range.start <= k < range.end)
                ==> #[trigger] final(notes)@[k] == old(notes)@[k],
        forall|k: int|
            range.start <= k < range.end ==> #[trigger] final(notes)@[k] == with_lane(
                old(notes)@[k],
                moved(final(map)@, old(notes)@[k].lane),
            ),
        final(map)@.len() == old(map)@.len(),
        maps_into(final(map)@, keys@, keys@),
        final(ln_active)@.len() == old(ln_active)@.len(),
        maps_into(final(ln_active)@, keys@, keys@),
        final(last_note_time)@.len() == old(last_note_time)@.len(),
        forall|l: int|
            0 <= l < old(map)@.len() ==> #[trigger] final(map)@[l] == if old(ln_active)@[l] is Some {
                old(ln_active)@[l]
            } else {
                old(map)@[l]
            },
        forall|l: int|
            0 <= l < old(ln_active)@.len() ==> (#[trigger] final(ln_active)@[l]) is Some == if final(map)@[l] is Some {
                (old(ln_active)@[l] is Some) != flips(
                    old(notes)@.subrange(range.start as int, range.end as int),
                    l as usize,
                )
            } else {
                old(ln_active)@[l] is Some
            },
        forall|l: int|
            0 <= l < old(ln_active)@.len() && (#[trigger] final(ln_active)@[l]) is Some ==> final(ln_active)@[l]
                == final(map)@[l],
        forall|d: int|
            0 <= d < final(map)@.len() ==> if exists|k: int|
                range.start <= k < range.end && #[trigger] lands_on(old(notes)@, final(map)@, k, d as usize) {
                exists|k: int|
                    range.start <= k < range.end && #[trigger] lands_on(old(notes)@, final(map)@, k, d as usize)
                        && final(last_note_time)@[d] == Some(old(notes)@[k].time_us)
            } else {
                #[trigger] final(last_note_time)@[d] == old(last_note_time)@[d]
            },
{
    add_held(map, ln_active, keys);
    update_note_time(notes, range, map, last_note_time);
    apply_timeslice_map(notes, range, map, ln_active, keys);
}

/// Pairing in three phases (the lanes with notes with a first pool, then with a second
/// pool, then the lanes without notes with what is left of both) maps every lane to move,
/// one to one, to lanes of the pools, and no other lane, when the lanes to move split a
/// list of distinct lanes and the pools split another one as long.
proof fn lemma_three_phases(
    changeable: Seq<usize>,
    assignable: Seq<usize>,
    m0: Seq<Option<usize>>,
    n0: Seq<usize>,
    e0: Seq<usize>,
    pr0: Seq<usize>,
    in0: Seq<usize>,
    m1: Seq<Option<usize>>,
    n1: Seq<usize>,
    pr1: Seq<usize>,
    m2: Seq<Option<usize>>,
    n2: Seq<usize>,
    in1: Seq<usize>,
    pool: Seq<usize>,
    m3: Seq<Option<usize>>,
    e3: Seq<usize>,
    pool3: Seq<usize>,
)
    requires
        changeable.no_duplicates(),
        assignable.no_duplicates(),
        changeable.len() == assignable.len(),
        splits(changeable, n0, e0),
        splits(assignable, pr0, in0),
        m0.len() <= usize::MAX,
        forall|l: int| 0 <= l < m0.len() ==> (#[trigger] m0[l]) is None,
        forall|k: int| 0 <= k < changeable.len() ==> #[trigger] changeable[k] < m0.len(),
        can_pair(m0, n0, pr0) ==> paired(m0, n0, pr0, m1, n1, pr1),
        can_pair(m1, n1, in0) ==> paired(m1, n1, in0, m2, n2, in1),
        pool == pr1 + in1,
        paired(m2, e0, pool, m3, e3, pool3),
    ensures
        forall|k: int| 0 <= k < changeable.len() ==> (#[trigger] m3[changeable[k] as int]) is Some,
        one_to_one(m3),
        forall|l: int| 0 <= l < m3.len() && (#[trigger] m3[l]) is Some ==> changeable.contains(l as usize),
        forall|l: int| 0 <= l < m3.len() && (#[trigger] m3[l]) is Some ==> assignable.contains(m3[l]->0),
        pr0.len() >= n0.len() ==> forall|k: int|
            0 <= k < n0.len() ==> (#[trigger] m3[n0[k] as int]) is Some && pr0.contains(
                m3[n0[k] as int]->0,
            ),
        can_pair(m0, n0, pr0),
        can_pair(m1, n1, in0),
        forall|l: int|
            0 <= l < m3.len() && n0.contains(l as usize) ==> (#[trigger] m3[l]) is Some && (m1[l] is Some
                ==> m3[l] == m1[l]) && (m1[l] is None ==> in0.contains(m3[l]->0)) && m3[l] == m2[l],
{
    assert forall|k: int| 0 <= k < n0.len() implies #[trigger] n0[k] < m0.len() && m0[n0[k] as int] is None by {
        assert(changeable.contains(n0[k]));
        let c = choose|c: int| 0 <= c < changeable.len() && changeable[c] == n0[k];
    }
    assert forall|k: int| 0 <= k < e0.len() implies #[trigger] e0[k] < m0.len() by {
        assert(changeable.contains(e0[k]));
        let c = choose|c: int| 0 <= c < changeable.len() && changeable[c] == e0[k];
    }
    assert(can_pair(m0, n0, pr0));
    assert forall|l: int, k: int|
        0 <= l < m1.len() && 0 <= k < in0.len() && (#[trigger] m1[l]) is Some implies m1[l]->0
            != #[trigger] in0[k] by {
        assert(pr0.contains(m1[l]->0));
        let p = choose|p: int| 0 <= p < pr0.len() && pr0[p] == m1[l]->0;
        assert(pr0[p] != in0[k]);
    }
    assert(can_pair(m1, n1, in0));
    // the lanes with notes have all been paired
    if n2.len() > 0 {
        assert(n1.len() > 0);
        assert(pr1.len() == 0);
        assert(in1.len() == 0);
        assert(false);
    }
    assert(pool.no_duplicates()) by {
        assert forall|a: int, b: int| 0 <= a < b < pool.len() implies pool[a] != pool[b] by {
            if a < pr1.len() && b >= pr1.len() {
                assert(pr1.contains(pool[a]) && in1.contains(pool[b]));
                assert(pr0.contains(pool[a]) && in0.contains(pool[b]));
                let p = choose|p: int| 0 <= p < pr0.len() && pr0[p] == pool[a];
                let q = choose|q: int| 0 <= q < in0.len() && in0[q] == pool[b];
                assert(pr0[p] != in0[q]);
            } else if b < pr1.len() {
                assert(pool[a] == pr1[a] && pool[b] == pr1[b]);
            } else {
                assert(pool[a] == in1[a - pr1.len()] && pool[b] == in1[b - pr1.len()]);
            }
        }
    }
    assert forall|k: int| 0 <= k < e0.len() implies #[trigger] e0[k] < m2.len() && m2[e0[k] as int] is None by {
        assert(!n0.contains(e0[k])) by {
            if n0.contains(e0[k]) {
                let p = choose|p: int| 0 <= p < n0.len() && n0[p] == e0[k];
                assert(n0[p] != e0[k]);
            }
        }
        assert(!n1.contains(e0[k])) by {
            if n1.contains(e0[k]) {
                let p = choose|p: int| 0 <= p < n1.len() && n1[p] == e0[k];
                assert(n1[p] == n0[p + (n0.len() - n1.len())]);
            }
        }
        assert(m1[e0[k] as int] == m0[e0[k] as int]);
    }
    // what the first phase mapped, the second leaves as it is
    assert forall|l: int| 0 <= l < m1.len() && (#[trigger] m1[l]) is Some implies m2[l] == m1[l] by {
        if n1.contains(l as usize) {
            let p = choose|p: int| 0 <= p < n1.len() && n1[p] == l as usize;
            assert(n1[p] == n0[p + (n0.len() - n1.len())]);
            assert(m1[n0[p + (n0.len() - n1.len())] as int] is None);
        }
    }
    assert forall|l: int, k: int|
        0 <= l < m2.len() && 0 <= k < pool.len() && (#[trigger] m2[l]) is Some implies m2[l]->0
            != #[trigger] pool[k] by {
        if k < pr1.len() {
            assert(pool[k] == pr1[k]);
            if m1[l] is Some {
                assert(m2[l] == m1[l]);
                assert(m0[l] is None);
                assert(!pr1.contains(m1[l]->0));
                assert(pr1.contains(pr1[k]));
            } else {
                assert(in0.contains(m2[l]->0));
                assert(pr1.contains(pr1[k]));
                assert(pr0.contains(pr1[k]));
                let p = choose|p: int| 0 <= p < pr0.len() && pr0[p] == pr1[k];
                let q = choose|q: int| 0 <= q < in0.len() && in0[q] == m2[l]->0;
                assert(pr0[p] != in0[q]);
            }
        } else {
            assert(pool[k] == in1[k - pr1.len()]);
            assert(in1.contains(pool[k]));
            if m1[l] is Some {
                assert(m2[l] == m1[l]);
                assert(pr0.contains(m1[l]->0));
                assert(in0.contains(pool[k]));
                let p = choose|p: int| 0 <= p < pr0.len() && pr0[p] == m1[l]->0;
                let q = choose|q: int| 0 <= q < in0.len() && in0[q] == pool[k];
                assert(pr0[p] != in0[q]);
            } else {
                assert(!in1.contains(m2[l]->0));
            }
        }
    }
    assert(can_pair(m2, e0, pool));
    assert(e3.len() == 0);
    assert forall|k: int| 0 <= k < changeable.len() implies (#[trigger] m3[changeable[k] as int]) is Some by {
        let x = changeable[k];
        assert(changeable.contains(x));
        if n0.contains(x) {
            let p = choose|p: int| 0 <= p < n0.len() && n0[p] == x;
            let c1 = n0.len() - n1.len();
            if p < c1 {
                assert(m1[x as int] is Some);
            } else {
                assert(n1[p - c1] == x);
                assert(m2[n1[p - c1] as int] is Some);
            }
            assert(m2[x as int] is Some);
            assert(!e0.contains(x)) by {
                if e0.contains(x) {
                    let q = choose|q: int| 0 <= q < e0.len() && e0[q] == x;
                    assert(n0[p] != e0[q]);
                }
            }
        } else {
            let q = choose|q: int| 0 <= q < e0.len() && e0[q] == x;
            assert(m3[e0[q] as int] is Some);
        }
    }
    assert forall|l: int| 0 <= l < m3.len() && (#[trigger] m3[l]) is Some implies changeable.contains(l as usize) by {
        if !changeable.contains(l as usize) {
            assert(!n0.contains(l as usize));
            assert(!e0.contains(l as usize));
            assert(!n1.contains(l as usize)) by {
                if n1.contains(l as usize) {
                    let p = choose|p: int| 0 <= p < n1.len() && n1[p] == l as usize;
                    assert(n1[p] == n0[p + (n0.len() - n1.len())]);
                }
            }
            assert(m1[l] == m0[l]);
            assert(m2[l] == m1[l]);
        }
    }
    assert forall|l: int| 0 <= l < m3.len() && (#[trigger] m3[l]) is Some implies assignable.contains(
        m3[l]->0,
    ) by {
        if m2[l] is Some {
            assert(!e0.contains(l as usize)) by {
                if e0.contains(l as usize) {
                    let q = choose|q: int| 0 <= q < e0.len() && e0[q] == l as usize;
                    assert(m2[e0[q] as int] is None);
                }
            }
            assert(m3[l] == m2[l]);
            if m1[l] is Some {
                assert(m2[l] == m1[l]);
                assert(pr0.contains(m1[l]->0));
            } else {
                assert(in0.contains(m2[l]->0));
            }
        } else {
            assert(pool.contains(m3[l]->0));
            let p = choose|p: int| 0 <= p < pool.len() && pool[p] == m3[l]->0;
            if p < pr1.len() {
                assert(pr1.contains(pool[p]));
            } else {
                assert(in1.contains(pool[p])) by {
                    assert(pool[p] == in1[p - pr1.len()]);
                }
            }
        }
    }
    assert forall|l: int| 0 <= l < m3.len() && n0.contains(l as usize) implies (#[trigger] m3[l]) is Some
        && (m1[l] is Some ==> m3[l] == m1[l]) && (m1[l] is None ==> in0.contains(m3[l]->0)) && m3[l] == m2[l] by {
        let x = l as usize;
        let p = choose|p: int| 0 <= p < n0.len() && n0[p] == x;
        let c1 = n0.len() - n1.len();
        if p < c1 {
            assert(m1[x as int] is Some);
        } else {
            assert(n1[p - c1] == x);
            assert(m2[n1[p - c1] as int] is Some);
            assert(m1[x as int] is None);
        }
        assert(m2[l] is Some);
        assert(!e0.contains(x)) by {
            if e0.contains(x) {
                let q = choose|q: int| 0 <= q < e0.len() && e0[q] == x;
                assert(n0[p] != e0[q]);
            }
        }
        assert(m3[l] == m2[l]);
    }
    if pr0.len() >= n0.len() {
        assert(n1.len() == 0);
        assert forall|k: int| 0 <= k < n0.len() implies (#[trigger] m3[n0[k] as int]) is Some
            && pr0.contains(m3[n0[k] as int]->0) by {
            let l = n0[k] as int;
            assert(m1[l] is Some);
            assert(m0[l] is None);
            assert(pr0.contains(m1[l]->0));
            assert(m2[l] == m1[l]);
            assert(!e0.contains(n0[k])) by {
                if e0.contains(n0[k]) {
                    let q = choose|q: int| 0 <= q < e0.len() && e0[q] == n0[k];
                    assert(n0[k] != e0[q]);
                }
            }
            assert(m3[l] == m2[l]);
        }
    }
}

/// Builds the mapping of one timeslice: lanes with a playable note go first to lanes
/// whose last note is more than `threshold_us` ago (drawn at random), then to the lanes
/// whose last note is oldest; the lanes without notes take the lanes left, at random.
/// When the lanes to move are distinct and are the lanes to move to, every one of them
/// gets a lane, no two the same, and no other lane is moved.
fn build_time_based_map(
    notes: &Vec<Note>,
    range: &core::ops::Range<usize>,
    time: i64,
    changeable: &Vec<usize>,
    assignable: &Vec<usize>,
    threshold_us: i64,
    last_note_time: &Vec<Option<i64>>,
    rng: &mut SmallRng,
    keys: Ghost<Seq<usize>>,
) -> (map: Vec<Option<usize>>)
    requires
        range.start <= range.end <= notes@.len(),
        within(changeable@, keys@),
        within(assignable@, keys@),
        forall|k: int| 0 <= k < keys@.len() ==> #[trigger] keys@[k] < last_note_time@.len(),
    ensures
        map@.len() == last_note_time@.len(),
        maps_into(map@, keys@, keys@),
        changeable@.no_duplicates() && assignable@.no_duplicates() && changeable@.len()
            == assignable@.len() ==> {
            &&& forall|k: int|
                0 <= k < changeable@.len() ==> (#[trigger] map@[changeable@[k] as int]) is Some
            &&& one_to_one(map@)
            &&& forall|l: int|
                0 <= l < map@.len() && (#[trigger] map@[l]) is Some ==> changeable@.contains(l as usize)
            &&& forall|l: int|
                0 <= l < map@.len() && (#[trigger] map@[l]) is Some ==> assignable@.contains(map@[l]->0)
        },
        changeable@.no_duplicates() && assignable@.no_duplicates() && changeable@.len()
            == assignable@.len() && assignable@.filter(rested(last_note_time@, time, threshold_us)).len()
            >= changeable@.filter(noted(notes@, range.start as int, range.end as int)).len()
            ==> forall|l: int|
            0 <= l < map@.len() && changeable@.contains(l as usize) && has_note_in(
                notes@,
                range.start as int,
                range.end as int,
                l as usize,
            ) ==> (#[trigger] map@[l]) is Some && rested(last_note_time@, time, threshold_us)(
                map@[l]->0,
            ),
        increasing(changeable@) && changeable@.no_duplicates() && assignable@.no_duplicates()
            && changeable@.len() == assignable@.len() ==> falls_back(
            changeable@,
            assignable@,
            notes@,
            range.start as int,
            range.end as int,
            last_note_time@,
            time,
            threshold_us,
            map@,
        ),
{
    let total = last_note_time.len();
    let mut map: Vec<Option<usize>> = Vec::new();
    let mut l: usize = 0;
    while l < total
        invariant
            l <= total,
            map@.len() == l,
            forall|k: int| 0 <= k < l ==> map@[k] is None,
        decreases total - l,
    {
        map.push(None);
        l = l + 1;
    }
    let (mut note_lanes, mut empty_lanes) = split_by_notes(notes, range, changeable);
    let mut primary: Vec<usize> = Vec::new();
    let mut inferior: Vec<usize> = Vec::new();
    let mut i: usize = 0;
    let ghost good = changeable@.no_duplicates() && assignable@.no_duplicates()
        && changeable@.len() == assignable@.len();
    assert(assignable@.take(0) =~= Seq::<usize>::empty());
    while i < assignable.len()
        invariant
            i <= assignable@.len(),
            within(assignable@, keys@),
            within(primary@, keys@),
            within(inferior@, keys@),
            good == (changeable@.no_duplicates() && assignable@.no_duplicates() && changeable@.len()
                == assignable@.len()),
            good ==> splits(assignable@.take(i as int), primary@, inferior@),
            primary@ == assignable@.take(i as int).filter(rested(last_note_time@, time, threshold_us)),
        decreases assignable@.len() - i,
    {
        let al = assignable[i];
        assert(keys@.contains(assignable@[i as int]));
        let last = last_time_of(last_note_time, al);
        proof {
            assert(assignable@.take(i + 1) =~= assignable@.take(i as int).push(al));
            assignable@.take(i as int).lemma_filter_push(al, rested(last_note_time@, time, threshold_us));
        }
        if (time as i128) - (last as i128) > threshold_us as i128 {
            proof {
                if good {
                    lemma_splits_push(assignable@, primary@, inferior@, i as int, true);
                }
            }
            primary.push(al);
        } else {
            proof {
                if good {
                    lemma_splits_push(assignable@, primary@, inferior@, i as int, false);
                }
            }
            inferior.push(al);
        }
        i = i + 1;
    }
    assert(assignable@.take(assignable@.len() as int) =~= assignable@);
    proof {
        assert forall|k: int| 0 <= k < note_lanes@.len() implies #[trigger] note_lanes@[k]
            < map@.len() by {
            assert(keys@.contains(note_lanes@[k]));
        }
        assert forall|k: int| 0 <= k < empty_lanes@.len() implies #[trigger] empty_lanes@[k]
            < map@.len() by {
            assert(keys@.contains(empty_lanes@[k]));
        }
    }
    let ghost m0 = map@;
    let ghost n0 = note_lanes@;
    let ghost e0 = empty_lanes@;
    let ghost pr0 = primary@;
    let ghost in0 = inferior@;
    assign_random(&mut map, &mut note_lanes, &mut primary, rng, keys, keys);
    let ghost m1 = map@;
    let ghost n1 = note_lanes@;
    let ghost pr1 = primary@;
    assign_least_recent(&mut map, &mut note_lanes, &mut inferior, last_note_time, rng, keys, keys);
    let ghost m2 = map@;
    let ghost n2 = note_lanes@;
    let ghost in1 = inferior@;
    append_lanes(&mut primary, &inferior, keys);
    let ghost pool = primary@;
    assign_random(&mut map, &mut empty_lanes, &mut primary, rng, keys, keys);
    proof {
        if good {
            assert forall|k: int| 0 <= k < changeable@.len() implies #[trigger] changeable@[k] < m0.len() by {
                assert(keys@.contains(changeable@[k]));
            }
            lemma_three_phases(
                changeable@,
                assignable@,
                m0,
                n0,
                e0,
                pr0,
                in0,
                m1,
                n1,
                pr1,
                m2,
                n2,
                in1,
                pool,
                map@,
                empty_lanes@,
                primary@,
            );
            if increasing(changeable@) {
                lemma_fallback_phases(
                    changeable@,
                    assignable@,
                    notes@,
                    range.start as int,
                    range.end as int,
                    last_note_time@,
                    time,
                    threshold_us,
                    m0,
                    n0,
                    pr0,
                    in0,
                    m1,
                    n1,
                    pr1,
                    m2,
                    n2,
                    in1,
                    map@,
                );
            }
            let nt = noted(notes@, range.start as int, range.end as int);
            let rs = rested(last_note_time@, time, threshold_us);
            if pr0.len() >= n0.len() {
                assert forall|l: int|
                    0 <= l < map@.len() && changeable@.contains(l as usize) && has_note_in(
                        notes@,
                        range.start as int,
                        range.end as int,
                        l as usize,
                    ) implies (#[trigger] map@[l]) is Some && rs(map@[l]->0) by {
                    let c = choose|c: int| 0 <= c < changeable@.len() && changeable@[c] == l as usize;
                    changeable@.lemma_filter_contains(nt, c);
                    let k = choose|k: int| 0 <= k < n0.len() && n0[k] == l as usize;
                    assert(pr0.contains(map@[n0[k] as int]->0));
                    let q = choose|q: int| 0 <= q < pr0.len() && pr0[q] == map@[n0[k] as int]->0;
                    assignable@.lemma_filter_pred(rs, q);
                }
            }
        }
    }
    map
}

/// Appends the lanes of `more` to `v`.
fn append_lanes(v: &mut Vec<usize>, more: &Vec<usize>, to: Ghost<Seq<usize>>)
    requires
        within(old(v)@, to@),
        within(more@, to@),
    ensures
        within(final(v)@, to@),
        final(v)@ == old(v)@ + more@,
{
    let mut i: usize = 0;
    while i < more.len()
        invariant
            i <= more@.len(),
            within(more@, to@),
            within(v@, to@),
            v@ == old(v)@ + more@.take(i as int),
        decreases more@.len() - i,
    {
        assert(to@.contains(more@[i as int]));
        v.push(more[i]);
        assert(more@.take(i + 1) =~= more@.take(i as int).push(more@[i as int]));
        i = i + 1;
    }
    assert(more@.take(more@.len() as int) =~= more@);
}

/// The starting state of a shuffle: no lane held, and every key lane with no note yet.
fn fresh_state(keys: &Vec<usize>, total: usize) -> (r: (Vec<Option<usize>>, Vec<Option<i64>>))
    requires
        forall|k: int| 0 <= k < keys@.len() ==> #[trigger] keys@[k] < total,
    ensures
        r.0@.len() == total,
        r.1@.len() == total,
        maps_into(r.0@, keys@, keys@),
        forall|l: int| 0 <= l < total ==> (#[trigger] r.0@[l]) is None,
        forall|l: usize| l < total ==> #[trigger] last_time(r.1@, l) == NEVER_US,
        forall|k: int| 0 <= k < keys@.len() ==> (#[trigger] r.1@[keys@[k] as int]) is Some,
{
    let mut ln_active: Vec<Option<usize>> = Vec::new();
    let mut last_note_time: Vec<Option<i64>> = Vec::new();
    let mut l: usize = 0;
    while l < total
        invariant
            l <= total,
            ln_active@.len() == l,
            last_note_time@.len() == l,
            forall|k: int| 0 <= k < l ==> ln_active@[k] is None,
            forall|k: int| 0 <= k < l ==> last_note_time@[k] is None,
        decreases total - l,
    {
        ln_active.push(None);
        last_note_time.push(None);
        l = l + 1;
    }
    let mut i: usize = 0;
    while i < keys.len()
        invariant
            i <= keys@.len(),
            last_note_time@.len() == total,
            ln_active@.len() == total,
            forall|k: int| 0 <= k < total ==> ln_active@[k] is None,
            forall|k: int| 0 <= k < keys@.len() ==> #[trigger] keys@[k] < total,
            forall|l: usize| l < total ==> #[trigger] last_time(last_note_time@, l) == NEVER_US,
            forall|k: int| 0 <= k < i ==> (#[trigger] last_note_time@[keys@[k] as int]) is Some,
        decreases keys@.len() - i,
    {
        let ghost before = last_note_time@;
        last_note_time.set(keys[i], Some(NEVER_US));
        assert forall|l: usize| l < total implies #[trigger] last_time(last_note_time@, l) == NEVER_US by {
            assert(last_time(before, l) == NEVER_US);
            if l != keys@[i as int] {
                assert(last_note_time@[l as int] == before[l as int]);
            }
        }
        i = i + 1;
    }
    (ln_active, last_note_time)
}

/// The start of the timeslice of note `i`: the first of the run of notes with its time
/// that holds it.
pub open spec fn slice_begin(s: Seq<Note>, i: int) -> int
    decreases i,
{
    if i <= 0 || s[i - 1].time_us != s[i].time_us {
        i
    } else {
        slice_begin(s, i - 1)
    }
}

/// Whether a long note holds a key lane when the timeslice of note `i` begins: the long
/// notes on it before the timeslice are odd in number (each starts or ends a hold).
pub open spec fn held_at(s: Seq<Note>, keys: Seq<usize>, i: int, lane: usize) -> bool {
    keys.contains(lane) && flips(s.take(slice_begin(s, i)), lane)
}

/// Notes of one timeslice on different lanes, neither of them held by a long note,
/// land on different lanes.
pub open spec fn apart_in_slices(old: Seq<Note>, new: Seq<Note>, keys: Seq<usize>) -> bool {
    forall|i: int, j: int|
        0 <= i < j < old.len() && #[trigger] same_slice(old, i, j) && old[i].lane != old[j].lane
            && !held_at(old, keys, i, old[i].lane) && !held_at(old, keys, i, old[j].lane)
            ==> new[i].lane != #[trigger] new[j].lane
}

/// Every note of a timeslice has the timeslice's start as the start of its run.
proof fn lemma_slice_begin(notes: Seq<Note>, groups: Seq<(i64, core::ops::Range<usize>)>, g: int, i: int)
    requires
        slices_of(notes, groups),
        0 <= g < groups.len(),
        groups[g].1.start <= i < groups[g].1.end,
    ensures
        slice_begin(notes, i) == groups[g].1.start,
    decreases i,
{
    let r = groups[g].1;
    if i > r.start {
        assert(notes[i - 1].time_us == groups[g].0 && notes[i].time_us == groups[g].0);
        lemma_slice_begin(notes, groups, g, i - 1);
    }
}

/// How many of the lanes `0..n` hold a long note.
pub open spec fn some_count(ln_active: Seq<Option<usize>>, n: int) -> nat
    decreases n,
{
    if n <= 0 {
        0
    } else {
        some_count(ln_active, n - 1) + if ln_active[n - 1] is Some {
            1nat
        } else {
            0nat
        }
    }
}

/// How many of the lanes `0..n` are key lanes that a long note holds when the timeslice
/// at `start` begins.
pub open spec fn held_count(old: Seq<Note>, keys: Seq<usize>, start: int, n: int) -> nat
    decreases n,
{
    if n <= 0 {
        0
    } else {
        held_count(old, keys, start, n - 1) + if keys.contains((n - 1) as usize) && flips(
            old.take(start),
            (n - 1) as usize,
        ) {
            1nat
        } else {
            0nat
        }
    }
}

/// Whether S-Random Playable takes the timeslice of note `i` as S-Random does: its
/// playable notes on the key lanes and its held key lanes (of the `total` lanes) are
/// not three to six.
pub open spec fn plain_slice(old: Seq<Note>, keys: Seq<usize>, total: int, i: int) -> bool {
    let s = slice_begin(old, i);
    let c = count_playable(old, s, slice_stop(old, i), keys) + held_count(old, keys, s, total);
    c <= 2 || c >= 7
}

proof fn lemma_held_count(old: Seq<Note>, keys: Seq<usize>, start: int, la: Seq<Option<usize>>, n: int)
    requires
        0 <= n <= la.len(),
        forall|l: int|
            0 <= l < la.len() ==> (#[trigger] la[l]) is Some == (keys.contains(l as usize) && flips(
                old.take(start),
                l as usize,
            )),
    ensures
        some_count(la, n) == held_count(old, keys, start, n),
    decreases n,
{
    if n > 0 {
        lemma_held_count(old, keys, start, la, n - 1);
        assert(la[n - 1] is Some == (keys.contains((n - 1) as usize) && flips(old.take(start), (n - 1) as usize)));
    }
}

proof fn lemma_count_playable_same(a: Seq<Note>, b: Seq<Note>, start: int, end: int, keys: Seq<usize>)
    requires
        forall|k: int| start <= k < end ==> #[trigger] a[k] == b[k],
    ensures
        count_playable(a, start, end, keys) == count_playable(b, start, end, keys),
    decreases end - start,
{
    if end > start {
        lemma_count_playable_same(a, b, start, end - 1, keys);
        assert(a[end - 1] == b[end - 1]);
    }
}

/// The mapping of one timeslice. With `playable` (S-Random Playable), a timeslice of
/// three to six notes (held lanes counted) goes by a button set drawn at random from
/// `preferred_sets`, when there is one; otherwise the mapping is `build_time_based_map`.
fn slice_map(
    notes: &Vec<Note>,
    range: &core::ops::Range<usize>,
    time: i64,
    changeable: &Vec<usize>,
    assignable: &Vec<usize>,
    keys: &Vec<usize>,
    threshold_us: i64,
    ln_active: &Vec<Option<usize>>,
    last_note_time: &Vec<Option<i64>>,
    playable: bool,
    rng: &mut SmallRng,
) -> (map: Vec<Option<usize>>)
    requires
        range.start <= range.end <= notes@.len(),
        within(changeable@, keys@),
        within(assignable@, keys@),
        forall|k: int| 0 <= k < keys@.len() ==> #[trigger] keys@[k] < last_note_time@.len(),
    ensures
        map@.len() == last_note_time@.len(),
        maps_into(map@, keys@, keys@),
        changeable@.no_duplicates() && assignable@.no_duplicates() && changeable@.len()
            == assignable@.len() ==> {
            &&& forall|k: int|
                0 <= k < changeable@.len() ==> (#[trigger] map@[changeable@[k] as int]) is Some
            &&& one_to_one(map@)
            &&& forall|l: int|
                0 <= l < map@.len() && (#[trigger] map@[l]) is Some ==> changeable@.contains(l as usize)
            &&& forall|l: int|
                0 <= l < map@.len() && (#[trigger] map@[l]) is Some ==> assignable@.contains(map@[l]->0)
        },
        (!playable || !(2 < count_playable(notes@, range.start as int, range.end as int, keys@)
            + some_count(ln_active@, ln_active@.len() as int) < 7)) && changeable@.no_duplicates()
            && assignable@.no_duplicates() && changeable@.len() == assignable@.len()
            && assignable@.filter(
            rested(last_note_time@, time, threshold_us),
        ).len() >= changeable@.filter(noted(notes@, range.start as int, range.end as int)).len()
            ==> forall|l: int|
            0 <= l < map@.len() && changeable@.contains(l as usize) && has_note_in(
                notes@,
                range.start as int,
                range.end as int,
                l as usize,
            ) ==> (#[trigger] map@[l]) is Some && rested(last_note_time@, time, threshold_us)(
                map@[l]->0,
            ),
        ({
            let n = count_playable(notes@, range.start as int, range.end as int, keys@) + some_count(
                ln_active@,
                ln_active@.len() as int,
            );
            let sets = preferred(ln_active@, last_note_time@, time, threshold_us, n as int);
            playable && 2 < n < 7 && sets.len() > 0 ==> exists|b: int|
                0 <= b < sets.len() && (changeable@.no_duplicates() && assignable@.no_duplicates()
                    && changeable@.len() == assignable@.len() && assignable@.filter(
                    in_lanes(#[trigger] sets[b]),
                ).len() >= changeable@.filter(noted(notes@, range.start as int, range.end as int)).len()
                    ==> forall|l: int|
                    0 <= l < map@.len() && changeable@.contains(l as usize) && has_note_in(
                        notes@,
                        range.start as int,
                        range.end as int,
                        l as usize,
                    ) ==> (#[trigger] map@[l]) is Some && sets[b].contains(map@[l]->0))
        }),
        increasing(changeable@) && (!playable || !(2 < count_playable(notes@, range.start as int, range.end as int, keys@)
            + some_count(ln_active@, ln_active@.len() as int) < 7)) && changeable@.no_duplicates()
            && assignable@.no_duplicates() && changeable@.len() == assignable@.len() ==> falls_back(
            changeable@,
            assignable@,
            notes@,
            range.start as int,
            range.end as int,
            last_note_time@,
            time,
            threshold_us,
            map@,
        ),
{
    if playable {
        let mut held: usize = 0;
        let mut l: usize = 0;
        while l < ln_active.len()
            invariant
                l <= ln_active@.len(),
                held <= l,
                held == some_count(ln_active@, l as int),
            decreases ln_active@.len() - l,
        {
            if ln_active[l].is_some() {
                held = held + 1;
            }
            l = l + 1;
        }
        let note_count: u128 = count_playable_notes(notes, range, keys) as u128 + held as u128;
        if note_count > 2 && note_count < 7 {
            let sets = preferred_sets(ln_active, last_note_time, time, threshold_us, note_count);
            if sets.len() > 0 {
                let pick = random_range(rng, 0, sets.len());
                let chosen = &sets[pick];
                let map = build_time_based_map_with_preference(
                    notes,
                    range,
                    changeable,
                    assignable,
                    rng,
                    chosen,
                    last_note_time.len(),
                    Ghost(keys@),
                );
                proof {
                    let ps = preferred(ln_active@, last_note_time@, time, threshold_us, note_count as int);
                    assert(chosen@ == views(sets@)[pick as int]);
                    assert(ps[pick as int] == chosen@);
                    assert(in_lanes(ps[pick as int]) == in_lanes(chosen@));
                }
                return map;
            }
        }
    }
    build_time_based_map(
        notes,
        range,
        time,
        changeable,
        assignable,
        threshold_us,
        last_note_time,
        rng,
        Ghost(keys@),
    )
}

/// One timeslice of a per-note shuffle: when its mapping gives every free key lane a
/// lane, one to one, and moves no other lane, and held lanes keep their lane, the notes
/// of the timeslice on different lanes, neither held, land on different lanes; the
/// shuffle goes on to the end of the timeslice and the held lanes are those whose long
/// notes before it are odd in number.
#[verifier::spinoff_prover]
#[verifier::rlimit(40)]
proof fn lemma_slice_apart(
    orig: Seq<Note>,
    cur: Seq<Note>,
    nxt: Seq<Note>,
    keys: Seq<usize>,
    groups: Seq<(i64, core::ops::Range<usize>)>,
    g: int,
    total: int,
    la: Seq<Option<usize>>,
    lnew: Seq<Option<usize>>,
    mb: Seq<Option<usize>>,
    mf: Seq<Option<usize>>,
)
    requires
        slices_of(orig, groups),
        0 <= g < groups.len(),
        forall|gg: int|
            0 <= gg < groups.len() ==> #[trigger] groups[gg].1.end == slice_start(
                groups,
                gg + 1,
                orig.len(),
            ),
        slice_start(groups, 0, orig.len()) == 0,
        shuffled_upto(orig, cur, keys, slice_start(groups, g, orig.len())),
        nxt.len() == cur.len(),
        forall|k: int|
            0 <= k < cur.len() && !(groups[g].1.start <= k < groups[g].1.end) ==> #[trigger] nxt[k]
                == cur[k],
        forall|k: int|
            groups[g].1.start <= k < groups[g].1.end ==> #[trigger] nxt[k] == with_lane(
                cur[k],
                moved(mf, cur[k].lane),
            ),
        maps_into(mf, keys, keys),
        la.len() == total,
        lnew.len() == total,
        mb.len() == total,
        mf.len() == total,
        forall|k: int| 0 <= k < keys.len() ==> #[trigger] keys[k] < total,
        forall|l: int|
            0 <= l < total ==> (#[trigger] la[l]) is Some == (keys.contains(l as usize) && flips(
                orig.take(slice_start(groups, g, orig.len())),
                l as usize,
            )),
        forall|l: int|
            0 <= l < total ==> ((#[trigger] mb[l]) is Some == (keys.contains(l as usize) && la[l] is None)),
        one_to_one(mb),
        forall|l: int|
            0 <= l < total ==> #[trigger] mf[l] == if la[l] is Some {
                la[l]
            } else {
                mb[l]
            },
        forall|l: int|
            0 <= l < total ==> (#[trigger] lnew[l]) is Some == if mf[l] is Some {
                (la[l] is Some) != flips(
                    cur.subrange(groups[g].1.start as int, groups[g].1.end as int),
                    l as usize,
                )
            } else {
                la[l] is Some
            },
        forall|i: int, j: int|
            0 <= i < j < slice_start(groups, g, orig.len()) && #[trigger] same_slice(orig, i, j)
                && orig[i].lane != orig[j].lane && !held_at(orig, keys, i, orig[i].lane) && !held_at(
                orig,
                keys,
                i,
                orig[j].lane,
            ) ==> cur[i].lane != #[trigger] cur[j].lane,
    ensures
        shuffled_upto(orig, nxt, keys, slice_start(groups, g + 1, orig.len())),
        forall|l: int| 0 <= l < total ==> ((#[trigger] mf[l]) is Some == keys.contains(l as usize)),
        forall|l: int|
            0 <= l < total ==> (#[trigger] lnew[l]) is Some == (keys.contains(l as usize) && flips(
                orig.take(slice_start(groups, g + 1, orig.len())),
                l as usize,
            )),
        forall|i: int, j: int|
            0 <= i < j < slice_start(groups, g + 1, orig.len()) && #[trigger] same_slice(orig, i, j)
                && orig[i].lane != orig[j].lane && !held_at(orig, keys, i, orig[i].lane) && !held_at(
                orig,
                keys,
                i,
                orig[j].lane,
            ) ==> nxt[i].lane != #[trigger] nxt[j].lane,
{
    let s = groups[g].1.start as int;
    let e = groups[g].1.end as int;
    lemma_group_progress(orig, cur, nxt, keys, groups, g, mf);
    assert(s == slice_start(groups, g, orig.len()));
    assert(e == slice_start(groups, g + 1, orig.len()));
    assert(cur.subrange(s, e) =~= orig.subrange(s, e)) by {
        assert forall|k: int| 0 <= k < e - s implies cur.subrange(s, e)[k] == orig.subrange(s, e)[k] by {
            assert(cur[s + k] == orig[s + k]);
        }
    }
    assert(orig.take(e) =~= orig.take(s) + orig.subrange(s, e));
    // every key lane is mapped in this timeslice; no other lane is
    assert forall|l: int| 0 <= l < total implies ((#[trigger] mf[l]) is Some == keys.contains(
        l as usize,
    )) by {
        if !keys.contains(l as usize) {
            if la[l] is Some {
                assert(keys.contains(l as usize));
            }
        }
    }
    assert forall|l: int| 0 <= l < total implies (#[trigger] lnew[l]) is Some == (keys.contains(
        l as usize,
    ) && flips(orig.take(e), l as usize)) by {
        lemma_flips_concat(orig.take(s), orig.subrange(s, e), l as usize);
    }
    assert forall|i: int, j: int|
        0 <= i < j < e && #[trigger] same_slice(orig, i, j) && orig[i].lane != orig[j].lane
            && !held_at(orig, keys, i, orig[i].lane) && !held_at(orig, keys, i, orig[j].lane)
            implies nxt[i].lane != #[trigger] nxt[j].lane by {
        if j < s {
            assert(nxt[i] == cur[i] && nxt[j] == cur[j]);
        } else if i < s {
            assert(orig[s - 1].time_us == orig[i].time_us);
            assert(orig[s].time_us == orig[i].time_us);
            assert(orig[s - 1].time_us != orig[s].time_us);
        } else {
            lemma_slice_begin(orig, groups, g, i);
            let li = orig[i].lane;
            let lj = orig[j].lane;
            assert(cur[i] == orig[i] && cur[j] == orig[j]);
            assert(nxt[i].lane == moved(mf, li));
            assert(nxt[j].lane == moved(mf, lj));
            if keys.contains(li) && keys.contains(lj) {
                assert(li < total && lj < total) by {
                    let a = choose|a: int| 0 <= a < keys.len() && keys[a] == li;
                    let b = choose|b: int| 0 <= b < keys.len() && keys[b] == lj;
                }
                assert(la[li as int] is None && la[lj as int] is None);
                assert(mf[li as int] == mb[li as int] && mf[lj as int] == mb[lj as int]);
                assert(mb[li as int] is Some && mb[lj as int] is Some);
            } else if keys.contains(li) {
                assert(li < total) by {
                    let a = choose|a: int| 0 <= a < keys.len() && keys[a] == li;
                }
                assert(mf[li as int] is Some);
                assert(keys.contains(mf[li as int]->0));
                if lj < total {
                    assert(mf[lj as int] is None);
                }
            } else if keys.contains(lj) {
                assert(lj < total) by {
                    let b = choose|b: int| 0 <= b < keys.len() && keys[b] == lj;
                }
                assert(mf[lj as int] is Some);
                assert(keys.contains(mf[lj as int]->0));
                if li < total {
                    assert(mf[li as int] is None);
                }
            } else {
                if li < total {
                    assert(mf[li as int] is None);
                }
                if lj < total {
                    assert(mf[lj as int] is None);
                }
            }
        }
    }
}

/// The end of the timeslice of note `i`: one past the last of the run of notes with its
/// time that holds it.
pub open spec fn slice_stop(s: Seq<Note>, i: int) -> int
    decreases s.len() - i,
{
    if i + 1 >= s.len() || s[i + 1].time_us != s[i].time_us {
        i + 1
    } else {
        slice_stop(s, i + 1)
    }
}

/// The time of the last playable note on `lane` among the first `upto` notes, or
/// `NEVER_US` when there is none.
pub open spec fn last_on(s: Seq<Note>, upto: int, lane: usize) -> i64
    decreases upto,
{
    if upto <= 0 {
        NEVER_US
    } else if s[upto - 1].note_type.playable() && s[upto - 1].lane == lane {
        s[upto - 1].time_us
    } else {
        last_on(s, upto - 1, lane)
    }
}

/// The lanes that no long note holds when the timeslice `old[start..end]` begins and
/// that have a playable note in it.
pub open spec fn free_noted(old: Seq<Note>, start: int, end: int) -> spec_fn(usize) -> bool {
    |lane: usize| !flips(old.take(start), lane) && has_note_in(old, start, end, lane)
}

/// The lanes that no long note holds in `new` when the timeslice starting at `start`
/// begins and whose last note in `new` is more than `threshold` before `time`.
pub open spec fn open_rested(new: Seq<Note>, start: int, time: i64, threshold: i64) -> spec_fn(usize) -> bool {
    |lane: usize| !flips(new.take(start), lane) && time - last_on(new, start, lane) > threshold
}

/// For note `i`: when it is playable, on a key lane that no long note holds, and the key
/// lanes that no long note holds in `new` and whose last note in `new` is more than
/// `threshold` before it are at least as many as the free key lanes with a playable note
/// in its timeslice, it goes to a lane whose last note in `new` is more than `threshold`
/// before it.
pub open spec fn rests_on_open_lane(old: Seq<Note>, new: Seq<Note>, keys: Seq<usize>, threshold: i64, i: int) -> bool {
    old[i].note_type.playable() && keys.contains(old[i].lane) && !held_at(old, keys, i, old[i].lane)
        && keys.filter(open_rested(new, slice_begin(old, i), old[i].time_us, threshold)).len()
        >= keys.filter(free_noted(old, slice_begin(old, i), slice_stop(old, i))).len()
        ==> old[i].time_us - last_on(new, slice_begin(old, i), new[i].lane) > threshold
}

/// Every note goes to a lane rested for more than `threshold` whenever enough key lanes
/// that no long note holds are so rested (see `rests_on_open_lane`).
pub open spec fn avoids_recent_open(old: Seq<Note>, new: Seq<Note>, keys: Seq<usize>, threshold: i64) -> bool {
    forall|i: int| 0 <= i < old.len() ==> #[trigger] rests_on_open_lane(old, new, keys, threshold, i)
}

/// For note `i`: when it is on a key lane that no long note holds, it goes to a lane that
/// no long note holds in `new` when its timeslice begins.
pub open spec fn off_held_note(old: Seq<Note>, new: Seq<Note>, keys: Seq<usize>, i: int) -> bool {
    keys.contains(old[i].lane) && !held_at(old, keys, i, old[i].lane) ==> !flips(
        new.take(slice_begin(old, i)),
        new[i].lane,
    )
}

/// No note joins a lane that a long note holds (see `off_held_note`).
pub open spec fn avoids_held(old: Seq<Note>, new: Seq<Note>, keys: Seq<usize>) -> bool {
    forall|i: int| 0 <= i < old.len() ==> #[trigger] off_held_note(old, new, keys, i)
}

proof fn lemma_slice_stop(notes: Seq<Note>, groups: Seq<(i64, core::ops::Range<usize>)>, g: int, i: int)
    requires
        slices_of(notes, groups),
        0 <= g < groups.len(),
        groups[g].1.start <= i < groups[g].1.end,
    ensures
        slice_stop(notes, i) == groups[g].1.end,
    decreases notes.len() - i,
{
    let r = groups[g].1;
    if i + 1 < r.end {
        assert(notes[i + 1].time_us == groups[g].0 && notes[i].time_us == groups[g].0);
        lemma_slice_stop(notes, groups, g, i + 1);
    }
}

/// The last note times before `upto` depend on the notes before `upto` only.
proof fn lemma_last_on_prefix(a: Seq<Note>, b: Seq<Note>, upto: int, lane: usize)
    requires
        upto <= a.len(),
        upto <= b.len(),
        forall|k: int| 0 <= k < upto ==> #[trigger] a[k] == b[k],
    ensures
        last_on(a, upto, lane) == last_on(b, upto, lane),
    decreases upto,
{
    if upto > 0 {
        assert(a[upto - 1] == b[upto - 1]);
        lemma_last_on_prefix(a, b, upto - 1, lane);
    }
}

/// Over a run of notes all at `time`, the last note time on a lane becomes `time` when
/// a playable note of the run is on it, and stays otherwise.
proof fn lemma_last_on_run(s: Seq<Note>, start: int, end: int, time: i64, lane: usize)
    requires
        0 <= start <= end <= s.len(),
        forall|k: int| start <= k < end ==> #[trigger] s[k].time_us == time,
    ensures
        last_on(s, end, lane) == if has_note_in(s, start, end, lane) {
            time
        } else {
            last_on(s, start, lane)
        },
    decreases end - start,
{
    if end > start {
        lemma_last_on_run(s, start, end - 1, time, lane);
        if has_note_in(s, start, end - 1, lane) {
            let k = choose|k: int|
                start <= k < end - 1 && s[k].lane == lane && (#[trigger] s[k]).note_type.playable();
            assert(has_note_in(s, start, end, lane));
        }
        if has_note_in(s, start, end, lane) && !has_note_in(s, start, end - 1, lane) {
            let k = choose|k: int|
                start <= k < end && s[k].lane == lane && (#[trigger] s[k]).note_type.playable();
            assert(k == end - 1);
        }
    }
}

/// Filtering twice, with predicates that on the elements agree with one, is filtering
/// once with it.
proof fn lemma_filter_twice(s: Seq<usize>, p: spec_fn(usize) -> bool, q: spec_fn(usize) -> bool, r: spec_fn(usize) -> bool)
    requires
        forall|i: int| 0 <= i < s.len() ==> (p(#[trigger] s[i]) && q(s[i])) == r(s[i]),
    ensures
        s.filter(p).filter(q) == s.filter(r),
    decreases s.len(),
{
    if s.len() > 0 {
        let t = s.drop_last();
        let x = s.last();
        assert(s =~= t.push(x));
        assert forall|i: int| 0 <= i < t.len() implies (p(#[trigger] t[i]) && q(t[i])) == r(t[i]) by {
            assert(t[i] == s[i]);
        }
        lemma_filter_twice(t, p, q, r);
        t.lemma_filter_push(x, p);
        t.lemma_filter_push(x, r);
        t.filter(p).lemma_filter_push(x, q);
        assert(s[s.len() - 1] == x);
    } else {
        reveal(Seq::filter);
    }
}

pub proof fn lemma_slice_begin_bounds(s: Seq<Note>, i: int)
    requires
        0 <= i,
    ensures
        0 <= slice_begin(s, i) <= i,
    decreases i,
{
    if i > 0 && s[i - 1].time_us == s[i].time_us {
        lemma_slice_begin_bounds(s, i - 1);
    }
}

/// Whether a note rests on an open lane, and whether it stays off held lanes, depend on
/// the shuffled notes before its timeslice ends only.
proof fn lemma_open_prefix(old: Seq<Note>, a: Seq<Note>, b: Seq<Note>, keys: Seq<usize>, threshold: i64, i: int, upto: int)
    requires
        0 <= i < upto <= a.len(),
        upto <= b.len(),
        forall|k: int| 0 <= k < upto ==> #[trigger] a[k] == b[k],
    ensures
        rests_on_open_lane(old, a, keys, threshold, i) == rests_on_open_lane(old, b, keys, threshold, i),
        off_held_note(old, a, keys, i) == off_held_note(old, b, keys, i),
{
    let si = slice_begin(old, i);
    lemma_slice_begin_bounds(old, i);
    assert forall|d: usize| #[trigger] last_on(a, si, d) == last_on(b, si, d) by {
        lemma_last_on_prefix(a, b, si, d);
    }
    assert(a.take(si) =~= b.take(si));
    assert(open_rested(a, si, old[i].time_us, threshold) =~= open_rested(b, si, old[i].time_us, threshold));
    assert(a[i] == b[i]);
}

/// After a timeslice, the last note time of each key lane is that of the shuffled notes
/// up to its end.
proof fn lemma_last_times_step(
    orig: Seq<Note>,
    cur: Seq<Note>,
    nxt: Seq<Note>,
    keys: Seq<usize>,
    groups: Seq<(i64, core::ops::Range<usize>)>,
    g: int,
    total: int,
    lnt: Seq<Option<i64>>,
    lnt2: Seq<Option<i64>>,
    mf: Seq<Option<usize>>,
)
    requires
        slices_of(orig, groups),
        0 <= g < groups.len(),
        shuffled_upto(orig, cur, keys, groups[g].1.start as int),
        nxt.len() == cur.len(),
        forall|k: int|
            0 <= k < cur.len() && !(groups[g].1.start <= k < groups[g].1.end) ==> #[trigger] nxt[k]
                == cur[k],
        forall|k: int|
            groups[g].1.start <= k < groups[g].1.end ==> #[trigger] nxt[k] == with_lane(
                cur[k],
                moved(mf, cur[k].lane),
            ),
        mf.len() == total,
        lnt.len() == total,
        lnt2.len() == total,
        forall|k: int| 0 <= k < keys.len() ==> #[trigger] keys[k] < total,
        forall|l: int| 0 <= l < total ==> ((#[trigger] mf[l]) is Some == keys.contains(l as usize)),
        forall|d: usize|
            #[trigger] keys.contains(d) ==> last_time(lnt, d) == last_on(cur, groups[g].1.start as int, d),
        forall|d: int|
            0 <= d < total ==> if exists|k: int|
                groups[g].1.start <= k < groups[g].1.end && #[trigger] lands_on(cur, mf, k, d as usize) {
                exists|k: int|
                    groups[g].1.start <= k < groups[g].1.end && #[trigger] lands_on(cur, mf, k, d as usize)
                        && lnt2[d] == Some(cur[k].time_us)
            } else {
                #[trigger] lnt2[d] == lnt[d]
            },
    ensures
        forall|d: usize|
            #[trigger] keys.contains(d) ==> last_time(lnt2, d) == last_on(nxt, groups[g].1.end as int, d),
{
    let s = groups[g].1.start as int;
    let e = groups[g].1.end as int;
    let t = groups[g].0;
    assert forall|k: int| s <= k < e implies #[trigger] nxt[k].time_us == t by {
        assert(cur[k] == orig[k]);
    }
    assert forall|d: usize| #[trigger] keys.contains(d) implies last_time(lnt2, d) == last_on(nxt, e, d) by {
        let q = choose|q: int| 0 <= q < keys.len() && keys[q] == d;
        assert(d < total);
        lemma_last_on_run(nxt, s, e, t, d);
        lemma_last_on_prefix(nxt, cur, s, d);
        if has_note_in(nxt, s, e, d) {
            let k = choose|k: int| s <= k < e && nxt[k].lane == d && (#[trigger] nxt[k]).note_type.playable();
            let l = cur[k].lane;
            if !(l < mf.len() && mf[l as int] is Some) {
                assert(nxt[k].lane == l);
                assert(mf[d as int] is Some);
            }
            assert(lands_on(cur, mf, k, d));
            let k2 = choose|k2: int| s <= k2 < e && #[trigger] lands_on(cur, mf, k2, d) && lnt2[d as int] == Some(cur[k2].time_us);
            assert(cur[k2] == orig[k2]);
        } else {
            if exists|k: int| s <= k < e && #[trigger] lands_on(cur, mf, k, d) {
                let k = choose|k: int| s <= k < e && #[trigger] lands_on(cur, mf, k, d);
                assert(nxt[k].lane == d);
                assert(has_note_in(nxt, s, e, d));
            }
            assert(lnt2[d as int] == lnt[d as int]);
        }
    }
}

/// One timeslice of a per-note shuffle whose mapping sends the free key lanes, one to
/// one, to key lanes that no held long note was moved to: afterwards the new lanes of the
/// held long notes are again distinct and are exactly the key lanes that an odd number
/// of shuffled long notes holds, and no note of a free lane joins a held lane.
#[verifier::spinoff_prover]
#[verifier::rlimit(40)]
proof fn lemma_slice_held(
    orig: Seq<Note>,
    cur: Seq<Note>,
    nxt: Seq<Note>,
    keys: Seq<usize>,
    groups: Seq<(i64, core::ops::Range<usize>)>,
    g: int,
    total: int,
    la: Seq<Option<usize>>,
    lnew: Seq<Option<usize>>,
    mb: Seq<Option<usize>>,
    mf: Seq<Option<usize>>,
)
    requires
        slices_of(orig, groups),
        0 <= g < groups.len(),
        shuffled_upto(orig, cur, keys, groups[g].1.start as int),
        nxt.len() == cur.len(),
        forall|k: int|
            0 <= k < cur.len() && !(groups[g].1.start <= k < groups[g].1.end) ==> #[trigger] nxt[k]
                == cur[k],
        forall|k: int|
            groups[g].1.start <= k < groups[g].1.end ==> #[trigger] nxt[k] == with_lane(
                cur[k],
                moved(mf, cur[k].lane),
            ),
        0 <= total <= usize::MAX,
        la.len() == total,
        lnew.len() == total,
        mb.len() == total,
        mf.len() == total,
        forall|k: int| 0 <= k < keys.len() ==> #[trigger] keys[k] < total,
        maps_into(la, keys, keys),
        one_to_one(la),
        forall|l: int|
            0 <= l < total ==> (#[trigger] la[l]) is Some == (keys.contains(l as usize) && flips(
                orig.take(groups[g].1.start as int),
                l as usize,
            )),
        forall|l: int|
            0 <= l < total ==> ((#[trigger] mb[l]) is Some == (keys.contains(l as usize) && la[l] is None)),
        one_to_one(mb),
        forall|l: int| 0 <= l < total && (#[trigger] mb[l]) is Some ==> free_dest(la)(mb[l]->0),
        maps_into(mf, keys, keys),
        forall|l: int|
            0 <= l < total ==> #[trigger] mf[l] == if la[l] is Some {
                la[l]
            } else {
                mb[l]
            },
        forall|l: int|
            0 <= l < total ==> (#[trigger] lnew[l]) is Some == if mf[l] is Some {
                (la[l] is Some) != flips(
                    cur.subrange(groups[g].1.start as int, groups[g].1.end as int),
                    l as usize,
                )
            } else {
                la[l] is Some
            },
        forall|l: int| 0 <= l < total && (#[trigger] lnew[l]) is Some ==> lnew[l] == mf[l],
        forall|d: usize|
            #[trigger] keys.contains(d) ==> flips(cur.take(groups[g].1.start as int), d) == held_dest(la)(d),
    ensures
        one_to_one(lnew),
        forall|d: usize|
            #[trigger] keys.contains(d) ==> flips(nxt.take(groups[g].1.end as int), d) == held_dest(lnew)(d),
        forall|i: int| groups[g].1.start <= i < groups[g].1.end ==> #[trigger] off_held_note(orig, nxt, keys, i),
{
    let s = groups[g].1.start as int;
    let e = groups[g].1.end as int;
    assert forall|l: int| 0 <= l < total implies ((#[trigger] mf[l]) is Some == keys.contains(l as usize)) by {}
    assert(one_to_one(mf)) by {
        assert forall|a: int, b: int|
            0 <= a < mf.len() && 0 <= b < mf.len() && a != b && (#[trigger] mf[a]) is Some && (#[trigger] mf[b]) is Some
                implies mf[a]->0 != mf[b]->0 by {
            if la[a] is Some && la[b] is None {
                assert(held_dest(la)(mf[a]->0));
            } else if la[a] is None && la[b] is Some {
                assert(held_dest(la)(mf[b]->0));
            }
        }
    }
    assert(nxt.take(s) =~= cur.take(s));
    let a = cur.subrange(s, e);
    let b = nxt.subrange(s, e);
    assert forall|k: int| 0 <= k < a.len() implies #[trigger] b[k] == with_lane(a[k], moved(mf, a[k].lane)) by {
        assert(nxt[s + k] == with_lane(cur[s + k], moved(mf, cur[s + k].lane)));
    }
    assert(nxt.take(e) =~= nxt.take(s) + b);
    assert forall|d: usize| #[trigger] keys.contains(d) implies flips(nxt.take(e), d) == held_dest(lnew)(d) by {
        lemma_flips_moved(a, b, mf, keys, d);
        lemma_flips_concat(nxt.take(s), b, d);
        if exists|l: int| 0 <= l < total && #[trigger] mf[l] == Some(d) {
            let l0 = choose|l: int| 0 <= l < total && #[trigger] mf[l] == Some(d);
            assert(held_dest(la)(d) == (la[l0] is Some)) by {
                if held_dest(la)(d) {
                    let l1 = choose|l: int| 0 <= l < la.len() && la[l] == Some(d);
                    assert(mf[l1] == Some(d));
                }
            }
            assert(held_dest(lnew)(d) == (lnew[l0] is Some)) by {
                if held_dest(lnew)(d) {
                    let l1 = choose|l: int| 0 <= l < lnew.len() && lnew[l] == Some(d);
                    assert(mf[l1] == Some(d));
                }
            }
        } else {
            if held_dest(la)(d) {
                let l1 = choose|l: int| 0 <= l < la.len() && la[l] == Some(d);
                assert(mf[l1] == Some(d));
            }
            if held_dest(lnew)(d) {
                let l1 = choose|l: int| 0 <= l < lnew.len() && lnew[l] == Some(d);
                assert(mf[l1] == Some(d));
            }
        }
    }
    assert forall|i: int| s <= i < e implies #[trigger] off_held_note(orig, nxt, keys, i) by {
        lemma_slice_begin(orig, groups, g, i);
        let l = orig[i].lane;
        if keys.contains(l) && !held_at(orig, keys, i, l) {
            let q = choose|q: int| 0 <= q < keys.len() && keys[q] == l;
            assert(l < total);
            assert(la[l as int] is None);
            assert(cur[i] == orig[i]);
            let v = mb[l as int]->0;
            assert(nxt[i].lane == v);
            assert(keys.contains(v));
            assert(!held_dest(la)(v));
        }
    }
}

/// In a timeslice whose mapping sends the free lanes with notes to rested lanes that no
/// held long note was moved to, whenever there are enough, every note of the timeslice
/// rests on its new lane.
proof fn lemma_slice_rested_open(
    orig: Seq<Note>,
    cur: Seq<Note>,
    nxt: Seq<Note>,
    keys: Seq<usize>,
    groups: Seq<(i64, core::ops::Range<usize>)>,
    g: int,
    total: int,
    la: Seq<Option<usize>>,
    lnt: Seq<Option<i64>>,
    mb: Seq<Option<usize>>,
    mf: Seq<Option<usize>>,
    threshold: i64,
)
    requires
        slices_of(orig, groups),
        0 <= g < groups.len(),
        shuffled_upto(orig, cur, keys, groups[g].1.start as int),
        nxt.len() == cur.len(),
        forall|k: int|
            0 <= k < cur.len() && !(groups[g].1.start <= k < groups[g].1.end) ==> #[trigger] nxt[k]
                == cur[k],
        forall|k: int|
            groups[g].1.start <= k < groups[g].1.end ==> #[trigger] nxt[k] == with_lane(
                cur[k],
                moved(mf, cur[k].lane),
            ),
        la.len() == total,
        mb.len() == total,
        mf.len() == total,
        maps_into(mf, keys, keys),
        forall|k: int| 0 <= k < keys.len() ==> #[trigger] keys[k] < total,
        forall|l: int|
            0 <= l < total ==> (#[trigger] la[l]) is Some == (keys.contains(l as usize) && flips(
                orig.take(groups[g].1.start as int),
                l as usize,
            )),
        forall|l: int|
            0 <= l < total ==> #[trigger] mf[l] == if la[l] is Some {
                la[l]
            } else {
                mb[l]
            },
        forall|d: usize|
            #[trigger] keys.contains(d) ==> last_time(lnt, d) == last_on(cur, groups[g].1.start as int, d),
        forall|d: usize|
            #[trigger] keys.contains(d) ==> flips(cur.take(groups[g].1.start as int), d) == held_dest(la)(d),
        keys.filter(free_dest(la)).filter(rested(lnt, groups[g].0, threshold)).len() >= keys.filter(
            unheld(la),
        ).filter(noted(cur, groups[g].1.start as int, groups[g].1.end as int)).len() ==> forall|l: int|
            0 <= l < mb.len() && keys.filter(unheld(la)).contains(l as usize) && has_note_in(
                cur,
                groups[g].1.start as int,
                groups[g].1.end as int,
                l as usize,
            ) ==> (#[trigger] mb[l]) is Some && rested(lnt, groups[g].0, threshold)(mb[l]->0),
    ensures
        forall|i: int|
            groups[g].1.start <= i < groups[g].1.end ==> #[trigger] rests_on_open_lane(orig, nxt, keys, threshold, i),
{
    let s = groups[g].1.start as int;
    let e = groups[g].1.end as int;
    let t = groups[g].0;
    let ch = keys.filter(unheld(la));
    assert forall|d: usize| #[trigger] last_on(nxt, s, d) == last_on(cur, s, d) by {
        lemma_last_on_prefix(nxt, cur, s, d);
    }
    assert(nxt.take(s) =~= cur.take(s));
    assert forall|j: int| 0 <= j < keys.len() implies (free_dest(la)(#[trigger] keys[j]) && rested(lnt, t, threshold)(
        keys[j],
    )) == open_rested(nxt, s, t, threshold)(keys[j]) by {
        assert(keys.contains(keys[j]));
    }
    lemma_filter_twice(keys, free_dest(la), rested(lnt, t, threshold), open_rested(nxt, s, t, threshold));
    assert forall|j: int| 0 <= j < keys.len() implies (unheld(la)(#[trigger] keys[j]) && noted(cur, s, e)(
        keys[j],
    )) == free_noted(orig, s, e)(keys[j]) by {
        if has_note_in(cur, s, e, keys[j]) {
            let k = choose|k: int| s <= k < e && cur[k].lane == keys[j] && (#[trigger] cur[k]).note_type.playable();
            assert(cur[k] == orig[k]);
        }
        if has_note_in(orig, s, e, keys[j]) {
            let k = choose|k: int| s <= k < e && orig[k].lane == keys[j] && (#[trigger] orig[k]).note_type.playable();
            assert(cur[k] == orig[k]);
        }
    }
    lemma_filter_twice(keys, unheld(la), noted(cur, s, e), free_noted(orig, s, e));
    assert forall|i: int| s <= i < e implies #[trigger] rests_on_open_lane(orig, nxt, keys, threshold, i) by {
        lemma_slice_begin(orig, groups, g, i);
        lemma_slice_stop(orig, groups, g, i);
        let l = orig[i].lane;
        if orig[i].note_type.playable() && keys.contains(l) && !held_at(orig, keys, i, l)
            && keys.filter(open_rested(nxt, s, orig[i].time_us, threshold)).len() >= keys.filter(
            free_noted(orig, s, e),
        ).len() {
            assert(orig[i].time_us == t);
            let q = choose|q: int| 0 <= q < keys.len() && keys[q] == l;
            assert(l < total);
            assert(la[l as int] is None);
            keys.lemma_filter_contains(unheld(la), q);
            assert(cur[i] == orig[i]);
            assert(has_note_in(cur, s, e, l));
            assert(mb[l as int] is Some && rested(lnt, t, threshold)(mb[l as int]->0));
            assert(mf[l as int] == mb[l as int]);
            let d = mb[l as int]->0;
            assert(nxt[i].lane == d);
            assert(keys.contains(d));
        }
    }
}

/// The time-based shuffle: every timeslice gets a mapping built by
/// `build_time_based_map`, held lanes keep theirs. Notes of one timeslice on different
/// lanes, neither held by a long note, land on different lanes.
#[verifier::spinoff_prover]
#[verifier::rlimit(60)]
fn time_based_shuffle(
    notes: &mut Vec<Note>,
    keys: &Vec<usize>,
    total: usize,
    threshold_us: i64,
    playable: bool,
    rng: &mut SmallRng,
)
    requires
        forall|k: int| 0 <= k < keys@.len() ==> #[trigger] keys@[k] < total,
        increasing(keys@),
    ensures
        note_shuffled(old(notes)@, final(notes)@, keys@),
        apart_in_slices(old(notes)@, final(notes)@, keys@),
        avoids_held(old(notes)@, final(notes)@, keys@),
        !playable ==> avoids_recent_open(old(notes)@, final(notes)@, keys@, threshold_us),
        forall|i: int|
            0 <= i < old(notes)@.len() && plain_slice(old(notes)@, keys@, total as int, i)
                ==> #[trigger] rests_on_open_lane(old(notes)@, final(notes)@, keys@, threshold_us, i),
        forall|i: int|
            0 <= i < old(notes)@.len() && (!playable || plain_slice(old(notes)@, keys@, total as int, i))
                ==> #[trigger] falls_back_note(old(notes)@, final(notes)@, keys@, threshold_us, i),
        playable && (forall|b: int| 0 <= b < button_sets().len() ==> within(#[trigger] button_sets()[b], keys@))
            ==> forall|i: int|
            0 <= i < old(notes)@.len() ==> #[trigger] prefers_note(old(notes)@, final(notes)@, keys@, threshold_us, i),
{
    let groups = group_notes_by_time(notes);
    let ghost buttons_in_keys = forall|b: int|
        0 <= b < button_sets().len() ==> within(#[trigger] button_sets()[b], keys@);
    let (mut ln_active, mut last_note_time) = fresh_state(keys, total);
    let ghost orig = notes@;
    proof {
        lemma_slices_start(orig, groups@);
        assert forall|l: int| 0 <= l < total implies (#[trigger] ln_active@[l]) is Some == (keys@.contains(
            l as usize,
        ) && flips(orig.take(0), l as usize)) by {
            assert(orig.take(0) =~= Seq::<Note>::empty());
            if ln_active@[l] is Some {
                assert(keys@.contains(l as usize));
            }
        }
        assert forall|d: usize| #[trigger] keys@.contains(d) implies flips(notes@.take(0), d) == held_dest(
            ln_active@,
        )(d) by {
            assert(notes@.take(0) =~= Seq::<Note>::empty());
        }
    }
    let mut g: usize = 0;
    while g < groups.len()
        invariant
            g <= groups@.len(),
            slices_of(orig, groups@),
            forall|gg: int|
                0 <= gg < groups@.len() ==> #[trigger] groups@[gg].1.end == slice_start(
                    groups@,
                    gg + 1,
                    orig.len(),
                ),
            slice_start(groups@, 0, orig.len()) == 0,
            shuffled_upto(orig, notes@, keys@, slice_start(groups@, g as int, orig.len())),
            ln_active@.len() == total,
            last_note_time@.len() == total,
            maps_into(ln_active@, keys@, keys@),
            forall|k: int| 0 <= k < keys@.len() ==> #[trigger] keys@[k] < total,
            increasing(keys@),
            orig == old(notes)@,
            forall|l: int|
                0 <= l < total ==> (#[trigger] ln_active@[l]) is Some == (keys@.contains(l as usize)
                    && flips(orig.take(slice_start(groups@, g as int, orig.len())), l as usize)),
            forall|i: int, j: int|
                0 <= i < j < slice_start(groups@, g as int, orig.len()) && #[trigger] same_slice(
                    orig,
                    i,
                    j,
                ) && orig[i].lane != orig[j].lane && !held_at(orig, keys@, i, orig[i].lane)
                    && !held_at(orig, keys@, i, orig[j].lane) ==> notes@[i].lane != #[trigger] notes@[j].lane,
            forall|d: usize|
                #[trigger] keys@.contains(d) ==> last_time(last_note_time@, d) == last_on(
                    notes@,
                    slice_start(groups@, g as int, orig.len()),
                    d,
                ),
            forall|i: int|
                0 <= i < slice_start(groups@, g as int, orig.len()) && (!playable || plain_slice(
                    orig,
                    keys@,
                    total as int,
                    i,
                )) ==> #[trigger] rests_on_open_lane(
                    orig,
                    notes@,
                    keys@,
                    threshold_us,
                    i,
                ),
            forall|i: int|
                0 <= i < slice_start(groups@, g as int, orig.len()) && (!playable || plain_slice(
                    orig,
                    keys@,
                    total as int,
                    i,
                )) ==> #[trigger] falls_back_note(orig, notes@, keys@, threshold_us, i),
            forall|i: int|
                0 <= i < slice_start(groups@, g as int, orig.len()) ==> #[trigger] off_held_note(
                    orig,
                    notes@,
                    keys@,
                    i,
                ),
            one_to_one(ln_active@),
            forall|d: usize|
                #[trigger] keys@.contains(d) ==> flips(
                    notes@.take(slice_start(groups@, g as int, orig.len())),
                    d,
                ) == held_dest(ln_active@)(d),
            forall|d: usize| #[trigger] keys@.contains(d) ==> last_note_time@[d as int] is Some,
            buttons_in_keys == forall|b: int|
                0 <= b < button_sets().len() ==> within(#[trigger] button_sets()[b], keys@),
            forall|i: int|
                0 <= i < slice_start(groups@, g as int, orig.len()) && playable && buttons_in_keys
                    ==> #[trigger] prefers_note(orig, notes@, keys@, threshold_us, i),
        decreases groups@.len() - g,
    {
        let time = groups[g].0;
        let range = groups[g].1.start..groups[g].1.end;
        let changeable = changeable_lanes(keys, &ln_active);
        let assignable = assignable_lanes(keys, &ln_active);
        let ghost la = ln_active@;
        proof {
            assert(changeable@.no_duplicates()) by {
                assert forall|a: int, b: int| 0 <= a < b < changeable@.len() implies changeable@[a]
                    != changeable@[b] by {
                    assert(changeable@[a] < changeable@[b]);
                }
            }
            assert(keys@.no_duplicates()) by {
                assert forall|a: int, b: int| 0 <= a < b < keys@.len() implies keys@[a] != keys@[b] by {
                    assert(keys@[a] < keys@[b]);
                }
            }
            lemma_filter_distinct(keys@, free_dest(la));
            lemma_held_balance(keys@, la);
            assert forall|k: int| 0 <= k < assignable@.len() implies keys@.contains(#[trigger] assignable@[k]) by {
                keys@.lemma_filter_pred(free_dest(la), k);
                assert(keys@.filter(free_dest(la)).contains(assignable@[k]));
                keys@.lemma_filter_contains_rev(free_dest(la), assignable@[k]);
            }
        }
        let mut map = slice_map(
            notes,
            &range,
            time,
            &changeable,
            &assignable,
            keys,
            threshold_us,
            &ln_active,
            &last_note_time,
            playable,
            rng,
        );
        let ghost mb = map@;
        let ghost cur = notes@;
        let ghost lnt = last_note_time@;
        close_slice(notes, &range, &mut map, &mut ln_active, &mut last_note_time, Ghost(keys@));
        proof {
            assert forall|l: int| 0 <= l < total implies ((#[trigger] mb[l]) is Some == (keys@.contains(
                l as usize,
            ) && la[l] is None)) by {
                if keys@.contains(l as usize) && la[l] is None {
                    assert(changeable@.contains(l as usize));
                    let k = choose|k: int| 0 <= k < changeable@.len() && changeable@[k] == l as usize;
                    assert(mb[changeable@[k] as int] is Some);
                }
                if mb[l] is Some {
                    assert(changeable@.contains(l as usize));
                }
            }
            lemma_slice_apart(
                orig,
                cur,
                notes@,
                keys@,
                groups@,
                g as int,
                total as int,
                la,
                ln_active@,
                mb,
                map@,
            );
            assert forall|l: int| 0 <= l < total && (#[trigger] mb[l]) is Some implies free_dest(la)(mb[l]->0) by {
                assert(assignable@.contains(mb[l]->0));
                keys@.lemma_filter_contains_rev(free_dest(la), mb[l]->0);
                let q = choose|q: int| 0 <= q < assignable@.len() && assignable@[q] == mb[l]->0;
                keys@.lemma_filter_pred(free_dest(la), q);
            }
            lemma_slice_held(
                orig,
                cur,
                notes@,
                keys@,
                groups@,
                g as int,
                total as int,
                la,
                ln_active@,
                mb,
                map@,
            );
            assert forall|i: int| 0 <= i < slice_start(groups@, g + 1, orig.len()) implies #[trigger] off_held_note(
                orig,
                notes@,
                keys@,
                i,
            ) by {
                if i < range.start {
                    lemma_open_prefix(orig, cur, notes@, keys@, threshold_us, i, range.start as int);
                }
            }
            lemma_last_times_step(
                orig,
                cur,
                notes@,
                keys@,
                groups@,
                g as int,
                total as int,
                lnt,
                last_note_time@,
                map@,
            );
            let s0 = range.start as int;
            let e0 = range.end as int;
            lemma_count_playable_same(cur, orig, s0, e0, keys@);
            lemma_held_count(orig, keys@, s0, la, total as int);
            if !playable || !(2 < count_playable(cur, s0, e0, keys@) + some_count(la, la.len() as int) < 7) {
                lemma_fallback_rule(
                    orig,
                    cur,
                    notes@,
                    keys@,
                    groups@,
                    g as int,
                    total as int,
                    la,
                    lnt,
                    mb,
                    map@,
                    changeable@,
                    assignable@,
                    threshold_us,
                );
                lemma_slice_rested_open(
                    orig,
                    cur,
                    notes@,
                    keys@,
                    groups@,
                    g as int,
                    total as int,
                    la,
                    lnt,
                    mb,
                    map@,
                    threshold_us,
                );
            }
            assert forall|i: int|
                0 <= i < slice_start(groups@, g + 1, orig.len()) && (!playable || plain_slice(
                    orig,
                    keys@,
                    total as int,
                    i,
                )) implies #[trigger] rests_on_open_lane(orig, notes@, keys@, threshold_us, i) by {
                if i < range.start {
                    lemma_open_prefix(orig, cur, notes@, keys@, threshold_us, i, range.start as int);
                } else {
                    lemma_slice_begin(orig, groups@, g as int, i);
                    lemma_slice_stop(orig, groups@, g as int, i);
                }
            }
            assert forall|i: int|
                0 <= i < slice_start(groups@, g + 1, orig.len()) && (!playable || plain_slice(
                    orig,
                    keys@,
                    total as int,
                    i,
                )) implies #[trigger] falls_back_note(orig, notes@, keys@, threshold_us, i) by {
                if i < range.start {
                    lemma_slice_stop_before(orig, i, range.start as int);
                    lemma_fallback_prefix(orig, cur, notes@, keys@, threshold_us, i, range.start as int);
                } else {
                    lemma_slice_begin(orig, groups@, g as int, i);
                    lemma_slice_stop(orig, groups@, g as int, i);
                }
            }
            assert forall|d: usize| #[trigger] keys@.contains(d) implies last_note_time@[d as int] is Some by {
                let q = choose|q: int| 0 <= q < keys@.len() && keys@[q] == d;
                assert(d < total);
            }
            if playable && buttons_in_keys {
                lemma_slice_prefers(
                    orig,
                    cur,
                    notes@,
                    keys@,
                    groups@,
                    g as int,
                    total as int,
                    la,
                    lnt,
                    mb,
                    map@,
                    changeable@,
                    assignable@,
                    threshold_us,
                );
                assert forall|i: int|
                    0 <= i < slice_start(groups@, g + 1, orig.len()) && playable && buttons_in_keys
                        implies #[trigger] prefers_note(orig, notes@, keys@, threshold_us, i) by {
                    if i < range.start {
                        lemma_slice_stop_before(orig, i, range.start as int);
                        lemma_prefers_prefix(orig, cur, notes@, keys@, threshold_us, i, range.start as int);
                    }
                }
            }
        }
        g = g + 1;
    }
    proof {
        lemma_upto_done(orig, notes@, keys@);
        assert(slice_start(groups@, g as int, orig.len()) == orig.len());
    }
}

/// S-Random: shuffles the lanes of each timeslice, avoiding lanes hit within the last
/// 40 ms (every note goes to a lane rested that long whenever enough lanes that no long
/// note holds are, and otherwise to the lane hit longest ago, see `falls_back_note`);
/// notes of one timeslice on different lanes not held by a long note get different
/// lanes, and no such note joins a lane that a long note holds.
pub fn s_random(
    notes: &mut Vec<Note>,
    mode: PlayMode,
    player: usize,
    include_scratch: bool,
    rng: &mut SmallRng,
)
    ensures
        note_shuffled(old(notes)@, final(notes)@, keys_of(mode, player as int, include_scratch)),
        apart_in_slices(old(notes)@, final(notes)@, keys_of(mode, player as int, include_scratch)),
        avoids_held(old(notes)@, final(notes)@, keys_of(mode, player as int, include_scratch)),
        avoids_recent_open(
            old(notes)@,
            final(notes)@,
            keys_of(mode, player as int, include_scratch),
            40_000,
        ),
        falls_back_all(old(notes)@, final(notes)@, keys_of(mode, player as int, include_scratch), 40_000),
{
    let keys = get_keys(mode, player, include_scratch);
    proof {
        lemma_keys_of(mode, player as int, include_scratch);
    }
    time_based_shuffle(notes, &keys, mode.lane_count(), 40_000, false, rng);
}

/// S-Random without a threshold: any lane that no long note holds may take a note of
/// the next timeslice.
pub fn s_random_no_threshold(
    notes: &mut Vec<Note>,
    mode: PlayMode,
    player: usize,
    include_scratch: bool,
    rng: &mut SmallRng,
)
    ensures
        note_shuffled(old(notes)@, final(notes)@, keys_of(mode, player as int, include_scratch)),
        apart_in_slices(old(notes)@, final(notes)@, keys_of(mode, player as int, include_scratch)),
        avoids_held(old(notes)@, final(notes)@, keys_of(mode, player as int, include_scratch)),
        avoids_recent_open(
            old(notes)@,
            final(notes)@,
            keys_of(mode, player as int, include_scratch),
            0,
        ),
        falls_back_all(old(notes)@, final(notes)@, keys_of(mode, player as int, include_scratch), 0),
{
    let keys = get_keys(mode, player, include_scratch);
    proof {
        lemma_keys_of(mode, player as int, include_scratch);
    }
    time_based_shuffle(notes, &keys, mode.lane_count(), 0, false, rng);
}

/// H-Random: S-Random with a given threshold (typically derived from the BPM): every
/// note goes to a lane rested longer than it whenever enough lanes that no long note
/// holds are.
pub fn h_random(
    notes: &mut Vec<Note>,
    mode: PlayMode,
    player: usize,
    include_scratch: bool,
    threshold_us: i64,
    rng: &mut SmallRng,
)
    ensures
        note_shuffled(old(notes)@, final(notes)@, keys_of(mode, player as int, include_scratch)),
        apart_in_slices(old(notes)@, final(notes)@, keys_of(mode, player as int, include_scratch)),
        avoids_held(old(notes)@, final(notes)@, keys_of(mode, player as int, include_scratch)),
        avoids_recent_open(
            old(notes)@,
            final(notes)@,
            keys_of(mode, player as int, include_scratch),
            threshold_us,
        ),
        falls_back_all(old(notes)@, final(notes)@, keys_of(mode, player as int, include_scratch), threshold_us),
{
    let keys = get_keys(mode, player, include_scratch);
    proof {
        lemma_keys_of(mode, player as int, include_scratch);
    }
    time_based_shuffle(notes, &keys, mode.lane_count(), threshold_us, false, rng);
}

/// Whether a list of lanes has a lane.
fn contains_lane(v: &Vec<usize>, x: usize) -> (r: bool)
    ensures
        r == v@.contains(x),
{
    let mut i: usize = 0;
    while i < v.len()
        invariant
            i <= v@.len(),
            forall|k: int| 0 <= k < i ==> v@[k] != x,
        decreases v@.len() - i,
    {
        if v[i] == x {
            assert(v@[i as int] == x);
            return true;
        }
        i = i + 1;
    }
    false
}

/// Runs the slices of a chart: the mapping of each slice comes from `map`, and the
/// shuffle's invariant moves one slice further.
proof fn lemma_group_progress(
    orig: Seq<Note>,
    cur: Seq<Note>,
    next: Seq<Note>,
    keys: Seq<usize>,
    groups: Seq<(i64, core::ops::Range<usize>)>,
    g: int,
    map: Seq<Option<usize>>,
)
    requires
        slices_of(orig, groups),
        0 <= g < groups.len(),
        forall|gg: int|
            0 <= gg < groups.len() ==> #[trigger] groups[gg].1.end == slice_start(
                groups,
                gg + 1,
                orig.len(),
            ),
        shuffled_upto(orig, cur, keys, slice_start(groups, g, orig.len())),
        next.len() == cur.len(),
        forall|k: int|
            0 <= k < cur.len() && !(groups[g].1.start <= k < groups[g].1.end) ==> #[trigger] next[k]
                == cur[k],
        forall|k: int|
            groups[g].1.start <= k < groups[g].1.end ==> #[trigger] next[k] == with_lane(
                cur[k],
                moved(map, cur[k].lane),
            ),
        maps_into(map, keys, keys),
    ensures
        shuffled_upto(orig, next, keys, slice_start(groups, g + 1, orig.len())),
{
    let r = groups[g].1;
    lemma_slice_step(orig, cur, next, keys, r.start as int, r.end as int, map);
}

/// Whether a timeslice starts at `k` with no key lane held by a long note.
pub open spec fn free_start(old: Seq<Note>, keys: Seq<usize>, k: int) -> bool {
    &&& k == 0 || old[k - 1].time_us != old[k].time_us
    &&& forall|l: usize| #[trigger] keys.contains(l) ==> !flips(old.take(k), l)
}

/// How far Spiral has turned the key lanes for the note at `upto - 1`: by `increment`
/// more (modulo `cycle`) at each start of a timeslice with no held key lane.
pub open spec fn spiral_head(old: Seq<Note>, keys: Seq<usize>, increment: int, cycle: int, upto: int) -> int
    decreases upto,
{
    if upto <= 0 {
        0
    } else {
        let h = spiral_head(old, keys, increment, cycle, upto - 1);
        if free_start(old, keys, upto - 1) {
            (h + increment) % cycle
        } else {
            h
        }
    }
}

/// Spiral with a step: a note on the key lane `keys[k]` that no long note holds goes to
/// `keys[(k + head) % n]`, where `head` is how far the lanes have turned at its
/// timeslice.
pub open spec fn spirals(old: Seq<Note>, new: Seq<Note>, keys: Seq<usize>, increment: int) -> bool {
    forall|i: int, k: int|
        0 <= i < old.len() && 0 <= k < keys.len() && old[i].lane == #[trigger] keys[k] && !held_at(
            old,
            keys,
            i,
            old[i].lane,
        ) ==> #[trigger] new[i].lane == keys[(k + spiral_head(
            old,
            keys,
            increment,
            keys.len() as int,
            slice_begin(old, i) + 1,
        )) % (keys.len() as int)]
}

/// Within a timeslice the turn stays what it was at its start.
proof fn lemma_spiral_head_run(
    old: Seq<Note>,
    keys: Seq<usize>,
    increment: int,
    cycle: int,
    s: int,
    e: int,
)
    requires
        0 <= s < e <= old.len(),
        forall|k: int| s < k < e ==> #[trigger] old[k].time_us == old[k - 1].time_us,
    ensures
        spiral_head(old, keys, increment, cycle, e) == spiral_head(old, keys, increment, cycle, s + 1),
    decreases e - s,
{
    if e > s + 1 {
        lemma_spiral_head_run(old, keys, increment, cycle, s, e - 1);
        assert(old[e - 1].time_us == old[e - 2].time_us);
        assert(!free_start(old, keys, e - 1));
    }
}

/// Spiral: each timeslice rotates the key lanes by one more step of `increment`
/// (drawn from `1..n` once for the chart); the step advances only on timeslices
/// without a held lane (see `spirals`). Notes of one timeslice on different lanes not
/// held by a long note get different lanes.
#[verifier::spinoff_prover]
#[verifier::rlimit(60)]
pub fn spiral(
    notes: &mut Vec<Note>,
    mode: PlayMode,
    player: usize,
    include_scratch: bool,
    rng: &mut SmallRng,
)
    ensures
        note_shuffled(old(notes)@, final(notes)@, keys_of(mode, player as int, include_scratch)),
        apart_in_slices(old(notes)@, final(notes)@, keys_of(mode, player as int, include_scratch)),
        keys_of(mode, player as int, include_scratch).len() > 0 ==> exists|increment: int|
            1 <= increment < keys_of(mode, player as int, include_scratch).len() && spirals(
                old(notes)@,
                final(notes)@,
                keys_of(mode, player as int, include_scratch),
                increment,
            ),
{
    let keys = get_keys(mode, player, include_scratch);
    proof {
        lemma_keys_of(mode, player as int, include_scratch);
    }
    let total = mode.lane_count();
    if keys.len() == 0 {
        proof {
            lemma_upto_done(notes@, notes@, keys@);
        }
        return;
    }
    let cycle = keys.len();
    assert(cycle < 1000);
    let increment = random_range(rng, 1, cycle);
    let mut head: usize = 0;
    let groups = group_notes_by_time(notes);
    let (mut ln_active, _last_note_time) = fresh_state(&keys, total);
    let ghost orig = notes@;
    proof {
        lemma_slices_start(orig, groups@);
        assert forall|l: int| 0 <= l < total implies (#[trigger] ln_active@[l]) is Some == (keys@.contains(
            l as usize,
        ) && flips(orig.take(0), l as usize)) by {
            assert(orig.take(0) =~= Seq::<Note>::empty());
        }
    }
    let mut g: usize = 0;
    while g < groups.len()
        invariant
            g <= groups@.len(),
            cycle == keys@.len(),
            cycle >= 5,
            cycle < 1000,
            head < cycle,
            increment < cycle,
            slices_of(orig, groups@),
            forall|gg: int|
                0 <= gg < groups@.len() ==> #[trigger] groups@[gg].1.end == slice_start(
                    groups@,
                    gg + 1,
                    orig.len(),
                ),
            slice_start(groups@, 0, orig.len()) == 0,
            shuffled_upto(orig, notes@, keys@, slice_start(groups@, g as int, orig.len())),
            ln_active@.len() == total,
            maps_into(ln_active@, keys@, keys@),
            forall|k: int| 0 <= k < keys@.len() ==> #[trigger] keys@[k] < total,
            increasing(keys@),
            orig == old(notes)@,
            forall|l: int|
                0 <= l < total ==> (#[trigger] ln_active@[l]) is Some == (keys@.contains(l as usize)
                    && flips(orig.take(slice_start(groups@, g as int, orig.len())), l as usize)),
            forall|i: int, j: int|
                0 <= i < j < slice_start(groups@, g as int, orig.len()) && #[trigger] same_slice(
                    orig,
                    i,
                    j,
                ) && orig[i].lane != orig[j].lane && !held_at(orig, keys@, i, orig[i].lane)
                    && !held_at(orig, keys@, i, orig[j].lane) ==> notes@[i].lane != #[trigger] notes@[j].lane,
            head == spiral_head(orig, keys@, increment as int, cycle as int, slice_start(groups@, g as int, orig.len())),
            forall|i: int, k: int|
                0 <= i < slice_start(groups@, g as int, orig.len()) && 0 <= k < keys@.len()
                    && orig[i].lane == #[trigger] keys@[k] && !held_at(orig, keys@, i, orig[i].lane)
                    ==> #[trigger] notes@[i].lane == keys@[(k + spiral_head(
                    orig,
                    keys@,
                    increment as int,
                    cycle as int,
                    slice_begin(orig, i) + 1,
                )) % (cycle as int)],
        decreases groups@.len() - g,
    {
        let range = groups[g].1.start..groups[g].1.end;
        let ghost s0 = range.start as int;
        let mut changeable_count: usize = 0;
        let mut i: usize = 0;
        while i < cycle
            invariant
                cycle == keys@.len(),
                i <= cycle,
                changeable_count <= i,
                changeable_count == i <==> forall|ii: int|
                    0 <= ii < i ==> !(keys@[ii] < ln_active@.len() && #[trigger] ln_active@[keys@[ii] as int] is Some),
            decreases cycle - i,
        {
            let k = keys[i];
            if !(k < ln_active.len() && ln_active[k].is_some()) {
                changeable_count = changeable_count + 1;
            }
            i = i + 1;
        }
        proof {
            assert(free_start(orig, keys@, s0) == (changeable_count == cycle)) by {
                if changeable_count == cycle {
                    assert forall|l: usize| #[trigger] keys@.contains(l) implies !flips(orig.take(s0), l) by {
                        let ii = choose|ii: int| 0 <= ii < keys@.len() && keys@[ii] == l;
                        assert(!(keys@[ii] < ln_active@.len() && ln_active@[keys@[ii] as int] is Some));
                    }
                } else {
                    let ii = choose|ii: int|
                        0 <= ii < cycle && (keys@[ii] < ln_active@.len() && #[trigger] ln_active@[keys@[ii] as int] is Some);
                    assert(keys@.contains(keys@[ii]));
                }
            }
        }
        if changeable_count == cycle {
            head = (head + increment) % cycle;
        }
        assert(head == spiral_head(orig, keys@, increment as int, cycle as int, s0 + 1));
        let mut map = empty_map(total);
        let ghost la = ln_active@;
        let mut i: usize = 0;
        while i < cycle
            invariant
                cycle == keys@.len(),
                cycle < 1000,
                i <= cycle,
                head < cycle,
                map@.len() == total,
                ln_active@.len() == total,
                ln_active@ == la,
                increasing(keys@),
                maps_into(map@, keys@, keys@),
                forall|k: int| 0 <= k < keys@.len() ==> #[trigger] keys@[k] < total,
                forall|l: int| 0 <= l < total && (#[trigger] map@[l]) is Some ==> la[l] is None,
                forall|ii: int|
                    0 <= ii < i ==> #[trigger] map@[keys@[ii] as int] == if la[keys@[ii] as int] is None {
                        Some(keys@[(ii + head) % (cycle as int)])
                    } else {
                        None::<usize>
                    },
            decreases cycle - i,
        {
            let key = keys[i];
            let ghost mi = map@;
            if !ln_active[key].is_some() {
                let idx = (i + head) % cycle;
                let dst = keys[idx];
                assert(keys@.contains(keys@[i as int]));
                assert(keys@.contains(keys@[idx as int]));
                map.set(key, Some(dst));
            }
            proof {
                assert forall|ii: int| 0 <= ii < i implies keys@[ii] != key by {
                    assert(keys@[ii] < keys@[i as int]);
                }
            }
            i = i + 1;
        }
        let ghost mb = map@;
        proof {
            assert forall|l: int| 0 <= l < total implies ((#[trigger] mb[l]) is Some == (keys@.contains(
                l as usize,
            ) && la[l] is None)) by {
                if keys@.contains(l as usize) {
                    let ii = choose|ii: int| 0 <= ii < keys@.len() && keys@[ii] == l as usize;
                    assert(mb[keys@[ii] as int] is Some == (la[l] is None));
                }
            }
            assert forall|a: int, b: int|
                0 <= a < mb.len() && 0 <= b < mb.len() && a != b && (#[trigger] mb[a]) is Some
                    && (#[trigger] mb[b]) is Some implies mb[a]->0 != mb[b]->0 by {
                let ia = choose|ia: int| 0 <= ia < keys@.len() && keys@[ia] == a as usize;
                let ib = choose|ib: int| 0 <= ib < keys@.len() && keys@[ib] == b as usize;
                assert(mb[keys@[ia] as int] == Some(keys@[(ia + head) % (cycle as int)]));
                assert(mb[keys@[ib] as int] == Some(keys@[(ib + head) % (cycle as int)]));
                let c = cycle as int;
                let h = head as int;
                assert((ia + h) % c != (ib + h) % c) by (nonlinear_arith)
                    requires
                        0 <= ia < c,
                        0 <= ib < c,
                        0 <= h < c,
                        ia != ib,
                ;
                let x = (ia + h) % c;
                let y = (ib + h) % c;
                assert(0 <= x < c && 0 <= y < c);
                if x < y {
                    assert(keys@[x] < keys@[y]);
                } else {
                    assert(keys@[y] < keys@[x]);
                }
            }
        }
        let ghost cur = notes@;
        add_held(&mut map, &ln_active, Ghost(keys@));
        apply_timeslice_map(notes, &range, &map, &mut ln_active, Ghost(keys@));
        proof {
            let e0 = range.end as int;
            assert forall|k: int| s0 < k < e0 implies #[trigger] orig[k].time_us == orig[k - 1].time_us by {
                assert(orig[k].time_us == groups@[g as int].0 && orig[k - 1].time_us == groups@[g as int].0);
            }
            lemma_spiral_head_run(orig, keys@, increment as int, cycle as int, s0, e0);
            assert forall|i: int, k: int|
                0 <= i < e0 && 0 <= k < keys@.len() && orig[i].lane == #[trigger] keys@[k] && !held_at(
                    orig,
                    keys@,
                    i,
                    orig[i].lane,
                ) implies #[trigger] notes@[i].lane == keys@[(k + spiral_head(
                orig,
                keys@,
                increment as int,
                cycle as int,
                slice_begin(orig, i) + 1,
            )) % (cycle as int)] by {
                if i >= s0 {
                    lemma_slice_begin(orig, groups@, g as int, i);
                    assert(cur[i] == orig[i]);
                    let l = keys@[k];
                    assert(l < total);
                    assert(la[l as int] is None);
                    assert(mb[keys@[k] as int] == Some(keys@[(k + head) % (cycle as int)]));
                } else {
                    assert(notes@[i] == cur[i]);
                }
            }
            lemma_slice_apart(
                orig,
                cur,
                notes@,
                keys@,
                groups@,
                g as int,
                total as int,
                la,
                ln_active@,
                mb,
                map@,
            );
        }
        g = g + 1;
    }
    proof {
        lemma_upto_done(orig, notes@, keys@);
        assert(slice_start(groups@, g as int, orig.len()) == orig.len());
        assert(spirals(orig, notes@, keys@, increment as int));
    }
}

/// The first changeable lane with a playable note in the timeslice.
fn first_with_note(
    notes: &Vec<Note>,
    range: &core::ops::Range<usize>,
    changeable: &Vec<usize>,
) -> (r: Option<usize>)
    requires
        range.start <= range.end <= notes@.len(),
    ensures
        r matches Some(l) ==> changeable@.contains(l),
        match r {
            Some(l) => exists|i: int|
                0 <= i < changeable@.len() && changeable@[i] == l && has_note_in(
                    notes@,
                    range.start as int,
                    range.end as int,
                    l,
                ) && forall|j: int|
                    0 <= j < i ==> !has_note_in(
                        notes@,
                        range.start as int,
                        range.end as int,
                        #[trigger] changeable@[j],
                    ),
            None => forall|j: int|
                0 <= j < changeable@.len() ==> !has_note_in(
                    notes@,
                    range.start as int,
                    range.end as int,
                    #[trigger] changeable@[j],
                ),
        },
{
    let mut i: usize = 0;
    while i < changeable.len()
        invariant
            range.start <= range.end <= notes@.len(),
            i <= changeable@.len(),
            forall|j: int|
                0 <= j < i ==> !has_note_in(
                    notes@,
                    range.start as int,
                    range.end as int,
                    #[trigger] changeable@[j],
                ),
        decreases changeable@.len() - i,
    {
        if has_playable_on(notes, range, changeable[i]) {
            assert(changeable@.contains(changeable@[i as int]));
            return Some(changeable[i]);
        }
        i = i + 1;
    }
    None
}

/// The scratch lanes of a mode.
pub open spec fn scratch_of_mode(mode: PlayMode) -> spec_fn(usize) -> bool {
    |lane: usize| mode.scratch_lane(lane as int)
}

/// All-SCR's rule for note `i`: when no long note holds the scratch lane `sc` in `new`
/// and its last note in `new` is more than 40 ms before the timeslice, the notes of the
/// first free key lane (in the order of `keys`) with a playable note in the timeslice go
/// to `sc`.
pub open spec fn scratch_rule(old: Seq<Note>, new: Seq<Note>, keys: Seq<usize>, sc: usize, i: int) -> bool {
    let s = slice_begin(old, i);
    let f = keys.filter(free_noted(old, s, slice_stop(old, i)));
    !flips(new.take(s), sc) && old[i].time_us - last_on(new, s, sc) > 40_000 && f.len() > 0
        && old[i].lane == f[0] ==> new[i].lane == sc
}

/// Whether a note follows All-SCR's rule depends on the shuffled notes before its
/// timeslice ends only.
proof fn lemma_scratch_rule_prefix(old: Seq<Note>, a: Seq<Note>, b: Seq<Note>, keys: Seq<usize>, sc: usize, i: int, upto: int)
    requires
        0 <= i < upto <= a.len(),
        upto <= b.len(),
        forall|k: int| 0 <= k < upto ==> #[trigger] a[k] == b[k],
    ensures
        scratch_rule(old, a, keys, sc, i) == scratch_rule(old, b, keys, sc, i),
{
    lemma_slice_begin_bounds(old, i);
    lemma_last_on_prefix(a, b, slice_begin(old, i), sc);
    assert(a.take(slice_begin(old, i)) =~= b.take(slice_begin(old, i)));
    assert(a[i] == b[i]);
}

/// When some element of `s` meets `p` and none before `i` does, the first element
/// that the filter keeps is `s[i]`.
proof fn lemma_filter_first(s: Seq<usize>, p: spec_fn(usize) -> bool, i: int)
    requires
        0 <= i < s.len(),
        p(s[i]),
        forall|j: int| 0 <= j < i ==> !p(#[trigger] s[j]),
    ensures
        s.filter(p).len() > 0,
        s.filter(p)[0] == s[i],
    decreases s.len(),
{
    let t = s.drop_last();
    let x = s.last();
    assert(s =~= t.push(x));
    t.lemma_filter_push(x, p);
    if i < s.len() - 1 {
        assert forall|j: int| 0 <= j < i implies !p(#[trigger] t[j]) by {
            assert(t[j] == s[j]);
        }
        assert(t[i] == s[i]);
        lemma_filter_first(t, p, i);
    } else {
        lemma_filter_none(t, p);
    }
}

/// When no element of `s` meets `p`, the filter keeps nothing.
proof fn lemma_filter_none(s: Seq<usize>, p: spec_fn(usize) -> bool)
    requires
        forall|j: int| 0 <= j < s.len() ==> !p(#[trigger] s[j]),
    ensures
        s.filter(p).len() == 0,
    decreases s.len(),
{
    if s.len() == 0 {
        reveal(Seq::filter);
    } else {
        let t = s.drop_last();
        let x = s.last();
        assert(s =~= t.push(x));
        t.lemma_filter_push(x, p);
        assert forall|j: int| 0 <= j < t.len() implies !p(#[trigger] t[j]) by {
            assert(t[j] == s[j]);
        }
        assert(!p(s[s.len() - 1]));
        lemma_filter_none(t, p);
    }
}

/// All-SCR: gives a playable note of each timeslice to the scratch lane when that lane
/// has been free for more than 40 ms (turning through the scratch lanes of the side),
/// and S-Random with `h_threshold_us` to the rest (see `scratch_rule`); without a
/// scratch lane, plain S-Random (every note rests 40 ms, see `avoids_recent_open`).
/// Notes of one timeslice on different lanes not held by a long note get different
/// lanes, and no such note joins a lane that a long note holds (see `avoids_held`).
#[verifier::spinoff_prover]
#[verifier::rlimit(100)]
pub fn all_scratch(
    notes: &mut Vec<Note>,
    mode: PlayMode,
    player: usize,
    h_threshold_us: i64,
    rng: &mut SmallRng,
)
    ensures
        note_shuffled(old(notes)@, final(notes)@, keys_of(mode, player as int, true)),
        apart_in_slices(old(notes)@, final(notes)@, keys_of(mode, player as int, true)),
        avoids_held(old(notes)@, final(notes)@, keys_of(mode, player as int, true)),
        ({
            let keys = keys_of(mode, player as int, true);
            let scratches = keys.filter(scratch_of_mode(mode));
            scratches.len() == 1 ==> forall|i: int|
                0 <= i < old(notes)@.len() ==> #[trigger] scratch_rule(
                    old(notes)@,
                    final(notes)@,
                    keys,
                    scratches[0],
                    i,
                )
        }),
        keys_of(mode, player as int, true).filter(scratch_of_mode(mode)).len() == 0 ==> avoids_recent_open(
            old(notes)@,
            final(notes)@,
            keys_of(mode, player as int, true),
            40_000,
        ) && falls_back_all(old(notes)@, final(notes)@, keys_of(mode, player as int, true), 40_000),
{
    let keys = get_keys(mode, player, true);
    proof {
        lemma_keys_of(mode, player as int, true);
    }
    let total = mode.lane_count();
    if keys.len() == 0 {
        proof {
            lemma_upto_done(notes@, notes@, keys@);
        }
        return;
    }
    let mut scratch_lanes: Vec<usize> = Vec::new();
    let mut i: usize = 0;
    while i < keys.len()
        invariant
            i <= keys@.len(),
            scratch_lanes@.len() <= i,
            within(scratch_lanes@, keys@),
            scratch_lanes@ == keys@.take(i as int).filter(scratch_of_mode(mode)),
        decreases keys@.len() - i,
    {
        proof {
            assert(keys@.take(i + 1) =~= keys@.take(i as int).push(keys@[i as int]));
            keys@.take(i as int).lemma_filter_push(keys@[i as int], scratch_of_mode(mode));
        }
        if mode.is_scratch(keys[i]) {
            assert(keys@.contains(keys@[i as int]));
            scratch_lanes.push(keys[i]);
        }
        i = i + 1;
    }
    assert(keys@.take(keys@.len() as int) =~= keys@);
    if scratch_lanes.len() == 0 {
        time_based_shuffle(notes, &keys, total, 40_000, false, rng);
        return;
    }
    let groups = group_notes_by_time(notes);
    let (mut ln_active, mut last_note_time) = fresh_state(&keys, total);
    let mut scratch_index: usize = 0;
    let ghost orig = notes@;
    proof {
        lemma_slices_start(orig, groups@);
        assert forall|l: int| 0 <= l < total implies (#[trigger] ln_active@[l]) is Some == (keys@.contains(
            l as usize,
        ) && flips(orig.take(0), l as usize)) by {
            assert(orig.take(0) =~= Seq::<Note>::empty());
        }
        assert forall|d: usize| #[trigger] keys@.contains(d) implies flips(notes@.take(0), d) == held_dest(
            ln_active@,
        )(d) by {
            assert(notes@.take(0) =~= Seq::<Note>::empty());
        }
    }
    let mut g: usize = 0;
    while g < groups.len()
        invariant
            g <= groups@.len(),
            scratch_index < scratch_lanes@.len(),
            scratch_lanes@.len() <= keys@.len(),
            keys@.len() < 1000,
            within(scratch_lanes@, keys@),
            slices_of(orig, groups@),
            forall|gg: int|
                0 <= gg < groups@.len() ==> #[trigger] groups@[gg].1.end == slice_start(
                    groups@,
                    gg + 1,
                    orig.len(),
                ),
            slice_start(groups@, 0, orig.len()) == 0,
            shuffled_upto(orig, notes@, keys@, slice_start(groups@, g as int, orig.len())),
            ln_active@.len() == total,
            last_note_time@.len() == total,
            maps_into(ln_active@, keys@, keys@),
            forall|k: int| 0 <= k < keys@.len() ==> #[trigger] keys@[k] < total,
            increasing(keys@),
            orig == old(notes)@,
            forall|l: int|
                0 <= l < total ==> (#[trigger] ln_active@[l]) is Some == (keys@.contains(l as usize)
                    && flips(orig.take(slice_start(groups@, g as int, orig.len())), l as usize)),
            forall|i: int, j: int|
                0 <= i < j < slice_start(groups@, g as int, orig.len()) && #[trigger] same_slice(
                    orig,
                    i,
                    j,
                ) && orig[i].lane != orig[j].lane && !held_at(orig, keys@, i, orig[i].lane)
                    && !held_at(orig, keys@, i, orig[j].lane) ==> notes@[i].lane != #[trigger] notes@[j].lane,
            scratch_lanes@ == keys@.filter(scratch_of_mode(mode)),
            scratch_lanes@.len() == 1 ==> scratch_index == 0,
            forall|d: usize|
                #[trigger] keys@.contains(d) ==> last_time(last_note_time@, d) == last_on(
                    notes@,
                    slice_start(groups@, g as int, orig.len()),
                    d,
                ),
            scratch_lanes@.len() == 1 ==> forall|i: int|
                0 <= i < slice_start(groups@, g as int, orig.len()) ==> #[trigger] scratch_rule(
                    orig,
                    notes@,
                    keys@,
                    scratch_lanes@[0],
                    i,
                ),
            forall|i: int|
                0 <= i < slice_start(groups@, g as int, orig.len()) ==> #[trigger] off_held_note(
                    orig,
                    notes@,
                    keys@,
                    i,
                ),
            one_to_one(ln_active@),
            forall|d: usize|
                #[trigger] keys@.contains(d) ==> flips(
                    notes@.take(slice_start(groups@, g as int, orig.len())),
                    d,
                ) == held_dest(ln_active@)(d),
        decreases groups@.len() - g,
    {
        let time = groups[g].0;
        let range = groups[g].1.start..groups[g].1.end;
        let changeable = changeable_lanes(&keys, &ln_active);
        let assignable = assignable_lanes(&keys, &ln_active);
        let ghost la = ln_active@;
        proof {
            assert(changeable@.no_duplicates()) by {
                assert forall|a: int, b: int| 0 <= a < b < changeable@.len() implies changeable@[a]
                    != changeable@[b] by {
                    assert(changeable@[a] < changeable@[b]);
                }
            }
            assert(keys@.no_duplicates()) by {
                assert forall|a: int, b: int| 0 <= a < b < keys@.len() implies keys@[a] != keys@[b] by {
                    assert(keys@[a] < keys@[b]);
                }
            }
            lemma_filter_distinct(keys@, free_dest(la));
            lemma_held_balance(keys@, la);
            assert forall|k: int| 0 <= k < assignable@.len() implies keys@.contains(#[trigger] assignable@[k])
                && free_dest(la)(assignable@[k]) by {
                keys@.lemma_filter_pred(free_dest(la), k);
                assert(keys@.filter(free_dest(la)).contains(assignable@[k]));
                keys@.lemma_filter_contains_rev(free_dest(la), assignable@[k]);
            }
            assert forall|d: usize| #[trigger] keys@.contains(d) && free_dest(la)(d) implies assignable@.contains(d) by {
                let q = choose|q: int| 0 <= q < keys@.len() && keys@[q] == d;
                keys@.lemma_filter_contains(free_dest(la), q);
            }
        }
        let mut scratch_assigned = false;
        let scratch_lane = scratch_lanes[scratch_index];
        assert(keys@.contains(scratch_lanes@[scratch_index as int]));
        let ghost cur = notes@;
        let ghost lnt = last_note_time@;
        let ghost s0 = range.start as int;
        let ghost e0 = range.end as int;
        let ghost fl = keys@.filter(free_noted(orig, s0, e0));
        let ghost nt = noted(cur, s0, e0);
        let ghost pslice = scratch_lanes@.len() == 1 && !flips(cur.take(s0), scratch_lanes@[0])
            && time - last_on(cur, s0, scratch_lanes@[0]) > 40_000 && fl.len() > 0;
        let ghost mut srcg: usize = 0;
        let ghost mut used: Seq<Option<usize>> = Seq::empty();
        let ghost mut before: Seq<Option<usize>> = Seq::empty();
        proof {
            assert forall|q: int| 0 <= q < keys@.len() implies (unheld(la)(#[trigger] keys@[q]) && nt(
                keys@[q],
            )) == free_noted(orig, s0, e0)(keys@[q]) by {
                assert(keys@.contains(keys@[q]));
                if has_note_in(cur, s0, e0, keys@[q]) {
                    let k = choose|k: int|
                        s0 <= k < e0 && cur[k].lane == keys@[q] && (#[trigger] cur[k]).note_type.playable();
                    assert(cur[k] == orig[k]);
                }
                if has_note_in(orig, s0, e0, keys@[q]) {
                    let k = choose|k: int|
                        s0 <= k < e0 && orig[k].lane == keys@[q] && (#[trigger] orig[k]).note_type.playable();
                    assert(cur[k] == orig[k]);
                }
            }
            lemma_filter_twice(keys@, unheld(la), nt, free_noted(orig, s0, e0));
            if scratch_lanes@.len() == 1 {
                assert(scratch_lane == scratch_lanes@[0]);
                assert(scratch_lane < total);
                assert(last_time(lnt, scratch_lane) == last_on(cur, s0, scratch_lane));
            }
        }
        if contains_lane(&assignable, scratch_lane) {
            let elapsed = (time as i128) - (last_time_of(&last_note_time, scratch_lane) as i128);
            if elapsed > 40_000 {
                let fw = first_with_note(notes, &range, &changeable);
                if fw.is_none() {
                    proof {
                        assert forall|q: int| 0 <= q < changeable@.len() implies !nt(#[trigger] changeable@[q]) by {}
                        lemma_filter_none(changeable@, nt);
                        assert(!pslice);
                    }
                }
                if let Some(src) = fw {
                    proof {
                        let q = choose|q: int|
                            0 <= q < changeable@.len() && changeable@[q] == src && has_note_in(
                                cur,
                                s0,
                                e0,
                                src,
                            ) && forall|j: int|
                                0 <= j < q ==> !has_note_in(cur, s0, e0, #[trigger] changeable@[j]);
                        assert forall|j: int| 0 <= j < q implies !nt(#[trigger] changeable@[j]) by {}
                        lemma_filter_first(changeable@, nt, q);
                        srcg = src;
                    }
                    let remaining_changeable = without(&changeable, src, Ghost(keys@));
                    let remaining_assignable = without(&assignable, scratch_lane, Ghost(keys@));
                    scratch_index = (scratch_index + 1) % scratch_lanes.len();
                    scratch_assigned = true;
                    let mut map = build_time_based_map(
                        notes,
                        &range,
                        time,
                        &remaining_changeable,
                        &remaining_assignable,
                        h_threshold_us,
                        &last_note_time,
                        rng,
                        Ghost(keys@),
                    );
                    let ghost mr = map@;
                    assert(keys@.contains(src));
                    let ghost k = choose|k: int| 0 <= k < keys@.len() && keys@[k] == src;
                    map.set(src, Some(scratch_lane));
                    proof {
                        let mb = map@;
                        let rc = remaining_changeable@;
                        let ra = remaining_assignable@;
                        assert(rc.len() == ra.len());
                        assert forall|l: int| 0 <= l < total implies ((#[trigger] mb[l]) is Some
                            == (keys@.contains(l as usize) && la[l] is None)) by {
                            if l != src as int {
                                assert(mb[l] == mr[l]);
                                if keys@.contains(l as usize) && la[l] is None {
                                    assert(changeable@.contains(l as usize));
                                    assert(rc.contains(l as usize));
                                    let q = choose|q: int| 0 <= q < rc.len() && rc[q] == l as usize;
                                    assert(mr[rc[q] as int] is Some);
                                }
                                if mr[l] is Some {
                                    assert(rc.contains(l as usize));
                                    let q = choose|q: int| 0 <= q < rc.len() && rc[q] == l as usize;
                                    assert(changeable@.contains(rc[q]));
                                }
                            }
                        }
                        assert forall|a: int, b: int|
                            0 <= a < mb.len() && 0 <= b < mb.len() && a != b && (#[trigger] mb[a])
                                is Some && (#[trigger] mb[b]) is Some implies mb[a]->0 != mb[b]->0 by {
                            if a != src as int && b != src as int {
                                assert(mb[a] == mr[a] && mb[b] == mr[b]);
                            } else if a == src as int {
                                assert(mb[b] == mr[b]);
                                assert(ra.contains(mr[b]->0));
                            } else {
                                assert(mb[a] == mr[a]);
                                assert(ra.contains(mr[a]->0));
                            }
                        }
                        assert forall|l: int| 0 <= l < total && (#[trigger] mb[l]) is Some implies free_dest(la)(
                            mb[l]->0,
                        ) by {
                            if l != src as int {
                                assert(mb[l] == mr[l]);
                                assert(ra.contains(mr[l]->0));
                                let q = choose|q: int| 0 <= q < ra.len() && ra[q] == mr[l]->0;
                                assert(assignable@.contains(ra[q]));
                            }
                        }
                        before = mb;
                        assert(before[srcg as int] == Some(scratch_lane));
                    }
                    close_slice(
                        notes,
                        &range,
                        &mut map,
                        &mut ln_active,
                        &mut last_note_time,
                        Ghost(keys@),
                    );
                    proof {
                        used = map@;
                    }
                }
            } else {
                proof {
                    assert(!pslice);
                }
            }
        } else {
            proof {
                if scratch_lanes@.len() == 1 {
                    assert(keys@.contains(scratch_lane));
                    assert(!free_dest(la)(scratch_lane));
                    assert(flips(cur.take(s0), scratch_lane));
                    assert(!pslice);
                }
            }
        }
        assert(pslice ==> scratch_assigned && srcg == fl[0] && before[srcg as int] == Some(
            scratch_lanes@[0],
        ));
        if !scratch_assigned {
            let mut map = build_time_based_map(
                notes,
                &range,
                time,
                &changeable,
                &assignable,
                h_threshold_us,
                &last_note_time,
                rng,
                Ghost(keys@),
            );
            proof {
                let mb = map@;
                assert forall|l: int| 0 <= l < total implies ((#[trigger] mb[l]) is Some == (
                keys@.contains(l as usize) && la[l] is None)) by {
                    if keys@.contains(l as usize) && la[l] is None {
                        assert(changeable@.contains(l as usize));
                        let q = choose|q: int| 0 <= q < changeable@.len() && changeable@[q] == l as usize;
                        assert(mb[changeable@[q] as int] is Some);
                    }
                    if mb[l] is Some {
                        assert(changeable@.contains(l as usize));
                    }
                }
                assert forall|l: int| 0 <= l < total && (#[trigger] mb[l]) is Some implies free_dest(la)(mb[l]->0) by {
                    assert(assignable@.contains(mb[l]->0));
                }
                before = mb;
            }
            close_slice(
                notes,
                &range,
                &mut map,
                &mut ln_active,
                &mut last_note_time,
                Ghost(keys@),
            );
            proof {
                used = map@;
            }
        }
        proof {
            lemma_slice_apart(
                orig,
                cur,
                notes@,
                keys@,
                groups@,
                g as int,
                total as int,
                la,
                ln_active@,
                before,
                used,
            );
            lemma_slice_held(
                orig,
                cur,
                notes@,
                keys@,
                groups@,
                g as int,
                total as int,
                la,
                ln_active@,
                before,
                used,
            );
            assert forall|i: int| 0 <= i < slice_start(groups@, g + 1, orig.len()) implies #[trigger] off_held_note(
                orig,
                notes@,
                keys@,
                i,
            ) by {
                if i < s0 {
                    lemma_open_prefix(orig, cur, notes@, keys@, 0, i, s0);
                }
            }
            lemma_last_times_step(
                orig,
                cur,
                notes@,
                keys@,
                groups@,
                g as int,
                total as int,
                lnt,
                last_note_time@,
                used,
            );
            if scratch_lanes@.len() == 1 {
                let sc = scratch_lanes@[0];
                assert forall|i: int| 0 <= i < slice_start(groups@, g + 1, orig.len()) implies #[trigger] scratch_rule(
                    orig,
                    notes@,
                    keys@,
                    sc,
                    i,
                ) by {
                    if i < s0 {
                        lemma_scratch_rule_prefix(orig, cur, notes@, keys@, sc, i, s0);
                    } else {
                        lemma_slice_begin(orig, groups@, g as int, i);
                        lemma_slice_stop(orig, groups@, g as int, i);
                        lemma_last_on_prefix(notes@, cur, s0, sc);
                        assert(notes@.take(s0) =~= cur.take(s0));
                        if !flips(notes@.take(s0), sc) && orig[i].time_us - last_on(notes@, s0, sc) > 40_000
                            && fl.len() > 0 && orig[i].lane == fl[0] {
                            assert(orig[i].time_us == time);
                            assert(pslice);
                            assert(fl.contains(fl[0]));
                            keys@.lemma_filter_contains_rev(free_noted(orig, s0, e0), fl[0]);
                            keys@.lemma_filter_pred(free_noted(orig, s0, e0), 0);
                            let q = choose|q: int| 0 <= q < keys@.len() && keys@[q] == srcg;
                            assert(srcg < total);
                            assert(la[srcg as int] is None);
                            assert(used[srcg as int] == before[srcg as int]);
                            assert(cur[i] == orig[i]);
                        }
                    }
                }
            }
        }
        g = g + 1;
    }
    proof {
        lemma_upto_done(orig, notes@, keys@);
        assert(slice_start(groups@, g as int, orig.len()) == orig.len());
    }
}

/// A mapping with no lane mapped.
fn empty_map(total: usize) -> (map: Vec<Option<usize>>)
    ensures
        map@.len() == total,
        forall|k: int| 0 <= k < total ==> map@[k] is None,
{
    let mut map: Vec<Option<usize>> = Vec::new();
    let mut l: usize = 0;
    while l < total
        invariant
            l <= total,
            map@.len() == l,
            forall|k: int| 0 <= k < l ==> map@[k] is None,
        decreases total - l,
    {
        map.push(None);
        l = l + 1;
    }
    map
}

/// Whether one of the first `n` source lanes went to `x`.
pub open spec fn taken_by(srcs: Seq<usize>, map: Seq<Option<usize>>, n: int, x: usize) -> bool {
    exists|j: int| 0 <= j < n && #[trigger] map[srcs[j] as int] == Some(x)
}

/// Each of the first `n` source lanes went to a lane of the pool with the longest run
/// (by `rc`) among the pool lanes that no earlier source lane took.
pub open spec fn most_repeated(srcs: Seq<usize>, pool: Seq<usize>, rc: Seq<usize>, map: Seq<Option<usize>>, n: int) -> bool {
    forall|k: int, x: usize|
        #![trigger srcs[k], pool.contains(x)]
        0 <= k < n && pool.contains(x) && !taken_by(srcs, map, k, x) ==> rc[x as int] <= rc[map[srcs[k] as int]->0 as int]
}

/// One step of `assign_most_repeated` keeps its invariant: the lane drawn had the longest
/// run among the pool lanes left, and its count grows by one.
proof fn lemma_most_repeated_step(
    s0: Seq<usize>,
    p0: Seq<usize>,
    rc0: Seq<usize>,
    m0: Seq<Option<usize>>,
    mv: Seq<Option<usize>>,
    m1: Seq<Option<usize>>,
    sv: Seq<usize>,
    pv: Seq<usize>,
    p1: Seq<usize>,
    rcv: Seq<usize>,
    rc1: Seq<usize>,
    n: int,
    chosen: usize,
)
    requires
        can_pair(m0, s0, p0),
        pairing_upto(m0, s0, p0, mv, sv, pv),
        pairing_upto(m0, s0, p0, m1, sv.skip(1), p1),
        sv.len() > 0,
        mv.len() == m0.len(),
        n == s0.len() - sv.len(),
        m1 == mv.update(sv[0] as int, Some(chosen)),
        pv.contains(chosen),
        forall|x: usize| #[trigger] p1.contains(x) ==> pv.contains(x),
        !p1.contains(chosen),
        forall|x: usize| #[trigger] pv.contains(x) && x != chosen ==> p1.contains(x),
        forall|x: usize| #[trigger] pv.contains(x) <==> (p0.contains(x) && !taken_by(s0, mv, n, x)),
        most_repeated(s0, p0, rc0, mv, n),
        rcv.len() == rc0.len(),
        rc0.len() <= usize::MAX,
        chosen < rc0.len(),
        rcv[chosen as int] < usize::MAX,
        forall|x: usize| #[trigger] pv.contains(x) ==> x < rc0.len(),
        forall|x: int| 0 <= x < rcv.len() ==> #[trigger] rcv[x] == rc0[x] + if taken_by(s0, mv, n, x as usize) {
            1int
        } else {
            0int
        },
        forall|q: int| 0 <= q < pv.len() ==> rcv[#[trigger] pv[q] as int] <= rcv[chosen as int],
        rc1 == rcv.update(chosen as int, (rcv[chosen as int] + 1) as usize),
    ensures
        forall|x: usize| #[trigger] p1.contains(x) <==> (p0.contains(x) && !taken_by(s0, m1, n + 1, x)),
        most_repeated(s0, p0, rc0, m1, n + 1),
        forall|x: int| 0 <= x < rc1.len() ==> #[trigger] rc1[x] == rc0[x] + if taken_by(s0, m1, n + 1, x as usize) {
            1int
        } else {
            0int
        },
{
    assert(sv == s0.skip(n));
    assert(sv[0] == s0[n]);
    // the earlier sources keep their lanes
    assert forall|j: int| 0 <= j < n implies #[trigger] m1[s0[j] as int] == mv[s0[j] as int] by {
        assert(s0[j] != s0[n]);
    }
    assert forall|x: usize, k: int| 0 <= k <= n implies #[trigger] taken_by(s0, m1, k, x) == if k <= n {
        taken_by(s0, mv, k, x)
    } else {
        false
    } by {
        if taken_by(s0, m1, k, x) {
            let j = choose|j: int| 0 <= j < k && #[trigger] m1[s0[j] as int] == Some(x);
            assert(mv[s0[j] as int] == Some(x));
        }
        if taken_by(s0, mv, k, x) {
            let j = choose|j: int| 0 <= j < k && #[trigger] mv[s0[j] as int] == Some(x);
            assert(m1[s0[j] as int] == Some(x));
        }
    }
    assert forall|x: usize| #[trigger] taken_by(s0, m1, n + 1, x) == (taken_by(s0, mv, n, x) || x == chosen) by {
        assert(m1[s0[n] as int] == Some(chosen));
        if taken_by(s0, m1, n + 1, x) {
            let j = choose|j: int| 0 <= j < n + 1 && #[trigger] m1[s0[j] as int] == Some(x);
            if j < n {
                assert(taken_by(s0, m1, n, x));
            }
        }
        if taken_by(s0, mv, n, x) {
            assert(taken_by(s0, m1, n, x));
            let j = choose|j: int| 0 <= j < n && #[trigger] m1[s0[j] as int] == Some(x);
            assert(m1[s0[j] as int] == Some(x));
        }
    }
    assert(!taken_by(s0, mv, n, chosen));
    assert forall|x: usize| #[trigger] p1.contains(x) <==> (p0.contains(x) && !taken_by(s0, m1, n + 1, x)) by {
        if p1.contains(x) {
            assert(pv.contains(x));
            assert(x != chosen);
        }
        if p0.contains(x) && !taken_by(s0, m1, n + 1, x) {
            assert(pv.contains(x));
        }
    }
    let cc = choose|q: int| 0 <= q < pv.len() && pv[q] == chosen;
    assert(rcv[chosen as int] == rc0[chosen as int]);
    assert forall|x: int| 0 <= x < rc1.len() implies #[trigger] rc1[x] == rc0[x] + if taken_by(
        s0,
        m1,
        n + 1,
        x as usize,
    ) {
        1int
    } else {
        0int
    } by {
        assert(taken_by(s0, m1, n + 1, x as usize) == (taken_by(s0, mv, n, x as usize) || x as usize == chosen));
        assert(rcv[x] == rc0[x] + if taken_by(s0, mv, n, x as usize) {
            1int
        } else {
            0int
        });
        if x != chosen as int {
            assert(rc1[x] == rcv[x]);
        } else {
            assert(rc1[x] == rcv[x] + 1);
        }
    }
    assert forall|k: int, x: usize|
        #![trigger s0[k], p0.contains(x)]
        0 <= k < n + 1 && p0.contains(x) && !taken_by(s0, m1, k, x) implies rc0[x as int] <= rc0[m1[s0[k] as int]->0 as int] by {
        if k < n {
            assert(m1[s0[k] as int] == mv[s0[k] as int]);
            assert(!taken_by(s0, mv, k, x));
        } else {
            assert(m1[s0[k] as int] == Some(chosen));
            assert(!taken_by(s0, mv, n, x));
            assert(pv.contains(x));
            let q = choose|q: int| 0 <= q < pv.len() && pv[q] == x;
            assert(rcv[pv[q] as int] <= rcv[chosen as int]);
            assert(x < rc0.len());
            assert(rcv[x as int] == rc0[x as int]);
        }
    }
}

/// Pairs the source lanes, front first, with the pool lanes of the longest run of
/// repeated notes (drawing at random among ties; the run of the lane drawn grows by
/// one), while both have lanes.
fn assign_most_repeated(
    map: &mut Vec<Option<usize>>,
    srcs: &mut Vec<usize>,
    pool: &mut Vec<usize>,
    renda_count: &mut Vec<usize>,
    bound: usize,
    rng: &mut SmallRng,
    from: Ghost<Seq<usize>>,
    to: Ghost<Seq<usize>>,
)
    requires
        maps_into(old(map)@, from@, to@),
        within(old(srcs)@, from@),
        within(old(pool)@, to@),
        forall|k: int| 0 <= k < old(srcs)@.len() ==> #[trigger] old(srcs)@[k] < old(map)@.len(),
        forall|k: int| 0 <= k < to@.len() ==> #[trigger] to@[k] < old(renda_count)@.len(),
        forall|l: int| 0 <= l < old(renda_count)@.len() ==> #[trigger] old(renda_count)@[l] <= bound,
        bound < usize::MAX,
    ensures
        final(map)@.len() == old(map)@.len(),
        maps_into(final(map)@, from@, to@),
        within(final(srcs)@, from@),
        within(final(pool)@, to@),
        forall|k: int| 0 <= k < final(srcs)@.len() ==> #[trigger] final(srcs)@[k] < final(map)@.len(),
        can_pair(old(map)@, old(srcs)@, old(pool)@) ==> paired(
            old(map)@,
            old(srcs)@,
            old(pool)@,
            final(map)@,
            final(srcs)@,
            final(pool)@,
        ),
        final(renda_count)@.len() == old(renda_count)@.len(),
        forall|l: int| 0 <= l < final(renda_count)@.len() ==> #[trigger] final(renda_count)@[l] <= bound + 1,
        can_pair(old(map)@, old(srcs)@, old(pool)@) ==> most_repeated(
            old(srcs)@,
            old(pool)@,
            old(renda_count)@,
            final(map)@,
            old(srcs)@.len() - final(srcs)@.len(),
        ),
        can_pair(old(map)@, old(srcs)@, old(pool)@) ==> forall|x: int|
            0 <= x < final(renda_count)@.len() ==> #[trigger] final(renda_count)@[x] == old(renda_count)@[x]
                + if taken_by(old(srcs)@, final(map)@, old(srcs)@.len() - final(srcs)@.len(), x as usize) {
                1int
            } else {
                0int
            },
{
    let ghost m0 = map@;
    let ghost s0 = srcs@;
    let ghost p0 = pool@;
    let ghost total = renda_count@.len();
    let ghost rc0 = renda_count@;
    let ghost cp = can_pair(m0, s0, p0);
    let tl = renda_count.len();
    assert(s0.skip(0) =~= s0);
    while srcs.len() > 0 && pool.len() > 0
        invariant
            map@.len() == old(map)@.len(),
            maps_into(map@, from@, to@),
            within(srcs@, from@),
            within(pool@, to@),
            forall|k: int| 0 <= k < srcs@.len() ==> #[trigger] srcs@[k] < map@.len(),
            m0 == old(map)@,
            s0 == old(srcs)@,
            p0 == old(pool)@,
            forall|k: int| 0 <= k < s0.len() ==> #[trigger] s0[k] < m0.len(),
            pairing_upto(m0, s0, p0, map@, srcs@, pool@),
            renda_count@.len() == total,
            forall|k: int| 0 <= k < to@.len() ==> #[trigger] to@[k] < total,
            bound < usize::MAX,
            forall|l: int| 0 <= l < total ==> #[trigger] renda_count@[l] <= bound + 1,
            forall|l: int| 0 <= l < total && pool@.contains(l as usize) ==> #[trigger] renda_count@[l] <= bound,
            rc0 == old(renda_count)@,
            rc0.len() == total,
            total == tl,
            cp == can_pair(m0, s0, p0),
            cp ==> forall|x: usize|
                #[trigger] pool@.contains(x) <==> (p0.contains(x) && !taken_by(
                    s0,
                    map@,
                    s0.len() - srcs@.len(),
                    x,
                )),
            cp ==> most_repeated(s0, p0, rc0, map@, s0.len() - srcs@.len()),
            cp ==> forall|x: int|
                0 <= x < total ==> #[trigger] renda_count@[x] == rc0[x] + if taken_by(
                    s0,
                    map@,
                    s0.len() - srcs@.len(),
                    x as usize,
                ) {
                    1int
                } else {
                    0int
                },
        decreases srcs@.len(),
    {
        assert(to@.contains(pool@[0]));
        let mut max_renda = renda_count[pool[0]];
        let ghost mut w: int = 0;
        let mut i: usize = 1;
        while i < pool.len()
            invariant
                1 <= i <= pool@.len(),
                renda_count@.len() == total,
                within(pool@, to@),
                forall|k: int| 0 <= k < to@.len() ==> #[trigger] to@[k] < total,
                0 <= w < i,
                renda_count@[pool@[w] as int] == max_renda,
                forall|q: int| 0 <= q < i ==> renda_count@[#[trigger] pool@[q] as int] <= max_renda,
            decreases pool@.len() - i,
        {
            assert(to@.contains(pool@[i as int]));
            let c = renda_count[pool[i]];
            if c > max_renda {
                max_renda = c;
                proof {
                    w = i as int;
                }
            }
            i = i + 1;
        }
        let mut max_lanes: Vec<usize> = Vec::new();
        let mut j: usize = 0;
        while j < pool.len()
            invariant
                j <= pool@.len(),
                renda_count@.len() == total,
                within(pool@, to@),
                forall|k: int| 0 <= k < to@.len() ==> #[trigger] to@[k] < total,
                0 <= w < pool@.len(),
                renda_count@[pool@[w] as int] == max_renda,
                within(max_lanes@, to@),
                forall|k: int| 0 <= k < max_lanes@.len() ==> pool@.contains(#[trigger] max_lanes@[k]),
                j > w ==> max_lanes@.len() > 0,
                forall|q: int| 0 <= q < pool@.len() ==> renda_count@[#[trigger] pool@[q] as int] <= max_renda,
                forall|k: int| 0 <= k < max_lanes@.len() ==> renda_count@[#[trigger] max_lanes@[k] as int] == max_renda,
            decreases pool@.len() - j,
        {
            assert(to@.contains(pool@[j as int]));
            if renda_count[pool[j]] == max_renda {
                assert(pool@.contains(pool@[j as int]));
                max_lanes.push(pool[j]);
            }
            j = j + 1;
        }
        let chosen = max_lanes[random_range(rng, 0, max_lanes.len())];
        assert(to@.contains(chosen));
        assert(pool@.contains(chosen));
        let v = renda_count[chosen];
        let ghost rcv = renda_count@;
        let ghost mv = map@;
        let ghost sv = srcs@;
        let ghost n = s0.len() - srcs@.len();
        renda_count.set(chosen, v + 1);
        let ghost pv = pool@;
        pair_with(map, srcs, pool, chosen, Ghost(m0), Ghost(s0), Ghost(p0), from, to);
        proof {
            if cp {
                lemma_most_repeated_step(s0, p0, rc0, m0, mv, map@, sv, pv, pool@, rcv, renda_count@, n, chosen);
            }
        }
        assert forall|l: int| 0 <= l < total && pool@.contains(l as usize) implies #[trigger] renda_count@[l]
            <= bound by {
            assert(pv.contains(l as usize));
        }
    }
}

/// Filtering keeps a list increasing.
proof fn lemma_filter_increasing(s: Seq<usize>, p: spec_fn(usize) -> bool)
    requires
        increasing(s),
    ensures
        increasing(s.filter(p)),
        forall|x: usize| #[trigger] s.filter(p).contains(x) ==> s.contains(x),
    decreases s.len(),
{
    if s.len() > 0 {
        let t = s.drop_last();
        let x = s.last();
        assert(s =~= t.push(x));
        assert(increasing(t)) by {
            assert forall|i: int, j: int| 0 <= i < j < t.len() implies t[i] < t[j] by {
                assert(t[i] == s[i] && t[j] == s[j]);
            }
        }
        lemma_filter_increasing(t, p);
        t.lemma_filter_push(x, p);
        let f = t.filter(p);
        assert forall|y: usize| #[trigger] s.filter(p).contains(y) implies s.contains(y) by {
            if f.contains(y) {
                let k = choose|k: int| 0 <= k < t.len() && t[k] == y;
                assert(s[k] == y);
            } else {
                assert(s[s.len() - 1] == x);
            }
        }
        if p(x) {
            assert forall|i: int, j: int| 0 <= i < j < f.push(x).len() implies f.push(x)[i] < f.push(x)[j] by {
                if j == f.len() {
                    assert(f.contains(f[i]));
                    let k = choose|k: int| 0 <= k < t.len() && t[k] == f[i];
                    assert(s[k] < s[s.len() - 1]);
                }
            }
        }
    } else {
        reveal(Seq::filter);
    }
}

/// Whether lane `l` is one of the lanes to move with a playable note in
/// `notes[start..end]`.
pub open spec fn note_lane(changeable: Seq<usize>, notes: Seq<Note>, start: int, end: int, l: usize) -> bool {
    changeable.contains(l) && has_note_in(notes, start, end, l)
}

/// Converge's choice in one timeslice: a lane with notes that went to a rested lane went
/// to one with the longest run (by `rc`) among the rested lanes to move to that no lane
/// with notes before it (in lane order) took.
pub open spec fn prefers_longest(
    changeable: Seq<usize>,
    assignable: Seq<usize>,
    notes: Seq<Note>,
    start: int,
    end: int,
    lnt: Seq<Option<i64>>,
    time: i64,
    threshold: i64,
    rc: Seq<usize>,
    map: Seq<Option<usize>>,
) -> bool {
    forall|l: int, x: usize|
        #![trigger map[l], assignable.contains(x)]
        0 <= l < map.len() && note_lane(changeable, notes, start, end, l as usize) && map[l] is Some && rested(
            lnt,
            time,
            threshold,
        )(map[l]->0) && assignable.contains(x) && rested(lnt, time, threshold)(x) && !(exists|l2: int|
            0 <= l2 < l && note_lane(changeable, notes, start, end, l2 as usize) && #[trigger] map[l2] == Some(x))
            ==> rc[x as int] <= rc[map[l]->0 as int]
}

/// The runs after one Converge timeslice: a rested lane that a lane with notes went to
/// grows by one, every other stays.
pub open spec fn runs_grown(
    changeable: Seq<usize>,
    notes: Seq<Note>,
    start: int,
    end: int,
    lnt: Seq<Option<i64>>,
    time: i64,
    threshold: i64,
    rc0: Seq<usize>,
    rc1: Seq<usize>,
    map: Seq<Option<usize>>,
) -> bool {
    &&& rc1.len() == rc0.len()
    &&& forall|x: int|
        0 <= x < rc1.len() ==> #[trigger] rc1[x] == rc0[x] + if rested(lnt, time, threshold)(x as usize) && exists|l: int|
            0 <= l < map.len() && note_lane(changeable, notes, start, end, l as usize) && #[trigger] map[l] == Some(
                x as usize,
            ) {
            1int
        } else {
            0int
        }
}

/// The three phases of a Converge timeslice give its longest-run choice and run growth.
#[verifier::spinoff_prover]
#[verifier::rlimit(40)]
proof fn lemma_converge_phases(
    changeable: Seq<usize>,
    assignable: Seq<usize>,
    notes: Seq<Note>,
    start: int,
    end: int,
    lnt: Seq<Option<i64>>,
    time: i64,
    threshold: i64,
    rc0: Seq<usize>,
    rc1: Seq<usize>,
    m0: Seq<Option<usize>>,
    n0: Seq<usize>,
    pr0: Seq<usize>,
    in0: Seq<usize>,
    m1: Seq<Option<usize>>,
    n1: Seq<usize>,
    pr1: Seq<usize>,
    m3: Seq<Option<usize>>,
)
    requires
        increasing(changeable),
        splits(assignable, pr0, in0),
        n0 == changeable.filter(noted(notes, start, end)),
        pr0 == assignable.filter(rested(lnt, time, threshold)),
        can_pair(m0, n0, pr0),
        forall|l: int| 0 <= l < m0.len() ==> (#[trigger] m0[l]) is None,
        paired(m0, n0, pr0, m1, n1, pr1),
        m3.len() == m0.len(),
        m3.len() <= usize::MAX,
        forall|l: int| 0 <= l < m3.len() && (#[trigger] m3[l]) is Some ==> assignable.contains(m3[l]->0),
        forall|l: int|
            0 <= l < m3.len() && n0.contains(l as usize) ==> (#[trigger] m3[l]) is Some && (m1[l] is Some
                ==> m3[l] == m1[l]) && (m1[l] is None ==> in0.contains(m3[l]->0)),
        most_repeated(n0, pr0, rc0, m1, n0.len() - n1.len()),
        rc1.len() == rc0.len(),
        rc0.len() <= usize::MAX,
        forall|x: int| 0 <= x < rc1.len() ==> #[trigger] rc1[x] == rc0[x] + if taken_by(
            n0,
            m1,
            n0.len() - n1.len(),
            x as usize,
        ) {
            1int
        } else {
            0int
        },
    ensures
        prefers_longest(changeable, assignable, notes, start, end, lnt, time, threshold, rc0, m3),
        runs_grown(changeable, notes, start, end, lnt, time, threshold, rc0, rc1, m3),
{
    let np = n0.len() - n1.len();
    let rs = rested(lnt, time, threshold);
    lemma_filter_increasing(changeable, noted(notes, start, end));
    // a lane with notes is one of n0
    assert forall|l: usize| #[trigger] note_lane(changeable, notes, start, end, l) implies n0.contains(l) by {
        let c = choose|c: int| 0 <= c < changeable.len() && changeable[c] == l;
        changeable.lemma_filter_contains(noted(notes, start, end), c);
    }
    // a lane of n0 that went to a rested lane went there in the first phase
    assert forall|j: int| 0 <= j < n0.len() && n0[j] < m3.len() && #[trigger] m3[n0[j] as int] is Some && rs(
        m3[n0[j] as int]->0,
    ) implies j < np && m3[n0[j] as int] == m1[n0[j] as int] && m1[n0[j] as int] is Some by {
        let l = n0[j] as int;
        assert(n0.contains(n0[j]));
        if j >= np {
            assert(n1[j - np] == n0[j]);
            assert(m1[l] is None);
            let d = m3[l]->0;
            assert(in0.contains(d));
            assert(assignable.contains(d));
            let q = choose|q: int| 0 <= q < assignable.len() && assignable[q] == d;
            assignable.lemma_filter_contains(rs, q);
            let a = choose|a: int| 0 <= a < pr0.len() && pr0[a] == d;
            let b = choose|b: int| 0 <= b < in0.len() && in0[b] == d;
            assert(pr0[a] != in0[b]);
        }
        assert(m1[l] is Some);
    }
    assert forall|l: int, x: usize|
        #![trigger m3[l], assignable.contains(x)]
        0 <= l < m3.len() && note_lane(changeable, notes, start, end, l as usize) && m3[l] is Some && rs(m3[l]->0)
            && assignable.contains(x) && rs(x) && !(exists|l2: int|
            0 <= l2 < l && note_lane(changeable, notes, start, end, l2 as usize) && #[trigger] m3[l2] == Some(x))
            implies rc0[x as int] <= rc0[m3[l]->0 as int] by {
        assert(n0.contains(l as usize));
        let j = choose|j: int| 0 <= j < n0.len() && n0[j] == l as usize;
        assert(m3[n0[j] as int] is Some);
        assert(rs(m3[n0[j] as int]->0));
        assert(j < np && m3[n0[j] as int] == m1[n0[j] as int]);
        let q = choose|q: int| 0 <= q < assignable.len() && assignable[q] == x;
        assignable.lemma_filter_contains(rs, q);
        if taken_by(n0, m1, j, x) {
            let j2 = choose|j2: int| 0 <= j2 < j && #[trigger] m1[n0[j2] as int] == Some(x);
            let l2 = n0[j2];
            assert(n0.contains(l2));
            changeable.lemma_filter_pred(noted(notes, start, end), j2);
            changeable.lemma_filter_contains_rev(noted(notes, start, end), l2);
            assert(l2 < n0[j]);
            assert(m3[l2 as int] == m1[l2 as int]);
            assert(note_lane(changeable, notes, start, end, l2));
            assert(m3[l2 as int] == Some(x));
        }
        assert(pr0.contains(x));
        assert(!taken_by(n0, m1, j, x));
        assert(rc0[x as int] <= rc0[m1[n0[j] as int]->0 as int]);
    }
    assert forall|x: int| 0 <= x < rc1.len() implies #[trigger] rc1[x] == rc0[x] + if rs(x as usize) && exists|l: int|
        0 <= l < m3.len() && note_lane(changeable, notes, start, end, l as usize) && #[trigger] m3[l] == Some(
            x as usize,
        ) {
        1int
    } else {
        0int
    } by {
        let xu = x as usize;
        if taken_by(n0, m1, np, xu) {
            let j = choose|j: int| 0 <= j < np && #[trigger] m1[n0[j] as int] == Some(xu);
            let l = n0[j];
            assert(n0.contains(l));
            assert(pr0.contains(xu));
            let a = choose|a: int| 0 <= a < pr0.len() && pr0[a] == xu;
            assignable.lemma_filter_pred(rs, a);
            changeable.lemma_filter_pred(noted(notes, start, end), j);
            changeable.lemma_filter_contains_rev(noted(notes, start, end), l);
            assert(m3[l as int] == m1[l as int]);
            assert(note_lane(changeable, notes, start, end, l));
        }
        if rs(xu) && exists|l: int|
            0 <= l < m3.len() && note_lane(changeable, notes, start, end, l as usize) && #[trigger] m3[l] == Some(xu) {
            let l = choose|l: int|
                0 <= l < m3.len() && note_lane(changeable, notes, start, end, l as usize) && #[trigger] m3[l] == Some(xu);
            assert(n0.contains(l as usize));
            let j = choose|j: int| 0 <= j < n0.len() && n0[j] == l as usize;
            assert(m3[n0[j] as int] is Some);
            assert(j < np);
            assert(taken_by(n0, m1, np, xu));
        }
    }
}

/// Whether note `k`, playable and on a key lane that no long note holds, went to `lane`.
pub open spec fn moved_here(old: Seq<Note>, new: Seq<Note>, keys: Seq<usize>, k: int, lane: usize) -> bool {
    &&& old[k].note_type.playable()
    &&& keys.contains(old[k].lane)
    &&& !held_at(old, keys, k, old[k].lane)
    &&& new[k].lane == lane
}

/// Converge's run count of a lane after the timeslices before `upto`: at each timeslice
/// it restarts from zero when the lane's last note is more than twice `threshold` before
/// it, and grows by one when the lane, rested for more than `threshold`, takes a note
/// of a free key lane.
pub open spec fn run_count(old: Seq<Note>, new: Seq<Note>, keys: Seq<usize>, threshold: i64, lane: usize, upto: int) -> int
    decreases upto,
{
    if upto <= 0 || upto > old.len() {
        0
    } else {
        let s = slice_begin(old, upto - 1);
        proof {
            lemma_slice_begin_bounds(old, upto - 1);
        }
        let t = old[s].time_us;
        let kept = if t - last_on(new, s, lane) > 2 * threshold {
            0
        } else {
            run_count(old, new, keys, threshold, lane, s)
        };
        kept + if t - last_on(new, s, lane) > threshold && exists|k: int|
            s <= k < upto && #[trigger] moved_here(old, new, keys, k, lane) {
            1int
        } else {
            0int
        }
    }
}

/// The run count of a lane when the timeslice at `s` begins, after the restart of
/// runs whose last note is more than twice `threshold` before it.
pub open spec fn run_start(old: Seq<Note>, new: Seq<Note>, keys: Seq<usize>, threshold: i64, lane: usize, s: int) -> int {
    if old[s].time_us - last_on(new, s, lane) > 2 * threshold {
        0
    } else {
        run_count(old, new, keys, threshold, lane, s)
    }
}

/// For note `i`: when it is playable, on a key lane that no long note holds, and goes
/// to a lane rested for more than `threshold`, that lane has the longest run (see
/// `run_start`) among the key lanes that no long note holds, rested for more than
/// `threshold`, and taken by no note of its timeslice from a lower key lane.
pub open spec fn converges_note(old: Seq<Note>, new: Seq<Note>, keys: Seq<usize>, threshold: i64, i: int) -> bool {
    let s = slice_begin(old, i);
    let t = old[i].time_us;
    let d = new[i].lane;
    moved_here(old, new, keys, i, d) && t - last_on(new, s, d) > threshold ==> forall|x: usize|
        #![trigger keys.contains(x)]
        keys.contains(x) && !flips(new.take(s), x) && t - last_on(new, s, x) > threshold && !(exists|k: int|
            s <= k < slice_stop(old, i) && old[k].lane < old[i].lane && #[trigger] moved_here(old, new, keys, k, x))
            ==> run_start(old, new, keys, threshold, x, s) <= run_start(old, new, keys, threshold, d, s)
}

/// Run counts before `upto` depend on the shuffled notes before `upto` only.
proof fn lemma_run_count_prefix(old: Seq<Note>, a: Seq<Note>, b: Seq<Note>, keys: Seq<usize>, threshold: i64, lane: usize, upto: int)
    requires
        upto <= a.len(),
        upto <= b.len(),
        forall|k: int| 0 <= k < upto ==> #[trigger] a[k] == b[k],
    ensures
        run_count(old, a, keys, threshold, lane, upto) == run_count(old, b, keys, threshold, lane, upto),
    decreases upto,
{
    if upto > 0 && upto <= old.len() {
        let s = slice_begin(old, upto - 1);
        lemma_slice_begin_bounds(old, upto - 1);
        lemma_run_count_prefix(old, a, b, keys, threshold, lane, s);
        lemma_last_on_prefix(a, b, s, lane);
        if exists|k: int| s <= k < upto && #[trigger] moved_here(old, a, keys, k, lane) {
            let k = choose|k: int| s <= k < upto && #[trigger] moved_here(old, a, keys, k, lane);
            assert(a[k] == b[k]);
            assert(moved_here(old, b, keys, k, lane));
        }
        if exists|k: int| s <= k < upto && #[trigger] moved_here(old, b, keys, k, lane) {
            let k = choose|k: int| s <= k < upto && #[trigger] moved_here(old, b, keys, k, lane);
            assert(a[k] == b[k]);
            assert(moved_here(old, a, keys, k, lane));
        }
    }
}

/// Converge's rule for a note depends on the shuffled notes before its timeslice ends
/// only.
proof fn lemma_converges_prefix(old: Seq<Note>, a: Seq<Note>, b: Seq<Note>, keys: Seq<usize>, threshold: i64, i: int, upto: int)
    requires
        0 <= i < upto <= a.len(),
        upto <= b.len(),
        slice_stop(old, i) <= upto,
        forall|k: int| 0 <= k < upto ==> #[trigger] a[k] == b[k],
    ensures
        converges_note(old, a, keys, threshold, i) == converges_note(old, b, keys, threshold, i),
{
    let s = slice_begin(old, i);
    lemma_slice_begin_bounds(old, i);
    assert(a.take(s) =~= b.take(s));
    assert forall|x: usize| #[trigger] last_on(a, s, x) == last_on(b, s, x) by {
        lemma_last_on_prefix(a, b, s, x);
    }
    assert forall|x: usize| #[trigger] run_start(old, a, keys, threshold, x, s) == run_start(old, b, keys, threshold, x, s) by {
        lemma_run_count_prefix(old, a, b, keys, threshold, x, s);
    }
    let e = slice_stop(old, i);
    let t = old[i].time_us;
    assert(a[i] == b[i]);
    let d = a[i].lane;
    assert(moved_here(old, a, keys, i, d) == moved_here(old, b, keys, i, d));
    if converges_note(old, a, keys, threshold, i) && moved_here(old, b, keys, i, d) && t - last_on(b, s, d) > threshold {
        assert forall|x: usize|
            #![trigger keys.contains(x)]
            keys.contains(x) && !flips(b.take(s), x) && t - last_on(b, s, x) > threshold && !(exists|k: int|
                s <= k < e && old[k].lane < old[i].lane && #[trigger] moved_here(old, b, keys, k, x))
                implies run_start(old, b, keys, threshold, x, s) <= run_start(old, b, keys, threshold, d, s) by {
            if exists|k: int| s <= k < e && old[k].lane < old[i].lane && #[trigger] moved_here(old, a, keys, k, x) {
                let k = choose|k: int| s <= k < e && old[k].lane < old[i].lane && #[trigger] moved_here(old, a, keys, k, x);
                assert(a[k] == b[k]);
                assert(moved_here(old, b, keys, k, x));
            }
            assert(run_start(old, a, keys, threshold, x, s) <= run_start(old, a, keys, threshold, d, s));
        }
    }
    if converges_note(old, b, keys, threshold, i) && moved_here(old, a, keys, i, d) && t - last_on(a, s, d) > threshold {
        assert forall|x: usize|
            #![trigger keys.contains(x)]
            keys.contains(x) && !flips(a.take(s), x) && t - last_on(a, s, x) > threshold && !(exists|k: int|
                s <= k < e && old[k].lane < old[i].lane && #[trigger] moved_here(old, a, keys, k, x))
                implies run_start(old, a, keys, threshold, x, s) <= run_start(old, a, keys, threshold, d, s) by {
            if exists|k: int| s <= k < e && old[k].lane < old[i].lane && #[trigger] moved_here(old, b, keys, k, x) {
                let k = choose|k: int| s <= k < e && old[k].lane < old[i].lane && #[trigger] moved_here(old, b, keys, k, x);
                assert(a[k] == b[k]);
                assert(moved_here(old, a, keys, k, x));
            }
            assert(run_start(old, b, keys, threshold, x, s) <= run_start(old, b, keys, threshold, d, s));
        }
    }
}

/// The notes of a Converge timeslice moved from free key lanes are the moves of its
/// lanes with notes.
#[verifier::spinoff_prover]
#[verifier::rlimit(60)]
proof fn lemma_converge_moves(
    orig: Seq<Note>,
    cur: Seq<Note>,
    nxt: Seq<Note>,
    keys: Seq<usize>,
    groups: Seq<(i64, core::ops::Range<usize>)>,
    g: int,
    total: int,
    la: Seq<Option<usize>>,
    lnt: Seq<Option<i64>>,
    mb: Seq<Option<usize>>,
    mf: Seq<Option<usize>>,
    changeable: Seq<usize>,
    assignable: Seq<usize>,
    rc_r: Seq<usize>,
    rc_f: Seq<usize>,
    threshold: i64,
)
    requires
        slices_of(orig, groups),
        0 <= g < groups.len(),
        shuffled_upto(orig, cur, keys, groups[g].1.start as int),
        nxt.len() == cur.len(),
        forall|k: int|
            0 <= k < cur.len() && !(groups[g].1.start <= k < groups[g].1.end) ==> #[trigger] nxt[k]
                == cur[k],
        forall|k: int|
            groups[g].1.start <= k < groups[g].1.end ==> #[trigger] nxt[k] == with_lane(
                cur[k],
                moved(mf, cur[k].lane),
            ),
        0 <= total <= usize::MAX,
        la.len() == total,
        lnt.len() == total,
        mb.len() == total,
        mf.len() == total,
        rc_r.len() == total,
        forall|k: int| 0 <= k < keys.len() ==> #[trigger] keys[k] < total,
        forall|l: int|
            0 <= l < total ==> (#[trigger] la[l]) is Some == (keys.contains(l as usize) && flips(
                orig.take(groups[g].1.start as int),
                l as usize,
            )),
        forall|l: int|
            0 <= l < total ==> ((#[trigger] mb[l]) is Some == (keys.contains(l as usize) && la[l] is None)),
        maps_into(mb, keys, keys),
        forall|l: int|
            0 <= l < total ==> #[trigger] mf[l] == if la[l] is Some {
                la[l]
            } else {
                mb[l]
            },
        forall|x: usize|
            #[trigger] changeable.contains(x) <==> (keys.contains(x) && !(x < la.len() && la[x as int] is Some)),
        forall|x: usize| #[trigger] assignable.contains(x) <==> (keys.contains(x) && free_dest(la)(x)),
        forall|d: usize|
            #[trigger] keys.contains(d) ==> flips(cur.take(groups[g].1.start as int), d) == held_dest(la)(d),
        forall|d: usize|
            #[trigger] keys.contains(d) ==> last_time(lnt, d) == last_on(cur, groups[g].1.start as int, d),
        forall|d: usize|
            #[trigger] keys.contains(d) ==> rc_r[d as int] == run_start(
                orig,
                cur,
                keys,
                threshold,
                d,
                groups[g].1.start as int,
            ),
        prefers_longest(
            changeable,
            assignable,
            cur,
            groups[g].1.start as int,
            groups[g].1.end as int,
            lnt,
            groups[g].0,
            threshold,
            rc_r,
            mb,
        ),
        runs_grown(
            changeable,
            cur,
            groups[g].1.start as int,
            groups[g].1.end as int,
            lnt,
            groups[g].0,
            threshold,
            rc_r,
            rc_f,
            mb,
        ),
    ensures
        forall|k: int, x: usize|
            groups[g].1.start <= k < groups[g].1.end && #[trigger] moved_here(orig, nxt, keys, k, x) ==> note_lane(
                changeable,
                cur,
                groups[g].1.start as int,
                groups[g].1.end as int,
                orig[k].lane,
            ) && mb[orig[k].lane as int] == Some(x),
        forall|l: int|
            0 <= l < mb.len() && note_lane(changeable, cur, groups[g].1.start as int, groups[g].1.end as int, l as usize)
                && (#[trigger] mb[l]) is Some ==> exists|k: int|
                groups[g].1.start <= k < groups[g].1.end && orig[k].lane == l as usize && #[trigger] moved_here(
                    orig,
                    nxt,
                    keys,
                    k,
                    mb[l]->0,
                ),
{
    let s = groups[g].1.start as int;
    let e = groups[g].1.end as int;
    // a note of the timeslice moved from a free key lane is the move of a lane with notes
    assert forall|k: int, x: usize| s <= k < e && #[trigger] moved_here(orig, nxt, keys, k, x) implies note_lane(
        changeable,
        cur,
        s,
        e,
        orig[k].lane,
    ) && mb[orig[k].lane as int] == Some(x) by {
        let l = orig[k].lane;
        lemma_slice_begin(orig, groups, g, k);
        assert(cur[k] == orig[k]);
        let q = choose|q: int| 0 <= q < keys.len() && keys[q] == l;
        assert(l < total);
        assert(la[l as int] is None);
        assert(changeable.contains(l));
        assert(has_note_in(cur, s, e, l));
        assert(nxt[k].lane == moved(mf, l));
    }
    assert forall|l: int|
        0 <= l < mb.len() && note_lane(changeable, cur, s, e, l as usize) && (#[trigger] mb[l]) is Some
            implies exists|k: int| s <= k < e && orig[k].lane == l as usize && #[trigger] moved_here(orig, nxt, keys, k, mb[l]->0) by {
        let x = mb[l]->0;
        let k = choose|k: int| s <= k < e && cur[k].lane == l as usize && (#[trigger] cur[k]).note_type.playable();
        lemma_slice_begin(orig, groups, g, k);
        assert(cur[k] == orig[k]);
        assert(keys.contains(l as usize) && la[l] is None);
        assert(!held_at(orig, keys, k, l as usize));
        assert(nxt[k].lane == moved(mf, l as usize));
        assert(moved_here(orig, nxt, keys, k, x));
    }
}

/// After a Converge timeslice the run counts are those of the shuffled notes up to its
/// end.
#[verifier::spinoff_prover]
#[verifier::rlimit(60)]
proof fn lemma_converge_counts(
    orig: Seq<Note>,
    cur: Seq<Note>,
    nxt: Seq<Note>,
    keys: Seq<usize>,
    groups: Seq<(i64, core::ops::Range<usize>)>,
    g: int,
    total: int,
    la: Seq<Option<usize>>,
    lnt: Seq<Option<i64>>,
    mb: Seq<Option<usize>>,
    mf: Seq<Option<usize>>,
    changeable: Seq<usize>,
    assignable: Seq<usize>,
    rc_r: Seq<usize>,
    rc_f: Seq<usize>,
    threshold: i64,
)
    requires
        slices_of(orig, groups),
        0 <= g < groups.len(),
        shuffled_upto(orig, cur, keys, groups[g].1.start as int),
        nxt.len() == cur.len(),
        forall|k: int|
            0 <= k < cur.len() && !(groups[g].1.start <= k < groups[g].1.end) ==> #[trigger] nxt[k]
                == cur[k],
        forall|k: int|
            groups[g].1.start <= k < groups[g].1.end ==> #[trigger] nxt[k] == with_lane(
                cur[k],
                moved(mf, cur[k].lane),
            ),
        0 <= total <= usize::MAX,
        la.len() == total,
        lnt.len() == total,
        mb.len() == total,
        mf.len() == total,
        rc_r.len() == total,
        forall|k: int| 0 <= k < keys.len() ==> #[trigger] keys[k] < total,
        forall|l: int|
            0 <= l < total ==> (#[trigger] la[l]) is Some == (keys.contains(l as usize) && flips(
                orig.take(groups[g].1.start as int),
                l as usize,
            )),
        forall|l: int|
            0 <= l < total ==> ((#[trigger] mb[l]) is Some == (keys.contains(l as usize) && la[l] is None)),
        maps_into(mb, keys, keys),
        forall|l: int|
            0 <= l < total ==> #[trigger] mf[l] == if la[l] is Some {
                la[l]
            } else {
                mb[l]
            },
        forall|x: usize|
            #[trigger] changeable.contains(x) <==> (keys.contains(x) && !(x < la.len() && la[x as int] is Some)),
        forall|x: usize| #[trigger] assignable.contains(x) <==> (keys.contains(x) && free_dest(la)(x)),
        forall|d: usize|
            #[trigger] keys.contains(d) ==> flips(cur.take(groups[g].1.start as int), d) == held_dest(la)(d),
        forall|d: usize|
            #[trigger] keys.contains(d) ==> last_time(lnt, d) == last_on(cur, groups[g].1.start as int, d),
        forall|d: usize|
            #[trigger] keys.contains(d) ==> rc_r[d as int] == run_start(
                orig,
                cur,
                keys,
                threshold,
                d,
                groups[g].1.start as int,
            ),
        prefers_longest(
            changeable,
            assignable,
            cur,
            groups[g].1.start as int,
            groups[g].1.end as int,
            lnt,
            groups[g].0,
            threshold,
            rc_r,
            mb,
        ),
        runs_grown(
            changeable,
            cur,
            groups[g].1.start as int,
            groups[g].1.end as int,
            lnt,
            groups[g].0,
            threshold,
            rc_r,
            rc_f,
            mb,
        ),
    ensures
        forall|d: usize|
            #[trigger] keys.contains(d) ==> rc_f[d as int] == run_count(orig, nxt, keys, threshold, d, groups[g].1.end as int),
{
    let s = groups[g].1.start as int;
    let e = groups[g].1.end as int;
    let t = groups[g].0;
    let rs = rested(lnt, t, threshold);
    assert(nxt.take(s) =~= cur.take(s));
    assert forall|d: usize| #[trigger] last_on(nxt, s, d) == last_on(cur, s, d) by {
        lemma_last_on_prefix(nxt, cur, s, d);
    }
    assert forall|d: usize| #[trigger] run_count(orig, nxt, keys, threshold, d, s) == run_count(orig, cur, keys, threshold, d, s) by {
        lemma_run_count_prefix(orig, nxt, cur, keys, threshold, d, s);
    }
    lemma_converge_moves(orig, cur, nxt, keys, groups, g, total, la, lnt, mb, mf, changeable, assignable, rc_r, rc_f, threshold);
    // run counts
    assert forall|d: usize| #[trigger] keys.contains(d) implies rc_f[d as int] == run_count(orig, nxt, keys, threshold, d, e) by {
        let q = choose|q: int| 0 <= q < keys.len() && keys[q] == d;
        assert(d < total);
        lemma_slice_begin(orig, groups, g, e - 1);
        assert(0 < e <= orig.len());
        assert(slice_begin(orig, e - 1) == s);
        assert(orig[s].time_us == t);
        assert(rc_r[d as int] == run_start(orig, cur, keys, threshold, d, s));
        assert(rs(d) == (t - last_on(nxt, s, d) > threshold));
        assert(run_count(orig, nxt, keys, threshold, d, e) == (if t - last_on(nxt, s, d) > 2 * threshold {
            0
        } else {
            run_count(orig, nxt, keys, threshold, d, s)
        }) + if t - last_on(nxt, s, d) > threshold && exists|k: int|
            s <= k < e && #[trigger] moved_here(orig, nxt, keys, k, d) {
            1int
        } else {
            0int
        });
        assert(rc_f[d as int] == rc_r[d as int] + if rs(d) && exists|l: int|
            0 <= l < mb.len() && note_lane(changeable, cur, s, e, l as usize) && #[trigger] mb[l] == Some(d) {
            1int
        } else {
            0int
        });
        let gain_map = exists|l: int|
            0 <= l < mb.len() && note_lane(changeable, cur, s, e, l as usize) && #[trigger] mb[l] == Some(d);
        let gain_new = exists|k: int| s <= k < e && #[trigger] moved_here(orig, nxt, keys, k, d);
        if gain_map {
            let l = choose|l: int| 0 <= l < mb.len() && note_lane(changeable, cur, s, e, l as usize) && #[trigger] mb[l] == Some(d);
            assert(exists|k: int| s <= k < e && orig[k].lane == l as usize && #[trigger] moved_here(orig, nxt, keys, k, d));
        }
        if gain_new {
            let k = choose|k: int| s <= k < e && #[trigger] moved_here(orig, nxt, keys, k, d);
            assert(mb[orig[k].lane as int] == Some(d));
        }
        assert(gain_map == gain_new);
    }
}

/// In a Converge timeslice every note follows Converge's rule (see `converges_note`).
#[verifier::spinoff_prover]
#[verifier::rlimit(100)]
proof fn lemma_converge_rule(
    orig: Seq<Note>,
    cur: Seq<Note>,
    nxt: Seq<Note>,
    keys: Seq<usize>,
    groups: Seq<(i64, core::ops::Range<usize>)>,
    g: int,
    total: int,
    la: Seq<Option<usize>>,
    lnt: Seq<Option<i64>>,
    mb: Seq<Option<usize>>,
    mf: Seq<Option<usize>>,
    changeable: Seq<usize>,
    assignable: Seq<usize>,
    rc_r: Seq<usize>,
    rc_f: Seq<usize>,
    threshold: i64,
)
    requires
        slices_of(orig, groups),
        0 <= g < groups.len(),
        shuffled_upto(orig, cur, keys, groups[g].1.start as int),
        nxt.len() == cur.len(),
        forall|k: int|
            0 <= k < cur.len() && !(groups[g].1.start <= k < groups[g].1.end) ==> #[trigger] nxt[k]
                == cur[k],
        forall|k: int|
            groups[g].1.start <= k < groups[g].1.end ==> #[trigger] nxt[k] == with_lane(
                cur[k],
                moved(mf, cur[k].lane),
            ),
        0 <= total <= usize::MAX,
        la.len() == total,
        lnt.len() == total,
        mb.len() == total,
        mf.len() == total,
        rc_r.len() == total,
        forall|k: int| 0 <= k < keys.len() ==> #[trigger] keys[k] < total,
        forall|l: int|
            0 <= l < total ==> (#[trigger] la[l]) is Some == (keys.contains(l as usize) && flips(
                orig.take(groups[g].1.start as int),
                l as usize,
            )),
        forall|l: int|
            0 <= l < total ==> ((#[trigger] mb[l]) is Some == (keys.contains(l as usize) && la[l] is None)),
        maps_into(mb, keys, keys),
        forall|l: int|
            0 <= l < total ==> #[trigger] mf[l] == if la[l] is Some {
                la[l]
            } else {
                mb[l]
            },
        forall|x: usize|
            #[trigger] changeable.contains(x) <==> (keys.contains(x) && !(x < la.len() && la[x as int] is Some)),
        forall|x: usize| #[trigger] assignable.contains(x) <==> (keys.contains(x) && free_dest(la)(x)),
        forall|d: usize|
            #[trigger] keys.contains(d) ==> flips(cur.take(groups[g].1.start as int), d) == held_dest(la)(d),
        forall|d: usize|
            #[trigger] keys.contains(d) ==> last_time(lnt, d) == last_on(cur, groups[g].1.start as int, d),
        forall|d: usize|
            #[trigger] keys.contains(d) ==> rc_r[d as int] == run_start(
                orig,
                cur,
                keys,
                threshold,
                d,
                groups[g].1.start as int,
            ),
        prefers_longest(
            changeable,
            assignable,
            cur,
            groups[g].1.start as int,
            groups[g].1.end as int,
            lnt,
            groups[g].0,
            threshold,
            rc_r,
            mb,
        ),
        runs_grown(
            changeable,
            cur,
            groups[g].1.start as int,
            groups[g].1.end as int,
            lnt,
            groups[g].0,
            threshold,
            rc_r,
            rc_f,
            mb,
        ),
    ensures
        forall|i: int|
            groups[g].1.start <= i < groups[g].1.end ==> #[trigger] converges_note(orig, nxt, keys, threshold, i),
{
    let s = groups[g].1.start as int;
    let e = groups[g].1.end as int;
    let t = groups[g].0;
    let rs = rested(lnt, t, threshold);
    assert(nxt.take(s) =~= cur.take(s));
    assert forall|d: usize| #[trigger] last_on(nxt, s, d) == last_on(cur, s, d) by {
        lemma_last_on_prefix(nxt, cur, s, d);
    }
    assert forall|d: usize| #[trigger] run_count(orig, nxt, keys, threshold, d, s) == run_count(orig, cur, keys, threshold, d, s) by {
        lemma_run_count_prefix(orig, nxt, cur, keys, threshold, d, s);
    }
    lemma_converge_moves(orig, cur, nxt, keys, groups, g, total, la, lnt, mb, mf, changeable, assignable, rc_r, rc_f, threshold);
    // Converge's rule
    assert forall|i: int| s <= i < e implies #[trigger] converges_note(orig, nxt, keys, threshold, i) by {
        lemma_slice_begin(orig, groups, g, i);
        lemma_slice_stop(orig, groups, g, i);
        let dd = nxt[i].lane;
        if moved_here(orig, nxt, keys, i, dd) && orig[i].time_us - last_on(nxt, s, dd) > threshold {
            let l = orig[i].lane;
            assert(orig[i].time_us == t);
            assert(mb[l as int] == Some(dd));
            assert(note_lane(changeable, cur, s, e, l));
            let qd = choose|qd: int| 0 <= qd < keys.len() && keys[qd] == dd;
            assert forall|x: usize|
                #![trigger keys.contains(x)]
                keys.contains(x) && !flips(nxt.take(s), x) && t - last_on(nxt, s, x) > threshold && !(exists|k: int|
                    s <= k < e && orig[k].lane < l && #[trigger] moved_here(orig, nxt, keys, k, x))
                    implies run_start(orig, nxt, keys, threshold, x, s) <= run_start(orig, nxt, keys, threshold, dd, s) by {
                assert(assignable.contains(x));
                if exists|l2: int| 0 <= l2 < l as int && note_lane(changeable, cur, s, e, l2 as usize) && #[trigger] mb[l2] == Some(x) {
                    let l2 = choose|l2: int| 0 <= l2 < l as int && note_lane(changeable, cur, s, e, l2 as usize) && #[trigger] mb[l2] == Some(x);
                    let k = choose|k: int| s <= k < e && orig[k].lane == l2 as usize && #[trigger] moved_here(orig, nxt, keys, k, x);
                    assert(orig[k].lane < l);
                }
                assert(keys.contains(dd));
                assert(rs(dd) && rs(x));
                assert(mb[l as int] is Some && assignable.contains(x));
                assert(rc_r[x as int] <= rc_r[dd as int]);
                let qx = choose|qx: int| 0 <= qx < keys.len() && keys[qx] == x;
                assert(run_start(orig, nxt, keys, threshold, x, s) == run_start(orig, cur, keys, threshold, x, s));
                assert(run_start(orig, nxt, keys, threshold, dd, s) == run_start(orig, cur, keys, threshold, dd, s));
            }
        }
    }
}

/// One Converge timeslice keeps Converge's run counts and rule: the counts are those of
/// the shuffled notes up to the end of the timeslice, and every note so far follows the
/// rule.
#[verifier::spinoff_prover]
#[verifier::rlimit(60)]
proof fn lemma_converge_runs_step(
    orig: Seq<Note>,
    cur: Seq<Note>,
    nxt: Seq<Note>,
    keys: Seq<usize>,
    groups: Seq<(i64, core::ops::Range<usize>)>,
    g: int,
    total: int,
    la: Seq<Option<usize>>,
    lnt: Seq<Option<i64>>,
    mb: Seq<Option<usize>>,
    mf: Seq<Option<usize>>,
    changeable: Seq<usize>,
    assignable: Seq<usize>,
    rc_r: Seq<usize>,
    rc_f: Seq<usize>,
    threshold: i64,
)
    requires
        slices_of(orig, groups),
        0 <= g < groups.len(),
        shuffled_upto(orig, cur, keys, groups[g].1.start as int),
        nxt.len() == cur.len(),
        forall|k: int|
            0 <= k < cur.len() && !(groups[g].1.start <= k < groups[g].1.end) ==> #[trigger] nxt[k]
                == cur[k],
        forall|k: int|
            groups[g].1.start <= k < groups[g].1.end ==> #[trigger] nxt[k] == with_lane(
                cur[k],
                moved(mf, cur[k].lane),
            ),
        0 <= total <= usize::MAX,
        la.len() == total,
        lnt.len() == total,
        mb.len() == total,
        mf.len() == total,
        rc_r.len() == total,
        forall|k: int| 0 <= k < keys.len() ==> #[trigger] keys[k] < total,
        forall|l: int|
            0 <= l < total ==> (#[trigger] la[l]) is Some == (keys.contains(l as usize) && flips(
                orig.take(groups[g].1.start as int),
                l as usize,
            )),
        forall|k: int| 0 <= k < changeable.len() ==> (#[trigger] mb[changeable[k] as int]) is Some,
        forall|l: int| 0 <= l < mb.len() && (#[trigger] mb[l]) is Some ==> changeable.contains(l as usize),
        maps_into(mb, keys, keys),
        forall|l: int|
            0 <= l < total ==> #[trigger] mf[l] == if la[l] is Some {
                la[l]
            } else {
                mb[l]
            },
        forall|x: usize|
            #[trigger] changeable.contains(x) <==> (keys.contains(x) && !(x < la.len() && la[x as int] is Some)),
        assignable == keys.filter(free_dest(la)),
        forall|d: usize|
            #[trigger] keys.contains(d) ==> flips(cur.take(groups[g].1.start as int), d) == held_dest(la)(d),
        forall|d: usize|
            #[trigger] keys.contains(d) ==> last_time(lnt, d) == last_on(cur, groups[g].1.start as int, d),
        forall|d: usize|
            #[trigger] keys.contains(d) ==> rc_r[d as int] == run_start(
                orig,
                cur,
                keys,
                threshold,
                d,
                groups[g].1.start as int,
            ),
        prefers_longest(
            changeable,
            assignable,
            cur,
            groups[g].1.start as int,
            groups[g].1.end as int,
            lnt,
            groups[g].0,
            threshold,
            rc_r,
            mb,
        ),
        runs_grown(
            changeable,
            cur,
            groups[g].1.start as int,
            groups[g].1.end as int,
            lnt,
            groups[g].0,
            threshold,
            rc_r,
            rc_f,
            mb,
        ),
        forall|i: int| 0 <= i < groups[g].1.start ==> #[trigger] converges_note(orig, cur, keys, threshold, i),
    ensures
        forall|d: usize|
            #[trigger] keys.contains(d) ==> rc_f[d as int] == run_count(orig, nxt, keys, threshold, d, groups[g].1.end as int),
        forall|i: int| 0 <= i < groups[g].1.end ==> #[trigger] converges_note(orig, nxt, keys, threshold, i),
{
    let s = groups[g].1.start as int;
    assert forall|l: int| 0 <= l < total implies ((#[trigger] mb[l]) is Some == (keys.contains(
        l as usize,
    ) && la[l] is None)) by {
        if keys.contains(l as usize) && la[l] is None {
            assert(changeable.contains(l as usize));
            let k = choose|k: int| 0 <= k < changeable.len() && changeable[k] == l as usize;
            assert(mb[changeable[k] as int] is Some);
        }
        if mb[l] is Some {
            assert(changeable.contains(l as usize));
        }
    }
    assert forall|x: usize| #[trigger] assignable.contains(x) <==> (keys.contains(x) && free_dest(la)(x)) by {
        if assignable.contains(x) {
            keys.lemma_filter_contains_rev(free_dest(la), x);
            let q = choose|q: int| 0 <= q < assignable.len() && assignable[q] == x;
            keys.lemma_filter_pred(free_dest(la), q);
        }
        if keys.contains(x) && free_dest(la)(x) {
            let q = choose|q: int| 0 <= q < keys.len() && keys[q] == x;
            keys.lemma_filter_contains(free_dest(la), q);
        }
    }
    lemma_converge_moves(orig, cur, nxt, keys, groups, g, total, la, lnt, mb, mf, changeable, assignable, rc_r, rc_f, threshold);
    lemma_converge_counts(orig, cur, nxt, keys, groups, g, total, la, lnt, mb, mf, changeable, assignable, rc_r, rc_f, threshold);
    lemma_converge_rule(orig, cur, nxt, keys, groups, g, total, la, lnt, mb, mf, changeable, assignable, rc_r, rc_f, threshold);
    assert forall|i: int| 0 <= i < groups[g].1.end implies #[trigger] converges_note(orig, nxt, keys, threshold, i) by {
        if i < s {
            if s < orig.len() {
                assert(orig[s - 1].time_us != orig[s].time_us);
            }
            lemma_slice_stop_before(orig, i, s);
            lemma_converges_prefix(orig, cur, nxt, keys, threshold, i, s);
        }
    }
}

/// The fallback of a timeslice: a lane with notes that went to a lane not rested went
/// to one whose last note is oldest among the lanes to move to that are not rested and
/// that no lane with notes before it (in lane order) took.
pub open spec fn falls_back(
    changeable: Seq<usize>,
    assignable: Seq<usize>,
    notes: Seq<Note>,
    start: int,
    end: int,
    lnt: Seq<Option<i64>>,
    time: i64,
    threshold: i64,
    map: Seq<Option<usize>>,
) -> bool {
    forall|l: int, x: usize|
        #![trigger map[l], assignable.contains(x)]
        0 <= l < map.len() && note_lane(changeable, notes, start, end, l as usize) && map[l] is Some && !rested(
            lnt,
            time,
            threshold,
        )(map[l]->0) && assignable.contains(x) && !rested(lnt, time, threshold)(x) && !(exists|l2: int|
            0 <= l2 < l && note_lane(changeable, notes, start, end, l2 as usize) && #[trigger] map[l2] == Some(x))
            ==> last_time(lnt, map[l]->0) <= last_time(lnt, x)
}

/// The second phase of a timeslice gives its fallback.
#[verifier::spinoff_prover]
#[verifier::rlimit(40)]
proof fn lemma_fallback_phases(
    changeable: Seq<usize>,
    assignable: Seq<usize>,
    notes: Seq<Note>,
    start: int,
    end: int,
    lnt: Seq<Option<i64>>,
    time: i64,
    threshold: i64,
    m0: Seq<Option<usize>>,
    n0: Seq<usize>,
    pr0: Seq<usize>,
    in0: Seq<usize>,
    m1: Seq<Option<usize>>,
    n1: Seq<usize>,
    pr1: Seq<usize>,
    m2: Seq<Option<usize>>,
    n2: Seq<usize>,
    in1: Seq<usize>,
    m3: Seq<Option<usize>>,
)
    requires
        increasing(changeable),
        splits(assignable, pr0, in0),
        n0 == changeable.filter(noted(notes, start, end)),
        pr0 == assignable.filter(rested(lnt, time, threshold)),
        can_pair(m0, n0, pr0),
        paired(m0, n0, pr0, m1, n1, pr1),
        can_pair(m1, n1, in0),
        paired(m1, n1, in0, m2, n2, in1),
        least_recent(n1, in0, lnt, m2, n1.len() - n2.len()),
        m3.len() == m0.len(),
        m3.len() <= usize::MAX,
        forall|l: int|
            0 <= l < m3.len() && n0.contains(l as usize) ==> (#[trigger] m3[l]) is Some && (m1[l] is Some
                ==> m3[l] == m1[l]) && (m1[l] is None ==> in0.contains(m3[l]->0)) && m3[l] == m2[l],
    ensures
        falls_back(changeable, assignable, notes, start, end, lnt, time, threshold, m3),
{
    let np = n0.len() - n1.len();
    let np2 = n1.len() - n2.len();
    let rs = rested(lnt, time, threshold);
    lemma_filter_increasing(changeable, noted(notes, start, end));
    assert forall|l: usize| #[trigger] note_lane(changeable, notes, start, end, l) implies n0.contains(l) by {
        let c = choose|c: int| 0 <= c < changeable.len() && changeable[c] == l;
        changeable.lemma_filter_contains(noted(notes, start, end), c);
    }
    assert forall|l: int, x: usize|
        #![trigger m3[l], assignable.contains(x)]
        0 <= l < m3.len() && note_lane(changeable, notes, start, end, l as usize) && m3[l] is Some && !rs(m3[l]->0)
            && assignable.contains(x) && !rs(x) && !(exists|l2: int|
            0 <= l2 < l && note_lane(changeable, notes, start, end, l2 as usize) && #[trigger] m3[l2] == Some(x))
            implies last_time(lnt, m3[l]->0) <= last_time(lnt, x) by {
        assert(n0.contains(l as usize));
        let j = choose|j: int| 0 <= j < n0.len() && n0[j] == l as usize;
        if m1[l] is Some {
            assert(m3[l] == m1[l]);
            assert(m0[l] is None);
            assert(pr0.contains(m1[l]->0));
            let a = choose|a: int| 0 <= a < pr0.len() && pr0[a] == m1[l]->0;
            assignable.lemma_filter_pred(rs, a);
        }
        assert(m1[l] is None);
        if j < np {
            assert(m1[n0[j] as int] is Some);
        }
        let j1 = j - np;
        assert(n1[j1] == n0[j]);
        assert(m2[l] is Some);
        if j1 >= np2 {
            assert(n2[j1 - np2] == n1[j1]);
            assert(m2[n2[j1 - np2] as int] is None);
        }
        // x is one of the lanes not rested
        let q = choose|q: int| 0 <= q < assignable.len() && assignable[q] == x;
        assert(!pr0.contains(x)) by {
            if pr0.contains(x) {
                let a = choose|a: int| 0 <= a < pr0.len() && pr0[a] == x;
                assignable.lemma_filter_pred(rs, a);
            }
        }
        assert(in0.contains(x));
        if taken_by(n1, m2, j1, x) {
            let j2 = choose|j2: int| 0 <= j2 < j1 && #[trigger] m2[n1[j2] as int] == Some(x);
            let l2 = n1[j2];
            assert(l2 == n0[np + j2]);
            assert(n0.contains(l2));
            changeable.lemma_filter_pred(noted(notes, start, end), np + j2);
            changeable.lemma_filter_contains_rev(noted(notes, start, end), l2);
            assert(l2 < n0[j]);
            assert(m3[l2 as int] == m2[l2 as int]);
            assert(note_lane(changeable, notes, start, end, l2));
        }
        assert(last_time(lnt, m2[n1[j1] as int]->0) <= last_time(lnt, x));
    }
}

/// Every note that goes to a lane rested for no more than `threshold` follows the
/// fallback rule (see `falls_back_note`).
pub open spec fn falls_back_all(old: Seq<Note>, new: Seq<Note>, keys: Seq<usize>, threshold: i64) -> bool {
    forall|i: int| 0 <= i < old.len() ==> #[trigger] falls_back_note(old, new, keys, threshold, i)
}

/// For note `i`: when it is playable, on a key lane that no long note holds, and goes
/// to a lane rested for no more than `threshold`, that lane's last note is oldest among
/// the key lanes that no long note holds, rested for no more than `threshold`, and taken
/// by no note of its timeslice from a lower key lane.
pub open spec fn falls_back_note(old: Seq<Note>, new: Seq<Note>, keys: Seq<usize>, threshold: i64, i: int) -> bool {
    let s = slice_begin(old, i);
    let t = old[i].time_us;
    let d = new[i].lane;
    moved_here(old, new, keys, i, d) && !(t - last_on(new, s, d) > threshold) ==> forall|x: usize|
        #![trigger keys.contains(x)]
        keys.contains(x) && !flips(new.take(s), x) && !(t - last_on(new, s, x) > threshold) && !(exists|k: int|
            s <= k < slice_stop(old, i) && old[k].lane < old[i].lane && #[trigger] moved_here(old, new, keys, k, x))
            ==> last_on(new, s, d) <= last_on(new, s, x)
}

/// The fallback rule for a note depends on the shuffled notes before its timeslice ends
/// only.
proof fn lemma_fallback_prefix(old: Seq<Note>, a: Seq<Note>, b: Seq<Note>, keys: Seq<usize>, threshold: i64, i: int, upto: int)
    requires
        0 <= i < upto <= a.len(),
        upto <= b.len(),
        slice_stop(old, i) <= upto,
        forall|k: int| 0 <= k < upto ==> #[trigger] a[k] == b[k],
    ensures
        falls_back_note(old, a, keys, threshold, i) == falls_back_note(old, b, keys, threshold, i),
{
    let s = slice_begin(old, i);
    lemma_slice_begin_bounds(old, i);
    assert(a.take(s) =~= b.take(s));
    assert forall|x: usize| #[trigger] last_on(a, s, x) == last_on(b, s, x) by {
        lemma_last_on_prefix(a, b, s, x);
    }
    let e = slice_stop(old, i);
    let t = old[i].time_us;
    assert(a[i] == b[i]);
    let d = a[i].lane;
    assert(moved_here(old, a, keys, i, d) == moved_here(old, b, keys, i, d));
    if falls_back_note(old, a, keys, threshold, i) && moved_here(old, b, keys, i, d) && !(t - last_on(b, s, d) > threshold) {
        assert forall|x: usize|
            #![trigger keys.contains(x)]
            keys.contains(x) && !flips(b.take(s), x) && !(t - last_on(b, s, x) > threshold) && !(exists|k: int|
                s <= k < e && old[k].lane < old[i].lane && #[trigger] moved_here(old, b, keys, k, x))
                implies last_on(b, s, d) <= last_on(b, s, x) by {
            if exists|k: int| s <= k < e && old[k].lane < old[i].lane && #[trigger] moved_here(old, a, keys, k, x) {
                let k = choose|k: int| s <= k < e && old[k].lane < old[i].lane && #[trigger] moved_here(old, a, keys, k, x);
                assert(a[k] == b[k]);
                assert(moved_here(old, b, keys, k, x));
            }
        }
    }
    if falls_back_note(old, b, keys, threshold, i) && moved_here(old, a, keys, i, d) && !(t - last_on(a, s, d) > threshold) {
        assert forall|x: usize|
            #![trigger keys.contains(x)]
            keys.contains(x) && !flips(a.take(s), x) && !(t - last_on(a, s, x) > threshold) && !(exists|k: int|
                s <= k < e && old[k].lane < old[i].lane && #[trigger] moved_here(old, a, keys, k, x))
                implies last_on(a, s, d) <= last_on(a, s, x) by {
            if exists|k: int| s <= k < e && old[k].lane < old[i].lane && #[trigger] moved_here(old, b, keys, k, x) {
                let k = choose|k: int| s <= k < e && old[k].lane < old[i].lane && #[trigger] moved_here(old, b, keys, k, x);
                assert(a[k] == b[k]);
                assert(moved_here(old, a, keys, k, x));
            }
        }
    }
}

/// In a timeslice whose mapping falls back to the lanes whose last note is oldest, every
/// note of the timeslice follows the fallback rule (see `falls_back_note`).
#[verifier::spinoff_prover]
#[verifier::rlimit(100)]
proof fn lemma_fallback_rule(
    orig: Seq<Note>,
    cur: Seq<Note>,
    nxt: Seq<Note>,
    keys: Seq<usize>,
    groups: Seq<(i64, core::ops::Range<usize>)>,
    g: int,
    total: int,
    la: Seq<Option<usize>>,
    lnt: Seq<Option<i64>>,
    mb: Seq<Option<usize>>,
    mf: Seq<Option<usize>>,
    changeable: Seq<usize>,
    assignable: Seq<usize>,
    threshold: i64,
)
    requires
        slices_of(orig, groups),
        0 <= g < groups.len(),
        shuffled_upto(orig, cur, keys, groups[g].1.start as int),
        nxt.len() == cur.len(),
        forall|k: int|
            0 <= k < cur.len() && !(groups[g].1.start <= k < groups[g].1.end) ==> #[trigger] nxt[k]
                == cur[k],
        forall|k: int|
            groups[g].1.start <= k < groups[g].1.end ==> #[trigger] nxt[k] == with_lane(
                cur[k],
                moved(mf, cur[k].lane),
            ),
        0 <= total <= usize::MAX,
        la.len() == total,
        lnt.len() == total,
        mb.len() == total,
        mf.len() == total,
        forall|k: int| 0 <= k < keys.len() ==> #[trigger] keys[k] < total,
        forall|l: int|
            0 <= l < total ==> (#[trigger] la[l]) is Some == (keys.contains(l as usize) && flips(
                orig.take(groups[g].1.start as int),
                l as usize,
            )),
        forall|k: int| 0 <= k < changeable.len() ==> (#[trigger] mb[changeable[k] as int]) is Some,
        forall|l: int| 0 <= l < mb.len() && (#[trigger] mb[l]) is Some ==> changeable.contains(l as usize),
        maps_into(mb, keys, keys),
        forall|l: int|
            0 <= l < total ==> #[trigger] mf[l] == if la[l] is Some {
                la[l]
            } else {
                mb[l]
            },
        forall|x: usize|
            #[trigger] changeable.contains(x) <==> (keys.contains(x) && !(x < la.len() && la[x as int] is Some)),
        assignable == keys.filter(free_dest(la)),
        forall|d: usize|
            #[trigger] keys.contains(d) ==> flips(cur.take(groups[g].1.start as int), d) == held_dest(la)(d),
        forall|d: usize|
            #[trigger] keys.contains(d) ==> last_time(lnt, d) == last_on(cur, groups[g].1.start as int, d),
        falls_back(
            changeable,
            assignable,
            cur,
            groups[g].1.start as int,
            groups[g].1.end as int,
            lnt,
            groups[g].0,
            threshold,
            mb,
        ),
    ensures
        forall|i: int|
            groups[g].1.start <= i < groups[g].1.end ==> #[trigger] falls_back_note(orig, nxt, keys, threshold, i),
{
    let s = groups[g].1.start as int;
    let e = groups[g].1.end as int;
    let t = groups[g].0;
    let rs = rested(lnt, t, threshold);
    assert(nxt.take(s) =~= cur.take(s));
    assert forall|d: usize| #[trigger] last_on(nxt, s, d) == last_on(cur, s, d) by {
        lemma_last_on_prefix(nxt, cur, s, d);
    }
    assert forall|l: int| 0 <= l < total implies ((#[trigger] mb[l]) is Some == (keys.contains(
        l as usize,
    ) && la[l] is None)) by {
        if keys.contains(l as usize) && la[l] is None {
            assert(changeable.contains(l as usize));
            let k = choose|k: int| 0 <= k < changeable.len() && changeable[k] == l as usize;
            assert(mb[changeable[k] as int] is Some);
        }
        if mb[l] is Some {
            assert(changeable.contains(l as usize));
        }
    }
    assert forall|x: usize| #[trigger] assignable.contains(x) <==> (keys.contains(x) && free_dest(la)(x)) by {
        if assignable.contains(x) {
            keys.lemma_filter_contains_rev(free_dest(la), x);
            let q = choose|q: int| 0 <= q < assignable.len() && assignable[q] == x;
            keys.lemma_filter_pred(free_dest(la), q);
        }
        if keys.contains(x) && free_dest(la)(x) {
            let q = choose|q: int| 0 <= q < keys.len() && keys[q] == x;
            keys.lemma_filter_contains(free_dest(la), q);
        }
    }
    assert forall|l: int|
        0 <= l < mb.len() && note_lane(changeable, cur, s, e, l as usize) && (#[trigger] mb[l]) is Some
            implies exists|k: int| s <= k < e && orig[k].lane == l as usize && #[trigger] moved_here(orig, nxt, keys, k, mb[l]->0) by {
        let x = mb[l]->0;
        let k = choose|k: int| s <= k < e && cur[k].lane == l as usize && (#[trigger] cur[k]).note_type.playable();
        lemma_slice_begin(orig, groups, g, k);
        assert(cur[k] == orig[k]);
        assert(keys.contains(l as usize) && la[l] is None);
        assert(!held_at(orig, keys, k, l as usize));
        assert(nxt[k].lane == moved(mf, l as usize));
        assert(moved_here(orig, nxt, keys, k, x));
    }
    assert forall|i: int| s <= i < e implies #[trigger] falls_back_note(orig, nxt, keys, threshold, i) by {
        lemma_slice_begin(orig, groups, g, i);
        lemma_slice_stop(orig, groups, g, i);
        let dd = nxt[i].lane;
        if moved_here(orig, nxt, keys, i, dd) && !(orig[i].time_us - last_on(nxt, s, dd) > threshold) {
            let l = orig[i].lane;
            assert(orig[i].time_us == t);
            assert(cur[i] == orig[i]);
            let ql = choose|ql: int| 0 <= ql < keys.len() && keys[ql] == l;
            assert(l < total);
            assert(la[l as int] is None);
            assert(changeable.contains(l));
            assert(has_note_in(cur, s, e, l));
            assert(nxt[i].lane == moved(mf, l));
            assert(mb[l as int] == Some(dd));
            assert(note_lane(changeable, cur, s, e, l));
            assert(keys.contains(dd));
            assert forall|x: usize|
                #![trigger keys.contains(x)]
                keys.contains(x) && !flips(nxt.take(s), x) && !(t - last_on(nxt, s, x) > threshold) && !(exists|k: int|
                    s <= k < e && orig[k].lane < l && #[trigger] moved_here(orig, nxt, keys, k, x))
                    implies last_on(nxt, s, dd) <= last_on(nxt, s, x) by {
                assert(assignable.contains(x));
                if exists|l2: int| 0 <= l2 < l as int && note_lane(changeable, cur, s, e, l2 as usize) && #[trigger] mb[l2] == Some(x) {
                    let l2 = choose|l2: int| 0 <= l2 < l as int && note_lane(changeable, cur, s, e, l2 as usize) && #[trigger] mb[l2] == Some(x);
                    let k = choose|k: int| s <= k < e && orig[k].lane == l2 as usize && #[trigger] moved_here(orig, nxt, keys, k, mb[l2]->0);
                    assert(orig[k].lane < l);
                }
                assert(!rs(dd) && !rs(x));
                assert(mb[l as int] is Some && assignable.contains(x));
                assert(last_time(lnt, dd) <= last_time(lnt, x));
            }
        }
    }
}

/// The mapping of one Converge timeslice: lanes with a playable note go to the lanes
/// free for more than `threshold_us` with the longest run of repeated notes (drawn at
/// random among ties; the run grows by one), then to the lanes whose last note is
/// oldest; the lanes without notes take the lanes left, at random.
fn build_time_based_map_converge(
    notes: &Vec<Note>,
    range: &core::ops::Range<usize>,
    time: i64,
    changeable: &Vec<usize>,
    assignable: &Vec<usize>,
    threshold_us: i64,
    last_note_time: &Vec<Option<i64>>,
    renda_count: &mut Vec<usize>,
    bound: usize,
    rng: &mut SmallRng,
    keys: Ghost<Seq<usize>>,
) -> (map: Vec<Option<usize>>)
    requires
        range.start <= range.end <= notes@.len(),
        within(changeable@, keys@),
        within(assignable@, keys@),
        forall|k: int| 0 <= k < keys@.len() ==> #[trigger] keys@[k] < last_note_time@.len(),
        old(renda_count)@.len() == last_note_time@.len(),
        increasing(changeable@),
        forall|l: int| 0 <= l < old(renda_count)@.len() ==> #[trigger] old(renda_count)@[l] <= bound,
        bound < usize::MAX,
    ensures
        map@.len() == last_note_time@.len(),
        maps_into(map@, keys@, keys@),
        final(renda_count)@.len() == old(renda_count)@.len(),
        forall|l: int| 0 <= l < final(renda_count)@.len() ==> #[trigger] final(renda_count)@[l] <= bound + 1,
        changeable@.no_duplicates() && assignable@.no_duplicates() && changeable@.len()
            == assignable@.len() ==> {
            &&& forall|k: int|
                0 <= k < changeable@.len() ==> (#[trigger] map@[changeable@[k] as int]) is Some
            &&& one_to_one(map@)
            &&& forall|l: int|
                0 <= l < map@.len() && (#[trigger] map@[l]) is Some ==> changeable@.contains(l as usize)
            &&& forall|l: int|
                0 <= l < map@.len() && (#[trigger] map@[l]) is Some ==> assignable@.contains(map@[l]->0)
        },
        changeable@.no_duplicates() && assignable@.no_duplicates() && changeable@.len()
            == assignable@.len() && assignable@.filter(rested(last_note_time@, time, threshold_us)).len()
            >= changeable@.filter(noted(notes@, range.start as int, range.end as int)).len()
            ==> forall|l: int|
            0 <= l < map@.len() && changeable@.contains(l as usize) && has_note_in(
                notes@,
                range.start as int,
                range.end as int,
                l as usize,
            ) ==> (#[trigger] map@[l]) is Some && rested(last_note_time@, time, threshold_us)(
                map@[l]->0,
            ),
        changeable@.no_duplicates() && assignable@.no_duplicates() && changeable@.len()
            == assignable@.len() ==> prefers_longest(
            changeable@,
            assignable@,
            notes@,
            range.start as int,
            range.end as int,
            last_note_time@,
            time,
            threshold_us,
            old(renda_count)@,
            map@,
        ),
        changeable@.no_duplicates() && assignable@.no_duplicates() && changeable@.len()
            == assignable@.len() ==> runs_grown(
            changeable@,
            notes@,
            range.start as int,
            range.end as int,
            last_note_time@,
            time,
            threshold_us,
            old(renda_count)@,
            final(renda_count)@,
            map@,
        ),
        increasing(changeable@) && changeable@.no_duplicates() && assignable@.no_duplicates()
            && changeable@.len() == assignable@.len() ==> falls_back(
            changeable@,
            assignable@,
            notes@,
            range.start as int,
            range.end as int,
            last_note_time@,
            time,
            threshold_us,
            map@,
        ),
{
    let total = last_note_time.len();
    let mut map = empty_map(total);
    let (mut note_lanes, mut empty_lanes) = split_by_notes(notes, range, changeable);
    let mut primary: Vec<usize> = Vec::new();
    let mut inferior: Vec<usize> = Vec::new();
    let mut i: usize = 0;
    let ghost good = changeable@.no_duplicates() && assignable@.no_duplicates()
        && changeable@.len() == assignable@.len();
    assert(assignable@.take(0) =~= Seq::<usize>::empty());
    while i < assignable.len()
        invariant
            i <= assignable@.len(),
            within(assignable@, keys@),
            within(primary@, keys@),
            within(inferior@, keys@),
            good == (changeable@.no_duplicates() && assignable@.no_duplicates() && changeable@.len()
                == assignable@.len()),
            good ==> splits(assignable@.take(i as int), primary@, inferior@),
            primary@ == assignable@.take(i as int).filter(rested(last_note_time@, time, threshold_us)),
        decreases assignable@.len() - i,
    {
        let al = assignable[i];
        assert(keys@.contains(assignable@[i as int]));
        let last = last_time_of(last_note_time, al);
        proof {
            assert(assignable@.take(i + 1) =~= assignable@.take(i as int).push(al));
            assignable@.take(i as int).lemma_filter_push(al, rested(last_note_time@, time, threshold_us));
        }
        if (time as i128) - (last as i128) > threshold_us as i128 {
            proof {
                if good {
                    lemma_splits_push(assignable@, primary@, inferior@, i as int, true);
                }
            }
            primary.push(al);
        } else {
            proof {
                if good {
                    lemma_splits_push(assignable@, primary@, inferior@, i as int, false);
                }
            }
            inferior.push(al);
        }
        i = i + 1;
    }
    assert(assignable@.take(assignable@.len() as int) =~= assignable@);
    proof {
        assert forall|k: int| 0 <= k < note_lanes@.len() implies #[trigger] note_lanes@[k]
            < map@.len() by {
            assert(keys@.contains(note_lanes@[k]));
        }
        assert forall|k: int| 0 <= k < empty_lanes@.len() implies #[trigger] empty_lanes@[k]
            < map@.len() by {
            assert(keys@.contains(empty_lanes@[k]));
        }
    }
    let ghost m0 = map@;
    let ghost n0 = note_lanes@;
    let ghost e0 = empty_lanes@;
    let ghost pr0 = primary@;
    let ghost in0 = inferior@;
    let ghost rcA = renda_count@;
    assign_most_repeated(&mut map, &mut note_lanes, &mut primary, renda_count, bound, rng, keys, keys);
    let ghost rcB = renda_count@;
    let ghost m1 = map@;
    let ghost n1 = note_lanes@;
    let ghost pr1 = primary@;
    assign_least_recent(&mut map, &mut note_lanes, &mut inferior, last_note_time, rng, keys, keys);
    let ghost m2 = map@;
    let ghost n2 = note_lanes@;
    let ghost in1 = inferior@;
    append_lanes(&mut primary, &inferior, keys);
    let ghost pool = primary@;
    assign_random(&mut map, &mut empty_lanes, &mut primary, rng, keys, keys);
    proof {
        if good {
            assert forall|k: int| 0 <= k < changeable@.len() implies #[trigger] changeable@[k] < m0.len() by {
                assert(keys@.contains(changeable@[k]));
            }
            lemma_three_phases(
                changeable@,
                assignable@,
                m0,
                n0,
                e0,
                pr0,
                in0,
                m1,
                n1,
                pr1,
                m2,
                n2,
                in1,
                pool,
                map@,
                empty_lanes@,
                primary@,
            );
            if increasing(changeable@) {
                lemma_fallback_phases(
                    changeable@,
                    assignable@,
                    notes@,
                    range.start as int,
                    range.end as int,
                    last_note_time@,
                    time,
                    threshold_us,
                    m0,
                    n0,
                    pr0,
                    in0,
                    m1,
                    n1,
                    pr1,
                    m2,
                    n2,
                    in1,
                    map@,
                );
            }
            let nt = noted(notes@, range.start as int, range.end as int);
            let rs = rested(last_note_time@, time, threshold_us);
            lemma_converge_phases(
                changeable@,
                assignable@,
                notes@,
                range.start as int,
                range.end as int,
                last_note_time@,
                time,
                threshold_us,
                rcA,
                rcB,
                m0,
                n0,
                pr0,
                in0,
                m1,
                n1,
                pr1,
                map@,
            );
            if pr0.len() >= n0.len() {
                assert forall|l: int|
                    0 <= l < map@.len() && changeable@.contains(l as usize) && has_note_in(
                        notes@,
                        range.start as int,
                        range.end as int,
                        l as usize,
                    ) implies (#[trigger] map@[l]) is Some && rs(map@[l]->0) by {
                    let c = choose|c: int| 0 <= c < changeable@.len() && changeable@[c] == l as usize;
                    changeable@.lemma_filter_contains(nt, c);
                    let k = choose|k: int| 0 <= k < n0.len() && n0[k] == l as usize;
                    assert(pr0.contains(map@[n0[k] as int]->0));
                    let q = choose|q: int| 0 <= q < pr0.len() && pr0[q] == map@[n0[k] as int]->0;
                    assignable@.lemma_filter_pred(rs, q);
                }
            }
        }
    }
    map
}

/// One timeslice of Converge: the mapping sends the free key lanes one to one to key
/// lanes that no held long note was moved to, with the lanes with notes on rested lanes
/// whenever there are enough; the shuffle's invariant moves one timeslice further.
#[verifier::spinoff_prover]
#[verifier::rlimit(100)]
proof fn lemma_converge_step(
    orig: Seq<Note>,
    cur: Seq<Note>,
    nxt: Seq<Note>,
    keys: Seq<usize>,
    groups: Seq<(i64, core::ops::Range<usize>)>,
    g: int,
    total: int,
    la: Seq<Option<usize>>,
    lnew: Seq<Option<usize>>,
    lnt: Seq<Option<i64>>,
    lnt2: Seq<Option<i64>>,
    mb: Seq<Option<usize>>,
    mf: Seq<Option<usize>>,
    changeable: Seq<usize>,
    assignable: Seq<usize>,
    threshold: i64,
)
    requires
        slices_of(orig, groups),
        0 <= g < groups.len(),
        forall|gg: int|
            0 <= gg < groups.len() ==> #[trigger] groups[gg].1.end == slice_start(
                groups,
                gg + 1,
                orig.len(),
            ),
        slice_start(groups, 0, orig.len()) == 0,
        shuffled_upto(orig, cur, keys, slice_start(groups, g, orig.len())),
        0 <= total <= usize::MAX,
        la.len() == total,
        lnew.len() == total,
        lnt.len() == total,
        lnt2.len() == total,
        mb.len() == total,
        mf.len() == total,
        increasing(keys),
        keys.no_duplicates(),
        forall|k: int| 0 <= k < keys.len() ==> #[trigger] keys[k] < total,
        maps_into(la, keys, keys),
        one_to_one(la),
        forall|l: int|
            0 <= l < total ==> (#[trigger] la[l]) is Some == (keys.contains(l as usize) && flips(
                orig.take(slice_start(groups, g, orig.len())),
                l as usize,
            )),
        forall|i: int, j: int|
            0 <= i < j < slice_start(groups, g, orig.len()) && #[trigger] same_slice(orig, i, j)
                && orig[i].lane != orig[j].lane && !held_at(orig, keys, i, orig[i].lane) && !held_at(
                orig,
                keys,
                i,
                orig[j].lane,
            ) ==> cur[i].lane != #[trigger] cur[j].lane,
        forall|d: usize|
            #[trigger] keys.contains(d) ==> last_time(lnt, d) == last_on(cur, slice_start(groups, g, orig.len()), d),
        forall|i: int|
            0 <= i < slice_start(groups, g, orig.len()) ==> #[trigger] rests_on_open_lane(orig, cur, keys, threshold, i),
        forall|i: int| 0 <= i < slice_start(groups, g, orig.len()) ==> #[trigger] off_held_note(orig, cur, keys, i),
        forall|d: usize|
            #[trigger] keys.contains(d) ==> flips(cur.take(slice_start(groups, g, orig.len())), d) == held_dest(
                la,
            )(d),
        changeable == keys.filter(unheld(la)),
        forall|x: usize|
            #[trigger] changeable.contains(x) <==> (keys.contains(x) && !(x < la.len() && la[x as int] is Some)),
        assignable == keys.filter(free_dest(la)),
        changeable.no_duplicates(),
        assignable.no_duplicates(),
        changeable.len() == assignable.len(),
        forall|k: int| 0 <= k < changeable.len() ==> (#[trigger] mb[changeable[k] as int]) is Some,
        one_to_one(mb),
        forall|l: int| 0 <= l < mb.len() && (#[trigger] mb[l]) is Some ==> changeable.contains(l as usize),
        forall|l: int| 0 <= l < mb.len() && (#[trigger] mb[l]) is Some ==> assignable.contains(mb[l]->0),
        assignable.filter(rested(lnt, groups[g].0, threshold)).len() >= changeable.filter(
            noted(cur, groups[g].1.start as int, groups[g].1.end as int),
        ).len() ==> forall|l: int|
            0 <= l < mb.len() && changeable.contains(l as usize) && has_note_in(
                cur,
                groups[g].1.start as int,
                groups[g].1.end as int,
                l as usize,
            ) ==> (#[trigger] mb[l]) is Some && rested(lnt, groups[g].0, threshold)(mb[l]->0),
        nxt.len() == cur.len(),
        forall|k: int|
            0 <= k < cur.len() && !(groups[g].1.start <= k < groups[g].1.end) ==> #[trigger] nxt[k]
                == cur[k],
        forall|k: int|
            groups[g].1.start <= k < groups[g].1.end ==> #[trigger] nxt[k] == with_lane(
                cur[k],
                moved(mf, cur[k].lane),
            ),
        maps_into(mf, keys, keys),
        maps_into(lnew, keys, keys),
        forall|l: int|
            0 <= l < total ==> #[trigger] mf[l] == if la[l] is Some {
                la[l]
            } else {
                mb[l]
            },
        forall|l: int|
            0 <= l < total ==> (#[trigger] lnew[l]) is Some == if mf[l] is Some {
                (la[l] is Some) != flips(
                    cur.subrange(groups[g].1.start as int, groups[g].1.end as int),
                    l as usize,
                )
            } else {
                la[l] is Some
            },
        forall|l: int| 0 <= l < total && (#[trigger] lnew[l]) is Some ==> lnew[l] == mf[l],
        forall|d: int|
            0 <= d < mf.len() ==> if exists|k: int|
                groups[g].1.start <= k < groups[g].1.end && #[trigger] lands_on(cur, mf, k, d as usize) {
                exists|k: int|
                    groups[g].1.start <= k < groups[g].1.end && #[trigger] lands_on(cur, mf, k, d as usize)
                        && lnt2[d] == Some(cur[k].time_us)
            } else {
                #[trigger] lnt2[d] == lnt[d]
            },
    ensures
        shuffled_upto(orig, nxt, keys, slice_start(groups, g + 1, orig.len())),
        forall|l: int|
            0 <= l < total ==> (#[trigger] lnew[l]) is Some == (keys.contains(l as usize) && flips(
                orig.take(slice_start(groups, g + 1, orig.len())),
                l as usize,
            )),
        forall|i: int, j: int|
            0 <= i < j < slice_start(groups, g + 1, orig.len()) && #[trigger] same_slice(orig, i, j)
                && orig[i].lane != orig[j].lane && !held_at(orig, keys, i, orig[i].lane) && !held_at(
                orig,
                keys,
                i,
                orig[j].lane,
            ) ==> nxt[i].lane != #[trigger] nxt[j].lane,
        forall|d: usize|
            #[trigger] keys.contains(d) ==> last_time(lnt2, d) == last_on(nxt, slice_start(groups, g + 1, orig.len()), d),
        forall|i: int|
            0 <= i < slice_start(groups, g + 1, orig.len()) ==> #[trigger] rests_on_open_lane(orig, nxt, keys, threshold, i),
        forall|i: int| 0 <= i < slice_start(groups, g + 1, orig.len()) ==> #[trigger] off_held_note(orig, nxt, keys, i),
        one_to_one(lnew),
        forall|d: usize|
            #[trigger] keys.contains(d) ==> flips(nxt.take(slice_start(groups, g + 1, orig.len())), d) == held_dest(
                lnew,
            )(d),
{
    let s0 = groups[g].1.start as int;
    let e0 = groups[g].1.end as int;
    assert(s0 == slice_start(groups, g, orig.len()));
    assert(e0 == slice_start(groups, g + 1, orig.len()));
    assert forall|l: int| 0 <= l < total implies ((#[trigger] mb[l]) is Some == (keys.contains(
        l as usize,
    ) && la[l] is None)) by {
        if keys.contains(l as usize) && la[l] is None {
            assert(changeable.contains(l as usize));
            let k = choose|k: int| 0 <= k < changeable.len() && changeable[k] == l as usize;
            assert(mb[changeable[k] as int] is Some);
        }
        if mb[l] is Some {
            assert(changeable.contains(l as usize));
        }
    }
    assert(shuffled_upto(orig, nxt, keys, e0) && (forall|l: int|
        0 <= l < total ==> (#[trigger] lnew[l]) is Some == (keys.contains(l as usize) && flips(orig.take(e0), l as usize)))
        && (forall|i: int, j: int|
        0 <= i < j < e0 && #[trigger] same_slice(orig, i, j) && orig[i].lane != orig[j].lane && !held_at(
            orig,
            keys,
            i,
            orig[i].lane,
        ) && !held_at(orig, keys, i, orig[j].lane) ==> nxt[i].lane != #[trigger] nxt[j].lane)) by {
        lemma_slice_apart(orig, cur, nxt, keys, groups, g, total, la, lnew, mb, mf);
    }
    assert(one_to_one(lnew) && (forall|d: usize|
        #[trigger] keys.contains(d) ==> flips(nxt.take(e0), d) == held_dest(lnew)(d)) && (forall|i: int|
        s0 <= i < e0 ==> #[trigger] off_held_note(orig, nxt, keys, i))) by {
        lemma_slice_apart(orig, cur, nxt, keys, groups, g, total, la, lnew, mb, mf);
        assert forall|l: int| 0 <= l < total && (#[trigger] mb[l]) is Some implies free_dest(la)(mb[l]->0) by {
            assert(assignable.contains(mb[l]->0));
            let q = choose|q: int| 0 <= q < assignable.len() && assignable[q] == mb[l]->0;
            keys.lemma_filter_pred(free_dest(la), q);
        }
        lemma_slice_held(orig, cur, nxt, keys, groups, g, total, la, lnew, mb, mf);
    }
    assert(forall|d: usize| #[trigger] keys.contains(d) ==> last_time(lnt2, d) == last_on(nxt, e0, d)) by {
        lemma_slice_apart(orig, cur, nxt, keys, groups, g, total, la, lnew, mb, mf);
        lemma_last_times_step(orig, cur, nxt, keys, groups, g, total, lnt, lnt2, mf);
    }
    assert(forall|i: int| s0 <= i < e0 ==> #[trigger] rests_on_open_lane(orig, nxt, keys, threshold, i)) by {
        lemma_slice_rested_open(orig, cur, nxt, keys, groups, g, total, la, lnt, mb, mf, threshold);
    }
    assert forall|i: int| 0 <= i < e0 implies #[trigger] rests_on_open_lane(orig, nxt, keys, threshold, i) by {
        if i < s0 {
            lemma_open_prefix(orig, cur, nxt, keys, threshold, i, s0);
        }
    }
    assert forall|i: int| 0 <= i < e0 implies #[trigger] off_held_note(orig, nxt, keys, i) by {
        if i < s0 {
            lemma_open_prefix(orig, cur, nxt, keys, threshold, i, s0);
        }
    }
}

/// Converge: S-Random that prefers, among the lanes free for more than
/// `threshold_us`, those with the longest run of repeated notes; a run ends when its
/// lane stays free for more than twice the threshold. Notes of one timeslice on
/// different lanes not held by a long note get different lanes, no such note joins a
/// lane that a long note holds, every note goes to a lane rested longer than the
/// threshold whenever enough lanes that no long note holds are, a note that goes to a
/// rested lane goes to one with the longest run (see `converges_note`), and one that
/// does not goes to the lane hit longest ago (see `falls_back_note`).
#[verifier::spinoff_prover]
#[verifier::rlimit(60)]
pub fn converge(
    notes: &mut Vec<Note>,
    mode: PlayMode,
    player: usize,
    include_scratch: bool,
    threshold_us: i64,
    rng: &mut SmallRng,
)
    ensures
        note_shuffled(old(notes)@, final(notes)@, keys_of(mode, player as int, include_scratch)),
        apart_in_slices(old(notes)@, final(notes)@, keys_of(mode, player as int, include_scratch)),
        avoids_held(old(notes)@, final(notes)@, keys_of(mode, player as int, include_scratch)),
        avoids_recent_open(
            old(notes)@,
            final(notes)@,
            keys_of(mode, player as int, include_scratch),
            threshold_us,
        ),
        forall|i: int|
            0 <= i < old(notes)@.len() ==> #[trigger] converges_note(
                old(notes)@,
                final(notes)@,
                keys_of(mode, player as int, include_scratch),
                threshold_us,
                i,
            ),
        falls_back_all(old(notes)@, final(notes)@, keys_of(mode, player as int, include_scratch), threshold_us),
{
    let keys = get_keys(mode, player, include_scratch);
    proof {
        lemma_keys_of(mode, player as int, include_scratch);
    }
    let total = mode.lane_count();
    if keys.len() == 0 {
        proof {
            lemma_upto_done(notes@, notes@, keys@);
        }
        return;
    }
    let threshold2: i128 = (threshold_us as i128) * 2;
    let groups = group_notes_by_time(notes);
    let (mut ln_active, mut last_note_time) = fresh_state(&keys, total);
    let mut renda_count: Vec<usize> = Vec::new();
    let mut l: usize = 0;
    while l < total
        invariant
            l <= total,
            renda_count@.len() == l,
            forall|k: int| 0 <= k < l ==> #[trigger] renda_count@[k] == 0,
        decreases total - l,
    {
        renda_count.push(0);
        l = l + 1;
    }
    let ghost orig = notes@;
    proof {
        lemma_slices_start(orig, groups@);
        assert forall|l: int| 0 <= l < total implies (#[trigger] ln_active@[l]) is Some == (keys@.contains(
            l as usize,
        ) && flips(orig.take(0), l as usize)) by {
            assert(orig.take(0) =~= Seq::<Note>::empty());
        }
        assert forall|d: usize| #[trigger] keys@.contains(d) implies flips(notes@.take(0), d) == held_dest(
            ln_active@,
        )(d) by {
            assert(notes@.take(0) =~= Seq::<Note>::empty());
        }
        assert forall|d: usize| #[trigger] keys@.contains(d) implies renda_count@[d as int] == run_count(
            orig,
            notes@,
            keys@,
            threshold_us,
            d,
            0,
        ) by {
            let q = choose|q: int| 0 <= q < keys@.len() && keys@[q] == d;
        }
        assert forall|d: usize| #[trigger] keys@.contains(d) implies last_note_time@[d as int] is Some by {
            let q = choose|q: int| 0 <= q < keys@.len() && keys@[q] == d;
        }
    }
    let mut g: usize = 0;
    while g < groups.len()
        invariant
            g <= groups@.len(),
            slices_of(orig, groups@),
            forall|gg: int|
                0 <= gg < groups@.len() ==> #[trigger] groups@[gg].1.end == slice_start(
                    groups@,
                    gg + 1,
                    orig.len(),
                ),
            shuffled_upto(orig, notes@, keys@, slice_start(groups@, g as int, orig.len())),
            ln_active@.len() == total,
            last_note_time@.len() == total,
            renda_count@.len() == total,
            forall|k: int| 0 <= k < total ==> #[trigger] renda_count@[k] <= g,
            maps_into(ln_active@, keys@, keys@),
            forall|k: int| 0 <= k < keys@.len() ==> #[trigger] keys@[k] < total,
            slice_start(groups@, 0, orig.len()) == 0,
            increasing(keys@),
            orig == old(notes)@,
            forall|l: int|
                0 <= l < total ==> (#[trigger] ln_active@[l]) is Some == (keys@.contains(l as usize)
                    && flips(orig.take(slice_start(groups@, g as int, orig.len())), l as usize)),
            forall|i: int, j: int|
                0 <= i < j < slice_start(groups@, g as int, orig.len()) && #[trigger] same_slice(
                    orig,
                    i,
                    j,
                ) && orig[i].lane != orig[j].lane && !held_at(orig, keys@, i, orig[i].lane)
                    && !held_at(orig, keys@, i, orig[j].lane) ==> notes@[i].lane != #[trigger] notes@[j].lane,
            forall|d: usize|
                #[trigger] keys@.contains(d) ==> last_time(last_note_time@, d) == last_on(
                    notes@,
                    slice_start(groups@, g as int, orig.len()),
                    d,
                ),
            forall|i: int|
                0 <= i < slice_start(groups@, g as int, orig.len()) ==> #[trigger] rests_on_open_lane(
                    orig,
                    notes@,
                    keys@,
                    threshold_us,
                    i,
                ),
            forall|i: int|
                0 <= i < slice_start(groups@, g as int, orig.len()) ==> #[trigger] off_held_note(
                    orig,
                    notes@,
                    keys@,
                    i,
                ),
            one_to_one(ln_active@),
            forall|d: usize|
                #[trigger] keys@.contains(d) ==> flips(
                    notes@.take(slice_start(groups@, g as int, orig.len())),
                    d,
                ) == held_dest(ln_active@)(d),
            threshold2 == threshold_us as i128 * 2,
            forall|d: usize| #[trigger] keys@.contains(d) ==> last_note_time@[d as int] is Some,
            forall|d: usize|
                #[trigger] keys@.contains(d) ==> renda_count@[d as int] == run_count(
                    orig,
                    notes@,
                    keys@,
                    threshold_us,
                    d,
                    slice_start(groups@, g as int, orig.len()),
                ),
            forall|i: int|
                0 <= i < slice_start(groups@, g as int, orig.len()) ==> #[trigger] falls_back_note(
                    orig,
                    notes@,
                    keys@,
                    threshold_us,
                    i,
                ),
            forall|i: int|
                0 <= i < slice_start(groups@, g as int, orig.len()) ==> #[trigger] converges_note(
                    orig,
                    notes@,
                    keys@,
                    threshold_us,
                    i,
                ),
        decreases groups@.len() - g,
    {
        let time = groups[g].0;
        let range = groups[g].1.start..groups[g].1.end;
        let mut lane: usize = 0;
        let ghost rcb = renda_count@;
        let ghost s0 = range.start as int;
        proof {
            assert(s0 == slice_start(groups@, g as int, orig.len()));
            assert(orig[s0].time_us == time);
            assert(notes@[s0] == orig[s0]);
        }
        while lane < total
            invariant
                lane <= total,
                last_note_time@.len() == total,
                renda_count@.len() == total,
                rcb.len() == total,
                forall|k: int| 0 <= k < total ==> #[trigger] renda_count@[k] <= g,
                forall|k: int| lane <= k < total ==> #[trigger] renda_count@[k] == rcb[k],
                forall|d: usize|
                    #[trigger] keys@.contains(d) ==> rcb[d as int] == run_count(orig, notes@, keys@, threshold_us, d, s0),
                forall|d: usize| #[trigger] keys@.contains(d) ==> last_note_time@[d as int] is Some,
                forall|d: usize|
                    #[trigger] keys@.contains(d) ==> last_time(last_note_time@, d) == last_on(notes@, s0, d),
                0 <= s0 < orig.len(),
                orig[s0].time_us == time,
                threshold2 == threshold_us as i128 * 2,
                forall|d: usize|
                    #[trigger] keys@.contains(d) && d < lane ==> renda_count@[d as int] == run_start(
                        orig,
                        notes@,
                        keys@,
                        threshold_us,
                        d,
                        s0,
                    ),
            decreases total - lane,
        {
            if let Some(last) = last_note_time[lane] {
                if (time as i128) - (last as i128) > threshold2 {
                    renda_count.set(lane, 0);
                }
            }
            proof {
                if keys@.contains(lane) {
                    assert(last_time(last_note_time@, lane) == last_on(notes@, s0, lane));
                }
            }
            lane = lane + 1;
        }
        let changeable = changeable_lanes(&keys, &ln_active);
        let assignable = assignable_lanes(&keys, &ln_active);
        let ghost la = ln_active@;
        proof {
            assert(changeable@.no_duplicates()) by {
                assert forall|a: int, b: int| 0 <= a < b < changeable@.len() implies changeable@[a]
                    != changeable@[b] by {
                    assert(changeable@[a] < changeable@[b]);
                }
            }
            assert(keys@.no_duplicates()) by {
                assert forall|a: int, b: int| 0 <= a < b < keys@.len() implies keys@[a] != keys@[b] by {
                    assert(keys@[a] < keys@[b]);
                }
            }
            lemma_filter_distinct(keys@, free_dest(la));
            lemma_held_balance(keys@, la);
            assert forall|k: int| 0 <= k < assignable@.len() implies keys@.contains(#[trigger] assignable@[k]) by {
                keys@.lemma_filter_pred(free_dest(la), k);
                assert(keys@.filter(free_dest(la)).contains(assignable@[k]));
                keys@.lemma_filter_contains_rev(free_dest(la), assignable@[k]);
            }
        }
        let ghost rc_r = renda_count@;
        let mut map = build_time_based_map_converge(
            notes,
            &range,
            time,
            &changeable,
            &assignable,
            threshold_us,
            &last_note_time,
            &mut renda_count,
            g,
            rng,
            Ghost(keys@),
        );
        let ghost mb = map@;
        let ghost cur = notes@;
        let ghost lnt = last_note_time@;
        let ghost rc_f = renda_count@;
        close_slice(notes, &range, &mut map, &mut ln_active, &mut last_note_time, Ghost(keys@));
        proof {
            lemma_converge_runs_step(
                orig,
                cur,
                notes@,
                keys@,
                groups@,
                g as int,
                total as int,
                la,
                lnt,
                mb,
                map@,
                changeable@,
                assignable@,
                rc_r,
                rc_f,
                threshold_us,
            );
            assert forall|d: usize| #[trigger] keys@.contains(d) implies last_note_time@[d as int] is Some by {
                let q = choose|q: int| 0 <= q < keys@.len() && keys@[q] == d;
                assert(d < total);
            }
            lemma_fallback_rule(
                orig,
                cur,
                notes@,
                keys@,
                groups@,
                g as int,
                total as int,
                la,
                lnt,
                mb,
                map@,
                changeable@,
                assignable@,
                threshold_us,
            );
            assert forall|i: int| 0 <= i < slice_start(groups@, g + 1, orig.len()) implies #[trigger] falls_back_note(
                orig,
                notes@,
                keys@,
                threshold_us,
                i,
            ) by {
                if i < range.start {
                    lemma_slice_stop_before(orig, i, range.start as int);
                    lemma_fallback_prefix(orig, cur, notes@, keys@, threshold_us, i, range.start as int);
                }
            }
            lemma_converge_step(
                orig,
                cur,
                notes@,
                keys@,
                groups@,
                g as int,
                total as int,
                la,
                ln_active@,
                lnt,
                last_note_time@,
                mb,
                map@,
                changeable@,
                assignable@,
                threshold_us,
            );
        }
        g = g + 1;
    }
    proof {
        lemma_upto_done(orig, notes@, keys@);
    }
}

/// How many notes of `notes[start..end]` are playable and on one of `keys`.
pub open spec fn count_playable(notes: Seq<Note>, start: int, end: int, keys: Seq<usize>) -> nat
    decreases end - start,
{
    if end <= start {
        0
    } else {
        count_playable(notes, start, end - 1, keys) + if keys.contains(notes[end - 1].lane)
            && notes[end - 1].note_type.playable() {
            1nat
        } else {
            0nat
        }
    }
}

/// The number of playable notes of a timeslice on the key lanes.
fn count_playable_notes(notes: &Vec<Note>, range: &core::ops::Range<usize>, keys: &Vec<usize>) -> (r: usize)
    requires
        range.start <= range.end <= notes@.len(),
    ensures
        r <= range.end - range.start,
        r == count_playable(notes@, range.start as int, range.end as int, keys@),
{
    let mut count: usize = 0;
    let mut k = range.start;
    while k < range.end
        invariant
            range.start <= k <= range.end <= notes@.len(),
            count <= k - range.start,
            count == count_playable(notes@, range.start as int, k as int, keys@),
        decreases range.end - k,
    {
        if contains_lane(keys, notes[k].lane) && is_playable(notes[k].note_type) {
            count = count + 1;
        }
        k = k + 1;
    }
    count
}

/// The mapping of one timeslice with preferred lanes: lanes with a playable note go
/// first to the preferred lanes, then to the others, at random; the lanes without notes
/// take the lanes left, at random. When the lanes to move are distinct and are the lanes
/// to move to, every one of them gets a lane, no two the same, and no other lane is moved.
fn build_time_based_map_with_preference(
    notes: &Vec<Note>,
    range: &core::ops::Range<usize>,
    changeable: &Vec<usize>,
    assignable: &Vec<usize>,
    rng: &mut SmallRng,
    preferred: &Vec<usize>,
    total: usize,
    keys: Ghost<Seq<usize>>,
) -> (map: Vec<Option<usize>>)
    requires
        range.start <= range.end <= notes@.len(),
        within(changeable@, keys@),
        within(assignable@, keys@),
        forall|k: int| 0 <= k < keys@.len() ==> #[trigger] keys@[k] < total,
    ensures
        map@.len() == total,
        maps_into(map@, keys@, keys@),
        changeable@.no_duplicates() && assignable@.no_duplicates() && changeable@.len()
            == assignable@.len() ==> {
            &&& forall|k: int|
                0 <= k < changeable@.len() ==> (#[trigger] map@[changeable@[k] as int]) is Some
            &&& one_to_one(map@)
            &&& forall|l: int|
                0 <= l < map@.len() && (#[trigger] map@[l]) is Some ==> changeable@.contains(l as usize)
            &&& forall|l: int|
                0 <= l < map@.len() && (#[trigger] map@[l]) is Some ==> assignable@.contains(map@[l]->0)
        },
        changeable@.no_duplicates() && assignable@.no_duplicates() && changeable@.len()
            == assignable@.len() && assignable@.filter(in_lanes(preferred@)).len()
            >= changeable@.filter(noted(notes@, range.start as int, range.end as int)).len()
            ==> forall|l: int|
            0 <= l < map@.len() && changeable@.contains(l as usize) && has_note_in(
                notes@,
                range.start as int,
                range.end as int,
                l as usize,
            ) ==> (#[trigger] map@[l]) is Some && preferred@.contains(map@[l]->0),
{
    let mut map = empty_map(total);
    let (mut note_lanes, mut empty_lanes) = split_by_notes(notes, range, changeable);
    let ghost inpref = in_lanes(preferred@);
    let mut primary: Vec<usize> = Vec::new();
    let mut other: Vec<usize> = Vec::new();
    let mut i: usize = 0;
    let ghost good = changeable@.no_duplicates() && assignable@.no_duplicates()
        && changeable@.len() == assignable@.len();
    assert(assignable@.take(0) =~= Seq::<usize>::empty());
    while i < assignable.len()
        invariant
            i <= assignable@.len(),
            within(assignable@, keys@),
            within(primary@, keys@),
            within(other@, keys@),
            good == (changeable@.no_duplicates() && assignable@.no_duplicates() && changeable@.len()
                == assignable@.len()),
            good ==> splits(assignable@.take(i as int), primary@, other@),
            inpref == in_lanes(preferred@),
            primary@ == assignable@.take(i as int).filter(inpref),
        decreases assignable@.len() - i,
    {
        assert(keys@.contains(assignable@[i as int]));
        proof {
            assert(assignable@.take(i + 1) =~= assignable@.take(i as int).push(assignable@[i as int]));
            assignable@.take(i as int).lemma_filter_push(assignable@[i as int], inpref);
        }
        if contains_lane(preferred, assignable[i]) {
            proof {
                if good {
                    lemma_splits_push(assignable@, primary@, other@, i as int, true);
                }
            }
            primary.push(assignable[i]);
        } else {
            proof {
                if good {
                    lemma_splits_push(assignable@, primary@, other@, i as int, false);
                }
            }
            other.push(assignable[i]);
        }
        i = i + 1;
    }
    assert(assignable@.take(assignable@.len() as int) =~= assignable@);
    proof {
        assert forall|k: int| 0 <= k < note_lanes@.len() implies #[trigger] note_lanes@[k]
            < map@.len() by {
            assert(keys@.contains(note_lanes@[k]));
        }
        assert forall|k: int| 0 <= k < empty_lanes@.len() implies #[trigger] empty_lanes@[k]
            < map@.len() by {
            assert(keys@.contains(empty_lanes@[k]));
        }
    }
    let ghost m0 = map@;
    let ghost n0 = note_lanes@;
    let ghost e0 = empty_lanes@;
    let ghost pr0 = primary@;
    let ghost in0 = other@;
    assign_random(&mut map, &mut note_lanes, &mut primary, rng, keys, keys);
    let ghost m1 = map@;
    let ghost n1 = note_lanes@;
    let ghost pr1 = primary@;
    assign_random(&mut map, &mut note_lanes, &mut other, rng, keys, keys);
    let ghost m2 = map@;
    let ghost n2 = note_lanes@;
    let ghost in1 = other@;
    append_lanes(&mut primary, &other, keys);
    let ghost pool = primary@;
    assign_random(&mut map, &mut empty_lanes, &mut primary, rng, keys, keys);
    proof {
        if good {
            assert forall|k: int| 0 <= k < changeable@.len() implies #[trigger] changeable@[k] < m0.len() by {
                assert(keys@.contains(changeable@[k]));
            }
            lemma_three_phases(
                changeable@,
                assignable@,
                m0,
                n0,
                e0,
                pr0,
                in0,
                m1,
                n1,
                pr1,
                m2,
                n2,
                in1,
                pool,
                map@,
                empty_lanes@,
                primary@,
            );
            if pr0.len() >= n0.len() {
                assert forall|l: int|
                    0 <= l < map@.len() && changeable@.contains(l as usize) && has_note_in(
                        notes@,
                        range.start as int,
                        range.end as int,
                        l as usize,
                    ) implies (#[trigger] map@[l]) is Some && preferred@.contains(map@[l]->0) by {
                    let c = choose|c: int| 0 <= c < changeable@.len() && changeable@[c] == l as usize;
                    changeable@.lemma_filter_contains(noted(notes@, range.start as int, range.end as int), c);
                    let k = choose|k: int| 0 <= k < n0.len() && n0[k] == l as usize;
                    assert(map@[n0[k] as int] is Some && pr0.contains(map@[n0[k] as int]->0));
                    let q = choose|q: int| 0 <= q < pr0.len() && pr0[q] == map@[l]->0;
                    assignable@.lemma_filter_pred(inpref, q);
                }
            }
        }
    }
    map
}

/// Whether a lane is one of `lanes`.
pub open spec fn in_lanes(lanes: Seq<usize>) -> spec_fn(usize) -> bool {
    |x: usize| lanes.contains(x)
}

/// Filtering a list of distinct lanes keeps them distinct.
proof fn lemma_filter_distinct(s: Seq<usize>, p: spec_fn(usize) -> bool)
    requires
        s.no_duplicates(),
    ensures
        s.filter(p).no_duplicates(),
    decreases s.len(),
{
    if s.len() > 0 {
        let t = s.drop_last();
        let x = s.last();
        assert(s =~= t.push(x));
        assert(t.no_duplicates()) by {
            assert forall|a: int, b: int| 0 <= a < b < t.len() implies t[a] != t[b] by {
                assert(t[a] == s[a] && t[b] == s[b]);
            }
        }
        lemma_filter_distinct(t, p);
        t.lemma_filter_push(x, p);
        if p(x) {
            let f = t.filter(p);
            if f.contains(x) {
                t.lemma_filter_contains_rev(p, x);
                let k = choose|k: int| 0 <= k < t.len() && t[k] == x;
                assert(s[k] == s[s.len() - 1]);
            }
            assert forall|a: int, b: int| 0 <= a < b < f.push(x).len() implies f.push(x)[a] != f.push(x)[b] by {
                if b == f.len() {
                    assert(f.push(x)[a] == f[a]);
                }
            }
        }
    } else {
        reveal(Seq::filter);
    }
}

/// Filtering with two tests that agree on every element gives the same list.
proof fn lemma_filter_same(s: Seq<usize>, p: spec_fn(usize) -> bool, q: spec_fn(usize) -> bool)
    requires
        forall|i: int| 0 <= i < s.len() ==> p(#[trigger] s[i]) == q(s[i]),
    ensures
        s.filter(p) == s.filter(q),
    decreases s.len(),
{
    if s.len() > 0 {
        let t = s.drop_last();
        let x = s.last();
        assert(s =~= t.push(x));
        assert forall|i: int| 0 <= i < t.len() implies p(#[trigger] t[i]) == q(t[i]) by {
            assert(t[i] == s[i]);
        }
        lemma_filter_same(t, p, q);
        t.lemma_filter_push(x, p);
        t.lemma_filter_push(x, q);
        assert(s[s.len() - 1] == x);
    } else {
        reveal(Seq::filter);
    }
}

/// Keeping, of distinct lanes, those in a list `q` of distinct lanes all among them keeps
/// at least as many lanes as `q` has.
proof fn lemma_filter_covers(k: Seq<usize>, q: Seq<usize>)
    requires
        k.no_duplicates(),
        q.no_duplicates(),
        within(q, k),
    ensures
        k.filter(in_lanes(q)).len() >= q.len(),
{
    let f = k.filter(in_lanes(q));
    lemma_filter_distinct(k, in_lanes(q));
    f.unique_seq_to_set();
    q.unique_seq_to_set();
    assert forall|x: usize| q.to_set().contains(x) implies f.to_set().contains(x) by {
        let a = choose|a: int| 0 <= a < q.len() && q[a] == x;
        assert(k.contains(q[a]));
        let c = choose|c: int| 0 <= c < k.len() && k[c] == x;
        k.lemma_filter_contains(in_lanes(q), c);
    }
    vstd::set_lib::lemma_len_subset(q.to_set(), f.to_set());
}

/// A list of distinct lanes holds at most as many lanes with a playable note in
/// `notes[start..end]` as the playable notes there on its lanes.
proof fn lemma_noted_count(notes: Seq<Note>, start: int, end: int, k: Seq<usize>)
    requires
        k.no_duplicates(),
        start <= end,
    ensures
        k.filter(noted(notes, start, end)).len() <= count_playable(notes, start, end, k),
    decreases end - start,
{
    let a = k.filter(noted(notes, start, end));
    lemma_filter_distinct(k, noted(notes, start, end));
    a.unique_seq_to_set();
    if end > start {
        lemma_noted_count(notes, start, end - 1, k);
        let b = k.filter(noted(notes, start, end - 1));
        lemma_filter_distinct(k, noted(notes, start, end - 1));
        b.unique_seq_to_set();
        let x = notes[end - 1].lane;
        let counts = k.contains(x) && notes[end - 1].note_type.playable();
        assert forall|y: usize| a.to_set().contains(y) implies (if counts {
            b.to_set().insert(x)
        } else {
            b.to_set()
        }).contains(y) by {
            k.lemma_filter_contains_rev(noted(notes, start, end), y);
            let ia = choose|ia: int| 0 <= ia < a.len() && a[ia] == y;
            k.lemma_filter_pred(noted(notes, start, end), ia);
            let w = choose|w: int|
                start <= w < end && notes[w].lane == y && (#[trigger] notes[w]).note_type.playable();
            if w < end - 1 {
                assert(has_note_in(notes, start, end - 1, y));
                let c = choose|c: int| 0 <= c < k.len() && k[c] == y;
                k.lemma_filter_contains(noted(notes, start, end - 1), c);
            }
        }
        if counts {
            vstd::set_lib::lemma_len_subset(a.to_set(), b.to_set().insert(x));
        } else {
            vstd::set_lib::lemma_len_subset(a.to_set(), b.to_set());
        }
    } else {
        if a.len() > 0 {
            k.lemma_filter_pred(noted(notes, start, end), 0);
        }
    }
}

/// A filter and the filter by the opposite test together keep every element once.
proof fn lemma_filter_split(s: Seq<usize>, p: spec_fn(usize) -> bool, q: spec_fn(usize) -> bool)
    requires
        forall|x: usize| #[trigger] q(x) == !p(x),
    ensures
        s.filter(p).len() + s.filter(q).len() == s.len(),
    decreases s.len(),
{
    if s.len() > 0 {
        let t = s.drop_last();
        assert(s =~= t.push(s.last()));
        lemma_filter_split(t, p, q);
        t.lemma_filter_push(s.last(), p);
        t.lemma_filter_push(s.last(), q);
    } else {
        reveal(Seq::filter);
    }
}

/// With the held lanes moved one to one onto key lanes, as many key lanes are free of a
/// held long note as are free of a held long note's new lane.
proof fn lemma_held_balance(keys: Seq<usize>, la: Seq<Option<usize>>)
    requires
        keys.no_duplicates(),
        maps_into(la, keys, keys),
        one_to_one(la),
        la.len() <= usize::MAX,
    ensures
        keys.filter(unheld(la)).len() == keys.filter(free_dest(la)).len(),
{
    let src = |l: usize| l < la.len() && la[l as int] is Some;
    let dst = held_dest(la);
    lemma_filter_split(keys, src, unheld(la));
    lemma_filter_split(keys, dst, free_dest(la));
    let a = keys.filter(src);
    let b = keys.filter(dst);
    lemma_filter_distinct(keys, src);
    lemma_filter_distinct(keys, dst);
    a.unique_seq_to_set();
    b.unique_seq_to_set();
    let f = |l: usize| la[l as int]->0;
    assert forall|x: usize| #[trigger] a.to_set().map(f).contains(x) <==> b.to_set().contains(x) by {
        if a.to_set().map(f).contains(x) {
            let l = choose|l: usize| a.to_set().contains(l) && f(l) == x;
            keys.lemma_filter_contains_rev(src, l);
            let i = choose|i: int| 0 <= i < a.len() && a[i] == l;
            keys.lemma_filter_pred(src, i);
            assert(la[l as int] == Some(x));
            assert(keys.contains(x));
            let c = choose|c: int| 0 <= c < keys.len() && keys[c] == x;
            keys.lemma_filter_contains(dst, c);
        }
        if b.to_set().contains(x) {
            let i = choose|i: int| 0 <= i < b.len() && b[i] == x;
            keys.lemma_filter_pred(dst, i);
            let l = choose|l: int| 0 <= l < la.len() && la[l] == Some(x);
            assert(keys.contains(l as usize));
            let c = choose|c: int| 0 <= c < keys.len() && keys[c] == l as usize;
            keys.lemma_filter_contains(src, c);
            assert(a.to_set().contains(l as usize) && f(l as usize) == x);
        }
    }
    assert(a.to_set().map(f) =~= b.to_set());
    assert(vstd::relations::injective_on(f, a.to_set())) by {
        assert forall|x1: usize, x2: usize|
            a.to_set().contains(x1) && a.to_set().contains(x2) && #[trigger] f(x1) == #[trigger] f(x2)
                implies x1 == x2 by {
            let i1 = choose|i: int| 0 <= i < a.len() && a[i] == x1;
            let i2 = choose|i: int| 0 <= i < a.len() && a[i] == x2;
            keys.lemma_filter_pred(src, i1);
            keys.lemma_filter_pred(src, i2);
        }
    }
    vstd::set_lib::lemma_map_size(a.to_set(), b.to_set(), f);
}

/// Under a mapping that moves every key lane, one to one onto key lanes, and no other
/// lane, a key lane holds as many long notes of the moved notes as the lane moved to it
/// held before; a key lane that no lane moves to holds none.
proof fn lemma_flips_moved(a: Seq<Note>, b: Seq<Note>, mf: Seq<Option<usize>>, keys: Seq<usize>, d: usize)
    requires
        b.len() == a.len(),
        mf.len() <= usize::MAX,
        forall|k: int| 0 <= k < a.len() ==> #[trigger] b[k] == with_lane(a[k], moved(mf, a[k].lane)),
        one_to_one(mf),
        maps_into(mf, keys, keys),
        forall|l: int| 0 <= l < mf.len() ==> ((#[trigger] mf[l]) is Some == keys.contains(l as usize)),
        forall|k: int| 0 <= k < keys.len() ==> #[trigger] keys[k] < mf.len(),
        keys.contains(d),
    ensures
        forall|l: int| 0 <= l < mf.len() && #[trigger] mf[l] == Some(d) ==> flips(b, d) == flips(a, l as usize),
        (forall|l: int| 0 <= l < mf.len() ==> #[trigger] mf[l] != Some(d)) ==> !flips(b, d),
    decreases a.len(),
{
    let kd = choose|k: int| 0 <= k < keys.len() && keys[k] == d;
    if a.len() > 0 {
        let a0 = a.drop_last();
        let b0 = b.drop_last();
        assert forall|k: int| 0 <= k < a0.len() implies #[trigger] b0[k] == with_lane(a0[k], moved(mf, a0[k].lane)) by {
            assert(b[k] == with_lane(a[k], moved(mf, a[k].lane)));
        }
        lemma_flips_moved(a0, b0, mf, keys, d);
        let n = a.last();
        assert(b.last() == with_lane(n, moved(mf, n.lane)));
        let ln = n.lane;
        if ln < mf.len() && mf[ln as int] is Some {
            assert(keys.contains(mf[ln as int]->0));
        } else {
            if ln < mf.len() {
                assert(!keys.contains(ln));
            }
        }
        assert(d < mf.len());
        assert(b.drop_last() =~= b0 && a.drop_last() =~= a0);
        assert forall|l: int| 0 <= l < mf.len() && #[trigger] mf[l] == Some(d) implies flips(b, d) == flips(
            a,
            l as usize,
        ) by {
            assert(keys.contains(l as usize));
            if ln as int == l {
                assert(moved(mf, ln) == d);
            } else {
                if ln < mf.len() && mf[ln as int] is Some {
                    assert(mf[ln as int]->0 != d);
                } else if ln < mf.len() {
                    assert(ln != d);
                }
                assert(moved(mf, ln) != d);
                assert(ln != l as usize);
            }
        }
        if forall|l: int| 0 <= l < mf.len() ==> #[trigger] mf[l] != Some(d) {
            if ln < mf.len() && mf[ln as int] is Some {
                assert(mf[ln as int] != Some(d));
            } else if ln < mf.len() {
                assert(ln != d);
            }
            assert(moved(mf, ln) != d);
        }
    }
}

/// The playable-note count depends on which lanes the list holds only.
proof fn lemma_count_playable_lanes(notes: Seq<Note>, start: int, end: int, k1: Seq<usize>, k2: Seq<usize>)
    requires
        forall|x: usize| #[trigger] k1.contains(x) == k2.contains(x),
    ensures
        count_playable(notes, start, end, k1) == count_playable(notes, start, end, k2),
    decreases end - start,
{
    if end > start {
        lemma_count_playable_lanes(notes, start, end - 1, k1, k2);
        assert(k1.contains(notes[end - 1].lane) == k2.contains(notes[end - 1].lane));
    }
}

/// The first `n` lanes of the nine-button mode are all among its key lanes from 0.
proof fn lemma_nine_keys(include_scratch: bool, n: int)
    requires
        0 <= n <= 9,
    ensures
        forall|x: usize| x < n ==> #[trigger] lanes_from(PlayMode::PopN9K, include_scratch, 0, n).contains(x),
    decreases n,
{
    if n > 0 {
        lemma_nine_keys(include_scratch, n - 1);
        let prev = lanes_from(PlayMode::PopN9K, include_scratch, 0, n - 1);
        assert(lanes_from(PlayMode::PopN9K, include_scratch, 0, n) == prev.push((n - 1) as usize));
        assert forall|x: usize| x < n implies #[trigger] lanes_from(PlayMode::PopN9K, include_scratch, 0, n).contains(x) by {
            if x < n - 1 {
                assert(prev.contains(x));
                let k = choose|k: int| 0 <= k < prev.len() && prev[k] == x;
                assert(prev.push((n - 1) as usize)[k] == x);
            } else {
                assert(prev.push((n - 1) as usize)[prev.len() as int] == x);
            }
        }
    }
}

/// The six-button sets of the nine-button mode that hold no impossible chord.
pub open spec fn button_sets() -> Seq<Seq<usize>> {
    seq![
        seq![0usize, 1, 2, 3, 4, 5],
        seq![0usize, 1, 2, 4, 5, 6],
        seq![0usize, 1, 2, 5, 6, 7],
        seq![0usize, 1, 2, 6, 7, 8],
        seq![1usize, 2, 3, 4, 5, 6],
        seq![1usize, 2, 3, 5, 6, 7],
        seq![1usize, 2, 3, 6, 7, 8],
        seq![2usize, 3, 4, 5, 6, 7],
        seq![2usize, 3, 4, 6, 7, 8],
        seq![3usize, 4, 5, 6, 7, 8],
    ]
}

/// Every button set lists six lanes below nine, in increasing order.
proof fn lemma_button_sets()
    ensures
        forall|b: int, x: int, y: int|
            0 <= b < button_sets().len() && 0 <= x < y < button_sets()[b].len() ==> #[trigger] button_sets()[b][x]
                < #[trigger] button_sets()[b][y],
        forall|b: int, x: int|
            0 <= b < button_sets().len() && 0 <= x < button_sets()[b].len() ==> #[trigger] button_sets()[b][x] < 9,
        forall|b: int| 0 <= b < button_sets().len() ==> (#[trigger] button_sets()[b]).no_duplicates(),
{
    assert(button_sets().len() == 10);
    assert forall|b: int, x: int, y: int|
        0 <= b < button_sets().len() && 0 <= x < y < button_sets()[b].len() implies #[trigger] button_sets()[b][x]
            < #[trigger] button_sets()[b][y] by {
        assert(button_sets()[b].len() == 6);
    }
    assert forall|b: int| 0 <= b < button_sets().len() implies (#[trigger] button_sets()[b]).no_duplicates() by {
        assert forall|x: int, y: int| 0 <= x < y < button_sets()[b].len() implies button_sets()[b][x]
            != button_sets()[b][y] by {
            assert(button_sets()[b][x] < button_sets()[b][y]);
        }
    }
}

/// The lanes whose last note in `new` before `start` is at least `threshold` before
/// `time`.
pub open spec fn quiet(new: Seq<Note>, start: int, time: i64, threshold: i64) -> spec_fn(usize) -> bool {
    |lane: usize| time - last_on(new, start, lane) >= threshold
}

/// The lanes of button set `b` whose last note in `new` before `start` is at least
/// `threshold` before `time`.
pub open spec fn quiet_buttons(new: Seq<Note>, start: int, time: i64, threshold: i64, b: int) -> Seq<usize> {
    button_sets()[b].filter(quiet(new, start, time, threshold))
}

/// For the timeslice of note `i`: when it starts with no key lane held and has three to
/// six playable notes on key lanes, and some button set keeps at least that many lanes
/// whose last note in `new` is at least `threshold` before it, then all those notes go to
/// such lanes of one such button set.
pub open spec fn prefers_note(old: Seq<Note>, new: Seq<Note>, keys: Seq<usize>, threshold: i64, i: int) -> bool {
    let s = slice_begin(old, i);
    let e = slice_stop(old, i);
    let t = old[i].time_us;
    let n = count_playable(old, s, e, keys);
    free_start(old, keys, s) && 3 <= n <= 6 && (exists|b: int|
        0 <= b < button_sets().len() && (#[trigger] quiet_buttons(new, s, t, threshold, b)).len() >= n)
        ==> exists|b: int|
        0 <= b < button_sets().len() && (#[trigger] quiet_buttons(new, s, t, threshold, b)).len() >= n
            && forall|j: int|
            s <= j < e && (#[trigger] old[j]).note_type.playable() && keys.contains(old[j].lane)
                ==> quiet_buttons(new, s, t, threshold, b).contains(new[j].lane)
}

/// A timeslice ends no later than a boundary between two note times after its note.
proof fn lemma_slice_stop_before(s: Seq<Note>, i: int, b: int)
    requires
        0 <= i < b <= s.len(),
        b == s.len() || s[b - 1].time_us != s[b].time_us,
    ensures
        slice_stop(s, i) <= b,
    decreases b - i,
{
    if i + 1 < b {
        lemma_slice_stop_before(s, i + 1, b);
    }
}

/// No key lane is held when none flips before `start`.
proof fn lemma_held_count_zero(old: Seq<Note>, keys: Seq<usize>, start: int, n: int)
    requires
        forall|l: usize| #[trigger] keys.contains(l) ==> !flips(old.take(start), l),
    ensures
        held_count(old, keys, start, n) == 0,
    decreases n,
{
    if n > 0 {
        lemma_held_count_zero(old, keys, start, n - 1);
    }
}

/// Whether a note goes to a preferred lane depends on the shuffled notes before its
/// timeslice ends only.
proof fn lemma_prefers_prefix(old: Seq<Note>, a: Seq<Note>, b: Seq<Note>, keys: Seq<usize>, threshold: i64, i: int, upto: int)
    requires
        0 <= i < upto <= a.len(),
        upto <= b.len(),
        slice_stop(old, i) <= upto,
        forall|k: int| 0 <= k < upto ==> #[trigger] a[k] == b[k],
    ensures
        prefers_note(old, a, keys, threshold, i) == prefers_note(old, b, keys, threshold, i),
{
    let si = slice_begin(old, i);
    lemma_slice_begin_bounds(old, i);
    assert forall|d: usize| #[trigger] last_on(a, si, d) == last_on(b, si, d) by {
        lemma_last_on_prefix(a, b, si, d);
    }
    let t = old[i].time_us;
    assert(quiet(a, si, t, threshold) =~= quiet(b, si, t, threshold));
    let n = count_playable(old, si, slice_stop(old, i), keys);
    if exists|c: int| 0 <= c < button_sets().len() && (#[trigger] quiet_buttons(a, si, t, threshold, c)).len() >= n {
        let c = choose|c: int| 0 <= c < button_sets().len() && (#[trigger] quiet_buttons(a, si, t, threshold, c)).len() >= n;
        assert(quiet_buttons(b, si, t, threshold, c) == quiet_buttons(a, si, t, threshold, c));
    }
    if exists|c: int| 0 <= c < button_sets().len() && (#[trigger] quiet_buttons(b, si, t, threshold, c)).len() >= n {
        let c = choose|c: int| 0 <= c < button_sets().len() && (#[trigger] quiet_buttons(b, si, t, threshold, c)).len() >= n;
        assert(quiet_buttons(b, si, t, threshold, c) == quiet_buttons(a, si, t, threshold, c));
    }
    let e = slice_stop(old, i);
    if exists|c: int|
        0 <= c < button_sets().len() && (#[trigger] quiet_buttons(a, si, t, threshold, c)).len() >= n
            && forall|j: int|
            si <= j < e && (#[trigger] old[j]).note_type.playable() && keys.contains(old[j].lane)
                ==> quiet_buttons(a, si, t, threshold, c).contains(a[j].lane) {
        let c = choose|c: int|
            0 <= c < button_sets().len() && (#[trigger] quiet_buttons(a, si, t, threshold, c)).len() >= n
                && forall|j: int|
                si <= j < e && (#[trigger] old[j]).note_type.playable() && keys.contains(old[j].lane)
                    ==> quiet_buttons(a, si, t, threshold, c).contains(a[j].lane);
        assert(quiet_buttons(b, si, t, threshold, c) == quiet_buttons(a, si, t, threshold, c));
        assert forall|j: int|
            si <= j < e && (#[trigger] old[j]).note_type.playable() && keys.contains(old[j].lane)
                implies quiet_buttons(b, si, t, threshold, c).contains(b[j].lane) by {
            assert(a[j] == b[j]);
        }
    }
    if exists|c: int|
        0 <= c < button_sets().len() && (#[trigger] quiet_buttons(b, si, t, threshold, c)).len() >= n
            && forall|j: int|
            si <= j < e && (#[trigger] old[j]).note_type.playable() && keys.contains(old[j].lane)
                ==> quiet_buttons(b, si, t, threshold, c).contains(b[j].lane) {
        let c = choose|c: int|
            0 <= c < button_sets().len() && (#[trigger] quiet_buttons(b, si, t, threshold, c)).len() >= n
                && forall|j: int|
                si <= j < e && (#[trigger] old[j]).note_type.playable() && keys.contains(old[j].lane)
                    ==> quiet_buttons(b, si, t, threshold, c).contains(b[j].lane);
        assert(quiet_buttons(b, si, t, threshold, c) == quiet_buttons(a, si, t, threshold, c));
        assert forall|j: int|
            si <= j < e && (#[trigger] old[j]).note_type.playable() && keys.contains(old[j].lane)
                implies quiet_buttons(a, si, t, threshold, c).contains(a[j].lane) by {
            assert(a[j] == b[j]);
        }
    }
    assert(a[i] == b[i]);
}

/// In a timeslice of S-Random Playable that starts with no key lane held, has three to
/// six playable notes and whose mapping sends the lanes with notes into the drawn lane
/// set whenever there are enough, every note of the timeslice goes to a preferred lane.
#[verifier::spinoff_prover]
#[verifier::rlimit(60)]
proof fn lemma_slice_prefers(
    orig: Seq<Note>,
    cur: Seq<Note>,
    nxt: Seq<Note>,
    keys: Seq<usize>,
    groups: Seq<(i64, core::ops::Range<usize>)>,
    g: int,
    total: int,
    la: Seq<Option<usize>>,
    lnt: Seq<Option<i64>>,
    mb: Seq<Option<usize>>,
    mf: Seq<Option<usize>>,
    changeable: Seq<usize>,
    assignable: Seq<usize>,
    threshold: i64,
)
    requires
        slices_of(orig, groups),
        0 <= g < groups.len(),
        shuffled_upto(orig, cur, keys, groups[g].1.start as int),
        nxt.len() == cur.len(),
        forall|k: int|
            0 <= k < cur.len() && !(groups[g].1.start <= k < groups[g].1.end) ==> #[trigger] nxt[k]
                == cur[k],
        forall|k: int|
            groups[g].1.start <= k < groups[g].1.end ==> #[trigger] nxt[k] == with_lane(
                cur[k],
                moved(mf, cur[k].lane),
            ),
        0 <= total <= usize::MAX,
        la.len() == total,
        lnt.len() == total,
        mb.len() == total,
        mf.len() == total,
        increasing(keys),
        forall|k: int| 0 <= k < keys.len() ==> #[trigger] keys[k] < total,
        forall|b: int| 0 <= b < button_sets().len() ==> within(#[trigger] button_sets()[b], keys),
        forall|l: int|
            0 <= l < total ==> (#[trigger] la[l]) is Some == (keys.contains(l as usize) && flips(
                orig.take(groups[g].1.start as int),
                l as usize,
            )),
        forall|l: int|
            0 <= l < total ==> #[trigger] mf[l] == if la[l] is Some {
                la[l]
            } else {
                mb[l]
            },
        forall|d: usize|
            #[trigger] keys.contains(d) ==> last_time(lnt, d) == last_on(cur, groups[g].1.start as int, d),
        forall|d: usize| #[trigger] keys.contains(d) ==> lnt[d as int] is Some,
        changeable == keys.filter(unheld(la)),
        assignable == keys.filter(free_dest(la)),
        ({
            let n = count_playable(cur, groups[g].1.start as int, groups[g].1.end as int, keys)
                + some_count(la, la.len() as int);
            let sets = preferred(la, lnt, groups[g].0, threshold, n as int);
            2 < n < 7 && sets.len() > 0 ==> exists|b: int|
                0 <= b < sets.len() && (changeable.no_duplicates() && assignable.no_duplicates()
                    && changeable.len() == assignable.len() && assignable.filter(
                    in_lanes(#[trigger] sets[b]),
                ).len() >= changeable.filter(noted(cur, groups[g].1.start as int, groups[g].1.end as int)).len()
                    ==> forall|l: int|
                    0 <= l < mb.len() && changeable.contains(l as usize) && has_note_in(
                        cur,
                        groups[g].1.start as int,
                        groups[g].1.end as int,
                        l as usize,
                    ) ==> (#[trigger] mb[l]) is Some && sets[b].contains(mb[l]->0))
        }),
    ensures
        forall|i: int|
            groups[g].1.start <= i < groups[g].1.end ==> #[trigger] prefers_note(orig, nxt, keys, threshold, i),
{
    let s = groups[g].1.start as int;
    let e = groups[g].1.end as int;
    let t = groups[g].0;
    if exists|i: int| s <= i < e && !#[trigger] prefers_note(orig, nxt, keys, threshold, i) {
        let i = choose|i: int| s <= i < e && !#[trigger] prefers_note(orig, nxt, keys, threshold, i);
        lemma_slice_begin(orig, groups, g, i);
        lemma_slice_stop(orig, groups, g, i);
        assert(orig[i].time_us == t);
        let n = count_playable(orig, s, e, keys);
        // no key lane is held
        assert forall|l: int| 0 <= l < total implies (#[trigger] la[l]) is None by {
            if la[l] is Some {
                assert(!flips(orig.take(s), l as usize));
            }
        }
        lemma_held_count(orig, keys, s, la, total);
        lemma_held_count_zero(orig, keys, s, total);
        lemma_count_playable_same(cur, orig, s, e, keys);
        assert forall|d: usize| #[trigger] last_on(nxt, s, d) == last_on(cur, s, d) by {
            lemma_last_on_prefix(nxt, cur, s, d);
        }
        // the lanes that keep a button set are its quiet lanes
        let hh = holds_held(la);
        let wr = without_renda(lnt, t, threshold);
        let al = at_least(n as int);
        let y = button_sets().filter(hh);
        let x = y.map_values(wr);
        let ps = preferred(la, lnt, t, threshold, n as int);
        assert forall|b: int| 0 <= b < button_sets().len() implies wr(#[trigger] button_sets()[b])
            == quiet_buttons(nxt, s, t, threshold, b) by {
            assert forall|k: int| 0 <= k < button_sets()[b].len() implies (|lane: usize|
                !renda(lnt, t, threshold)(lane))(#[trigger] button_sets()[b][k]) == quiet(
                nxt,
                s,
                t,
                threshold,
            )(button_sets()[b][k]) by {
                let lane = button_sets()[b][k];
                assert(keys.contains(lane));
                let q = choose|q: int| 0 <= q < keys.len() && keys[q] == lane;
            }
            lemma_filter_same(button_sets()[b], |lane: usize| !renda(lnt, t, threshold)(lane), quiet(nxt, s, t, threshold));
        }
        // some button set is preferred
        let b0 = choose|b: int|
            0 <= b < button_sets().len() && (#[trigger] quiet_buttons(nxt, s, t, threshold, b)).len() >= n;
        button_sets().lemma_filter_contains(hh, b0);
        let k0 = choose|k: int| 0 <= k < y.len() && y[k] == button_sets()[b0];
        assert(x[k0] == wr(button_sets()[b0]));
        x.lemma_filter_contains(al, k0);
        assert(ps.len() > 0);
        // the drawn set is a preferred button set
        let bb = choose|b: int|
            0 <= b < ps.len() && (changeable.no_duplicates() && assignable.no_duplicates()
                && changeable.len() == assignable.len() && assignable.filter(
                in_lanes(#[trigger] ps[b]),
            ).len() >= changeable.filter(noted(cur, s, e)).len() ==> forall|l: int|
                0 <= l < mb.len() && changeable.contains(l as usize) && has_note_in(cur, s, e, l as usize)
                    ==> (#[trigger] mb[l]) is Some && ps[b].contains(mb[l]->0));
        x.lemma_filter_pred(al, bb);
        assert(x.filter(al).contains(ps[bb]));
        x.lemma_filter_contains_rev(al, ps[bb]);
        let kx = choose|k: int| 0 <= k < x.len() && x[k] == ps[bb];
        assert(button_sets().filter(hh).contains(y[kx]));
        button_sets().lemma_filter_contains_rev(hh, y[kx]);
        let b2 = choose|b: int| 0 <= b < button_sets().len() && button_sets()[b] == y[kx];
        assert(ps[bb] == quiet_buttons(nxt, s, t, threshold, b2));
        // enough lanes of the drawn set are free for the lanes with notes
        lemma_button_sets();
        assert(keys.no_duplicates()) by {
            assert forall|p: int, q: int| 0 <= p < q < keys.len() implies keys[p] != keys[q] by {
                assert(keys[p] < keys[q]);
            }
        }
        lemma_filter_distinct(keys, unheld(la));
        lemma_filter_distinct(keys, free_dest(la));
        assert(maps_into(la, keys, keys) && one_to_one(la));
        lemma_held_balance(keys, la);
        lemma_filter_distinct(button_sets()[b2], quiet(nxt, s, t, threshold));
        assert forall|k: int| 0 <= k < ps[bb].len() implies assignable.contains(#[trigger] ps[bb][k]) by {
            button_sets()[b2].lemma_filter_pred(quiet(nxt, s, t, threshold), k);
            assert(button_sets()[b2].filter(quiet(nxt, s, t, threshold)).contains(ps[bb][k]));
            button_sets()[b2].lemma_filter_contains_rev(quiet(nxt, s, t, threshold), ps[bb][k]);
            assert(keys.contains(ps[bb][k]));
            let q = choose|q: int| 0 <= q < keys.len() && keys[q] == ps[bb][k];
            keys.lemma_filter_contains(free_dest(la), q);
        }
        lemma_filter_covers(assignable, ps[bb]);
        lemma_noted_count(cur, s, e, changeable);
        assert forall|z: usize| #[trigger] changeable.contains(z) == keys.contains(z) by {
            if keys.contains(z) {
                let q = choose|q: int| 0 <= q < keys.len() && keys[q] == z;
                keys.lemma_filter_contains(unheld(la), q);
            }
            if changeable.contains(z) {
                keys.lemma_filter_contains_rev(unheld(la), z);
            }
        }
        lemma_count_playable_lanes(cur, s, e, changeable, keys);
        // the notes land in the drawn set
        assert forall|j: int|
            s <= j < e && (#[trigger] orig[j]).note_type.playable() && keys.contains(orig[j].lane)
                implies quiet_buttons(nxt, s, t, threshold, b2).contains(nxt[j].lane) by {
            let l = orig[j].lane;
            assert(cur[j] == orig[j]);
            assert(has_note_in(cur, s, e, l));
            let q = choose|q: int| 0 <= q < keys.len() && keys[q] == l;
            assert(l < total);
            assert(mb[l as int] is Some && ps[bb].contains(mb[l as int]->0));
            assert(mf[l as int] == mb[l as int]);
            assert(nxt[j].lane == mb[l as int]->0);
        }
        assert(prefers_note(orig, nxt, keys, threshold, i));
    }
}

/// The button sets of `button_sets`, as vectors.
fn playable_button_sets() -> (r: Vec<Vec<usize>>)
    ensures
        r@.len() == button_sets().len(),
        forall|c: int| 0 <= c < r@.len() ==> #[trigger] r@[c]@ == button_sets()[c],
{
    let r = vec![
        vec![0, 1, 2, 3, 4, 5],
        vec![0, 1, 2, 4, 5, 6],
        vec![0, 1, 2, 5, 6, 7],
        vec![0, 1, 2, 6, 7, 8],
        vec![1, 2, 3, 4, 5, 6],
        vec![1, 2, 3, 5, 6, 7],
        vec![1, 2, 3, 6, 7, 8],
        vec![2, 3, 4, 5, 6, 7],
        vec![2, 3, 4, 6, 7, 8],
        vec![3, 4, 5, 6, 7, 8],
    ];
    assert(r@[0]@ =~= button_sets()[0]);
    assert(r@[1]@ =~= button_sets()[1]);
    assert(r@[2]@ =~= button_sets()[2]);
    assert(r@[3]@ =~= button_sets()[3]);
    assert(r@[4]@ =~= button_sets()[4]);
    assert(r@[5]@ =~= button_sets()[5]);
    assert(r@[6]@ =~= button_sets()[6]);
    assert(r@[7]@ =~= button_sets()[7]);
    assert(r@[8]@ =~= button_sets()[8]);
    assert(r@[9]@ =~= button_sets()[9]);
    r
}

/// The lists of lanes that vectors hold.
pub open spec fn views(v: Seq<Vec<usize>>) -> Seq<Seq<usize>> {
    v.map_values(|x: Vec<usize>| x@)
}

/// Whether a set of lanes holds every lane that a long note holds.
pub open spec fn holds_held(ln_active: Seq<Option<usize>>) -> spec_fn(Seq<usize>) -> bool {
    |set: Seq<usize>|
        forall|l: int| 0 <= l < ln_active.len() && ln_active[l] is Some ==> set.contains(ln_active[l]->0)
}

/// Whether a lane was hit less than `threshold` before `time`.
pub open spec fn renda(lnt: Seq<Option<i64>>, time: i64, threshold: i64) -> spec_fn(usize) -> bool {
    |lane: usize| lane < lnt.len() && lnt[lane as int] is Some && time - lnt[lane as int]->0 < threshold
}

/// A set of lanes without the lanes hit less than `threshold` before `time`.
pub open spec fn without_renda(lnt: Seq<Option<i64>>, time: i64, threshold: i64) -> spec_fn(Seq<usize>) -> Seq<usize> {
    |set: Seq<usize>| set.filter(|lane: usize| !renda(lnt, time, threshold)(lane))
}

/// Whether a set holds at least `n` lanes.
pub open spec fn at_least(n: int) -> spec_fn(Seq<usize>) -> bool {
    |set: Seq<usize>| set.len() >= n
}

/// The button sets that hold every held lane, each without the lanes hit less than
/// `threshold` before `time`, kept when `note_count` lanes remain.
pub open spec fn preferred(
    ln_active: Seq<Option<usize>>,
    lnt: Seq<Option<i64>>,
    time: i64,
    threshold: i64,
    note_count: int,
) -> Seq<Seq<usize>> {
    button_sets().filter(holds_held(ln_active)).map_values(without_renda(lnt, time, threshold)).filter(
        at_least(note_count),
    )
}

/// The lane sets of a playable-button choice for one timeslice: the button sets that
/// hold every held lane, each without the lanes hit less than `threshold_us` ago, kept
/// when enough lanes remain for the notes.
fn preferred_sets(
    ln_active: &Vec<Option<usize>>,
    last_note_time: &Vec<Option<i64>>,
    time: i64,
    threshold_us: i64,
    note_count: u128,
) -> (r: Vec<Vec<usize>>)
    ensures
        views(r@) == preferred(ln_active@, last_note_time@, time, threshold_us, note_count as int),
{
    let sets = playable_button_sets();
    let ghost hh = holds_held(ln_active@);
    let mut candidates: Vec<Vec<usize>> = Vec::new();
    let mut c: usize = 0;
    assert(views(sets@) =~= button_sets());
    assert(button_sets().take(0) =~= Seq::<Seq<usize>>::empty());
    while c < sets.len()
        invariant
            c <= sets@.len(),
            views(sets@) == button_sets(),
            views(candidates@) == button_sets().take(c as int).filter(hh),
            hh == holds_held(ln_active@),
        decreases sets@.len() - c,
    {
        let mut holds_all = true;
        let mut l: usize = 0;
        while l < ln_active.len()
            invariant
                c < sets@.len(),
                l <= ln_active@.len(),
                holds_all == forall|k: int|
                    0 <= k < l && ln_active@[k] is Some ==> sets@[c as int]@.contains(ln_active@[k]->0),
            decreases ln_active@.len() - l,
        {
            if let Some(dst) = ln_active[l] {
                if !contains_lane(&sets[c], dst) {
                    holds_all = false;
                }
            }
            l = l + 1;
        }
        let ghost before = candidates@;
        proof {
            assert(sets@[c as int]@ == views(sets@)[c as int]);
            assert(button_sets().take(c + 1) =~= button_sets().take(c as int).push(sets@[c as int]@));
            button_sets().take(c as int).lemma_filter_push(sets@[c as int]@, hh);
        }
        if holds_all {
            candidates.push(sets[c].clone());
            proof {
                assert(candidates@[candidates@.len() - 1]@ =~= sets@[c as int]@);
                assert(views(candidates@) =~= views(before).push(sets@[c as int]@));
            }
        }
        c = c + 1;
    }
    assert(button_sets().take(sets@.len() as int) =~= button_sets());
    let ghost rd = renda(last_note_time@, time, threshold_us);
    let mut renda_lanes: Vec<usize> = Vec::new();
    let mut l: usize = 0;
    while l < last_note_time.len()
        invariant
            l <= last_note_time@.len(),
            rd == renda(last_note_time@, time, threshold_us),
            forall|x: usize| #[trigger] renda_lanes@.contains(x) <==> (x < l && rd(x)),
        decreases last_note_time@.len() - l,
    {
        let ghost before = renda_lanes@;
        if let Some(lt) = last_note_time[l] {
            if (time as i128) - (lt as i128) < threshold_us as i128 {
                renda_lanes.push(l);
                proof {
                    assert forall|x: usize| #[trigger] renda_lanes@.contains(x) <==> (x < l + 1 && rd(x)) by {
                        if renda_lanes@.contains(x) && x != l {
                            let k = choose|k: int| 0 <= k < renda_lanes@.len() && renda_lanes@[k] == x;
                            assert(before[k] == x);
                            assert(before.contains(x));
                        }
                        if x == l {
                            assert(renda_lanes@[before.len() as int] == x);
                        } else if x < l + 1 && rd(x) {
                            assert(before.contains(x));
                            let k = choose|k: int| 0 <= k < before.len() && before[k] == x;
                            assert(renda_lanes@[k] == x);
                        }
                    }
                }
            }
        }
        l = l + 1;
    }
    let ghost cs = views(candidates@);
    let ghost wr = without_renda(last_note_time@, time, threshold_us);
    let ghost al = at_least(note_count as int);
    let ghost keep = |lane: usize| !rd(lane);
    let mut result: Vec<Vec<usize>> = Vec::new();
    let mut c: usize = 0;
    assert(cs.take(0) =~= Seq::<Seq<usize>>::empty());
    assert(cs.take(0).map_values(wr) =~= Seq::<Seq<usize>>::empty());
    while c < candidates.len()
        invariant
            c <= candidates@.len(),
            cs == views(candidates@),
            rd == renda(last_note_time@, time, threshold_us),
            wr == without_renda(last_note_time@, time, threshold_us),
            al == at_least(note_count as int),
            keep == (|lane: usize| !rd(lane)),
            forall|x: usize| #[trigger] renda_lanes@.contains(x) <==> (x < last_note_time@.len() && rd(x)),
            views(result@) == cs.take(c as int).map_values(wr).filter(al),
        decreases candidates@.len() - c,
    {
        let combo = &candidates[c];
        let mut filtered: Vec<usize> = Vec::new();
        let mut i: usize = 0;
        assert(combo@.take(0) =~= Seq::<usize>::empty());
        while i < combo.len()
            invariant
                i <= combo@.len(),
                rd == renda(last_note_time@, time, threshold_us),
                keep == (|lane: usize| !rd(lane)),
                forall|x: usize| #[trigger] renda_lanes@.contains(x) <==> (x < last_note_time@.len() && rd(x)),
                filtered@ == combo@.take(i as int).filter(keep),
            decreases combo@.len() - i,
        {
            proof {
                assert(combo@.take(i + 1) =~= combo@.take(i as int).push(combo@[i as int]));
                combo@.take(i as int).lemma_filter_push(combo@[i as int], keep);
            }
            assert(keep(combo@[i as int]) == !renda_lanes@.contains(combo@[i as int]));
            if !contains_lane(&renda_lanes, combo[i]) {
                filtered.push(combo[i]);
            }
            i = i + 1;
        }
        assert(combo@.take(combo@.len() as int) =~= combo@);
        let ghost before = result@;
        proof {
            assert(cs[c as int] == combo@);
            assert(filtered@ == wr(cs[c as int]));
            assert(cs.take(c + 1) =~= cs.take(c as int).push(cs[c as int]));
            assert(cs.take(c + 1).map_values(wr) =~= cs.take(c as int).map_values(wr).push(wr(cs[c as int])));
            cs.take(c as int).map_values(wr).lemma_filter_push(wr(cs[c as int]), al);
        }
        if filtered.len() as u128 >= note_count {
            result.push(filtered);
            proof {
                assert(views(result@) =~= views(before).push(wr(cs[c as int])));
            }
        }
        c = c + 1;
    }
    assert(cs.take(cs.len() as int) =~= cs);
    result
}

/// S-Random Playable (nine-button mode): for timeslices of three to six notes (held
/// lanes counted), prefers a button set without impossible chords that keeps every held
/// lane and avoids lanes hit less than `threshold_us` ago; otherwise S-Random with that
/// threshold (so that in the other timeslices, see `plain_slice`, notes rest on their
/// lanes as S-Random's do). Notes of one timeslice on different lanes not held by a long
/// note get different lanes, and no such note joins a lane that a long note holds.
pub fn s_random_playable(
    notes: &mut Vec<Note>,
    mode: PlayMode,
    player: usize,
    include_scratch: bool,
    threshold_us: i64,
    rng: &mut SmallRng,
)
    ensures
        note_shuffled(old(notes)@, final(notes)@, keys_of(mode, player as int, include_scratch)),
        apart_in_slices(old(notes)@, final(notes)@, keys_of(mode, player as int, include_scratch)),
        forall|i: int|
            0 <= i < old(notes)@.len() && plain_slice(
                old(notes)@,
                keys_of(mode, player as int, include_scratch),
                mode.lanes() as int,
                i,
            ) ==> #[trigger] rests_on_open_lane(
                old(notes)@,
                final(notes)@,
                keys_of(mode, player as int, include_scratch),
                threshold_us,
                i,
            ) && falls_back_note(
                old(notes)@,
                final(notes)@,
                keys_of(mode, player as int, include_scratch),
                threshold_us,
                i,
            ),
        avoids_held(old(notes)@, final(notes)@, keys_of(mode, player as int, include_scratch)),
        mode is PopN9K && player == 0 ==> forall|i: int|
            0 <= i < old(notes)@.len() ==> #[trigger] prefers_note(
                old(notes)@,
                final(notes)@,
                keys_of(mode, player as int, include_scratch),
                threshold_us,
                i,
            ),
{
    let keys = get_keys(mode, player, include_scratch);
    proof {
        lemma_keys_of(mode, player as int, include_scratch);
        if mode is PopN9K && player == 0 {
            lemma_nine_keys(include_scratch, 9);
            lemma_button_sets();
            assert forall|b: int| 0 <= b < button_sets().len() implies within(#[trigger] button_sets()[b], keys@) by {
                assert forall|k: int| 0 <= k < button_sets()[b].len() implies keys@.contains(#[trigger] button_sets()[b][k]) by {
                    assert(button_sets()[b][k] < 9);
                }
            }
        }
    }
    if keys.len() == 0 {
        proof {
            lemma_upto_done(notes@, notes@, keys@);
        }
        return;
    }
    time_based_shuffle(notes, &keys, mode.lane_count(), threshold_us, true, rng);
}

} // verus!
