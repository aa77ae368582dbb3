//! S-Random on the named lanes: each key note of the first side moves to a key lane
//! drawn at random, avoiding the lanes that had a note too shortly before.

use vstd::prelude::*;

use rand::rngs::SmallRng;
use rand::seq::IndexedRandom;

use crate::model::note::Lane;
use crate::pattern::random::lane_at;
use crate::pattern::rng::random_range;

verus! {

/// Which part of a note an entry of the chart is.
#[derive(Debug, Clone, Copy, PartialEq, Eq, Structural)]
pub enum NotePart {
    /// A note on its own.
    Single,
    /// The start of a long note.
    LongStart,
    /// The end of a long note.
    LongEnd,
}

/// A note as S-Random sees it: where, when, and which part of a note.
#[derive(Debug, Clone, Copy, PartialEq, Eq, Structural)]
pub struct LaneNote {
    pub lane: Lane,
    pub part: NotePart,
    /// Time in microseconds from song start.
    pub time_us: i64,
}

/// S-Random modifier: each key note of the first side goes to a random key lane.
pub struct SRandomModifier;

/// The shortest time between two notes on one lane that S-Random plans for (50 ms).
pub const MIN_INTERVAL_US: i64 = 50_000;

/// A note that S-Random places by a draw: a key of the first side, not a long-note end.
pub open spec fn drawn(n: LaneNote) -> bool {
    n.lane.first_side_key() && n.part != NotePart::LongEnd
}

/// The end of a long note on a key of the first side.
pub open spec fn key_end(n: LaneNote) -> bool {
    n.lane.first_side_key() && n.part == NotePart::LongEnd
}

/// The start of a long note on a key of the first side.
pub open spec fn key_start(n: LaneNote) -> bool {
    n.lane.first_side_key() && n.part == NotePart::LongStart
}

/// Whether entry `j` comes before entry `i` in time, entries at one time in list order.
pub open spec fn before(s: Seq<LaneNote>, j: int, i: int) -> bool {
    s[j].time_us < s[i].time_us || (s[j].time_us == s[i].time_us && j < i)
}

/// Whether no note drawn before note `i` went to `lane` less than the shortest interval
/// before it.
pub open spec fn lane_free(old: Seq<LaneNote>, new: Seq<LaneNote>, i: int, lane: Lane) -> bool {
    forall|j: int|
        #![trigger new[j].lane, before(old, j, i)]
        0 <= j < old.len() && drawn(old[j]) && before(old, j, i) && new[j].lane == lane
            ==> old[i].time_us - old[j].time_us >= MIN_INTERVAL_US
}

/// Whether a key lane was free for note `i`.
pub open spec fn some_lane_free(old: Seq<LaneNote>, new: Seq<LaneNote>, i: int) -> bool {
    exists|l: int| 1 <= l <= 7 && #[trigger] lane_free(old, new, i, lane_at(l))
}

/// Whether a long-note start on a key of the first side is at or before entry `e`.
pub open spec fn start_before(old: Seq<LaneNote>, e: int) -> bool {
    exists|s: int| 0 <= s < old.len() && key_start(old[s]) && old[s].time_us <= old[e].time_us
}

/// What S-Random does to a chart, whatever was drawn: nothing but lanes change; notes
/// off the first side's keys stay; drawn notes land on keys, on a free lane whenever
/// one was free; a long-note end follows a long-note start at or before it, and stays
/// when there is none.
pub open spec fn s_randomized(old: Seq<LaneNote>, new: Seq<LaneNote>) -> bool {
    &&& new.len() == old.len()
    &&& forall|i: int|
        0 <= i < old.len() ==> (#[trigger] new[i]).time_us == old[i].time_us && new[i].part
            == old[i].part
    &&& forall|i: int| 0 <= i < old.len() && !old[i].lane.first_side_key() ==> #[trigger] new[i] == old[i]
    &&& forall|i: int| 0 <= i < old.len() && drawn(old[i]) ==> (#[trigger] new[i]).lane.first_side_key()
    &&& forall|i: int|
        0 <= i < old.len() && drawn(old[i]) && #[trigger] some_lane_free(old, new, i) ==> lane_free(
            old,
            new,
            i,
            new[i].lane,
        )
    &&& forall|e: int|
        0 <= e < old.len() && key_end(old[e]) ==> if #[trigger] start_before(old, e) {
            exists|s: int|
                0 <= s < old.len() && key_start(old[s]) && old[s].time_us <= old[e].time_us
                    && new[e].lane == #[trigger] new[s].lane
        } else {
            new[e] == old[e]
        }
}

/// Draws one element of a list with rand's `IndexedRandom::choose`.
/// Claimed: an element of the list comes out, and one does whenever the list is not
/// empty. Not claimed: which one, which depends on the state of the generator.
#[verifier::external_body]
fn choose_from(rng: &mut SmallRng, items: &Vec<usize>) -> (r: Option<usize>)
    ensures
        items@.len() > 0 <==> r is Some,
        r matches Some(x) ==> items@.contains(x),
{
    items.as_slice().choose(rng).copied()
}

/// The key lane at a position 1-7.
fn key_lane(p: usize) -> (r: Lane)
    requires
        1 <= p <= 7,
    ensures
        r == lane_at(p as int),
        r.first_side_key(),
{
    match p {
        1 => Lane::Key1,
        2 => Lane::Key2,
        3 => Lane::Key3,
        4 => Lane::Key4,
        5 => Lane::Key5,
        6 => Lane::Key6,
        _ => Lane::Key7,
    }
}

/// Whether every entry of `order` comes before the ones after it.
pub open spec fn in_time_order(s: Seq<LaneNote>, order: Seq<usize>) -> bool {
    forall|a: int, b: int|
        0 <= a < b < order.len() ==> before(s, #[trigger] order[a] as int, #[trigger] order[b] as int)
}

/// The drawn notes, in time order, entries at one time in list order.
fn drawn_order(notes: &Vec<LaneNote>) -> (order: Vec<usize>)
    ensures
        in_time_order(notes@, order@),
        forall|a: int| 0 <= a < order@.len() ==> #[trigger] order@[a] < notes@.len(),
        forall|k: int|
            0 <= k < notes@.len() ==> (drawn(notes@[k]) <==> #[trigger] order@.contains(k as usize)),
{
    let mut order: Vec<usize> = Vec::new();
    let mut j: usize = 0;
    while j < notes.len()
        invariant
            j <= notes@.len(),
            in_time_order(notes@, order@),
            forall|a: int| 0 <= a < order@.len() ==> #[trigger] order@[a] < j,
            forall|k: int| 0 <= k < j ==> (drawn(notes@[k]) <==> #[trigger] order@.contains(k as usize)),
        decreases notes@.len() - j,
    {
        let n = notes[j];
        if n.lane.is_key() && n.part != NotePart::LongEnd {
            let mut p: usize = 0;
            while p < order.len() && notes[order[p]].time_us <= n.time_us
                invariant
                    p <= order@.len(),
                    forall|a: int| 0 <= a < order@.len() ==> #[trigger] order@[a] < j,
                    j < notes@.len(),
                    n == notes@[j as int],
                    forall|a: int| 0 <= a < p ==> notes@[#[trigger] order@[a] as int].time_us <= notes@[j as int].time_us,
                decreases order@.len() - p,
            {
                p = p + 1;
            }
            let ghost o = order@;
            order.insert(p, j);
            proof {
                let u = order@;
                assert(u == o.insert(p as int, j));
                if p < o.len() {
                    assert(notes@[o[p as int] as int].time_us > notes@[j as int].time_us);
                }
                assert forall|a: int, b: int| 0 <= a < b < u.len() implies before(
                    notes@,
                    #[trigger] u[a] as int,
                    #[trigger] u[b] as int,
                ) by {
                    if b < p {
                        assert(u[a] == o[a] && u[b] == o[b]);
                    } else if b == p {
                        assert(u[a] == o[a] && u[b] == j);
                    } else if a < p {
                        assert(u[a] == o[a] && u[b] == o[b - 1]);
                        assert(before(notes@, o[a] as int, o[b - 1] as int));
                    } else if a == p {
                        assert(u[a] == j && u[b] == o[b - 1]);
                        if b - 1 > p {
                            assert(before(notes@, o[p as int] as int, o[b - 1] as int));
                        }
                    } else {
                        assert(u[a] == o[a - 1] && u[b] == o[b - 1]);
                    }
                }
                assert forall|k: int| 0 <= k < j + 1 implies (drawn(notes@[k])
                    <==> #[trigger] u.contains(k as usize)) by {
                    if k < j {
                        if o.contains(k as usize) {
                            let a = choose|a: int| 0 <= a < o.len() && o[a] == k as usize;
                            assert(u[if a < p { a } else { a + 1 }] == k as usize);
                        }
                        if u.contains(k as usize) {
                            let a = choose|a: int| 0 <= a < u.len() && u[a] == k as usize;
                            assert(a != p);
                            assert(o[if a < p { a } else { a - 1 }] == k as usize);
                        }
                    } else {
                        assert(u[p as int] == j);
                    }
                }
            }
        } else {
            proof {
                assert forall|k: int| 0 <= k < j + 1 implies (drawn(notes@[k])
                    <==> #[trigger] order@.contains(k as usize)) by {
                    if k == j && order@.contains(k as usize) {
                        let a = choose|a: int| 0 <= a < order@.len() && order@[a] == k as usize;
                        assert(order@[a] < j);
                    }
                }
            }
        }
        j = j + 1;
    }
    order
}

/// What `last` holds after the notes in `done` were placed: per key lane, nothing if no
/// note went there, else the time of the latest note that did.
pub open spec fn last_times(old: Seq<LaneNote>, cur: Seq<LaneNote>, done: Seq<usize>, last: Seq<Option<i64>>) -> bool {
    &&& last.len() == 7
    &&& forall|l: int|
        0 <= l < 7 ==> match #[trigger] last[l] {
            None => forall|a: int|
                0 <= a < done.len() ==> cur[#[trigger] done[a] as int].lane != lane_at(l + 1),
            Some(t) => {
                &&& forall|a: int|
                    0 <= a < done.len() && cur[#[trigger] done[a] as int].lane == lane_at(l + 1)
                        ==> old[done[a] as int].time_us <= t
                &&& exists|a: int|
                    0 <= a < done.len() && cur[#[trigger] done[a] as int].lane == lane_at(l + 1)
                        && old[done[a] as int].time_us == t
            },
        }
}

/// The drawn notes before the `m`-th in time order are the first `m` of the order.
proof fn lemma_done_before(old: Seq<LaneNote>, order: Seq<usize>, m: int, j: int)
    requires
        in_time_order(old, order),
        forall|a: int| 0 <= a < order.len() ==> #[trigger] order[a] < old.len(),
        forall|k: int| 0 <= k < old.len() ==> (drawn(old[k]) <==> #[trigger] order.contains(k as usize)),
        0 <= m < order.len(),
        0 <= j < old.len(),
        old.len() <= usize::MAX,
    ensures
        (drawn(old[j]) && before(old, j, order[m] as int)) <==> order.take(m).contains(j as usize),
{
    let i = order[m] as int;
    if drawn(old[j]) && before(old, j, i) {
        assert(order.contains(j as usize));
        let a = choose|a: int| 0 <= a < order.len() && order[a] == j as usize;
        if a > m {
            assert(before(old, order[m] as int, order[a] as int));
        }
        assert(a != m);
        assert(order.take(m)[a] == j as usize);
    }
    if order.take(m).contains(j as usize) {
        let a = choose|a: int| 0 <= a < m && order.take(m)[a] == j as usize;
        assert(order[a] == j as usize);
        assert(order.contains(j as usize));
        assert(before(old, order[a] as int, order[m] as int));
    }
}

/// Changing an entry that comes after entry `i` leaves which lanes were free for `i`.
proof fn lemma_free_after_change(old: Seq<LaneNote>, cur: Seq<LaneNote>, k: int, x: LaneNote, i: int)
    requires
        cur.len() == old.len(),
        0 <= k < old.len(),
        !(drawn(old[k]) && before(old, k, i)),
    ensures
        forall|lane: Lane| #[trigger] lane_free(old, cur.update(k, x), i, lane) == lane_free(old, cur, i, lane),
        some_lane_free(old, cur.update(k, x), i) == some_lane_free(old, cur, i),
{
    let u = cur.update(k, x);
    assert forall|lane: Lane| #[trigger] lane_free(old, u, i, lane) == lane_free(old, cur, i, lane) by {
        if lane_free(old, cur, i, lane) {
            assert forall|j: int|
                0 <= j < old.len() && drawn(old[j]) && before(old, j, i) && u[j].lane == lane
                    implies old[i].time_us - old[j].time_us >= MIN_INTERVAL_US by {
                assert(j != k);
                assert(u[j] == cur[j]);
                assert(before(old, j, i) && cur[j].lane == lane);
            }
        }
        if lane_free(old, u, i, lane) {
            assert forall|j: int|
                0 <= j < old.len() && drawn(old[j]) && before(old, j, i) && cur[j].lane == lane
                    implies old[i].time_us - old[j].time_us >= MIN_INTERVAL_US by {
                assert(j != k);
                assert(u[j] == cur[j]);
                assert(before(old, j, i) && u[j].lane == lane);
            }
        }
    }
    if some_lane_free(old, u, i) {
        let l = choose|l: int| 1 <= l <= 7 && #[trigger] lane_free(old, u, i, lane_at(l));
        assert(lane_free(old, cur, i, lane_at(l)));
    }
    if some_lane_free(old, cur, i) {
        let l = choose|l: int| 1 <= l <= 7 && #[trigger] lane_free(old, cur, i, lane_at(l));
        assert(lane_free(old, u, i, lane_at(l)));
    }
}

/// The key lanes free for a note at a time, given when each lane was last used.
fn free_lanes(last: &Vec<Option<i64>>, time_us: i64) -> (r: Vec<usize>)
    requires
        last@.len() == 7,
    ensures
        forall|l: usize| l < 7 ==> (#[trigger] r@.contains(l) <==> match last@[l as int] {
            None => true,
            Some(t) => time_us - t >= MIN_INTERVAL_US,
        }),
        forall|a: int| 0 <= a < r@.len() ==> #[trigger] r@[a] < 7,
{
    let mut r: Vec<usize> = Vec::new();
    let mut l: usize = 0;
    while l < 7
        invariant
            l <= 7,
            last@.len() == 7,
            forall|k: usize| k < l ==> (#[trigger] r@.contains(k) <==> match last@[k as int] {
                None => true,
                Some(t) => time_us - t >= MIN_INTERVAL_US,
            }),
            forall|a: int| 0 <= a < r@.len() ==> #[trigger] r@[a] < l,
        decreases 7 - l,
    {
        let free = match last[l] {
            None => true,
            Some(t) => (time_us as i128) - (t as i128) >= MIN_INTERVAL_US as i128,
        };
        let ghost before_push = r@;
        if free {
            r.push(l);
        }
        assert forall|k: usize| k < l + 1 implies (#[trigger] r@.contains(k)
            <==> match last@[k as int] {
            None => true,
            Some(t) => time_us - t >= MIN_INTERVAL_US,
        }) by {
            if k < l {
                if r@.contains(k) {
                    let a = choose|a: int| 0 <= a < r@.len() && r@[a] == k;
                    if free && a == before_push.len() {
                        assert(r@[a] == l);
                    } else {
                        assert(before_push[a] == k);
                    }
                }
                if before_push.contains(k) {
                    let a = choose|a: int| 0 <= a < before_push.len() && before_push[a] == k;
                    assert(r@[a] == k);
                }
            } else {
                if free {
                    assert(r@[before_push.len() as int] == l);
                } else if r@.contains(k) {
                    let a = choose|a: int| 0 <= a < r@.len() && r@[a] == k;
                    assert(before_push[a] < l);
                }
            }
        }
        l = l + 1;
    }
    r
}

impl SRandomModifier {
    /// S-Random: in time order, each note on a key of the first side (long-note ends
    /// aside) goes to a key lane drawn from those free of notes in the last 50 ms, or
    /// from all seven when none is free; then each long-note end on a key goes to the
    /// lane of a long-note start at or before it. Scratch lanes and the second side stay.
    pub fn modify(&self, notes: &mut Vec<LaneNote>, rng: &mut SmallRng)
        ensures
            s_randomized(old(notes)@, final(notes)@),
    {
        let ghost old_notes = notes@;
        let total: usize = notes.len();
        let order = drawn_order(notes);
        let mut last: Vec<Option<i64>> = vec![None, None, None, None, None, None, None];
        let mut starts: Vec<usize> = Vec::new();
        let mut m: usize = 0;
        while m < order.len()
            invariant
                m <= order@.len(),
                old_notes == old(notes)@,
                old_notes.len() <= usize::MAX,
                in_time_order(old_notes, order@),
                forall|a: int| 0 <= a < order@.len() ==> #[trigger] order@[a] < old_notes.len(),
                forall|k: int|
                    0 <= k < old_notes.len() ==> (drawn(old_notes[k]) <==> #[trigger] order@.contains(
                        k as usize,
                    )),
                notes@.len() == old_notes.len(),
                forall|k: int|
                    0 <= k < old_notes.len() ==> (#[trigger] notes@[k]).time_us == old_notes[k].time_us
                        && notes@[k].part == old_notes[k].part,
                forall|k: int|
                    0 <= k < old_notes.len() && !order@.take(m as int).contains(k as usize)
                        ==> #[trigger] notes@[k] == old_notes[k],
                forall|a: int|
                    0 <= a < m ==> (#[trigger] notes@[order@[a] as int]).lane.first_side_key(),
                last_times(old_notes, notes@, order@.take(m as int), last@),
                forall|q: int|
                    0 <= q < starts@.len() ==> key_start(old_notes[#[trigger] starts@[q] as int])
                        && order@.take(m as int).contains(starts@[q]),
                forall|a: int|
                    0 <= a < m && key_start(old_notes[#[trigger] order@[a] as int]) ==> starts@.contains(
                        order@[a],
                    ),
                forall|a: int|
                    0 <= a < m && #[trigger] some_lane_free(old_notes, notes@, order@[a] as int)
                        ==> lane_free(old_notes, notes@, order@[a] as int, notes@[order@[a] as int].lane),
            decreases order@.len() - m,
        {
            let i = order[m];
            let time = notes[i].time_us;
            let ghost done = order@.take(m as int);
            let ghost cur = notes@;
            let available = free_lanes(&last, time);
            proof {
                assert forall|l: usize| l < 7 implies (#[trigger] available@.contains(l)
                    <==> lane_free(old_notes, cur, i as int, lane_at(l + 1))) by {
                    assert forall|j: int| 0 <= j < old_notes.len() implies (drawn(old_notes[j]) && before(
                        old_notes,
                        j,
                        i as int,
                    )) <==> done.contains(j as usize) by {
                        lemma_done_before(old_notes, order@, m as int, j);
                    }
                    match last@[l as int] {
                        None => {},
                        Some(t) => {
                            if !lane_free(old_notes, cur, i as int, lane_at(l + 1)) {
                                let j = choose|j: int|
                                    0 <= j < old_notes.len() && drawn(old_notes[j]) && before(
                                        old_notes,
                                        j,
                                        i as int,
                                    ) && cur[j].lane == lane_at(l + 1) && !(old_notes[i as int].time_us
                                        - old_notes[j].time_us >= MIN_INTERVAL_US);
                                let a = choose|a: int| 0 <= a < done.len() && done[a] == j as usize;
                                assert(cur[done[a] as int].lane == lane_at(l + 1));
                            } else {
                                let a = choose|a: int|
                                    0 <= a < done.len() && cur[#[trigger] done[a] as int].lane
                                        == lane_at(l + 1) && old_notes[done[a] as int].time_us == t;
                                assert(done.contains(done[a]));
                                assert(before(old_notes, done[a] as int, i as int) && cur[done[a] as int].lane == lane_at(l + 1));
                            }
                        },
                    }
                }
            }
            let c: usize = if available.len() == 0 {
                random_range(rng, 0, 7)
            } else {
                match choose_from(rng, &available) {
                    Some(x) => x,
                    None => 0,
                }
            };
            let lane = key_lane(c + 1);
            let n = notes[i];
            notes.set(i, LaneNote { lane, part: n.part, time_us: n.time_us });
            last.set(c, Some(time));
            let ghost old_starts = starts@;
            if n.part == NotePart::LongStart {
                starts.push(i);
            }
            proof {
                let u = notes@;
                assert(u == cur.update(i as int, u[i as int]));
                assert forall|k: int| 0 <= k < old_notes.len() implies (#[trigger] u[k]).time_us == old_notes[k].time_us
                    && u[k].part == old_notes[k].part by {
                    assert(cur[k].time_us == old_notes[k].time_us && cur[k].part == old_notes[k].part);
                    if k != i {
                        assert(u[k] == cur[k]);
                    }
                }
                let done2 = order@.take(m + 1);
                assert(done2 == done.push(i));
                // the note placed now was on a free lane whenever one was free
                lemma_free_after_change(old_notes, cur, i as int, u[i as int], i as int);
                if some_lane_free(old_notes, u, i as int) {
                    let l = choose|l: int| 1 <= l <= 7 && #[trigger] lane_free(old_notes, u, i as int, lane_at(l));
                    assert(available@.contains((l - 1) as usize) <==> lane_free(old_notes, cur, i as int, lane_at(l)));
                    assert(available@.contains((l - 1) as usize));
                    assert(available@.len() > 0);
                    assert(available@.contains(c));
                    assert(available@.contains(c) <==> lane_free(old_notes, cur, i as int, lane_at(c + 1)));
                }
                // the notes placed earlier keep their free lanes
                assert forall|a: int|
                    0 <= a < m + 1 && #[trigger] some_lane_free(old_notes, u, order@[a] as int)
                        implies lane_free(old_notes, u, order@[a] as int, u[order@[a] as int].lane) by {
                    if a < m {
                        assert(before(old_notes, order@[a] as int, order@[m as int] as int));
                        lemma_free_after_change(old_notes, cur, i as int, u[i as int], order@[a] as int);
                        assert(order@[a] != i);
                    }
                }
                assert forall|k: int|
                    0 <= k < old_notes.len() && !done2.contains(k as usize)
                        implies #[trigger] u[k] == old_notes[k] by {
                    if k == i {
                        assert(done2[m as int] == i);
                    } else if done.contains(k as usize) {
                        let a = choose|a: int| 0 <= a < done.len() && done[a] == k as usize;
                        assert(done2[a] == k as usize);
                    }
                }
                assert forall|a: int| 0 <= a < m + 1 implies (#[trigger] u[order@[a] as int]).lane.first_side_key() by {
                    if a < m {
                        assert(before(old_notes, order@[a] as int, order@[m as int] as int));
                    }
                }
                assert forall|l: int| 0 <= l < 7 implies match #[trigger] last@[l] {
                    None => forall|b: int|
                        0 <= b < done2.len() ==> u[#[trigger] done2[b] as int].lane != lane_at(l + 1),
                    Some(t) => {
                        &&& forall|b: int|
                            0 <= b < done2.len() && u[#[trigger] done2[b] as int].lane == lane_at(l + 1)
                                ==> old_notes[done2[b] as int].time_us <= t
                        &&& exists|b: int|
                            0 <= b < done2.len() && u[#[trigger] done2[b] as int].lane == lane_at(l + 1)
                                && old_notes[done2[b] as int].time_us == t
                    },
                } by {
                    assert forall|b: int| 0 <= b < m implies u[#[trigger] done2[b] as int] == cur[done[b] as int] by {
                        assert(done2[b] == done[b]);
                        assert(before(old_notes, order@[b] as int, order@[m as int] as int));
                    }
                    assert(done2[m as int] == i);
                    if l == c {
                        assert forall|b: int|
                            0 <= b < done2.len() && u[#[trigger] done2[b] as int].lane == lane_at(l + 1)
                                implies old_notes[done2[b] as int].time_us <= time by {
                            if b < m {
                                assert(before(old_notes, order@[b] as int, order@[m as int] as int));
                            }
                        }
                    } else {
                        assert(lane_at(l + 1) != lane_at(c + 1));
                        match last@[l] {
                            None => {},
                            Some(t) => {
                                let a = choose|a: int|
                                    0 <= a < done.len() && cur[#[trigger] done[a] as int].lane
                                        == lane_at(l + 1) && old_notes[done[a] as int].time_us == t;
                                assert(u[done2[a] as int].lane == lane_at(l + 1));
                            },
                        }
                    }
                }
                assert forall|q: int| 0 <= q < starts@.len() implies key_start(old_notes[#[trigger] starts@[q] as int])
                    && done2.contains(starts@[q]) by {
                    if q < old_starts.len() {
                        assert(starts@[q] == old_starts[q]);
                        let a = choose|a: int| 0 <= a < done.len() && done[a] == starts@[q];
                        assert(done2[a] == starts@[q]);
                    } else {
                        assert(done2[m as int] == i);
                        if done.contains(i) {
                            let a = choose|a: int| 0 <= a < done.len() && done[a] == i;
                            assert(before(old_notes, order@[a] as int, order@[m as int] as int));
                        }
                        assert(n == old_notes[i as int]);
                        assert(order@.contains(i));
                    }
                }
                assert forall|a: int| 0 <= a < m + 1 && key_start(old_notes[#[trigger] order@[a] as int])
                    implies starts@.contains(order@[a]) by {
                    if a < m {
                        let q = choose|q: int| 0 <= q < old_starts.len() && old_starts[q] == order@[a];
                        assert(starts@[q] == order@[a]);
                    } else {
                        assert(starts@[starts@.len() - 1] == i);
                    }
                }
            }
            m = m + 1;
        }
        proof {
            assert(order@.take(order@.len() as int) == order@);
            assert forall|k: int| 0 <= k < old_notes.len() && key_start(old_notes[k]) implies #[trigger] starts@.contains(k as usize) by {
                assert(order@.contains(k as usize));
                let a = choose|a: int| 0 <= a < order@.len() && order@[a] == k as usize;
                assert(key_start(old_notes[order@[a] as int]));
            }
            assert forall|q: int| 0 <= q < starts@.len() implies #[trigger] starts@[q] < old_notes.len() by {
                let a = choose|a: int| 0 <= a < order@.len() && order@[a] == starts@[q];
            }
        }
        let ghost mid = notes@;
        let mut e: usize = 0;
        while e < notes.len()
            invariant
                e <= notes@.len(),
                old_notes == old(notes)@,
                notes@.len() == old_notes.len(),
                mid.len() == old_notes.len(),
                forall|k: int| 0 <= k < old_notes.len() && (e <= k || !key_end(old_notes[k])) ==> #[trigger] notes@[k] == mid[k],
                forall|k: int| 0 <= k < old_notes.len() && !drawn(old_notes[k]) ==> #[trigger] mid[k] == old_notes[k],
                forall|k: int| 0 <= k < old_notes.len() ==> (#[trigger] notes@[k]).time_us == old_notes[k].time_us
                    && notes@[k].part == old_notes[k].part,
                forall|q: int|
                    0 <= q < starts@.len() ==> key_start(old_notes[#[trigger] starts@[q] as int])
                        && starts@[q] < old_notes.len(),
                forall|k: int| 0 <= k < old_notes.len() && key_start(old_notes[k]) ==> #[trigger] starts@.contains(k as usize),
                forall|f: int|
                    0 <= f < e && key_end(old_notes[f]) ==> if #[trigger] start_before(old_notes, f) {
                        exists|s: int|
                            0 <= s < old_notes.len() && key_start(old_notes[s]) && old_notes[s].time_us
                                <= old_notes[f].time_us && notes@[f].lane == #[trigger] notes@[s].lane
                    } else {
                        notes@[f] == old_notes[f]
                    },
            decreases notes@.len() - e,
        {
            let n = notes[e];
            if n.part == NotePart::LongEnd && n.lane.is_key() {
                let mut q: usize = 0;
                let mut found: Option<usize> = None;
                while q < starts.len()
                    invariant
                        q <= starts@.len(),
                        e < old_notes.len(),
                        notes@.len() == old_notes.len(),
                        n == notes@[e as int],
                        forall|k: int| 0 <= k < old_notes.len() ==> (#[trigger] notes@[k]).time_us == old_notes[k].time_us,
                        forall|r: int| 0 <= r < starts@.len() ==> #[trigger] starts@[r] < old_notes.len(),
                        match found {
                            None => forall|r: int| 0 <= r < q ==> old_notes[#[trigger] starts@[r] as int].time_us > n.time_us,
                            Some(s) => starts@.contains(s) && old_notes[s as int].time_us <= n.time_us,
                        },
                    decreases starts@.len() - q,
                {
                    if found.is_none() && notes[starts[q]].time_us <= n.time_us {
                        found = Some(starts[q]);
                    }
                    q = q + 1;
                }
                let ghost before_set = notes@;
                match found {
                    Some(s) => {
                        let sl = notes[s].lane;
                        notes.set(e, LaneNote { lane: sl, part: n.part, time_us: n.time_us });
                    },
                    None => {},
                }
                proof {
                    assert forall|k: int| 0 <= k < old_notes.len() implies (#[trigger] notes@[k]).time_us == old_notes[k].time_us
                        && notes@[k].part == old_notes[k].part by {
                        assert(before_set[k].time_us == old_notes[k].time_us && before_set[k].part == old_notes[k].part);
                        if k != e {
                            assert(notes@[k] == before_set[k]);
                        }
                    }
                    assert(n == mid[e as int]);
                    assert(!drawn(old_notes[e as int]));
                    assert(n == old_notes[e as int]);
                    match found {
                        Some(s) => {
                            let r = choose|r: int| 0 <= r < starts@.len() && starts@[r] == s;
                            assert(key_start(old_notes[starts@[r] as int]));
                            assert(notes@[e as int].lane == notes@[s as int].lane);
                            assert(start_before(old_notes, e as int));
                        },
                        None => {
                            if start_before(old_notes, e as int) {
                                let s = choose|s: int| 0 <= s < old_notes.len() && key_start(old_notes[s]) && old_notes[s].time_us <= old_notes[e as int].time_us;
                                assert(starts@.contains(s as usize));
                                let r = choose|r: int| 0 <= r < starts@.len() && starts@[r] == s as usize;
                                assert(old_notes[starts@[r] as int].time_us > n.time_us);
                            }
                        },
                    }
                    assert forall|f: int|
                        0 <= f < e + 1 && key_end(old_notes[f]) implies if #[trigger] start_before(old_notes, f) {
                            exists|s: int|
                                0 <= s < old_notes.len() && key_start(old_notes[s]) && old_notes[s].time_us
                                    <= old_notes[f].time_us && notes@[f].lane == #[trigger] notes@[s].lane
                        } else {
                            notes@[f] == old_notes[f]
                        } by {
                        if f < e {
                            if start_before(old_notes, f) {
                                let s = choose|s: int|
                                    0 <= s < old_notes.len() && key_start(old_notes[s]) && old_notes[s].time_us
                                        <= old_notes[f].time_us && before_set[f].lane == #[trigger] before_set[s].lane;
                                assert(notes@[s] == before_set[s]);
                                assert(notes@[f] == before_set[f]);
                            } else {
                                assert(notes@[f] == before_set[f]);
                            }
                        }
                    }
                }
            }
            e = e + 1;
        }
        proof {
            let new = notes@;
            assert forall|i: int| 0 <= i < old_notes.len() && drawn(old_notes[i]) implies (#[trigger] new[i]).lane.first_side_key() by {
                assert(order@.contains(i as usize));
                let a = choose|a: int| 0 <= a < order@.len() && order@[a] == i as usize;
                assert(mid[order@[a] as int].lane.first_side_key());
            }
            assert forall|i: int|
                0 <= i < old_notes.len() && drawn(old_notes[i]) && #[trigger] some_lane_free(old_notes, new, i)
                    implies lane_free(old_notes, new, i, new[i].lane) by {
                assert(order@.contains(i as usize));
                let a = choose|a: int| 0 <= a < order@.len() && order@[a] == i as usize;
                assert forall|lane: Lane| #[trigger] lane_free(old_notes, new, i, lane) == lane_free(old_notes, mid, i, lane) by {
                    if lane_free(old_notes, mid, i, lane) {
                        assert forall|j: int|
                            0 <= j < old_notes.len() && drawn(old_notes[j]) && before(old_notes, j, i) && new[j].lane == lane
                                implies old_notes[i].time_us - old_notes[j].time_us >= MIN_INTERVAL_US by {
                            assert(new[j] == mid[j]);
                            assert(before(old_notes, j, i) && mid[j].lane == lane);
                        }
                    }
                    if lane_free(old_notes, new, i, lane) {
                        assert forall|j: int|
                            0 <= j < old_notes.len() && drawn(old_notes[j]) && before(old_notes, j, i) && mid[j].lane == lane
                                implies old_notes[i].time_us - old_notes[j].time_us >= MIN_INTERVAL_US by {
                            assert(new[j] == mid[j]);
                            assert(before(old_notes, j, i) && new[j].lane == lane);
                        }
                    }
                }
                let l = choose|l: int| 1 <= l <= 7 && #[trigger] lane_free(old_notes, new, i, lane_at(l));
                assert(lane_free(old_notes, mid, i, lane_at(l)));
                assert(some_lane_free(old_notes, mid, order@[a] as int));
                assert(new[i] == mid[i]);
            }
        }
    }
}

} // verus!
