//! The points in time of a chart, kept sorted by time.

use vstd::prelude::*;

use super::bms_model::{BgaEvent, BgmEvent};
use super::note::Note;

verus! {

/// The bit pattern of the `f64` 1.0, the scroll speed of a new timeline.
pub const SCROLL_ONE_BITS: u64 = 0x3FF0_0000_0000_0000;

/// A single point in time within the chart, containing notes and events at that time.
#[derive(Debug, Clone)]
pub struct Timeline {
    /// Time in microseconds from song start.
    pub time_us: i64,
    /// Notes at this time, indexed by lane.
    pub notes: Vec<Option<Note>>,
    /// BGM events at this time.
    pub bgm_events: Vec<BgmEvent>,
    /// BGA events at this time.
    pub bga_events: Vec<BgaEvent>,
    /// BPM at this time, as the bit pattern of an `f64`.
    pub bpm_bits: u64,
    /// Scroll speed multiplier at this time, as the bit pattern of an `f64`.
    pub scroll_bits: u64,
}

impl Timeline {
    /// A timeline at a time with an empty slot per lane, no events, BPM 0 and scroll 1.
    pub open spec fn is_fresh(self, time_us: i64, lane_count: nat) -> bool {
        &&& self.time_us == time_us
        &&& self.notes@ == Seq::new(lane_count, |_i: int| None::<Note>)
        &&& self.bgm_events@.len() == 0
        &&& self.bga_events@.len() == 0
        &&& self.bpm_bits == 0
        &&& self.scroll_bits == SCROLL_ONE_BITS
    }

    /// An empty timeline at a time.
    pub fn new(time_us: i64, lane_count: usize) -> (r: Self)
        ensures
            r.is_fresh(time_us, lane_count as nat),
    {
        let mut notes: Vec<Option<Note>> = Vec::new();
        let mut i: usize = 0;
        while i < lane_count
            invariant
                i <= lane_count,
                notes@ == Seq::new(i as nat, |_i: int| None::<Note>),
            decreases lane_count - i,
        {
            notes.push(None);
            i = i + 1;
            assert(notes@ =~= Seq::new(i as nat, |_i: int| None::<Note>));
        }
        Timeline {
            time_us,
            notes,
            bgm_events: Vec::new(),
            bga_events: Vec::new(),
            bpm_bits: 0,
            scroll_bits: SCROLL_ONE_BITS,
        }
    }
}

/// Whether no timeline comes after a later one.
pub open spec fn times_sorted(s: Seq<Timeline>) -> bool {
    forall|i: int, j: int| 0 <= i < j < s.len() ==> s[i].time_us <= s[j].time_us
}

/// Putting a timeline between the ones not later and the ones not earlier than it keeps
/// the timelines sorted by time.
pub proof fn lemma_insert_keeps_sorted(s: Seq<Timeline>, p: int, t: Timeline)
    requires
        times_sorted(s),
        0 <= p <= s.len(),
        forall|k: int| 0 <= k < p ==> s[k].time_us <= t.time_us,
        forall|k: int| p <= k < s.len() ==> s[k].time_us >= t.time_us,
    ensures
        times_sorted(s.insert(p, t)),
{
    let u = s.insert(p, t);
    assert forall|i: int, j: int| 0 <= i < j < u.len() implies u[i].time_us <= u[j].time_us by {
        if j < p {
            assert(u[i] == s[i] && u[j] == s[j]);
        } else if j == p {
            assert(u[i] == s[i] && u[j] == t);
        } else if i < p {
            assert(u[i] == s[i] && u[j] == s[j - 1]);
        } else if i == p {
            assert(u[i] == t && u[j] == s[j - 1]);
        } else {
            assert(u[i] == s[i - 1] && u[j] == s[j - 1]);
        }
    }
}

/// The notes present in a row of lane slots, in lane order.
pub open spec fn present(slots: Seq<Option<Note>>) -> Seq<Note>
    decreases slots.len(),
{
    if slots.len() == 0 {
        Seq::empty()
    } else {
        let rest = present(slots.drop_last());
        match slots.last() {
            Some(n) => rest.push(n),
            None => rest,
        }
    }
}

/// The notes of all timelines, timeline after timeline, each in lane order.
pub open spec fn flat_notes(s: Seq<Timeline>) -> Seq<Note>
    decreases s.len(),
{
    if s.len() == 0 {
        Seq::empty()
    } else {
        flat_notes(s.drop_last()) + present(s.last().notes@)
    }
}

/// The place of a note in a list: after every note that is not later than it.
pub open spec fn time_insert_pos(s: Seq<Note>, x: Note) -> int
    decreases s.len(),
{
    if s.len() == 0 {
        0
    } else if x.time_us < s[0].time_us {
        0
    } else {
        1 + time_insert_pos(s.drop_first(), x)
    }
}

/// The notes sorted by time, notes at the same time keeping their order.
pub open spec fn sorted_by_time(s: Seq<Note>) -> Seq<Note>
    decreases s.len(),
{
    if s.len() == 0 {
        s
    } else {
        let t = sorted_by_time(s.drop_last());
        t.insert(time_insert_pos(t, s.last()), s.last())
    }
}

/// Sorting by time gives notes in time order, as many as there were.
pub proof fn lemma_sorted_by_time(s: Seq<Note>)
    ensures
        sorted_by_time(s).len() == s.len(),
        forall|i: int, j: int|
            0 <= i < j < s.len() ==> sorted_by_time(s)[i].time_us <= sorted_by_time(s)[j].time_us,
        sorted_by_time(s).to_multiset() == s.to_multiset(),
    decreases s.len(),
{
    if s.len() > 0 {
        let t = sorted_by_time(s.drop_last());
        lemma_sorted_by_time(s.drop_last());
        let x = s.last();
        lemma_time_insert_pos(t, x);
        let p = time_insert_pos(t, x);
        let u = t.insert(p, x);
        assert forall|i: int, j: int| 0 <= i < j < u.len() implies u[i].time_us <= u[j].time_us by {
            if j < p {
                assert(u[i] == t[i] && u[j] == t[j]);
            } else if j == p {
                assert(u[i] == t[i] && u[j] == x);
            } else if i < p {
                assert(u[i] == t[i] && u[j] == t[j - 1]);
            } else if i == p {
                assert(u[i] == x && u[j] == t[j - 1]);
                assert(x.time_us < t[p].time_us);
                assert(t[p].time_us <= t[j - 1].time_us);
            } else {
                assert(u[i] == t[i - 1] && u[j] == t[j - 1]);
            }
        }
        vstd::seq_lib::to_multiset_insert(t, p, x);
        vstd::seq_lib::to_multiset_build(s.drop_last(), x);
        assert(s.drop_last().push(x) =~= s);
    }
}

proof fn lemma_time_insert_pos(s: Seq<Note>, x: Note)
    ensures
        0 <= time_insert_pos(s, x) <= s.len(),
        forall|k: int| 0 <= k < time_insert_pos(s, x) ==> #[trigger] s[k].time_us <= x.time_us,
        time_insert_pos(s, x) < s.len() ==> x.time_us < s[time_insert_pos(s, x)].time_us,
    decreases s.len(),
{
    if s.len() > 0 && !(x.time_us < s[0].time_us) {
        lemma_time_insert_pos(s.drop_first(), x);
        assert forall|k: int| 0 <= k < time_insert_pos(s, x) implies #[trigger] s[k].time_us
            <= x.time_us by {
            if k > 0 {
                assert(s[k] == s.drop_first()[k - 1]);
            }
        }
    }
}

/// The notes in one lane slot of each timeline, in timeline order.
pub open spec fn lane_column(s: Seq<Timeline>, lane: int) -> Seq<Note>
    decreases s.len(),
{
    if s.len() == 0 {
        Seq::empty()
    } else {
        let rest = lane_column(s.drop_last(), lane);
        let slots = s.last().notes@;
        if 0 <= lane < slots.len() && slots[lane] is Some {
            rest.push(slots[lane]->0)
        } else {
            rest
        }
    }
}

/// The notes that references point at.
pub open spec fn values(s: Seq<&Note>) -> Seq<Note> {
    s.map_values(|n: &Note| *n)
}

/// Collection of timelines for the entire chart, sorted by time.
#[derive(Debug, Clone)]
pub struct Timelines {
    timelines: Vec<Timeline>,
    lane_count: usize,
}

impl View for Timelines {
    type V = Seq<Timeline>;

    closed spec fn view(&self) -> Seq<Timeline> {
        self.timelines@
    }
}

/// The first place in a list of timelines whose time is not before a time; when the
/// list is sorted, every earlier timeline is before it and every later one is not.
fn lower_bound(v: &Vec<Timeline>, time_us: i64) -> (r: usize)
    ensures
        r <= v@.len(),
        times_sorted(v@) ==> forall|k: int| 0 <= k < r ==> v@[k].time_us < time_us,
        times_sorted(v@) ==> forall|k: int| r <= k < v@.len() ==> v@[k].time_us >= time_us,
{
    let mut lo: usize = 0;
    let mut hi: usize = v.len();
    while lo < hi
        invariant
            lo <= hi <= v@.len(),
            times_sorted(v@) ==> forall|k: int| 0 <= k < lo ==> v@[k].time_us < time_us,
            times_sorted(v@) ==> forall|k: int| hi <= k < v@.len() ==> v@[k].time_us >= time_us,
        decreases hi - lo,
    {
        let mid = lo + (hi - lo) / 2;
        if v[mid].time_us < time_us {
            lo = mid + 1;
        } else {
            hi = mid;
        }
    }
    lo
}

impl Timelines {
    /// The number of lanes of each timeline made here.
    pub closed spec fn lanes(&self) -> nat {
        self.lane_count as nat
    }

    /// No timelines.
    pub fn new(lane_count: usize) -> (r: Self)
        ensures
            r@ == Seq::<Timeline>::empty(),
            r.lanes() == lane_count,
    {
        Timelines { timelines: Vec::new(), lane_count }
    }

    /// Add a timeline at a place that keeps the timelines sorted by time.
    pub fn add(&mut self, timeline: Timeline)
        ensures
            final(self).lanes() == old(self).lanes(),
            exists|p: int|
                #![trigger old(self)@.insert(p, timeline)]
                {
                    &&& 0 <= p <= old(self)@.len()
                    &&& final(self)@ == old(self)@.insert(p, timeline)
                    &&& times_sorted(old(self)@) ==> times_sorted(final(self)@)
                },
    {
        let pos = lower_bound(&self.timelines, timeline.time_us);
        let ghost s = self.timelines@;
        proof {
            if times_sorted(s) {
                lemma_insert_keeps_sorted(s, pos as int, timeline);
            }
        }
        let ghost t = timeline;
        self.timelines.insert(pos, timeline);
        assert(self.timelines@ == s.insert(pos as int, t));
        assert(s == old(self)@);
        assert(times_sorted(s) ==> times_sorted(self.timelines@));
    }

    /// The timeline at a time: the one there if there is one, else a new empty one
    /// put in its place by time.
    pub fn get_or_create(&mut self, time_us: i64) -> (r: &mut Timeline)
        ensures
            final(self).lanes() == old(self).lanes(),
            exists|p: int|
                #![trigger old(self)@.update(p, *final(r))]
                #![trigger old(self)@.insert(p, *final(r))]
                {
                    &&& 0 <= p <= old(self)@.len()
                    &&& {
                        ||| {
                            &&& p < old(self)@.len()
                            &&& old(self)@[p].time_us == time_us
                            &&& *r == old(self)@[p]
                            &&& final(self)@ == old(self)@.update(p, *final(r))
                        }
                        ||| {
                            &&& r.is_fresh(time_us, old(self).lanes())
                            &&& final(self)@ == old(self)@.insert(p, *final(r))
                            &&& (times_sorted(old(self)@) ==> {
                                &&& forall|k: int| 0 <= k < p ==> old(self)@[k].time_us < time_us
                                &&& forall|k: int|
                                    p <= k < old(self)@.len() ==> old(self)@[k].time_us > time_us
                            })
                        }
                    }
                },
    {
        let pos = lower_bound(&self.timelines, time_us);
        if pos < self.timelines.len() && self.timelines[pos].time_us == time_us {
            let r = &mut self.timelines[pos];
            // the timeline found is the one at `pos`
            assert(old(self)@.update(pos as int, *final(r))[pos as int] == *final(r));
            r
        } else {
            let ghost s = self.timelines@;
            proof {
                if times_sorted(s) && pos < s.len() {
                    assert forall|k: int| pos <= k < s.len() implies s[k].time_us > time_us by {
                        assert(s[pos as int].time_us <= s[k].time_us);
                    }
                }
            }
            let tl = Timeline::new(time_us, self.lane_count);
            self.timelines.insert(pos, tl);
            let r = &mut self.timelines[pos];
            // the new timeline is put at `pos`
            assert(old(self)@.insert(pos as int, *final(r))[pos as int] == *final(r));
            r
        }
    }

    /// The timelines, sorted by time.
    pub fn timelines(&self) -> (r: &[Timeline])
        ensures
            r@ == self@,
    {
        self.timelines.as_slice()
    }

    /// The timelines, to change in place.
    pub fn timelines_mut(&mut self) -> (r: &mut [Timeline])
        ensures
            r@ == old(self)@,
            final(self)@ == final(r)@,
            final(self).lanes() == old(self).lanes(),
    {
        self.timelines.as_mut_slice()
    }

    /// The number of lanes of each timeline made here.
    pub fn lane_count(&self) -> (r: usize)
        ensures
            r == self.lanes(),
    {
        self.lane_count
    }

    /// The number of timelines.
    pub fn len(&self) -> (r: usize)
        ensures
            r == self@.len(),
    {
        self.timelines.len()
    }

    /// Whether there are no timelines.
    pub fn is_empty(&self) -> (r: bool)
        ensures
            r == (self@.len() == 0),
    {
        self.timelines.len() == 0
    }

    /// All notes of all timelines, sorted by time; notes at the same time keep their
    /// order (timeline, then lane).
    pub fn all_notes(&self) -> (r: Vec<&Note>)
        ensures
            values(r@) == sorted_by_time(flat_notes(self@)),
    {
        let flat = self.flat();
        let mut r: Vec<&Note> = Vec::new();
        let mut k: usize = 0;
        let ghost fv = values(flat@);
        assert(fv.take(0) =~= Seq::<Note>::empty());
        while k < flat.len()
            invariant
                k <= flat@.len(),
                fv == values(flat@),
                values(r@) == sorted_by_time(fv.take(k as int)),
            decreases flat@.len() - k,
        {
            let x: &Note = flat[k];
            let ghost rv = values(r@);
            let mut p: usize = 0;
            assert(rv.skip(0) =~= rv);
            while p < r.len() && !(x.time_us < r[p].time_us)
                invariant
                    p <= r@.len(),
                    rv == values(r@),
                    time_insert_pos(rv, *x) == p + time_insert_pos(rv.skip(p as int), *x),
                decreases r@.len() - p,
            {
                assert(rv.skip(p as int).drop_first() =~= rv.skip(p + 1));
                p = p + 1;
            }
            if p < r.len() {
                assert(rv.skip(p as int)[0] == rv[p as int]);
            }
            assert(fv.take(k + 1).drop_last() =~= fv.take(k as int));
            assert(fv.take(k + 1).last() == *x);
            r.insert(p, x);
            assert(values(r@) =~= rv.insert(p as int, *x));
            k = k + 1;
        }
        assert(fv.take(flat@.len() as int) =~= fv);
        r
    }

    /// All notes, timeline after timeline, each timeline's in lane order.
    fn flat(&self) -> (r: Vec<&Note>)
        ensures
            values(r@) == flat_notes(self@),
    {
        let mut r: Vec<&Note> = Vec::new();
        let mut i: usize = 0;
        assert(self@.take(0) =~= Seq::<Timeline>::empty());
        while i < self.timelines.len()
            invariant
                i <= self@.len(),
                values(r@) == flat_notes(self@.take(i as int)),
            decreases self@.len() - i,
        {
            let tl = &self.timelines[i];
            let ghost before = values(r@);
            let mut j: usize = 0;
            assert(tl.notes@.take(0) =~= Seq::<Option<Note>>::empty());
            assert(before =~= before + Seq::<Note>::empty());
            while j < tl.notes.len()
                invariant
                    j <= tl.notes@.len(),
                    values(r@) == before + present(tl.notes@.take(j as int)),
                decreases tl.notes@.len() - j,
            {
                assert(tl.notes@.take(j + 1).drop_last() =~= tl.notes@.take(j as int));
                assert(tl.notes@.take(j + 1).last() == tl.notes@[j as int]);
                match &tl.notes[j] {
                    Some(n) => {
                        let ghost old_r = r@;
                        r.push(n);
                        assert(values(r@) =~= values(old_r).push(*n));
                        assert(before + present(tl.notes@.take(j + 1)) =~= (before + present(
                            tl.notes@.take(j as int),
                        )).push(*n));
                    },
                    None => {},
                }
                j = j + 1;
            }
            assert(tl.notes@.take(tl.notes@.len() as int) =~= tl.notes@);
            assert(self@.take(i + 1).drop_last() =~= self@.take(i as int));
            assert(self@.take(i + 1).last() == self@[i as int]);
            i = i + 1;
        }
        assert(self@.take(self@.len() as int) =~= self@);
        r
    }

    /// The notes in one lane, timeline after timeline.
    pub fn lane_notes(&self, lane: usize) -> (r: Vec<&Note>)
        ensures
            values(r@) == lane_column(self@, lane as int),
    {
        let mut r: Vec<&Note> = Vec::new();
        let mut i: usize = 0;
        assert(self@.take(0) =~= Seq::<Timeline>::empty());
        while i < self.timelines.len()
            invariant
                i <= self@.len(),
                values(r@) == lane_column(self@.take(i as int), lane as int),
            decreases self@.len() - i,
        {
            let tl = &self.timelines[i];
            assert(self@.take(i + 1).drop_last() =~= self@.take(i as int));
            assert(self@.take(i + 1).last() == self@[i as int]);
            if lane < tl.notes.len() {
                match &tl.notes[lane] {
                    Some(n) => {
                        let ghost old_r = r@;
                        r.push(n);
                        assert(values(r@) =~= values(old_r).push(*n));
                    },
                    None => {},
                }
            }
            i = i + 1;
        }
        assert(self@.take(self@.len() as int) =~= self@);
        r
    }
}

} // verus!
