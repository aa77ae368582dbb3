use vstd::prelude::*;

use super::key_event::{copy_events, KeyEvent};
use super::replay_data::ReplayData;

verus! {

/// Replay player that delivers recorded key events in order.
pub struct ReplayPlayer {
    events: Vec<KeyEvent>,
    cursor: usize,
    pressed: Vec<bool>,
}

/// Held state of each key after applying events to an initial state (events for keys
/// out of range are ignored).
pub open spec fn held_after(held: Seq<bool>, events: Seq<KeyEvent>) -> Seq<bool>
    decreases events.len(),
{
    if events.len() == 0 {
        held
    } else {
        let h = held_after(held, events.drop_last());
        let e = events.last();
        if e.key < h.len() {
            h.update(e.key as int, e.pressed)
        } else {
            h
        }
    }
}

proof fn lemma_held_len(held: Seq<bool>, events: Seq<KeyEvent>)
    ensures
        held_after(held, events).len() == held.len(),
    decreases events.len(),
{
    if events.len() > 0 {
        lemma_held_len(held, events.drop_last());
    }
}

/// Index of the first event from `k` on that is later than `time_us`, or the end.
pub open spec fn first_later(events: Seq<KeyEvent>, k: int, time_us: int) -> int
    decreases events.len() - k,
{
    if k < 0 || k >= events.len() {
        events.len() as int
    } else if events[k].time_us > time_us {
        k
    } else {
        first_later(events, k + 1, time_us)
    }
}

proof fn lemma_first_later(events: Seq<KeyEvent>, k: int, time_us: int)
    requires
        0 <= k <= events.len(),
    ensures
        k <= first_later(events, k, time_us) <= events.len(),
    decreases events.len() - k,
{
    if k < events.len() && events[k].time_us <= time_us {
        lemma_first_later(events, k + 1, time_us);
    }
}

/// Polling up to a time at or after every event not yet delivered delivers them all:
/// played far enough, a replay gives back every recorded event.
pub proof fn lemma_poll_past_end(events: Seq<KeyEvent>, k: int, time_us: int)
    requires
        0 <= k <= events.len(),
        forall|i: int| k <= i < events.len() ==> #[trigger] events[i].time_us <= time_us,
    ensures
        first_later(events, k, time_us) == events.len(),
    decreases events.len() - k,
{
    if k < events.len() {
        lemma_poll_past_end(events, k + 1, time_us);
    }
}

impl ReplayPlayer {
    /// The events being replayed.
    pub closed spec fn script(&self) -> Seq<KeyEvent> {
        self.events@
    }

    /// How many events have been delivered.
    pub closed spec fn delivered(&self) -> nat {
        self.cursor as nat
    }

    /// Held state of each key.
    pub closed spec fn held(&self) -> Seq<bool> {
        self.pressed@
    }

    /// The player's state is consistent: the delivered events are a prefix of the
    /// script and the held state is what they leave from no key held.
    pub closed spec fn wf(&self) -> bool {
        &&& self.cursor <= self.events@.len()
        &&& self.pressed@ == held_after(
            Seq::new(self.pressed@.len(), |i: int| false),
            self.events@.take(self.cursor as int),
        )
    }

    /// Create a replay player from a list of key events, with `key_count` keys.
    pub fn from_events(events: Vec<KeyEvent>, key_count: usize) -> (r: Self)
        ensures
            r.wf(),
            r.script() == events@,
            r.delivered() == 0,
            r.held() == Seq::new(key_count as nat, |i: int| false),
    {
        let mut pressed: Vec<bool> = Vec::new();
        let mut i: usize = 0;
        while i < key_count
            invariant
                i <= key_count,
                pressed@ == Seq::new(i as nat, |k: int| false),
            decreases key_count - i,
        {
            pressed.push(false);
            i = i + 1;
        }
        assert(events@.take(0) =~= Seq::<KeyEvent>::empty());
        ReplayPlayer { events, cursor: 0, pressed }
    }

    /// Create a replay player from replay data (its expanded key log).
    pub fn new(replay: &ReplayData, key_count: usize) -> (r: Self)
        ensures
            r.wf(),
            r.script() == replay.keylog@,
            r.delivered() == 0,
            r.held() == Seq::new(key_count as nat, |i: int| false),
    {
        Self::from_events(copy_events(replay.keylog.as_slice()), key_count)
    }

    /// Deliver the events up to and including `time_us`, in order, stopping at the first
    /// later event, and update the held keys.
    pub fn poll_up_to(&mut self, time_us: i64) -> (r: Vec<KeyEvent>)
        requires
            old(self).wf(),
        ensures
            final(self).wf(),
            final(self).script() == old(self).script(),
            final(self).delivered() == first_later(old(self).script(), old(self).delivered() as int, time_us as int),
            r@ == old(self).script().subrange(old(self).delivered() as int, final(self).delivered() as int),
            final(self).held() == held_after(old(self).held(), r@),
    {
        let ghost start = self.cursor as int;
        let ghost held0 = self.pressed@;
        let ghost evs = self.events@;
        proof {
            lemma_first_later(self.events@, start, time_us as int);
        }
        let mut out: Vec<KeyEvent> = Vec::new();
        while self.cursor < self.events.len()
            invariant_except_break
                self.events@ == evs,
                0 <= start <= self.cursor <= self.events@.len(),
                first_later(self.events@, start, time_us as int) == first_later(
                    self.events@,
                    self.cursor as int,
                    time_us as int,
                ),
                out@ == self.events@.subrange(start, self.cursor as int),
                self.pressed@ == held_after(held0, out@),
                self.pressed@ == held_after(
                    Seq::new(self.pressed@.len(), |i: int| false),
                    self.events@.take(self.cursor as int),
                ),
                held0.len() == self.pressed@.len(),
            ensures
                self.events@ == evs,
                0 <= start <= self.cursor <= self.events@.len(),
                self.cursor == first_later(self.events@, start, time_us as int),
                out@ == self.events@.subrange(start, self.cursor as int),
                self.pressed@ == held_after(held0, out@),
                self.pressed@ == held_after(
                    Seq::new(self.pressed@.len(), |i: int| false),
                    self.events@.take(self.cursor as int),
                ),
            decreases self.events@.len() - self.cursor,
        {
            let e = self.events[self.cursor];
            if e.time_us > time_us {
                break;
            }
            let ghost old_out = out@;
            let ghost c0 = self.cursor as int;
            assert(e == evs[c0]);
            assert(evs.subrange(start, c0 + 1) =~= evs.subrange(start, c0).push(evs[c0]));
            let ghost old_take = self.events@.take(self.cursor as int);
            proof {
                lemma_held_len(held0, old_out);
            }
            if e.key < self.pressed.len() {
                self.pressed.set(e.key, e.pressed);
            }
            out.push(e);
            self.cursor = self.cursor + 1;
            assert(out@.drop_last() =~= old_out);
            assert(self.events@.take(self.cursor as int).drop_last() =~= old_take);
            assert(out@ =~= self.events@.subrange(start, self.cursor as int));
        }
        out
    }

    /// Whether a key is currently held (false for keys out of range).
    pub fn is_pressed(&self, key: usize) -> (r: bool)
        ensures
            r == (key < self.held().len() && self.held()[key as int]),
    {
        key < self.pressed.len() && self.pressed[key]
    }

    /// Whether all events have been delivered.
    pub fn is_finished(&self) -> (r: bool)
        requires
            self.wf(),
        ensures
            r == (self.delivered() >= self.script().len()),
    {
        self.cursor >= self.events.len()
    }
}

} // verus!
