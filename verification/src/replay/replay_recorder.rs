use vstd::prelude::*;

use super::key_event::{copy_events, KeyEvent};
use super::replay_data::ReplayData;

verus! {

/// Records key input events during play.
#[derive(Debug, Clone)]
pub struct ReplayRecorder {
    events: Vec<KeyEvent>,
}

impl ReplayRecorder {
    /// The recorded events.
    pub closed spec fn recorded(&self) -> Seq<KeyEvent> {
        self.events@
    }

    /// A recorder with no events.
    pub fn new() -> (r: Self)
        ensures
            r.recorded() == Seq::<KeyEvent>::empty(),
    {
        ReplayRecorder { events: Vec::new() }
    }

    /// Record a key event.
    pub fn record(&mut self, event: KeyEvent)
        ensures
            final(self).recorded() == old(self).recorded().push(event),
    {
        self.events.push(event);
    }

    /// All recorded events.
    pub fn events(&self) -> (r: &[KeyEvent])
        ensures
            r@ == self.recorded(),
    {
        self.events.as_slice()
    }

    /// Replay data holding the recorded events, with the other settings at their
    /// defaults.
    pub fn build_replay_data(&self, player: String, sha256: String, mode: u32, gauge: usize) -> (r:
        ReplayData)
        ensures
            r.player == player,
            r.sha256 == sha256,
            r.mode == mode,
            r.gauge == gauge,
            r.keylog@ == self.recorded(),
            r.keyinput is None,
            r.randomoption == 0,
            r.randomoptionseed == -1,
            r.randomoption2 == 0,
            r.randomoption2seed == -1,
            r.doubleoption == 0,
            r.date == 0,
    {
        ReplayData {
            player,
            sha256,
            mode,
            keyinput: None,
            gauge,
            randomoption: 0,
            randomoptionseed: -1,
            randomoption2: 0,
            randomoption2seed: -1,
            doubleoption: 0,
            date: 0,
            keylog: copy_events(self.events.as_slice()),
        }
    }

    /// Clear all recorded events.
    pub fn clear(&mut self)
        ensures
            final(self).recorded() == Seq::<KeyEvent>::empty(),
    {
        self.events.clear();
    }
}

impl Default for ReplayRecorder {
    fn default() -> (r: Self)
        ensures
            r.recorded() == Seq::<KeyEvent>::empty(),
    {
        Self::new()
    }
}

} // verus!
