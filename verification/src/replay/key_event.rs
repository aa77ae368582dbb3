use vstd::prelude::*;

verus! {

/// A key press or release at a time.
#[derive(Debug, Clone, Copy, PartialEq, Eq, Structural)]
pub struct KeyEvent {
    /// Key index.
    pub key: usize,
    /// Pressed (true) or released (false).
    pub pressed: bool,
    /// Time of the event in microseconds.
    pub time_us: i64,
}

/// Copy a list of key events.
pub fn copy_events(events: &[KeyEvent]) -> (r: Vec<KeyEvent>)
    ensures
        r@ == events@,
{
    let mut out: Vec<KeyEvent> = Vec::new();
    let mut i: usize = 0;
    while i < events.len()
        invariant
            i <= events@.len(),
            out@ == events@.take(i as int),
        decreases events@.len() - i,
    {
        out.push(events[i]);
        i = i + 1;
        assert(out@ =~= events@.take(i as int));
    }
    assert(events@.take(events@.len() as int) =~= events@);
    out
}

} // verus!
