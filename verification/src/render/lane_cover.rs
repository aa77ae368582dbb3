use vstd::prelude::*;

verus! {

/// Lane cover settings for SUDDEN+, HIDDEN+ and LIFT, in thousandths of the lane.
#[derive(Debug, Clone, Copy, Default, PartialEq, Eq, Structural)]
pub struct LaneCover {
    /// SUDDEN+ cover amount (covers the top of the lane).
    pub sudden: u16,
    /// HIDDEN+ cover amount (covers the bottom above the judge line).
    pub hidden: u16,
    /// LIFT amount (raises the judge line from the bottom).
    pub lift: u16,
}

/// `v` kept within `lo..=hi`.
pub open spec fn clamp(v: int, lo: int, hi: int) -> int {
    if v < lo {
        lo
    } else if v > hi {
        hi
    } else {
        v
    }
}

fn clamp_i16(v: i16, lo: i16, hi: i16) -> (r: i16)
    requires
        lo <= hi,
    ensures
        r == clamp(v as int, lo as int, hi as int),
{
    if v < lo {
        lo
    } else if v > hi {
        hi
    } else {
        v
    }
}

impl LaneCover {
    /// Create a lane cover with the given values.
    pub fn new(sudden: u16, hidden: u16, lift: u16) -> (r: Self)
        ensures
            r == (LaneCover { sudden, hidden, lift }),
    {
        LaneCover { sudden, hidden, lift }
    }

    /// Adjust SUDDEN+ by `delta`, kept within 0..=900.
    pub fn adjust_sudden(&mut self, delta: i16)
        requires
            i16::MIN <= (old(self).sudden as i16) + delta <= i16::MAX,
        ensures
            final(self).sudden == clamp((old(self).sudden as i16) + delta, 0, 900),
            final(self).hidden == old(self).hidden,
            final(self).lift == old(self).lift,
    {
        let v = clamp_i16(self.sudden as i16 + delta, 0, 900);
        self.sudden = v as u16;
    }

    /// Adjust LIFT by `delta`, kept within 0..=500.
    pub fn adjust_lift(&mut self, delta: i16)
        requires
            i16::MIN <= (old(self).lift as i16) + delta <= i16::MAX,
        ensures
            final(self).lift == clamp((old(self).lift as i16) + delta, 0, 500),
            final(self).sudden == old(self).sudden,
            final(self).hidden == old(self).hidden,
    {
        let v = clamp_i16(self.lift as i16 + delta, 0, 500);
        self.lift = v as u16;
    }

    /// Adjust HIDDEN+ by `delta`, kept within 0..=500.
    pub fn adjust_hidden(&mut self, delta: i16)
        requires
            i16::MIN <= (old(self).hidden as i16) + delta <= i16::MAX,
        ensures
            final(self).hidden == clamp((old(self).hidden as i16) + delta, 0, 500),
            final(self).sudden == old(self).sudden,
            final(self).lift == old(self).lift,
    {
        let v = clamp_i16(self.hidden as i16 + delta, 0, 500);
        self.hidden = v as u16;
    }

    /// Toggle SUDDEN+: off when on, 300 when off.
    pub fn toggle_sudden(&mut self)
        ensures
            final(self).sudden == if old(self).sudden > 0 {
                0u16
            } else {
                300u16
            },
            final(self).hidden == old(self).hidden,
            final(self).lift == old(self).lift,
    {
        if self.sudden > 0 {
            self.sudden = 0;
        } else {
            self.sudden = 300;
        }
    }

    /// The white number: the SUDDEN+ amount.
    pub fn white_number(&self) -> (r: u16)
        ensures
            r == self.sudden,
    {
        self.sudden
    }
}

} // verus!
