use vstd::prelude::*;

use crate::model::note::Lane;

verus! {

/// Mirror modifier that flips key lanes horizontally on each side; scratch lanes stay.
pub struct MirrorModifier;

/// The mirrored lane: Key1 and Key7 swap, Key2 and Key6, Key3 and Key5 (and likewise on
/// the second side); Key4, Key11 and the scratches stay.
pub open spec fn mirrored(lane: Lane) -> Lane {
    match lane {
        Lane::Scratch => Lane::Scratch,
        Lane::Key1 => Lane::Key7,
        Lane::Key2 => Lane::Key6,
        Lane::Key3 => Lane::Key5,
        Lane::Key4 => Lane::Key4,
        Lane::Key5 => Lane::Key3,
        Lane::Key6 => Lane::Key2,
        Lane::Key7 => Lane::Key1,
        Lane::Scratch2 => Lane::Scratch2,
        Lane::Key8 => Lane::Key14,
        Lane::Key9 => Lane::Key13,
        Lane::Key10 => Lane::Key12,
        Lane::Key11 => Lane::Key11,
        Lane::Key12 => Lane::Key10,
        Lane::Key13 => Lane::Key9,
        Lane::Key14 => Lane::Key8,
    }
}

impl MirrorModifier {
    /// Apply the mirror to the lanes of every note.
    pub fn modify(&self, lanes: &mut Vec<Lane>)
        ensures
            final(lanes)@.len() == old(lanes)@.len(),
            forall|i: int| 0 <= i < old(lanes)@.len() ==> final(lanes)@[i] == mirrored(old(lanes)@[i]),
    {
        let mut i: usize = 0;
        while i < lanes.len()
            invariant
                i <= lanes@.len(),
                lanes@.len() == old(lanes)@.len(),
                forall|k: int| 0 <= k < i ==> lanes@[k] == mirrored(old(lanes)@[k]),
                forall|k: int| i <= k < lanes@.len() ==> lanes@[k] == old(lanes)@[k],
            decreases lanes@.len() - i,
        {
            let m = Self::mirror_lane(lanes[i]);
            lanes.set(i, m);
            i = i + 1;
        }
    }

    /// The mirrored lane.
    pub fn mirror_lane(lane: Lane) -> (r: Lane)
        ensures
            r == mirrored(lane),
    {
        match lane {
            Lane::Scratch => Lane::Scratch,
            Lane::Key1 => Lane::Key7,
            Lane::Key2 => Lane::Key6,
            Lane::Key3 => Lane::Key5,
            Lane::Key4 => Lane::Key4,
            Lane::Key5 => Lane::Key3,
            Lane::Key6 => Lane::Key2,
            Lane::Key7 => Lane::Key1,
            Lane::Scratch2 => Lane::Scratch2,
            Lane::Key8 => Lane::Key14,
            Lane::Key9 => Lane::Key13,
            Lane::Key10 => Lane::Key12,
            Lane::Key11 => Lane::Key11,
            Lane::Key12 => Lane::Key10,
            Lane::Key13 => Lane::Key9,
            Lane::Key14 => Lane::Key8,
        }
    }
}

/// Mirroring a lane twice gives the lane back.
pub proof fn lemma_mirror_involution(lane: Lane)
    ensures
        mirrored(mirrored(lane)) == lane,
{
}

} // verus!
