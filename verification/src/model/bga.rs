use vstd::prelude::*;

verus! {

/// BGA change event: at a time, an image id becomes the image of a layer.
#[derive(Debug, Clone, Copy, PartialEq, Eq, Structural)]
pub struct BgaEvent {
    /// Time in microseconds from song start.
    pub time_us: i64,
    pub bga_id: u16,
    pub layer: BgaLayer,
}

/// BGA layer type.
#[derive(Debug, Clone, Copy, PartialEq, Eq, Structural)]
pub enum BgaLayer {
    /// Main BGA layer.
    Base,
    /// Layer that appears on top of the base.
    Layer,
    /// Second overlay layer (on top of Layer).
    Layer2,
    /// Layer that appears on poor judgment.
    Poor,
}

} // verus!
