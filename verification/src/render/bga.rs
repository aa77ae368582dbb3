//! Which background images show: the layers that the chart's BGA events have set by
//! the current time, and the poor layer shown for a while after a miss.

use vstd::prelude::*;

use std::collections::HashSet;

use crate::model::bga::{BgaEvent, BgaLayer};

verus! {

broadcast use vstd::std_specs::hash::group_hash_axioms;

/// How long the poor layer shows after a miss (200 ms).
pub const POOR_DURATION_US: i64 = 200_000;

/// The image of each layer: base, layer, second layer and poor.
pub type LayerImages = (Option<u16>, Option<u16>, Option<u16>, Option<u16>);

/// The images after applying events in order: each sets the image of its layer.
pub open spec fn images_after(images: LayerImages, events: Seq<BgaEvent>) -> LayerImages
    decreases events.len(),
{
    if events.len() == 0 {
        images
    } else {
        let (b, l, l2, p) = images_after(images, events.drop_last());
        let e = events.last();
        match e.layer {
            BgaLayer::Base => (Some(e.bga_id), l, l2, p),
            BgaLayer::Layer => (b, Some(e.bga_id), l2, p),
            BgaLayer::Layer2 => (b, l, Some(e.bga_id), p),
            BgaLayer::Poor => (b, l, l2, Some(e.bga_id)),
        }
    }
}

/// Index of the first event from `k` on that is later than `time_us`, or the end.
pub open spec fn first_after(events: Seq<BgaEvent>, k: int, time_us: int) -> int
    decreases events.len() - k,
{
    if k < 0 || k >= events.len() {
        events.len() as int
    } else if events[k].time_us > time_us {
        k
    } else {
        first_after(events, k + 1, time_us)
    }
}

proof fn lemma_first_after(events: Seq<BgaEvent>, k: int, time_us: int)
    requires
        0 <= k <= events.len(),
    ensures
        k <= first_after(events, k, time_us) <= events.len(),
    decreases events.len() - k,
{
    if k < events.len() && events[k].time_us <= time_us {
        lemma_first_after(events, k + 1, time_us);
    }
}

/// The place of an event in a list sorted by time: after every event not later than it.
pub open spec fn event_insert_pos(s: Seq<BgaEvent>, x: BgaEvent) -> int
    decreases s.len(),
{
    if s.len() == 0 {
        0
    } else if x.time_us < s[0].time_us {
        0
    } else {
        1 + event_insert_pos(s.drop_first(), x)
    }
}

/// The events sorted by time, events at the same time keeping their order.
pub open spec fn events_by_time(s: Seq<BgaEvent>) -> Seq<BgaEvent>
    decreases s.len(),
{
    if s.len() == 0 {
        s
    } else {
        let t = events_by_time(s.drop_last());
        t.insert(event_insert_pos(t, s.last()), s.last())
    }
}

/// Processor for BGA images during gameplay.
pub struct BgaProcessor {
    loaded: HashSet<u16>,
    events: Vec<BgaEvent>,
    current_index: usize,
    current_base_id: Option<u16>,
    current_layer_id: Option<u16>,
    current_layer2_id: Option<u16>,
    poor_layer_id: Option<u16>,
    show_poor: bool,
    poor_trigger_time: Option<i64>,
}

impl BgaProcessor {
    /// The ids whose image has been loaded.
    pub closed spec fn loaded_ids(&self) -> Set<u16> {
        self.loaded@
    }

    /// Whether an image is loaded for a layer that holds `id`.
    pub open spec fn drawable(&self, id: Option<u16>) -> bool {
        id matches Some(i) && self.loaded_ids().contains(i)
    }

    /// The events, in the order they are applied.
    pub closed spec fn script(&self) -> Seq<BgaEvent> {
        self.events@
    }

    /// How many events have been applied.
    pub closed spec fn applied(&self) -> nat {
        self.current_index as nat
    }

    /// The image of each layer.
    pub closed spec fn images(&self) -> LayerImages {
        (self.current_base_id, self.current_layer_id, self.current_layer2_id, self.poor_layer_id)
    }

    /// Whether the poor layer shows.
    pub closed spec fn poor_shown(&self) -> bool {
        self.show_poor
    }

    /// When the poor layer was last triggered, while it shows.
    pub closed spec fn poor_since(&self) -> Option<i64> {
        self.poor_trigger_time
    }

    /// No images loaded, no events, no images set, no poor layer shown.
    pub fn new() -> (r: Self)
        ensures
            r.loaded_ids() == Set::<u16>::empty(),
            r.script() == Seq::<BgaEvent>::empty(),
            r.applied() == 0,
            r.images() == (None::<u16>, None::<u16>, None::<u16>, None::<u16>),
            !r.poor_shown(),
            r.poor_since() is None,
    {
        BgaProcessor {
            loaded: HashSet::new(),
            events: Vec::new(),
            current_index: 0,
            current_base_id: None,
            current_layer_id: None,
            current_layer2_id: None,
            poor_layer_id: None,
            show_poor: false,
            poor_trigger_time: None,
        }
    }

    /// Set the events from the chart, sorted by time (events at one time keep their
    /// order); the rest of the state stays.
    pub fn set_events(&mut self, events: Vec<BgaEvent>)
        ensures
            final(self).loaded_ids() == old(self).loaded_ids(),
            final(self).script() == events_by_time(events@),
            final(self).applied() == old(self).applied(),
            final(self).images() == old(self).images(),
            final(self).poor_shown() == old(self).poor_shown(),
            final(self).poor_since() == old(self).poor_since(),
    {
        let mut r: Vec<BgaEvent> = Vec::new();
        let mut k: usize = 0;
        assert(events@.take(0) =~= Seq::<BgaEvent>::empty());
        while k < events.len()
            invariant
                k <= events@.len(),
                r@ == events_by_time(events@.take(k as int)),
            decreases events@.len() - k,
        {
            let x = events[k];
            let mut p: usize = 0;
            assert(r@.skip(0) =~= r@);
            while p < r.len() && !(x.time_us < r[p].time_us)
                invariant
                    p <= r@.len(),
                    event_insert_pos(r@, x) == p + event_insert_pos(r@.skip(p as int), x),
                decreases r@.len() - p,
            {
                assert(r@.skip(p as int).drop_first() =~= r@.skip(p + 1));
                p = p + 1;
            }
            if p < r.len() {
                assert(r@.skip(p as int)[0] == r@[p as int]);
            }
            assert(events@.take(k + 1).drop_last() =~= events@.take(k as int));
            r.insert(p, x);
            k = k + 1;
        }
        assert(events@.take(events@.len() as int) =~= events@);
        self.events = r;
    }

    /// Update for the current time: apply, in order, the events not yet applied up to
    /// and including it (stopping at the first later one); then hide the poor layer
    /// once more than 200 ms have passed since it was triggered.
    pub fn update(&mut self, current_time_us: i64)
        ensures
            final(self).loaded_ids() == old(self).loaded_ids(),
            final(self).script() == old(self).script(),
            old(self).applied() <= old(self).script().len() ==> {
                &&& final(self).applied() == first_after(
                    old(self).script(),
                    old(self).applied() as int,
                    current_time_us as int,
                )
                &&& final(self).images() == images_after(
                    old(self).images(),
                    old(self).script().subrange(old(self).applied() as int, final(self).applied() as int),
                )
            },
            old(self).applied() > old(self).script().len() ==> final(self).applied() == old(self).applied()
                && final(self).images() == old(self).images(),
            match (old(self).poor_shown(), old(self).poor_since()) {
                (true, Some(t)) if current_time_us - t > POOR_DURATION_US =>
                    !final(self).poor_shown() && final(self).poor_since() is None,
                _ => final(self).poor_shown() == old(self).poor_shown() && final(self).poor_since()
                    == old(self).poor_since(),
            },
    {
        // (after a shorter list of events was set, nothing is left to apply)
        if self.current_index <= self.events.len() {
            self.apply_up_to(current_time_us);
        }
        if self.show_poor {
            match self.poor_trigger_time {
                Some(trigger_time) => {
                    if (current_time_us as i128) - (trigger_time as i128) > POOR_DURATION_US as i128 {
                        self.show_poor = false;
                        self.poor_trigger_time = None;
                    }
                },
                None => {},
            }
        }
    }

    /// Apply, in order, the events from the next one up to and including a time.
    fn apply_up_to(&mut self, current_time_us: i64)
        requires
            old(self).current_index <= old(self).events@.len(),
        ensures
            final(self).events@ == old(self).events@,
            final(self).current_index == first_after(
                old(self).events@,
                old(self).current_index as int,
                current_time_us as int,
            ),
            final(self).images() == images_after(
                old(self).images(),
                old(self).events@.subrange(old(self).current_index as int, final(self).current_index as int),
            ),
            final(self).show_poor == old(self).show_poor,
            final(self).poor_trigger_time == old(self).poor_trigger_time,
            final(self).loaded@ == old(self).loaded@,
    {
        let ghost start = self.current_index as int;
        let ghost imgs0 = self.images();
        let ghost evs = self.events@;
        proof {
            lemma_first_after(evs, start, current_time_us as int);
            assert(evs.subrange(start, start) =~= Seq::<BgaEvent>::empty());
        }
        while self.current_index < self.events.len()
            invariant_except_break
                self.events@ == evs,
                0 <= start <= self.current_index,
                self.current_index <= self.events@.len(),
                first_after(evs, start, current_time_us as int) == first_after(
                    evs,
                    self.current_index as int,
                    current_time_us as int,
                ),
                self.images() == images_after(imgs0, evs.subrange(start, self.current_index as int)),
                self.show_poor == old(self).show_poor,
                self.poor_trigger_time == old(self).poor_trigger_time,
                self.loaded@ == old(self).loaded@,
            ensures
                self.events@ == evs,
                self.current_index == first_after(evs, start, current_time_us as int),
                self.images() == images_after(imgs0, evs.subrange(start, self.current_index as int)),
                self.show_poor == old(self).show_poor,
                self.poor_trigger_time == old(self).poor_trigger_time,
                self.loaded@ == old(self).loaded@,
            decreases self.events@.len() - self.current_index,
        {
            let event = self.events[self.current_index];
            if event.time_us > current_time_us {
                break;
            }
            let ghost c0 = self.current_index as int;
            assert(evs.subrange(start, c0 + 1).drop_last() =~= evs.subrange(start, c0));
            match event.layer {
                BgaLayer::Base => self.current_base_id = Some(event.bga_id),
                BgaLayer::Layer => self.current_layer_id = Some(event.bga_id),
                BgaLayer::Layer2 => self.current_layer2_id = Some(event.bga_id),
                BgaLayer::Poor => self.poor_layer_id = Some(event.bga_id),
            }
            self.current_index = self.current_index + 1;
        }
    }

    /// Show the poor layer from now, if the chart has set one.
    pub fn trigger_poor(&mut self, current_time_us: i64)
        ensures
            final(self).loaded_ids() == old(self).loaded_ids(),
            final(self).script() == old(self).script(),
            final(self).applied() == old(self).applied(),
            final(self).images() == old(self).images(),
            old(self).images().3 is Some ==> final(self).poor_shown() && final(self).poor_since()
                == Some(current_time_us),
            old(self).images().3 is None ==> final(self).poor_shown() == old(self).poor_shown()
                && final(self).poor_since() == old(self).poor_since(),
    {
        if self.poor_layer_id.is_some() {
            self.show_poor = true;
            self.poor_trigger_time = Some(current_time_us);
        }
    }

    /// Start over: no event applied, no base or overlay image, poor layer hidden (the
    /// poor image and the events stay).
    pub fn reset(&mut self)
        ensures
            final(self).loaded_ids() == old(self).loaded_ids(),
            final(self).script() == old(self).script(),
            final(self).applied() == 0,
            final(self).images() == (None::<u16>, None::<u16>, None::<u16>, old(self).images().3),
            !final(self).poor_shown(),
            final(self).poor_since() is None,
    {
        self.current_index = 0;
        self.current_base_id = None;
        self.current_layer_id = None;
        self.current_layer2_id = None;
        self.show_poor = false;
        self.poor_trigger_time = None;
    }

    /// Note that the image for `id` has been loaded.
    pub fn mark_loaded(&mut self, id: u16)
        ensures
            final(self).loaded_ids() == old(self).loaded_ids().insert(id),
            final(self).script() == old(self).script(),
            final(self).applied() == old(self).applied(),
            final(self).images() == old(self).images(),
            final(self).poor_shown() == old(self).poor_shown(),
            final(self).poor_since() == old(self).poor_since(),
    {
        self.loaded.insert(id);
    }

    /// Whether any image is loaded.
    pub fn has_images(&self) -> (r: bool)
        ensures
            r == !self.loaded_ids().is_empty(),
    {
        !self.loaded.is_empty()
    }

    /// How many images are loaded.
    pub fn image_count(&self) -> (r: usize)
        ensures
            r == self.loaded_ids().len(),
    {
        self.loaded.len()
    }

    /// Whether a layer now shows an image that is loaded: the base layer, the overlay
    /// layers, or the poor layer while it shows.
    pub fn has_active_image(&self) -> (r: bool)
        ensures
            r == (self.drawable(self.images().0) || self.drawable(self.images().1)
                || self.drawable(self.images().2) || (self.poor_shown() && self.drawable(
                self.images().3,
            ))),
    {
        let mut has = false;
        if let Some(id) = self.current_base_id {
            has = has || self.loaded.contains(&id);
        }
        if let Some(id) = self.current_layer_id {
            has = has || self.loaded.contains(&id);
        }
        if let Some(id) = self.current_layer2_id {
            has = has || self.loaded.contains(&id);
        }
        if self.show_poor {
            if let Some(id) = self.poor_layer_id {
                has = has || self.loaded.contains(&id);
            }
        }
        has
    }

    /// The image of the base layer.
    pub fn base_image(&self) -> (r: Option<u16>)
        ensures
            r == self.images().0,
    {
        self.current_base_id
    }

    /// The image of the overlay layer.
    pub fn layer_image(&self) -> (r: Option<u16>)
        ensures
            r == self.images().1,
    {
        self.current_layer_id
    }

    /// The image of the second overlay layer.
    pub fn layer2_image(&self) -> (r: Option<u16>)
        ensures
            r == self.images().2,
    {
        self.current_layer2_id
    }

    /// The image shown on a miss.
    pub fn poor_image(&self) -> (r: Option<u16>)
        ensures
            r == self.images().3,
    {
        self.poor_layer_id
    }

    /// Whether the poor layer shows.
    pub fn is_poor_shown(&self) -> (r: bool)
        ensures
            r == self.poor_shown(),
    {
        self.show_poor
    }
}

impl Default for BgaProcessor {
    fn default() -> (r: Self)
        ensures
            r.loaded_ids() == Set::<u16>::empty(),
            r.script() == Seq::<BgaEvent>::empty(),
            r.applied() == 0,
            r.images() == (None::<u16>, None::<u16>, None::<u16>, None::<u16>),
            !r.poor_shown(),
            r.poor_since() is None,
    {
        Self::new()
    }
}

} // verus!
