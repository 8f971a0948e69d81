use vstd::prelude::*;

use crate::components::Entity;

verus! {

/// Feedback for the camera: a shake of the given intensity.
#[derive(Clone, Copy, Debug, PartialEq, Eq, Structural)]
pub struct ShakeEvent {
    pub intensity: u32,
}

/// Two entities whose rectangles overlapped this tick, in one of the two roles:
/// `ab.0` acts on `ab.1`.
#[derive(Clone, Copy, Debug, PartialEq, Eq)]
pub struct IntersectEvent {
    pub ab: (Entity, Entity),
}

/// The single-tick event channel. Readers go through the events without
/// taking them out; the scheduler clears the channel between ticks.
pub struct EventChannel {
    pub intersect: Vec<IntersectEvent>,
    pub shake: Vec<ShakeEvent>,
}

impl EventChannel {
    /// An empty channel.
    pub fn new() -> (c: EventChannel)
        ensures
            c.intersect@.len() == 0,
            c.shake@.len() == 0,
    {
        EventChannel { intersect: Vec::new(), shake: Vec::new() }
    }

    /// Whether no intersection event is waiting.
    pub fn intersect_empty(&self) -> (b: bool)
        ensures
            b == (self.intersect@.len() == 0),
    {
        self.intersect.len() == 0
    }

    /// Drops every event.
    pub fn clear(&mut self)
        ensures
            final(self).intersect@.len() == 0,
            final(self).shake@.len() == 0,
    {
        self.intersect.clear();
        self.shake.clear();
    }
}

} // verus!
