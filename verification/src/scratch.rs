//! Search state that a navigator reuses from plan to plan.
use vstd::prelude::*;

use crate::number::Real;
use crate::queue::Queue;
use crate::search::Label;
use crate::stamped::StampedMap;

verus! {

/// Reusable per-navigator search state; nothing is allocated after warm-up.
pub struct Scratch {
    pub labels: StampedMap<Label>,
    pub closed: StampedMap<bool>,
    pub queue: Queue,
    /// What crossing a coarse cell costs for the threats around it.
    pub tolls: StampedMap<Real>,
    /// Window cells that a threat closes.
    pub hard: StampedMap<bool>,
    /// Window cells that a threat makes expensive.
    pub soft: StampedMap<bool>,
}

impl Scratch {
    pub open spec fn wf(&self) -> bool {
        &&& self.labels.wf()
        &&& self.closed.wf()
        &&& self.queue.wf()
        &&& self.tolls.wf()
        &&& self.hard.wf()
        &&& self.soft.wf()
    }

    pub fn new() -> (r: Scratch)
        ensures
            r.wf(),
    {
        Scratch {
            labels: StampedMap::new(),
            closed: StampedMap::new(),
            queue: Queue::new(),
            tolls: StampedMap::new(),
            hard: StampedMap::new(),
            soft: StampedMap::new(),
        }
    }
}

} // verus!
