use crate::MAX_EVENTS;
use vstd::prelude::*;

verus! {

/// A set of MIDI events to send multiple events at once.
#[derive(Clone, Copy, Debug)]
pub struct EventSlot<E> {
    /// An array of MIDI events.
    pub events: [E; MAX_EVENTS],
    /// The number of MIDI events in the array.
    pub count: i32,
}

impl<E: Copy> EventSlot<E> {
    /// An empty slot whose unused places hold `empty`.
    pub fn new(empty: E) -> (slot: Self)
        ensures
            slot.count == 0,
            forall|i: int| 0 <= i < MAX_EVENTS ==> slot.events@[i] == empty,
    {
        EventSlot { events: [empty; MAX_EVENTS], count: 0 }
    }
}

impl<E> EventSlot<E> {
    /// Returns whether the event slot is full.
    pub fn is_full(&self) -> (full: bool)
        ensures
            full == (self.count >= MAX_EVENTS),
    {
        self.count >= MAX_EVENTS as i32
    }

    /// Adds a MIDI event to the array of events. Returns `true` if the event was added successfully, `false` if the array is already full.
    pub fn add_event(&mut self, event: E) -> (added: bool)
        requires
            old(self).count < MAX_EVENTS ==> old(self).count >= 0,
        ensures
            added == (old(self).count < MAX_EVENTS),
            added ==> final(self).count == old(self).count + 1 && final(self).events@ == old(
                self,
            ).events@.update(old(self).count as int, event),
            !added ==> *final(self) == *old(self),
    {
        if self.count < MAX_EVENTS as i32 {
            self.events[self.count as usize] = event;
            self.count = self.count + 1;
            true
        } else {
            false
        }
    }
}

} // verus!
