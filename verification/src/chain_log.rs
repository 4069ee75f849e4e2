//! The sequencer's append-only record of events.
use crate::types::ChainEvent;
use vstd::prelude::*;

verus! {

/// An in-memory append-only log.
#[derive(Debug, Clone)]
pub struct ChainLog {
    pub events: Vec<ChainEvent>,
}

impl View for ChainLog {
    type V = Seq<ChainEvent>;

    open spec fn view(&self) -> Seq<ChainEvent> {
        self.events@
    }
}

impl Default for ChainLog {
    fn default() -> (log: ChainLog)
        ensures
            log@ == Seq::<ChainEvent>::empty(),
            log.events@.len() == 0,
    {
        ChainLog::new()
    }
}

impl ChainLog {
    pub fn new() -> (log: ChainLog)
        ensures
            log@ == Seq::<ChainEvent>::empty(),
            log.events@.len() == 0,
    {
        ChainLog { events: Vec::new() }
    }

    /// Appends the event.
    pub fn log_event(&mut self, event: ChainEvent)
        ensures
            final(self)@ == old(self)@.push(event),
            final(self).events@ == old(self).events@.push(event),
            old(self)@.is_prefix_of(final(self)@),
    {
        self.events.push(event);
    }
}

} // verus!
