//! The event log of a run: joins and failures, each with the timestep at
//! which it was recorded, in the order in which they were recorded.
//!
//! The logger also keeps the text of the events that nobody has taken from it
//! yet, so that whoever drives the run can write the trace out piece by piece.

use crate::trace::{event_line, push_event_line};
use vstd::prelude::*;

verus! {

#[derive(Debug, Clone, Copy, PartialEq, Eq, Structural)]
pub enum LogEvent {
    Join { joined_id: u8 },
    Failure { failed_id: u8, reporting_id: u8 },
}

/// The join events among `events`, in their order.
pub open spec fn joins(events: Seq<(u32, LogEvent)>) -> Seq<(u32, LogEvent)> {
    events.filter(|entry: (u32, LogEvent)| entry.1 is Join)
}

/// The failure events among `events`, in their order.
pub open spec fn failures(events: Seq<(u32, LogEvent)>) -> Seq<(u32, LogEvent)> {
    events.filter(|entry: (u32, LogEvent)| entry.1 is Failure)
}

/// Recording one more event adds it to the events of its own kind and leaves
/// those of the other kind as they were.
pub proof fn lemma_kinds_after_push(events: Seq<(u32, LogEvent)>, entry: (u32, LogEvent))
    ensures
        joins(events.push(entry)) == if entry.1 is Join {
            joins(events).push(entry)
        } else {
            joins(events)
        },
        failures(events.push(entry)) == if entry.1 is Failure {
            failures(events).push(entry)
        } else {
            failures(events)
        },
{
    reveal(Seq::filter);
    assert(events.push(entry).drop_last() =~= events);
}

/// What a logger holds, as mathematical values.
pub struct LogView {
    /// The events recorded so far, oldest first.
    pub events: Seq<(u32, LogEvent)>,
    /// The trace text of the events that have not been taken yet.
    pub unwritten: Seq<u8>,
}

impl LogView {
    /// The log after `event` has been recorded at `timestep`.
    pub open spec fn record(self, timestep: u32, event: LogEvent) -> LogView {
        LogView {
            events: self.events.push((timestep, event)),
            unwritten: self.unwritten + event_line(timestep, event),
        }
    }
}

/// The event log, and the trace text that is still to be written out.
pub struct Logger {
    log_events: Vec<(u32, LogEvent)>,
    unwritten: Vec<u8>,
}

impl View for Logger {
    type V = LogView;

    closed spec fn view(&self) -> LogView {
        LogView { events: self.log_events@, unwritten: self.unwritten@ }
    }
}

impl Logger {
    /// Creates a logger that holds no event and no text.
    pub fn new() -> (logger: Logger)
        ensures
            logger@.events == Seq::<(u32, LogEvent)>::empty(),
            logger@.unwritten == Seq::<u8>::empty(),
    {
        Logger { log_events: Vec::new(), unwritten: Vec::new() }
    }

    /// Logs the time at which a node joins.
    ///
    /// # Arguments
    /// * `timestep` - The timestamp at which the event occurred
    /// * `joined_node_id` - The id of the node that has joined the system
    pub fn log_join_event(&mut self, timestep: u32, joined_node_id: u8)
        ensures
            final(self)@ == old(self)@.record(
                timestep,
                LogEvent::Join { joined_id: joined_node_id },
            ),
    {
        let event = LogEvent::Join { joined_id: joined_node_id };
        self.log_events.push((timestep, event));
        push_event_line(&mut self.unwritten, timestep, event);
    }

    /// Logs the time at which a node is detected as failed.
    ///
    /// # Arguments
    /// * `timestep` - The timestamp at which the event occurred
    /// * `failed_node_id` - The id of the node which appears to have failed
    /// * `reporting_node_id` - The id of the node which has detected the failure
    pub fn log_failure_event(&mut self, timestep: u32, failed_node_id: u8, reporting_node_id: u8)
        ensures
            final(self)@ == old(self)@.record(
                timestep,
                LogEvent::Failure { failed_id: failed_node_id, reporting_id: reporting_node_id },
            ),
    {
        let event = LogEvent::Failure {
            failed_id: failed_node_id,
            reporting_id: reporting_node_id,
        };
        self.log_events.push((timestep, event));
        push_event_line(&mut self.unwritten, timestep, event);
    }

    /// Counts the number of join events which have been logged.
    pub fn count_join_events(&self) -> (count: usize)
        ensures
            count == joins(self@.events).len(),
    {
        let mut count: usize = 0;
        let mut i: usize = 0;
        while i < self.log_events.len()
            invariant
                i <= self.log_events@.len(),
                count <= i,
                count == joins(self.log_events@.take(i as int)).len(),
            decreases self.log_events@.len() - i,
        {
            proof {
                let seen = self.log_events@.take(i as int);
                assert(self.log_events@.take(i + 1) =~= seen.push(self.log_events@[i as int]));
                lemma_kinds_after_push(seen, self.log_events@[i as int]);
            }
            match self.log_events[i].1 {
                LogEvent::Join { joined_id: _ } => {
                    count += 1;
                },
                _ => {},
            }
            i += 1;
        }
        assert(self.log_events@.take(i as int) =~= self.log_events@);
        count
    }

    /// Counts the number of failure events which have been logged.
    pub fn count_failure_events(&self) -> (count: usize)
        ensures
            count == failures(self@.events).len(),
    {
        let mut count: usize = 0;
        let mut i: usize = 0;
        while i < self.log_events.len()
            invariant
                i <= self.log_events@.len(),
                count <= i,
                count == failures(self.log_events@.take(i as int)).len(),
            decreases self.log_events@.len() - i,
        {
            proof {
                let seen = self.log_events@.take(i as int);
                assert(self.log_events@.take(i + 1) =~= seen.push(self.log_events@[i as int]));
                lemma_kinds_after_push(seen, self.log_events@[i as int]);
            }
            match self.log_events[i].1 {
                LogEvent::Failure { failed_id: _, reporting_id: _ } => {
                    count += 1;
                },
                _ => {},
            }
            i += 1;
        }
        assert(self.log_events@.take(i as int) =~= self.log_events@);
        count
    }

    /// The events recorded so far, oldest first.
    pub fn entries(&self) -> (entries: &Vec<(u32, LogEvent)>)
        ensures
            entries@ == self@.events,
    {
        &self.log_events
    }

    /// Hands out the trace text of the events recorded since the last call,
    /// and keeps none of it. The list of events stays as it is.
    pub fn take_unwritten(&mut self) -> (text: Vec<u8>)
        ensures
            text@ == old(self)@.unwritten,
            final(self)@.events == old(self)@.events,
            final(self)@.unwritten == Seq::<u8>::empty(),
    {
        let mut text: Vec<u8> = Vec::new();
        std::mem::swap(&mut self.unwritten, &mut text);
        text
    }
}

} // verus!
