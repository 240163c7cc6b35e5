//! A node of the emulated group.
//!
//! The emulation calls `run` on every running node once per timestep. A node
//! may send and receive over the network and record events in the log. The
//! node defined here does the least that the accounting of a run relies on:
//! it records its own join, once, the first time it runs.

use crate::emulnet::EmulNet;
use crate::log::{LogEvent, Logger};
use vstd::prelude::*;

verus! {

#[derive(Debug, Clone, Copy, PartialEq, Eq, Structural)]
pub struct Node {
    pub id: u8,
    /// Whether the node has recorded its own join.
    pub joined: bool,
}

impl Node {
    pub fn new(id: u8) -> (node: Node)
        ensures
            node == (Node { id, joined: false }),
    {
        Node { id, joined: false }
    }

    /// The node after it has run once.
    pub open spec fn after_run(self) -> Node {
        Node { id: self.id, joined: true }
    }

    /// This function should be used for processing all events and received
    /// messages at a given timestep in the emulation.
    ///
    /// Expectations for side-effects generated as a result of running this function:
    /// * When a node adds to its membership list (including its own node id), it logs an event.
    /// * When a node detects another has failed, it logs an event.
    /// These actions can be performed through the `log::Logger` object.
    ///
    /// This node knows of no member but itself: the first time it runs it logs
    /// its own join. It sends nothing and leaves its incoming messages waiting.
    pub fn run(&mut self, current_time: u32, logger: &mut Logger, net: &mut EmulNet)
        ensures
            *final(self) == old(self).after_run(),
            final(logger)@ == if old(self).joined {
                old(logger)@
            } else {
                old(logger)@.record(current_time, LogEvent::Join { joined_id: old(self).id })
            },
            final(net)@ == old(net)@,
            final(net).params() == old(net).params(),
    {
        if !self.joined {
            logger.log_join_event(current_time, self.id);
            self.joined = true;
        }
    }
}

} // verus!
